//! What the command line writes: the reports of `validate`, `check` and
//! `list`, and the report of an error, as plain text or as JSON. Each report
//! is the whole text written to its stream, line ends included.
use crate::config::{bool_text, describe_text, FlagView};
use crate::date::days_to_civil;
use crate::flagset::{info_of, FlagInfo, FlagSet};
use crate::fmt::{date_text, decimal, push_decimal};
use crate::json::{json_escape, json_string};
use crate::text::str_chars;
use vstd::prelude::*;

verus! {

/// `validate` on a configuration of `count` flags.
pub open spec fn validate_text(count: nat, json: bool) -> Seq<char> {
    if json {
        "{\"ok\":true,\"flags\":"@ + decimal(count) + "}\n"@
    } else {
        "ok: "@ + decimal(count) + " flag(s)\n"@
    }
}

/// `check` of `flag` for `key`, with its result.
pub open spec fn check_text(flag: Seq<char>, key: Seq<char>, enabled: bool, json: bool) -> Seq<char> {
    if json {
        "{\"flag\":"@ + json_string(flag) + ",\"key\":"@ + json_string(key) + ",\"enabled\":"@
            + bool_text(enabled) + "}\n"@
    } else if enabled {
        "on\n"@
    } else {
        "off\n"@
    }
}

/// An error with `message`: a JSON object on standard output, or an
/// `error: ` line on standard error.
pub open spec fn error_text(message: Seq<char>, json: bool) -> Seq<char> {
    if json {
        "{\"ok\":false,\"error\":"@ + json_string(message) + "}\n"@
    } else {
        "error: "@ + message + "\n"@
    }
}

/// `a` comes strictly before `b` in code-point order, the order of `str`'s
/// `<` (UTF-8 keeps the order of code points).
pub open spec fn code_point_lt(a: Seq<char>, b: Seq<char>) -> bool
    decreases a.len(),
{
    if b.len() == 0 {
        false
    } else if a.len() == 0 {
        true
    } else if a[0] != b[0] {
        a[0] < b[0]
    } else {
        code_point_lt(a.drop_first(), b.drop_first())
    }
}

proof fn lemma_lt_transitive(a: Seq<char>, b: Seq<char>, c: Seq<char>)
    requires
        code_point_lt(a, b),
        code_point_lt(b, c),
    ensures
        code_point_lt(a, c),
    decreases a.len(),
{
    if a.len() > 0 && a[0] == b[0] && b[0] == c[0] {
        lemma_lt_transitive(a.drop_first(), b.drop_first(), c.drop_first());
    }
}

proof fn lemma_lt_total(a: Seq<char>, b: Seq<char>)
    requires
        a != b,
    ensures
        code_point_lt(a, b) || code_point_lt(b, a),
    decreases a.len(),
{
    if a.len() == 0 || b.len() == 0 {
        if a.len() == 0 && b.len() == 0 {
            assert(a =~= b);
        }
    } else if a[0] == b[0] {
        if a.drop_first() =~= b.drop_first() {
            assert forall|i: int| 0 <= i < a.len() implies a[i] == b[i] by {
                if i > 0 {
                    assert(a[i] == a.drop_first()[i - 1]);
                    assert(b[i] == b.drop_first()[i - 1]);
                }
            }
            assert(a =~= b);
        }
        lemma_lt_total(a.drop_first(), b.drop_first());
    }
}

/// Whether `a` comes strictly before `b` in code-point order.
fn chars_lt(a: &Vec<char>, b: &Vec<char>) -> (r: bool)
    ensures
        r == code_point_lt(a@, b@),
{
    let mut i: usize = 0;
    proof {
        assert(a@.skip(0) =~= a@);
        assert(b@.skip(0) =~= b@);
    }
    loop
        invariant
            i <= a.len(),
            i <= b.len(),
            code_point_lt(a@, b@) == code_point_lt(a@.skip(i as int), b@.skip(i as int)),
        decreases a.len() - i,
    {
        if i == b.len() {
            return false;
        }
        if i == a.len() {
            return true;
        }
        let (x, y) = (a[i], b[i]);
        if x != y {
            return x < y;
        }
        proof {
            assert(a@.skip(i as int).drop_first() =~= a@.skip(i + 1));
            assert(b@.skip(i as int).drop_first() =~= b@.skip(i + 1));
        }
        i += 1;
    }
}

fn push_bool(out: &mut String, b: bool)
    ensures
        final(out)@ == old(out)@ + bool_text(b),
{
    if b {
        out.append("true");
    } else {
        out.append("false");
    }
}

/// What `validate` writes for a configuration of `count` flags.
pub fn validate_report(count: usize, json: bool) -> (r: String)
    ensures
        r@ == validate_text(count as nat, json),
{
    let mut r = if json {
        String::from_str("{\"ok\":true,\"flags\":")
    } else {
        String::from_str("ok: ")
    };
    push_decimal(&mut r, count as u64);
    if json {
        r.append("}\n");
    } else {
        r.append(" flag(s)\n");
    }
    r
}

/// What `check` writes once `flag` has evaluated to `enabled` for `key`.
pub fn check_report(flag: &str, key: &str, enabled: bool, json: bool) -> (r: String)
    ensures
        r@ == check_text(flag@, key@, enabled, json),
{
    if json {
        let mut r = String::from_str("{\"flag\":");
        r.append(json_escape(flag).as_str());
        r.append(",\"key\":");
        r.append(json_escape(key).as_str());
        r.append(",\"enabled\":");
        push_bool(&mut r, enabled);
        r.append("}\n");
        r
    } else if enabled {
        String::from_str("on\n")
    } else {
        String::from_str("off\n")
    }
}

/// What the command line writes for an error with `message`.
pub fn error_report(message: &str, json: bool) -> (r: String)
    ensures
        r@ == error_text(message@, json),
{
    if json {
        let mut r = String::from_str("{\"ok\":false,\"error\":");
        r.append(json_escape(message).as_str());
        r.append("}\n");
        r
    } else {
        let mut r = String::from_str("error: ");
        r.append(message);
        r.append("\n");
        r
    }
}

/// `names` lists every flag of `flags` once, in code-point order.
pub open spec fn in_name_order(names: Seq<Seq<char>>, flags: Map<Seq<char>, FlagView>) -> bool {
    &&& forall|i: int, j: int| 0 <= i < j < names.len() ==> code_point_lt(#[trigger] names[i], #[trigger] names[j])
    &&& forall|i: int| 0 <= i < names.len() ==> flags.contains_key(#[trigger] names[i])
    &&& forall|n: Seq<char>| #[trigger] flags.contains_key(n) ==> exists|i: int| 0 <= i < names.len() && names[i] == n
}

pub open spec fn string_views(v: Seq<String>) -> Seq<Seq<char>> {
    v.map_values(|s: String| s@)
}

/// One line of `list`: the name and its description.
pub open spec fn list_line(name: Seq<char>, f: FlagView) -> Seq<char> {
    name + " "@ + describe_text(f) + "\n"@
}

/// The expiry of a `list --json` entry: a date string or `null`.
pub open spec fn expires_json(f: FlagView) -> Seq<char> {
    match f.expires {
        Some(d) => json_string(date_text(days_to_civil(d))),
        None => "null"@,
    }
}

/// One object of `list --json`.
pub open spec fn list_entry(name: Seq<char>, f: FlagView) -> Seq<char> {
    "{\"name\":"@ + json_string(name) + ",\"enabled\":"@ + bool_text(f.enabled) + ",\"rollout\":"@
        + decimal(f.rollout as nat) + ",\"expires\":"@ + expires_json(f) + ",\"overrides\":"@
        + decimal(f.overrides.dom().len()) + "}"@
}

pub open spec fn list_lines(names: Seq<Seq<char>>, flags: Map<Seq<char>, FlagView>) -> Seq<char>
    decreases names.len(),
{
    if names.len() == 0 {
        Seq::empty()
    } else {
        list_lines(names.drop_last(), flags) + list_line(names.last(), flags[names.last()])
    }
}

/// The objects of `list --json`, separated by commas.
pub open spec fn list_entries(names: Seq<Seq<char>>, flags: Map<Seq<char>, FlagView>) -> Seq<char>
    decreases names.len(),
{
    if names.len() == 0 {
        Seq::empty()
    } else if names.len() == 1 {
        list_entry(names[0], flags[names[0]])
    } else {
        list_entries(names.drop_last(), flags) + ","@ + list_entry(names.last(), flags[names.last()])
    }
}

/// `list` over the flags `names`, in that order.
pub open spec fn list_text(names: Seq<Seq<char>>, flags: Map<Seq<char>, FlagView>, json: bool) -> Seq<char> {
    if json {
        "["@ + list_entries(names, flags) + "]\n"@
    } else {
        list_lines(names, flags)
    }
}

fn push_list_entry(out: &mut String, name: &str, info: FlagInfo, Ghost(f): Ghost<FlagView>)
    requires
        info_of(info, f),
    ensures
        final(out)@ == old(out)@ + list_entry(name@, f),
{
    out.append("{\"name\":");
    out.append(json_escape(name).as_str());
    out.append(",\"enabled\":");
    push_bool(out, info.enabled);
    out.append(",\"rollout\":");
    push_decimal(out, info.rollout as u64);
    out.append(",\"expires\":");
    match info.expires {
        Some(date) => {
            out.append(json_escape(date.as_str()).as_str());
        },
        None => {
            out.append("null");
        },
    }
    out.append(",\"overrides\":");
    push_decimal(out, info.overrides as u64);
    out.append("}");
    proof {
        assert(final(out)@ =~= old(out)@ + list_entry(name@, f));
    }
}

pub open spec fn char_views(v: Seq<Vec<char>>) -> Seq<Seq<char>> {
    v.map_values(|c: Vec<char>| c@)
}

#[verifier::opaque]
pub open spec fn strictly_ordered(s: Seq<Seq<char>>) -> bool {
    forall|i: int, j: int| 0 <= i < j < s.len() ==> code_point_lt(#[trigger] s[i], #[trigger] s[j])
}

/// `s` holds exactly the first `t` of `names`.
#[verifier::opaque]
spec fn holds_first(s: Seq<Seq<char>>, names: Seq<Seq<char>>, t: int) -> bool {
    &&& forall|k: int| 0 <= k < s.len() ==> exists|j: int| 0 <= j < t && #[trigger] s[k] == names[j]
    &&& forall|j: int| 0 <= j < t ==> exists|k: int| 0 <= k < s.len() && s[k] == #[trigger] names[j]
}

/// Putting `x` in at the first place whose text does not come before it keeps
/// a strictly ordered sequence strictly ordered, when `x` is not in it.
proof fn lemma_insert_in_order(s: Seq<Seq<char>>, p: int, x: Seq<char>)
    requires
        0 <= p <= s.len(),
        strictly_ordered(s),
        forall|k: int| 0 <= k < p ==> code_point_lt(#[trigger] s[k], x),
        p < s.len() ==> !code_point_lt(s[p], x),
        !s.contains(x),
    ensures
        strictly_ordered(s.insert(p, x)),
{
    reveal(strictly_ordered);
    assert forall|l: int| p <= l < s.len() implies code_point_lt(x, #[trigger] s[l]) by {
        assert(s[p] != x);
        lemma_lt_total(s[p], x);
        if l > p {
            lemma_lt_transitive(x, s[p], s[l]);
        }
    }
    let r = s.insert(p, x);
    assert forall|k: int, l: int| 0 <= k < l < r.len() implies code_point_lt(#[trigger] r[k], #[trigger] r[l]) by {
        if l < p {
            assert(r[k] == s[k] && r[l] == s[l]);
        } else if l == p {
            assert(r[k] == s[k]);
        } else if k < p {
            assert(r[k] == s[k] && r[l] == s[l - 1]);
        } else if k == p {
            assert(r[l] == s[l - 1]);
        } else {
            assert(r[k] == s[k - 1] && r[l] == s[l - 1]);
        }
    }
}

proof fn lemma_insert_next(s: Seq<Seq<char>>, names: Seq<Seq<char>>, t: int, p: int)
    requires
        0 <= p <= s.len(),
        0 <= t < names.len(),
        holds_first(s, names, t),
    ensures
        holds_first(s.insert(p, names[t]), names, t + 1),
{
    reveal(holds_first);
    let r = s.insert(p, names[t]);
    assert forall|k: int| 0 <= k < r.len() implies exists|j: int| 0 <= j < t + 1 && #[trigger] r[k] == names[j] by {
        if k < p {
            let j = choose|j: int| 0 <= j < t && s[k] == names[j];
            assert(r[k] == names[j]);
        } else if k == p {
            assert(r[k] == names[t]);
        } else {
            let j = choose|j: int| 0 <= j < t && s[k - 1] == names[j];
            assert(r[k] == names[j]);
        }
    }
    assert forall|j: int| 0 <= j < t + 1 implies exists|k: int| 0 <= k < r.len() && r[k] == #[trigger] names[j] by {
        if j == t {
            assert(r[p] == names[j]);
        } else {
            let k = choose|k: int| 0 <= k < s.len() && s[k] == names[j];
            if k < p {
                assert(r[k] == names[j]);
            } else {
                assert(r[k + 1] == names[j]);
            }
        }
    }
}

proof fn lemma_next_is_new(s: Seq<Seq<char>>, names: Seq<Seq<char>>, t: int)
    requires
        0 <= t < names.len(),
        holds_first(s, names, t),
        forall|i: int, j: int| 0 <= i < j < names.len() ==> #[trigger] names[i] != #[trigger] names[j],
    ensures
        !s.contains(names[t]),
{
    reveal(holds_first);
    if s.contains(names[t]) {
        let k = choose|k: int| 0 <= k < s.len() && s[k] == names[t];
        let j = choose|j: int| 0 <= j < t && #[trigger] s[k] == names[j];
        assert(names[j] != names[t]);
    }
}

impl FlagSet {
    /// Names of every declared flag, each once, in code-point order: the
    /// order in which `list` shows them.
    pub fn sorted_names(&self) -> (r: Vec<String>)
        ensures
            in_name_order(string_views(r@), self@),
    {
        let names = self.names();
        let ghost nv = string_views(names@);
        let mut out: Vec<String> = Vec::new();
        let mut keys: Vec<Vec<char>> = Vec::new();
        let mut t: usize = 0;
        proof {
            assert(char_views(keys@) =~= Seq::<Seq<char>>::empty());
            assert(string_views(out@) =~= Seq::<Seq<char>>::empty());
            reveal(strictly_ordered);
            reveal(holds_first);
        }
        while t < names.len()
            invariant
                t <= names.len(),
                nv == string_views(names@),
                forall|i: int, j: int| 0 <= i < j < nv.len() ==> #[trigger] nv[i] != #[trigger] nv[j],
                string_views(out@) == char_views(keys@),
                strictly_ordered(char_views(keys@)),
                holds_first(char_views(keys@), nv, t as int),
            decreases names.len() - t,
        {
            let x = names[t].clone();
            let cx = str_chars(x.as_str());
            let ghost kv = char_views(keys@);
            let mut p: usize = 0;
            loop
                invariant
                    p <= keys@.len(),
                    kv == char_views(keys@),
                    forall|k: int| 0 <= k < p ==> code_point_lt(#[trigger] kv[k], cx@),
                ensures
                    p <= keys@.len(),
                    forall|k: int| 0 <= k < p ==> code_point_lt(#[trigger] kv[k], cx@),
                    p < keys@.len() ==> !code_point_lt(kv[p as int], cx@),
                decreases keys.len() - p,
            {
                if p == keys.len() {
                    break;
                }
                if !chars_lt(&keys[p], &cx) {
                    break;
                }
                p += 1;
            }
            let ghost ov = string_views(out@);
            proof {
                assert(nv[t as int] == cx@);
                lemma_next_is_new(kv, nv, t as int);
                lemma_insert_in_order(kv, p as int, cx@);
                lemma_insert_next(kv, nv, t as int, p as int);
            }
            keys.insert(p, cx);
            out.insert(p, x);
            proof {
                assert(char_views(keys@) =~= kv.insert(p as int, nv[t as int]));
                assert(string_views(out@) =~= ov.insert(p as int, nv[t as int]));
            }
            t += 1;
        }
        proof {
            reveal(strictly_ordered);
            reveal(holds_first);
            let v = string_views(out@);
            assert forall|i: int| 0 <= i < v.len() implies self@.contains_key(#[trigger] v[i]) by {
                let j = choose|j: int| 0 <= j < t && v[i] == nv[j];
                assert(self@.contains_key(names@[j]@));
            }
            assert forall|n: Seq<char>| #[trigger] self@.contains_key(n) implies exists|i: int| 0 <= i < v.len() && v[i] == n by {
                let j = choose|j: int| 0 <= j < names@.len() && names@[j]@ == n;
                assert(nv[j] == n);
                let k = choose|k: int| 0 <= k < v.len() && v[k] == nv[j];
            }
        }
        out
    }

    /// What `list` writes: one line per flag, or a JSON array, in the order
    /// of [`FlagSet::sorted_names`].
    pub fn list_report(&self, json: bool) -> (r: String)
        ensures
            exists|names: Seq<Seq<char>>| in_name_order(names, self@) && r@ == list_text(names, self@, json),
    {
        let names = self.sorted_names();
        let ghost nv = string_views(names@);
        let mut r = if json {
            String::from_str("[")
        } else {
            String::new()
        };
        let mut i: usize = 0;
        while i < names.len()
            invariant
                i <= names@.len(),
                nv == string_views(names@),
                in_name_order(nv, self@),
                json ==> r@ == "["@ + list_entries(nv.take(i as int), self@),
                !json ==> r@ == list_lines(nv.take(i as int), self@),
            decreases names.len() - i,
        {
            let name = names[i].as_str();
            let ghost before = r@;
            proof {
                assert(nv[i as int] == name@);
                assert(nv.take(i + 1).drop_last() =~= nv.take(i as int));
                assert(nv.take(i + 1).last() == name@);
            }
            if json {
                if i > 0 {
                    r.append(",");
                }
                match self.info(name) {
                    Some(info) => {
                        push_list_entry(&mut r, name, info, Ghost(self@[name@]));
                    },
                    None => {
                        proof {
                            assert(false);
                        }
                    },
                }
                proof {
                    if i == 0 {
                        assert(nv.take(1)[0] == name@);
                    }
                    assert(r@ =~= "["@ + list_entries(nv.take(i + 1), self@));
                }
            } else {
                match self.describe(name) {
                    Some(d) => {
                        r.append(name);
                        r.append(" ");
                        r.append(d.as_str());
                        r.append("\n");
                    },
                    None => {
                        proof {
                            assert(false);
                        }
                    },
                }
                proof {
                    assert(r@ =~= list_lines(nv.take(i + 1), self@));
                }
            }
            i += 1;
        }
        if json {
            r.append("]\n");
        }
        proof {
            assert(nv.take(names@.len() as int) =~= nv);
            assert(r@ =~= list_text(nv, self@, json));
        }
        r
    }
}

} // verus!
