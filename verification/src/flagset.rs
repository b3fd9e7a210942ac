//! A parsed, ready-to-query set of flags: parsing a configuration text,
//! evaluating a flag for a key, and describing a flag.
use crate::assoc::{
    assoc, distinct_keys, lemma_assoc_dom, lemma_assoc_get, lemma_assoc_len, lemma_assoc_push,
    lemma_assoc_update,
};
use crate::config::{
    apply_attr, apply_attrs, apply_line, bool_value, config_meaning, default_attrs,
    describe_text, eval_spec, expired_spec, lemma_attrs_prefix, lemma_lines_prefix, run_lines,
    Attrs, FlagView,
};
use crate::clock::{max_today, today_days};
use crate::date::{days_to_civil, is_expiry_day, parse_date};
use crate::error::{EvalError, EvalFailure, ParseError, ParseFailure};
use crate::fmt::{civil_date_string, date_text, push_char, push_decimal};
use crate::hash::bucket;
use crate::text::{
    config_lines, parse_bounded, scan_until, span_eq, span_is, span_texts, spans_within,
    split_once, split_spans, str_chars, token_spans,
};
use vstd::prelude::*;

verus! {

#[derive(Debug)]
struct Flag {
    enabled: bool,
    rollout: u8,
    expires: Option<i64>,
    overrides: Vec<(Vec<char>, bool)>,
}

spec fn override_entries(v: Seq<(Vec<char>, bool)>) -> Seq<(Seq<char>, bool)> {
    v.map_values(|o: (Vec<char>, bool)| (o.0@, o.1))
}

spec fn opt_int(x: Option<i64>) -> Option<int> {
    match x {
        Some(e) => Some(e as int),
        None => None,
    }
}

impl Flag {
    spec fn model(self) -> FlagView {
        FlagView {
            enabled: self.enabled,
            rollout: self.rollout,
            expires: opt_int(self.expires),
            overrides: assoc(override_entries(self.overrides@)),
        }
    }

    spec fn wf(self) -> bool {
        &&& self.rollout <= 100
        &&& distinct_keys(override_entries(self.overrides@))
        &&& self.expires matches Some(e) ==> is_expiry_day(e as int)
    }
}

spec fn flag_entries(v: Seq<(Vec<char>, Flag)>) -> Seq<(Seq<char>, FlagView)> {
    v.map_values(|e: (Vec<char>, Flag)| (e.0@, e.1.model()))
}

spec fn entries_wf(v: Seq<(Vec<char>, Flag)>) -> bool {
    &&& distinct_keys(flag_entries(v))
    &&& forall|i: int| 0 <= i < v.len() ==> (#[trigger] v[i]).1.wf()
}

/// A parsed, ready-to-query set of flags.
#[derive(Debug)]
pub struct FlagSet {
    flags: Vec<(Vec<char>, Flag)>,
}

impl View for FlagSet {
    type V = Map<Seq<char>, FlagView>;

    /// The declared flags by name.
    closed spec fn view(&self) -> Map<Seq<char>, FlagView> {
        assoc(flag_entries(self.flags@))
    }
}

impl FlagSet {
    #[verifier::type_invariant]
    spec fn inv(self) -> bool {
        entries_wf(self.flags@)
    }
}

/// Index of the entry whose key is `chars[lo..hi]`, if any.
fn find_flag(flags: &Vec<(Vec<char>, Flag)>, chars: &Vec<char>, lo: usize, hi: usize) -> (r: Option<usize>)
    requires
        lo <= hi <= chars.len(),
        entries_wf(flags@),
    ensures
        match r {
            Some(i) => i < flags.len() && flags@[i as int].0@ == chars@.subrange(lo as int, hi as int)
                && assoc(flag_entries(flags@)).contains_key(chars@.subrange(lo as int, hi as int))
                && assoc(flag_entries(flags@))[chars@.subrange(lo as int, hi as int)]
                == flags@[i as int].1.model(),
            None => !assoc(flag_entries(flags@)).contains_key(chars@.subrange(lo as int, hi as int)),
        },
{
    let ghost name = chars@.subrange(lo as int, hi as int);
    let ghost es = flag_entries(flags@);
    let mut i: usize = 0;
    while i < flags.len()
        invariant
            i <= flags.len(),
            lo <= hi <= chars.len(),
            name == chars@.subrange(lo as int, hi as int),
            es == flag_entries(flags@),
            entries_wf(flags@),
            forall|j: int| 0 <= j < i ==> es[j].0 != name,
        decreases flags.len() - i,
    {
        if span_eq(chars, lo, hi, &flags[i].0) {
            proof {
                lemma_assoc_get(es, i as int);
            }
            return Some(i);
        }
        i += 1;
    }
    proof {
        lemma_assoc_dom(es, name);
    }
    None
}

/// Index of the override whose key is `chars[lo..hi]`, if any.
fn find_override(overrides: &Vec<(Vec<char>, bool)>, chars: &Vec<char>, lo: usize, hi: usize) -> (r: Option<usize>)
    requires
        lo <= hi <= chars.len(),
        distinct_keys(override_entries(overrides@)),
    ensures
        match r {
            Some(j) => j < overrides.len() && overrides@[j as int].0@ == chars@.subrange(lo as int, hi as int)
                && assoc(override_entries(overrides@)).contains_key(chars@.subrange(lo as int, hi as int))
                && assoc(override_entries(overrides@))[chars@.subrange(lo as int, hi as int)]
                == overrides@[j as int].1,
            None => !assoc(override_entries(overrides@)).contains_key(chars@.subrange(lo as int, hi as int)),
        },
{
    let ghost name = chars@.subrange(lo as int, hi as int);
    let ghost es = override_entries(overrides@);
    let mut j: usize = 0;
    while j < overrides.len()
        invariant
            j <= overrides.len(),
            lo <= hi <= chars.len(),
            name == chars@.subrange(lo as int, hi as int),
            es == override_entries(overrides@),
            distinct_keys(es),
            forall|k: int| 0 <= k < j ==> es[k].0 != name,
        decreases overrides.len() - j,
    {
        if span_eq(chars, lo, hi, &overrides[j].0) {
            proof {
                lemma_assoc_get(es, j as int);
            }
            return Some(j);
        }
        j += 1;
    }
    proof {
        lemma_assoc_dom(es, name);
    }
    None
}

/// The characters `chars[lo..hi]`.
fn span_chars(chars: &Vec<char>, lo: usize, hi: usize) -> (v: Vec<char>)
    requires
        lo <= hi <= chars.len(),
    ensures
        v@ == chars@.subrange(lo as int, hi as int),
{
    let mut v: Vec<char> = Vec::new();
    let mut i = lo;
    while i < hi
        invariant
            lo <= i <= hi <= chars.len(),
            v@ == chars@.subrange(lo as int, i as int),
        decreases hi - i,
    {
        v.push(chars[i]);
        proof {
            assert(v@ =~= chars@.subrange(lo as int, i + 1));
        }
        i += 1;
    }
    v
}

/// The string `chars[lo..hi]`.
fn span_string(chars: &Vec<char>, lo: usize, hi: usize) -> (s: String)
    requires
        lo <= hi <= chars.len(),
    ensures
        s@ == chars@.subrange(lo as int, hi as int),
{
    let mut s = String::new();
    let mut i = lo;
    while i < hi
        invariant
            lo <= i <= hi <= chars.len(),
            s@ == chars@.subrange(lo as int, i as int),
        decreases hi - i,
    {
        push_char(&mut s, chars[i]);
        proof {
            assert(s@ =~= chars@.subrange(lo as int, i + 1));
        }
        i += 1;
    }
    s
}

/// `true` or `false` spelled by `chars[lo..hi]`.
fn parse_bool(chars: &Vec<char>, lo: usize, hi: usize) -> (r: Option<bool>)
    requires
        lo <= hi <= chars.len(),
    ensures
        r == bool_value(chars@.subrange(lo as int, hi as int)),
{
    if span_is(chars, lo, hi, "true") {
        Some(true)
    } else if span_is(chars, lo, hi, "false") {
        Some(false)
    } else {
        None
    }
}

/// The attributes `toks[2..]` of a `flag` line, applied to a plain flag.
fn read_attrs(chars: &Vec<char>, toks: &Vec<(usize, usize)>, line: usize) -> (r: Result<
    (bool, u8, Option<i64>),
    ParseError,
>)
    requires
        2 <= toks.len(),
        spans_within(toks@, 0, chars.len() as int),
    ensures
        match r {
            Ok((e, ro, x)) => {
                &&& apply_attrs(default_attrs(), span_texts(chars@, toks@).skip(2), line as nat)
                    == Ok::<Attrs, ParseFailure>(Attrs { enabled: e, rollout: ro, expires: opt_int(x) })
                &&& ro <= 100
                &&& x matches Some(d) ==> is_expiry_day(d as int)
            },
            Err(err) => apply_attrs(default_attrs(), span_texts(chars@, toks@).skip(2), line as nat)
                == Err::<Attrs, ParseFailure>(err@),
        },
{
    let ghost all = span_texts(chars@, toks@).skip(2);
    let mut enabled = true;
    let mut rollout: u8 = 100;
    let mut expires: Option<i64> = None;
    let mut k: usize = 2;
    proof {
        assert(all.take(0) =~= Seq::<Seq<char>>::empty());
    }
    while k < toks.len()
        invariant
            2 <= k <= toks.len(),
            spans_within(toks@, 0, chars.len() as int),
            all == span_texts(chars@, toks@).skip(2),
            apply_attrs(default_attrs(), all.take(k - 2), line as nat) == Ok::<Attrs, ParseFailure>(
                Attrs { enabled, rollout, expires: opt_int(expires) },
            ),
            rollout <= 100,
            expires matches Some(d) ==> is_expiry_day(d as int),
        decreases toks.len() - k,
    {
        let (a, b) = toks[k];
        let ghost cur = Attrs { enabled, rollout, expires: opt_int(expires) };
        let ghost tok = chars@.subrange(a as int, b as int);
        let ghost step = apply_attr(cur, tok, line as nat);
        proof {
            assert(toks@[k as int].0 <= toks@[k as int].1 <= chars.len());
            assert(all.take(k - 1).drop_last() =~= all.take(k - 2));
            assert(all.take(k - 1).last() == tok);
            assert(apply_attrs(default_attrs(), all.take(k - 1), line as nat) == step);
            if step is Err {
                lemma_attrs_prefix(default_attrs(), all, line as nat, k - 1);
            }
        }
        let e = scan_until(chars, a, b, '=');
        if e == b {
            return Err(ParseError::Malformed(line));
        }
        proof {
            assert(tok.take(e - a) =~= chars@.subrange(a as int, e as int));
            assert(tok.skip(e - a + 1) =~= chars@.subrange(e + 1, b as int));
            assert(split_once(tok, '=') == Some(
                (chars@.subrange(a as int, e as int), chars@.subrange(e + 1, b as int)),
            ));
        }
        if span_is(chars, a, e, "enabled") {
            match parse_bool(chars, e + 1, b) {
                Some(v) => {
                    enabled = v;
                },
                None => {
                    return Err(ParseError::InvalidBool(line, span_string(chars, e + 1, b)));
                },
            }
        } else if span_is(chars, a, e, "rollout") {
            match parse_bounded(chars, e + 1, b, 100) {
                Some(n) => {
                    rollout = n as u8;
                },
                None => {
                    return Err(ParseError::InvalidRollout(line, span_string(chars, e + 1, b)));
                },
            }
        } else if span_is(chars, a, e, "expires") {
            match parse_date(chars, e + 1, b) {
                Some(days) => {
                    expires = Some(days);
                },
                None => {
                    return Err(ParseError::InvalidExpiry(line, span_string(chars, e + 1, b)));
                },
            }
        } else {
            return Err(ParseError::UnknownAttribute(line, span_string(chars, a, e)));
        }
        k += 1;
    }
    proof {
        assert(all.take(k - 2) =~= all);
    }
    Ok((enabled, rollout, expires))
}

/// Pins the key `chars[lo..hi]` to `value`, replacing an earlier pin.
fn set_override(overrides: &mut Vec<(Vec<char>, bool)>, chars: &Vec<char>, lo: usize, hi: usize, value: bool)
    requires
        lo <= hi <= chars.len(),
        distinct_keys(override_entries(old(overrides)@)),
    ensures
        distinct_keys(override_entries(final(overrides)@)),
        assoc(override_entries(final(overrides)@)) == assoc(override_entries(old(overrides)@)).insert(
            chars@.subrange(lo as int, hi as int),
            value,
        ),
{
    let ghost es = override_entries(overrides@);
    match find_override(overrides, chars, lo, hi) {
        Some(j) => {
            let key = span_chars(chars, lo, hi);
            overrides.set(j, (key, value));
            proof {
                assert(override_entries(overrides@) =~= es.update(j as int, (es[j as int].0, value)));
                lemma_assoc_update(es, j as int, value);
            }
        },
        None => {
            let key = span_chars(chars, lo, hi);
            overrides.push((key, value));
            proof {
                assert(override_entries(overrides@) =~= es.push((chars@.subrange(lo as int, hi as int), value)));
                lemma_assoc_push(es, chars@.subrange(lo as int, hi as int), value);
            }
        },
    }
}

/// Applies one line, given as token spans, to the flags declared so far.
fn apply_line_exec(
    chars: &Vec<char>,
    toks: &Vec<(usize, usize)>,
    line: usize,
    flags: &mut Vec<(Vec<char>, Flag)>,
) -> (r: Result<(), ParseError>)
    requires
        entries_wf(old(flags)@),
        spans_within(toks@, 0, chars.len() as int),
    ensures
        entries_wf(final(flags)@),
        match r {
            Ok(()) => apply_line(assoc(flag_entries(old(flags)@)), line as nat, span_texts(chars@, toks@))
                == Ok::<Map<Seq<char>, FlagView>, ParseFailure>(assoc(flag_entries(final(flags)@))),
            Err(e) => apply_line(assoc(flag_entries(old(flags)@)), line as nat, span_texts(chars@, toks@))
                == Err::<Map<Seq<char>, FlagView>, ParseFailure>(e@),
        },
{
    let ghost texts = span_texts(chars@, toks@);
    let ghost model = assoc(flag_entries(flags@));
    if toks.len() == 0 {
        return Ok(());
    }
    let (a0, b0) = toks[0];
    proof {
        assert(toks@[0].0 <= toks@[0].1 <= chars.len());
        assert(texts[0] == chars@.subrange(a0 as int, b0 as int));
    }
    if a0 < b0 && chars[a0] == '#' {
        return Ok(());
    }
    proof {
        assert(!(texts[0].len() > 0 && texts[0][0] == '#'));
    }
    if span_is(chars, a0, b0, "flag") {
        if toks.len() < 2 {
            return Err(ParseError::Malformed(line));
        }
        let (a1, b1) = toks[1];
        proof {
            assert(toks@[1].0 <= toks@[1].1 <= chars.len());
            assert(texts[1] == chars@.subrange(a1 as int, b1 as int));
        }
        if let Some(_) = find_flag(flags, chars, a1, b1) {
            return Err(ParseError::DuplicateFlag(line, span_string(chars, a1, b1)));
        }
        proof {
            assert(texts.skip(2) == span_texts(chars@, toks@).skip(2));
        }
        let (enabled, rollout, expires) = match read_attrs(chars, toks, line) {
            Ok(t) => t,
            Err(e) => {
                return Err(e);
            },
        };
        let name = span_chars(chars, a1, b1);
        let ghost old_es = flag_entries(flags@);
        let flag = Flag { enabled, rollout, expires, overrides: Vec::new() };
        proof {
            assert(override_entries(flag.overrides@) =~= Seq::<(Seq<char>, bool)>::empty());
            assert(assoc(override_entries(flag.overrides@)) == Map::<Seq<char>, bool>::empty());
        }
        flags.push((name, flag));
        proof {
            assert(flag_entries(flags@) =~= old_es.push((texts[1], flag.model())));
            lemma_assoc_push(old_es, texts[1], flag.model());
            assert forall|i: int| 0 <= i < flags@.len() implies (#[trigger] flags@[i]).1.wf() by {
                if i < flags@.len() - 1 {
                    assert(flags@[i] == old(flags)@[i]);
                }
            }
        }
        return Ok(());
    }
    if span_is(chars, a0, b0, "override") {
        if toks.len() < 3 {
            return Err(ParseError::Malformed(line));
        }
        let (a1, b1) = toks[1];
        let (a2, b2) = toks[2];
        proof {
            assert(toks@[1].0 <= toks@[1].1 <= chars.len());
            assert(toks@[2].0 <= toks@[2].1 <= chars.len());
            assert(texts[1] == chars@.subrange(a1 as int, b1 as int));
            assert(texts[2] == chars@.subrange(a2 as int, b2 as int));
        }
        let e = scan_until(chars, a2, b2, '=');
        if e == b2 {
            return Err(ParseError::Malformed(line));
        }
        proof {
            let tok = texts[2];
            assert(tok.take(e - a2) =~= chars@.subrange(a2 as int, e as int));
            assert(tok.skip(e - a2 + 1) =~= chars@.subrange(e + 1, b2 as int));
        }
        let value = match parse_bool(chars, e + 1, b2) {
            Some(v) => v,
            None => {
                return Err(ParseError::InvalidBool(line, span_string(chars, e + 1, b2)));
            },
        };
        let i = match find_flag(flags, chars, a1, b1) {
            Some(i) => i,
            None => {
                return Err(ParseError::UnknownFlagInOverride(line, span_string(chars, a1, b1)));
            },
        };
        let ghost old_es = flag_entries(flags@);
        let ghost old_flags = flags@;
        let (name, mut flag) = flags.remove(i);
        proof {
            assert(old_flags[i as int].1.wf());
        }
        let ghost before = flag.model();
        set_override(&mut flag.overrides, chars, a2, e, value);
        flags.insert(i, (name, flag));
        proof {
            assert(flags@ =~= old_flags.update(i as int, (name, flag)));
            assert(flag.model() == FlagView {
                overrides: before.overrides.insert(chars@.subrange(a2 as int, e as int), value),
                ..before
            });
            assert(flag_entries(flags@) =~= old_es.update(i as int, (old_es[i as int].0, flag.model())));
            lemma_assoc_update(old_es, i as int, flag.model());
            assert forall|k: int| 0 <= k < flags@.len() implies (#[trigger] flags@[k]).1.wf() by {
                if k != i {
                    assert(flags@[k] == old_flags[k]);
                }
            }
        }
        return Ok(());
    }
    Err(ParseError::UnknownDirective(line, span_string(chars, a0, b0)))
}

/// Parses a configuration text into a [`FlagSet`].
///
/// A flag must be declared with `flag` before any `override` line that
/// references it: overrides are applied top to bottom, not resolved in a
/// second pass, so the order of the lines matters. The first offending line
/// is the one reported.
pub fn parse(input: &str) -> (r: Result<FlagSet, ParseError>)
    ensures
        match r {
            Ok(fs) => config_meaning(input@) == Ok::<Map<Seq<char>, FlagView>, ParseFailure>(fs@),
            Err(e) => config_meaning(input@) == Err::<Map<Seq<char>, FlagView>, ParseFailure>(e@),
        },
{
    let chars = str_chars(input);
    let n = chars.len();
    let lines = if n == 0 {
        Vec::new()
    } else if chars[n - 1] == '\n' {
        split_spans(&chars, 0, n - 1, '\n')
    } else {
        split_spans(&chars, 0, n, '\n')
    };
    let ghost all = config_lines(input@);
    proof {
        if n == 0 {
            assert(span_texts(chars@, lines@) =~= all);
        } else if chars@[n - 1] == '\n' {
            assert(chars@.subrange(0, n - 1) =~= chars@.drop_last());
        } else {
            assert(chars@.subrange(0, n as int) =~= chars@);
        }
        assert(span_texts(chars@, lines@) == all);
        assert(all.take(0) =~= Seq::<Seq<char>>::empty());
    }
    let mut flags: Vec<(Vec<char>, Flag)> = Vec::new();
    proof {
        assert(flag_entries(flags@) =~= Seq::<(Seq<char>, FlagView)>::empty());
        assert(assoc(flag_entries(flags@)) == Map::<Seq<char>, FlagView>::empty());
    }
    let mut k: usize = 0;
    while k < lines.len()
        invariant
            k <= lines.len(),
            n == chars.len(),
            chars@ == input@,
            all == config_lines(input@),
            span_texts(chars@, lines@) == all,
            spans_within(lines@, 0, n as int),
            run_lines(all.take(k as int)) == Ok::<Map<Seq<char>, FlagView>, ParseFailure>(
                assoc(flag_entries(flags@)),
            ),
            entries_wf(flags@),
        decreases lines.len() - k,
    {
        let (a, b) = lines[k];
        proof {
            assert(lines@[k as int].0 <= lines@[k as int].1 <= n);
        }
        let toks = token_spans(&chars, a, b);
        let ghost step = apply_line(assoc(flag_entries(flags@)), (k + 1) as nat, span_texts(chars@, toks@));
        proof {
            assert(all[k as int] == chars@.subrange(a as int, b as int));
            assert(all.take(k + 1).drop_last() =~= all.take(k as int));
            assert(all.take(k + 1).last() == all[k as int]);
            assert(run_lines(all.take(k + 1)) == step);
            if step is Err {
                lemma_lines_prefix(all, k + 1);
            }
            assert forall|t: int| 0 <= t < toks@.len() implies 0 <= #[trigger] toks@[t].0 <= toks@[t].1 <= n by {
                assert(a <= toks@[t].0 <= toks@[t].1 <= b);
            }
        }
        match apply_line_exec(&chars, &toks, k + 1, &mut flags) {
            Ok(()) => {},
            Err(e) => {
                return Err(e);
            },
        }
        k += 1;
    }
    proof {
        assert(all.take(k as int) =~= all);
    }
    Ok(FlagSet { flags })
}

/// An evaluation result over plain values.
pub open spec fn eval_view(r: Result<bool, EvalError>) -> Result<bool, EvalFailure> {
    match r {
        Ok(b) => Ok(b),
        Err(e) => Err(e@),
    }
}

/// A flag's static configuration in plain fields: the expiry as
/// `YYYY-MM-DD`, and the number of overrides.
#[derive(Debug, PartialEq, Eq)]
pub struct FlagInfo {
    pub enabled: bool,
    pub rollout: u8,
    pub expires: Option<String>,
    pub overrides: usize,
}

/// `info` describes flag `f`.
pub open spec fn info_of(info: FlagInfo, f: FlagView) -> bool {
    &&& info.enabled == f.enabled
    &&& info.rollout == f.rollout
    &&& info.overrides == f.overrides.dom().len()
    &&& match info.expires {
        Some(s) => f.expires matches Some(d) && s@ == date_text(days_to_civil(d)),
        None => f.expires is None,
    }
}

impl FlagSet {
    /// Position of the flag named `flag`, with what the view says of it.
    fn lookup(&self, flag: &str) -> (r: Option<usize>)
        ensures
            match r {
                Some(i) => i < self.flags.len() && self@.contains_key(flag@) && self@[flag@]
                    == self.flags@[i as int].1.model() && self.flags@[i as int].1.wf(),
                None => !self@.contains_key(flag@),
            },
    {
        proof {
            use_type_invariant(self);
        }
        let name = str_chars(flag);
        proof {
            assert(name@.subrange(0, name@.len() as int) =~= flag@);
        }
        let r = find_flag(&self.flags, &name, 0, name.len());
        proof {
            if let Some(i) = r {
                assert(self.flags@[i as int].1.wf());
            }
        }
        r
    }

    /// Evaluates a flag for a key on the given day (days since 1970-01-01).
    pub fn is_enabled_at(&self, flag: &str, key: &str, today: i64) -> (r: Result<bool, EvalError>)
        ensures
            eval_view(r) == eval_spec(self@, flag@, key@, today as int),
    {
        let i = match self.lookup(flag) {
            Some(i) => i,
            None => {
                return Err(EvalError::UnknownFlag(String::from_str(flag)));
            },
        };
        let f = &self.flags[i].1;
        let kc = str_chars(key);
        proof {
            assert(kc@.subrange(0, kc@.len() as int) =~= key@);
        }
        if let Some(j) = find_override(&f.overrides, &kc, 0, kc.len()) {
            return Ok(f.overrides[j].1);
        }
        if let Some(expiry) = f.expires {
            if today >= expiry {
                return Ok(false);
            }
        }
        if !f.enabled {
            return Ok(false);
        }
        if f.rollout >= 100 {
            return Ok(true);
        }
        if f.rollout == 0 {
            return Ok(false);
        }
        Ok(bucket(flag, key) < f.rollout)
    }

    /// Evaluates a flag for a key today. Errors if the flag name was never
    /// declared, so a typo at a call site fails loudly instead of silently
    /// resolving to "off".
    pub fn is_enabled(&self, flag: &str, key: &str) -> (r: Result<bool, EvalError>)
        ensures
            exists|t: int| 0 <= t <= max_today() && eval_view(r) == eval_spec(self@, flag@, key@, t),
            !self@.contains_key(flag@) || self@[flag@].expires is None ==> eval_view(r) == eval_spec(
                self@,
                flag@,
                key@,
                0,
            ),
    {
        let today = today_days();
        self.is_enabled_at(flag, key, today)
    }

    /// Names of every declared flag, each once, in no particular order.
    pub fn names(&self) -> (r: Vec<String>)
        ensures
            r@.len() == self@.dom().len(),
            forall|i: int| 0 <= i < r@.len() ==> self@.contains_key(#[trigger] r@[i]@),
            forall|name: Seq<char>| #[trigger] self@.contains_key(name) ==> exists|i: int| 0 <= i < r@.len() && r@[i]@ == name,
            forall|i: int, j: int| 0 <= i < j < r@.len() ==> #[trigger] r@[i]@ != #[trigger] r@[j]@,
    {
        proof {
            use_type_invariant(self);
        }
        let ghost es = flag_entries(self.flags@);
        proof {
            lemma_assoc_len(es);
        }
        let mut r: Vec<String> = Vec::new();
        let mut i: usize = 0;
        while i < self.flags.len()
            invariant
                i <= self.flags.len(),
                es == flag_entries(self.flags@),
                r@.len() == i,
                forall|k: int| 0 <= k < i ==> (#[trigger] r@[k])@ == es[k].0,
            decreases self.flags.len() - i,
        {
            let name = crate::fmt::chars_to_string(&self.flags[i].0);
            r.push(name);
            i += 1;
        }
        proof {
            assert forall|k: int| 0 <= k < r@.len() implies self@.contains_key(#[trigger] r@[k]@) by {
                lemma_assoc_dom(es, es[k].0);
            }
            assert forall|name: Seq<char>| #[trigger] self@.contains_key(name) implies exists|k: int| 0 <= k < r@.len() && r@[k]@ == name by {
                lemma_assoc_dom(es, name);
                let k = choose|k: int| 0 <= k < es.len() && #[trigger] es[k].0 == name;
                assert(r@[k]@ == name);
            }
        }
        r
    }

    /// Human-readable summary of a flag's static configuration (it ignores
    /// keys). `None` if the flag is not declared.
    pub fn describe(&self, flag: &str) -> (r: Option<String>)
        ensures
            match r {
                Some(s) => self@.contains_key(flag@) && s@ == describe_text(self@[flag@]),
                None => !self@.contains_key(flag@),
            },
    {
        let i = match self.lookup(flag) {
            Some(i) => i,
            None => {
                return None;
            },
        };
        let f = &self.flags[i].1;
        proof {
            lemma_assoc_len(override_entries(f.overrides@));
        }
        let mut s = String::from_str("enabled=");
        if f.enabled {
            s.append("true");
        } else {
            s.append("false");
        }
        s.append(" rollout=");
        push_decimal(&mut s, f.rollout as u64);
        match f.expires {
            Some(days) => {
                s.append(" expires=");
                let date = civil_date_string(days);
                s.append(date.as_str());
            },
            None => {},
        }
        s.append(" overrides=");
        push_decimal(&mut s, f.overrides.len() as u64);
        proof {
            assert(s@ =~= describe_text(self@[flag@]));
        }
        Some(s)
    }

    /// A flag's static configuration in plain fields. `None` if the flag is
    /// not declared.
    pub fn info(&self, flag: &str) -> (r: Option<FlagInfo>)
        ensures
            match r {
                Some(info) => self@.contains_key(flag@) && info_of(info, self@[flag@]),
                None => !self@.contains_key(flag@),
            },
    {
        let i = match self.lookup(flag) {
            Some(i) => i,
            None => {
                return None;
            },
        };
        let f = &self.flags[i].1;
        proof {
            lemma_assoc_len(override_entries(f.overrides@));
        }
        let expires = match f.expires {
            Some(days) => Some(civil_date_string(days)),
            None => None,
        };
        Some(FlagInfo { enabled: f.enabled, rollout: f.rollout, expires, overrides: f.overrides.len() })
    }

    /// Whether the flag's expiry day is at or before `today`. `None` if the
    /// flag is not declared or has no expiry.
    pub fn is_expired_at(&self, flag: &str, today: i64) -> (r: Option<bool>)
        ensures
            r == expired_spec(self@, flag@, today as int),
    {
        let i = match self.lookup(flag) {
            Some(i) => i,
            None => {
                return None;
            },
        };
        match self.flags[i].1.expires {
            Some(expiry) => Some(today >= expiry),
            None => None,
        }
    }

    /// Whether the flag's expiry date has already come. `None` if the flag
    /// is not declared or has no expiry. Useful for a CI step that looks for
    /// stale configuration.
    pub fn is_expired(&self, flag: &str) -> (r: Option<bool>)
        ensures
            exists|t: int| 0 <= t <= max_today() && r == #[trigger] expired_spec(self@, flag@, t),
    {
        let today = today_days();
        self.is_expired_at(flag, today)
    }
}

} // verus!
