//! What holds of every configuration and every evaluation.
use crate::config::{
    lemma_lines_prefix,
    apply_attr, apply_attrs, apply_line, config_meaning, run_lines, valid_flag, Attrs, FlagView,
    eval_spec, bool_text, bool_value, default_attrs, describe_text, rollout_value,
};
use crate::date::{
    civil_fits, civil_to_days, date_days, date_fields, days_to_civil, is_expiry_day,
    lemma_civil_roundtrip, valid_date,
};
use crate::fmt::{date_text, decimal, digit_char, zero_padded};
use crate::error::{EvalFailure, ParseFailure};
use crate::hash::bucket_spec;
use crate::text::{
    all_digits, digit_value, digits_value, unsigned_value, config_lines, seg_len, split_on, lemma_seg_len_bound, is_ws, tokens, lemma_word_len_bound, word_len, split_once};
use vstd::prelude::*;

verus! {

/// Every flag in the map is well formed, and there are finitely many.
pub open spec fn all_valid(flags: Map<Seq<char>, FlagView>) -> bool {
    &&& flags.dom().finite()
    &&& forall|name: Seq<char>| #[trigger] flags.contains_key(name) ==> valid_flag(flags[name])
}

pub open spec fn attrs_valid(a: Attrs) -> bool {
    &&& a.rollout <= 100
    &&& a.expires matches Some(e) ==> is_expiry_day(e)
}

proof fn lemma_attrs_valid(a: Attrs, toks: Seq<Seq<char>>, line: nat)
    requires
        attrs_valid(a),
    ensures
        apply_attrs(a, toks, line) matches Ok(b) ==> attrs_valid(b),
    decreases toks.len(),
{
    if toks.len() > 0 {
        lemma_attrs_valid(a, toks.drop_last(), line);
        if let Ok(b) = apply_attrs(a, toks.drop_last(), line) {
            if let Ok(c) = apply_attr(b, toks.last(), line) {
                if c.expires != b.expires {
                    let v = (crate::text::split_once(toks.last(), '=')->0).1;
                    let (y, m, d) = date_fields(v)->0;
                    assert(c.expires == Some(civil_to_days(y, m, d)));
                }
            }
        }
    }
}

proof fn lemma_lines_valid(lines: Seq<Seq<char>>)
    ensures
        run_lines(lines) matches Ok(m) ==> all_valid(m),
    decreases lines.len(),
{
    if lines.len() > 0 {
        lemma_lines_valid(lines.drop_last());
        if let Ok(m) = run_lines(lines.drop_last()) {
            let toks = tokens(lines.last());
            let a = Attrs { enabled: true, rollout: 100, expires: None };
            if toks.len() >= 2 {
                lemma_attrs_valid(a, toks.skip(2), lines.len());
            }
            if let Ok(m2) = apply_line(m, lines.len(), toks) {
                assert forall|name: Seq<char>| #[trigger] m2.contains_key(name) implies valid_flag(m2[name]) by {
                    if !m.contains_key(name) || (toks.len() >= 2 && name == toks[1]) {
                        if m.contains_key(name) {
                            assert(valid_flag(m[name]));
                        }
                    }
                }
            }
        }
    }
}

/// A configuration that reads without error declares finitely many flags,
/// each with a rollout of 0..=100 and an expiry (if any) that is the day of
/// a valid date.
pub proof fn law_parsed_flags_valid(input: Seq<char>)
    ensures
        config_meaning(input) matches Ok(flags) ==> all_valid(flags),
{
    lemma_lines_valid(crate::text::config_lines(input));
}

proof fn lemma_ignored_tokens(line: Seq<char>)
    requires
        (forall|i: int| 0 <= i < line.len() ==> is_ws(#[trigger] line[i])) || exists|j: int|
            0 <= j < line.len() && line[j] == '#' && forall|i: int| 0 <= i < j ==> is_ws(#[trigger] line[i]),
    ensures
        tokens(line).len() == 0 || (tokens(line)[0].len() > 0 && tokens(line)[0][0] == '#'),
    decreases line.len(),
{
    if line.len() > 0 {
        let rest = line.drop_first();
        if is_ws(line[0]) {
            if exists|j: int| 0 <= j < line.len() && line[j] == '#' && forall|i: int| 0 <= i < j ==> is_ws(#[trigger] line[i]) {
                let j = choose|j: int| 0 <= j < line.len() && line[j] == '#' && forall|i: int| 0 <= i < j ==> is_ws(#[trigger] line[i]);
                assert(j > 0) by {
                    if j == 0 {
                        assert(line[0] == '#');
                    }
                }
                assert(rest[j - 1] == '#');
                assert forall|i: int| 0 <= i < j - 1 implies is_ws(#[trigger] rest[i]) by {
                    assert(rest[i] == line[i + 1]);
                }
            } else {
                assert forall|i: int| 0 <= i < rest.len() implies is_ws(#[trigger] rest[i]) by {
                    assert(rest[i] == line[i + 1]);
                }
            }
            lemma_ignored_tokens(rest);
        } else {
            let j = choose|j: int| 0 <= j < line.len() && line[j] == '#' && forall|i: int| 0 <= i < j ==> is_ws(#[trigger] line[i]);
            assert(j == 0) by {
                if j > 0 {
                    assert(is_ws(line[0]));
                }
            }
            lemma_word_len_bound(line);
        }
    }
}

/// Blank lines and comment lines (first non-whitespace character `#`)
/// leave the declared flags as they are.
pub proof fn law_comments_and_blank_lines_ignored(flags: Map<Seq<char>, FlagView>, line_no: nat, line: Seq<char>)
    requires
        (forall|i: int| 0 <= i < line.len() ==> is_ws(#[trigger] line[i])) || exists|j: int|
            0 <= j < line.len() && line[j] == '#' && forall|i: int| 0 <= i < j ==> is_ws(#[trigger] line[i]),
    ensures
        apply_line(flags, line_no, tokens(line)) == Ok::<Map<Seq<char>, FlagView>, crate::error::ParseFailure>(flags),
{
    lemma_ignored_tokens(line);
}

/// A flag that was never declared is an error naming it, not a silent
/// `false`.
pub proof fn law_unknown_flag_is_error(flags: Map<Seq<char>, FlagView>, name: Seq<char>, key: Seq<char>, today: int)
    requires
        !flags.contains_key(name),
    ensures
        eval_spec(flags, name, key, today) == Err::<bool, EvalFailure>(EvalFailure::UnknownFlag(name)),
{
}

/// An override pins its key to a fixed result; it wins even over
/// `enabled=false`, a 0% or 100% rollout and an expired flag.
pub proof fn law_override_wins(flags: Map<Seq<char>, FlagView>, name: Seq<char>, key: Seq<char>, today: int)
    requires
        flags.contains_key(name),
        flags[name].overrides.contains_key(key),
    ensures
        eval_spec(flags, name, key, today) == Ok::<bool, EvalFailure>(flags[name].overrides[key]),
{
}

/// From its `expires` day on (that day included), a flag is off for every
/// key without an override, whatever `enabled` and `rollout` say.
pub proof fn law_expired_flag_is_off(flags: Map<Seq<char>, FlagView>, name: Seq<char>, key: Seq<char>, today: int)
    requires
        flags.contains_key(name),
        !flags[name].overrides.contains_key(key),
        flags[name].expires matches Some(e) && today >= e,
    ensures
        eval_spec(flags, name, key, today) == Ok::<bool, EvalFailure>(false),
{
}

/// A disabled flag is off for every key without an override.
pub proof fn law_disabled_flag_is_off(flags: Map<Seq<char>, FlagView>, name: Seq<char>, key: Seq<char>, today: int)
    requires
        flags.contains_key(name),
        !flags[name].overrides.contains_key(key),
        !flags[name].enabled,
    ensures
        eval_spec(flags, name, key, today) == Ok::<bool, EvalFailure>(false),
{
}

/// Before it expires, an enabled flag at 100% is on, and at 0% is off, for
/// every key without an override, the empty key included; at any other
/// rollout `r` it is on exactly for the keys whose [`crate::hash::bucket`]
/// is below `r`.
pub proof fn law_rollout(flags: Map<Seq<char>, FlagView>, name: Seq<char>, key: Seq<char>, today: int)
    requires
        flags.contains_key(name),
        !flags[name].overrides.contains_key(key),
        flags[name].enabled,
        !(flags[name].expires matches Some(e) && today >= e),
        flags[name].rollout <= 100,
    ensures
        flags[name].rollout == 100 ==> eval_spec(flags, name, key, today) == Ok::<bool, EvalFailure>(true),
        flags[name].rollout == 0 ==> eval_spec(flags, name, key, today) == Ok::<bool, EvalFailure>(false),
        0 < flags[name].rollout < 100 ==> eval_spec(flags, name, key, today) == Ok::<bool, EvalFailure>(
            bucket_spec(name, key) < flags[name].rollout,
        ),
{
}

/// The answer for a (flag, key) pair is the same every time it is asked,
/// on any two days before the flag's expiry: the rollout is not
/// re-randomized.
pub proof fn law_stable_until_expiry(flags: Map<Seq<char>, FlagView>, name: Seq<char>, key: Seq<char>, day1: int, day2: int)
    requires
        flags.contains_key(name) ==> !(flags[name].expires matches Some(e) && (day1 >= e || day2 >= e)),
    ensures
        eval_spec(flags, name, key, day1) == eval_spec(flags, name, key, day2),
{
}

proof fn lemma_seg_len_append(x: Seq<char>, t: Seq<char>, sep: char)
    requires
        seg_len(x, sep) < x.len() || (t.len() > 0 && t[0] == sep),
    ensures
        seg_len(x + t, sep) == seg_len(x, sep),
    decreases x.len(),
{
    if x.len() == 0 {
        assert(x + t =~= t);
    } else if x[0] != sep {
        assert((x + t).drop_first() =~= x.drop_first() + t);
        lemma_seg_len_append(x.drop_first(), t, sep);
    } else {
        assert((x + t)[0] == sep);
    }
}

/// Splitting text joined at a separator gives the pieces of both parts.
proof fn lemma_split_on_join(x: Seq<char>, y: Seq<char>, sep: char)
    ensures
        split_on(x + seq![sep] + y, sep) == split_on(x, sep) + split_on(y, sep),
    decreases x.len(),
{
    let z = x + seq![sep] + y;
    let n = seg_len(x, sep);
    lemma_seg_len_bound(x, sep);
    assert(z =~= x + (seq![sep] + y));
    lemma_seg_len_append(x, seq![sep] + y, sep);
    lemma_seg_len_bound(z, sep);
    if n == x.len() {
        assert(z.take(n as int) =~= x);
        assert(z.skip((n + 1) as int) =~= y);
        assert(split_on(x, sep) =~= seq![x]);
        assert(split_on(z, sep) =~= seq![x] + split_on(y, sep));
    } else {
        let rest = x.skip((n + 1) as int);
        assert(z.take(n as int) =~= x.take(n as int));
        assert(z.skip((n + 1) as int) =~= rest + seq![sep] + y);
        lemma_split_on_join(rest, y, sep);
        assert(split_on(z, sep) =~= split_on(x, sep) + split_on(y, sep));
    }
}

/// The lines of a text come first among the lines of that text followed
/// by a line break and more text.
proof fn lemma_lines_extend(a: Seq<char>, b: Seq<char>)
    ensures
        config_lines(a).len() <= config_lines(a + seq!['\n'] + b).len(),
        config_lines(a + seq!['\n'] + b).take(config_lines(a).len() as int) == config_lines(a),
{
    let z = a + seq!['\n'] + b;
    let la = config_lines(a);
    // `p` is the text whose pieces are the lines of `a`.
    let p = if a.len() > 0 && a.last() == '\n' {
        a.drop_last()
    } else {
        a
    };
    // `z` is `p`, a line break, and `q`.
    let q = if a.len() > 0 && a.last() == '\n' {
        seq!['\n'] + b
    } else {
        b
    };
    assert(z =~= p + seq!['\n'] + q);
    if a.len() == 0 {
        assert(la.len() == 0);
        assert(config_lines(z).take(0) =~= la);
    } else {
        assert(la == split_on(p, '\n'));
        if q.len() == 0 {
            assert(z.drop_last() =~= p);
            assert(config_lines(z) == split_on(p, '\n'));
            assert(config_lines(z).take(la.len() as int) =~= la);
        } else if q.last() == '\n' {
            assert(z.drop_last() =~= p + seq!['\n'] + q.drop_last());
            lemma_split_on_join(p, q.drop_last(), '\n');
            assert(config_lines(z).take(la.len() as int) =~= la);
        } else {
            lemma_split_on_join(p, q, '\n');
            assert(config_lines(z).take(la.len() as int) =~= la);
        }
    }
}

/// Lines are checked top to bottom and the first offending line is the one
/// reported: more lines after a configuration that fails do not change its
/// error.
pub proof fn law_first_error_stays(a: Seq<char>, b: Seq<char>)
    requires
        config_meaning(a) is Err,
    ensures
        config_meaning(a + seq!['\n'] + b) == config_meaning(a),
{
    let la = config_lines(a);
    let lz = config_lines(a + seq!['\n'] + b);
    lemma_lines_extend(a, b);
    lemma_lines_prefix(lz, la.len() as int);
}

proof fn lemma_decimal_digits(n: nat)
    ensures
        decimal(n).len() > 0,
        all_digits(decimal(n)),
        digits_value(decimal(n)) == n,
    decreases n,
{
    let k = n % 10;
    assert(digit_value(digit_char(k)) == k && crate::text::is_digit(digit_char(k)));
    if n >= 10 {
        lemma_decimal_digits(n / 10);
        let t = decimal(n / 10);
        assert(decimal(n).drop_last() =~= t);
        assert(decimal(n).last() == digit_char(k));
        assert(digits_value(decimal(n)) == digits_value(t) * 10 + k);
        assert(n == (n / 10) * 10 + k);
        assert(all_digits(decimal(n))) by {
            assert forall|i: int| 0 <= i < decimal(n).len() implies crate::text::is_digit(#[trigger] decimal(n)[i]) by {
                if i < t.len() {
                    assert(decimal(n)[i] == t[i]);
                }
            }
        }
    } else {
        assert(decimal(n) =~= seq![digit_char(n)]);
        assert(decimal(n).drop_last() =~= Seq::<char>::empty());
        assert(digits_value(decimal(n)) == digits_value(Seq::<char>::empty()) * 10 + k);
    }
}

proof fn lemma_leading_zeros(z: Seq<char>, t: Seq<char>)
    requires
        forall|i: int| 0 <= i < z.len() ==> z[i] == '0',
    ensures
        digits_value(z + t) == digits_value(t),
    decreases z.len() + t.len(),
{
    if t.len() > 0 {
        assert((z + t).drop_last() =~= z + t.drop_last());
        lemma_leading_zeros(z, t.drop_last());
    } else if z.len() > 0 {
        assert((z + t).drop_last() =~= z.drop_last() + t);
        lemma_leading_zeros(z.drop_last(), t);
        assert(z + t =~= z);
    } else {
        assert(z + t =~= t);
    }
}

proof fn lemma_zero_padded_value(n: nat, w: nat)
    ensures
        unsigned_value(zero_padded(n, w)) == Some(n),
        !zero_padded(n, w).contains('-'),
{
    let t = decimal(n);
    lemma_decimal_digits(n);
    let p = zero_padded(n, w);
    if t.len() < w {
        let z = Seq::new((w - t.len()) as nat, |i: int| '0');
        assert(p == z + t);
        lemma_leading_zeros(z, t);
        assert(all_digits(p)) by {
            assert forall|i: int| 0 <= i < p.len() implies crate::text::is_digit(#[trigger] p[i]) by {
                if i >= z.len() {
                    assert(p[i] == t[i - z.len()]);
                }
            }
        }
    }
    assert(crate::text::is_digit(p[0]));
    assert(p[0] != '+');
    if p.contains('-') {
        let i = choose|i: int| 0 <= i < p.len() && p[i] == '-';
        assert(crate::text::is_digit(p[i]));
    }
}

proof fn lemma_split_on_whole(x: Seq<char>, sep: char)
    requires
        !x.contains(sep),
    ensures
        split_on(x, sep) == seq![x],
{
    lemma_seg_len_bound(x, sep);
    if seg_len(x, sep) < x.len() {
        assert(x[seg_len(x, sep) as int] == sep);
    }
}

proof fn lemma_date_text_fields(y: int, m: int, d: int)
    requires
        valid_date(y, m, d),
    ensures
        date_fields(date_text((y, m, d))) == Some((y, m, d)),
{
    let a = zero_padded(y as nat, 4);
    let b = zero_padded(m as nat, 2);
    let c = zero_padded(d as nat, 2);
    lemma_zero_padded_value(y as nat, 4);
    lemma_zero_padded_value(m as nat, 2);
    lemma_zero_padded_value(d as nat, 2);
    let text = date_text((y, m, d));
    assert(text =~= a + seq!['-'] + (b + seq!['-'] + c));
    lemma_split_on_join(a, b + seq!['-'] + c, '-');
    lemma_split_on_join(b, c, '-');
    lemma_split_on_whole(a, '-');
    lemma_split_on_whole(b, '-');
    lemma_split_on_whole(c, '-');
    assert(split_on(text, '-') =~= seq![a, b, c]);
}

/// A stored expiry day, printed as `YYYY-MM-DD` (what `describe` shows),
/// reads back as the same day.
pub proof fn law_printed_date_reads_back(z: int)
    requires
        is_expiry_day(z),
    ensures
        date_days(date_text(days_to_civil(z))) == Some(z),
{
    let (y, m, d) = choose|y: int, m: int, d: int|
        valid_date(y, m, d) && civil_fits(y, m, d) && z == #[trigger] civil_to_days(y, m, d);
    lemma_civil_roundtrip(y, m, d);
    lemma_date_text_fields(y, m, d);
}

/// The characters that separate words are exactly those of Unicode's
/// `White_Space` property, the ones `str::split_whitespace` and `str::trim`
/// go by: TAB, LF, VT, FF, CR, SPACE, NEL, NO-BREAK SPACE, OGHAM SPACE MARK,
/// U+2000 to U+200A, LINE and PARAGRAPH SEPARATOR, NARROW NO-BREAK SPACE,
/// MEDIUM MATHEMATICAL SPACE and IDEOGRAPHIC SPACE.
pub proof fn law_white_space_characters(c: char)
    ensures
        is_ws(c) <==> (c == '\t' || c == '\n' || c == '\u{0b}' || c == '\u{0c}' || c == '\r' || c == ' '
            || c == '\u{85}' || c == '\u{a0}' || c == '\u{1680}' || ('\u{2000}' <= c && c <= '\u{200a}')
            || c == '\u{2028}' || c == '\u{2029}' || c == '\u{202f}' || c == '\u{205f}' || c == '\u{3000}'),
{
}

proof fn lemma_word_len_ws_after(a: Seq<char>, c: char, b: Seq<char>)
    requires
        is_ws(c),
    ensures
        word_len(a + seq![c] + b) == word_len(a),
    decreases a.len(),
{
    let z = a + seq![c] + b;
    if a.len() == 0 {
        assert(z[0] == c);
    } else {
        assert(z[0] == a[0]);
        if !is_ws(a[0]) {
            assert(z.drop_first() =~= a.drop_first() + seq![c] + b);
            lemma_word_len_ws_after(a.drop_first(), c, b);
        }
    }
}

/// A white-space character ends a word: the words of a text with one in the
/// middle are the words before it followed by the words after it.
pub proof fn law_tokens_split_at_white_space(a: Seq<char>, c: char, b: Seq<char>)
    requires
        is_ws(c),
    ensures
        tokens(a + seq![c] + b) == tokens(a) + tokens(b),
    decreases a.len(),
{
    let z = a + seq![c] + b;
    if a.len() == 0 {
        assert(z[0] == c);
        assert(z.drop_first() =~= b);
        assert(tokens(z) =~= tokens(a) + tokens(b));
    } else if is_ws(a[0]) {
        assert(z[0] == a[0]);
        assert(z.drop_first() =~= a.drop_first() + seq![c] + b);
        law_tokens_split_at_white_space(a.drop_first(), c, b);
        assert(tokens(z) =~= tokens(a) + tokens(b));
    } else {
        let n = word_len(a);
        lemma_word_len_bound(a);
        lemma_word_len_ws_after(a, c, b);
        assert(z[0] == a[0]);
        assert(z.take(n as int) =~= a.take(n as int));
        assert(z.skip(n as int) =~= a.skip(n as int) + seq![c] + b);
        law_tokens_split_at_white_space(a.skip(n as int), c, b);
        assert(tokens(z) =~= tokens(a) + tokens(b));
    }
}

/// A line reads the same whichever white-space character separates two of
/// its parts: a TAB, a space or any other.
pub proof fn law_any_white_space_separates(a: Seq<char>, b: Seq<char>, c1: char, c2: char)
    requires
        is_ws(c1),
        is_ws(c2),
    ensures
        tokens(a + seq![c1] + b) == tokens(a + seq![c2] + b),
{
    law_tokens_split_at_white_space(a, c1, b);
    law_tokens_split_at_white_space(a, c2, b);
}

spec fn no_ws(x: Seq<char>) -> bool {
    forall|i: int| 0 <= i < x.len() ==> !is_ws(#[trigger] x[i])
}

proof fn lemma_no_ws_concat(a: Seq<char>, b: Seq<char>)
    requires
        no_ws(a),
        no_ws(b),
    ensures
        no_ws(a + b),
{
    assert forall|i: int| 0 <= i < (a + b).len() implies !is_ws(#[trigger] (a + b)[i]) by {
        if i >= a.len() {
            assert((a + b)[i] == b[i - a.len()]);
        } else {
            assert((a + b)[i] == a[i]);
        }
    }
}

proof fn lemma_word_len_whole(x: Seq<char>)
    requires
        no_ws(x),
    ensures
        word_len(x) == x.len(),
    decreases x.len(),
{
    if x.len() > 0 {
        assert(!is_ws(x[0]));
        assert forall|i: int| 0 <= i < x.drop_first().len() implies !is_ws(#[trigger] x.drop_first()[i]) by {
            assert(x.drop_first()[i] == x[i + 1]);
        }
        lemma_word_len_whole(x.drop_first());
    }
}

proof fn lemma_one_word(x: Seq<char>)
    requires
        x.len() > 0,
        no_ws(x),
    ensures
        tokens(x) == seq![x],
{
    lemma_word_len_whole(x);
    assert(!is_ws(x[0]));
    assert(x.take(x.len() as int) =~= x);
    assert(x.skip(x.len() as int) =~= Seq::<char>::empty());
    assert(tokens(Seq::<char>::empty()) =~= Seq::<Seq<char>>::empty());
    assert(tokens(x) =~= seq![x]);
}

proof fn lemma_unsigned_no_ws(p: Seq<char>)
    requires
        unsigned_value(p) is Some,
    ensures
        no_ws(p),
{
    assert forall|i: int| 0 <= i < p.len() implies !is_ws(#[trigger] p[i]) by {
        if p[0] == '+' {
            if i > 0 {
                assert(p[i] == p.drop_first()[i - 1]);
                assert(crate::text::is_digit(p.drop_first()[i - 1]));
            }
        } else {
            assert(crate::text::is_digit(p[i]));
        }
    }
}

proof fn lemma_decimal_value(n: nat)
    ensures
        unsigned_value(decimal(n)) == Some(n),
        no_ws(decimal(n)),
{
    lemma_decimal_digits(n);
    assert(crate::text::is_digit(decimal(n)[0]));
    lemma_unsigned_no_ws(decimal(n));
}

/// `k=v` with a key free of `=` and no white space on either side.
proof fn lemma_key_value(k: Seq<char>, v: Seq<char>)
    requires
        k.len() > 0,
        no_ws(k),
        no_ws(v),
        !k.contains('='),
    ensures
        split_once(k + seq!['='] + v, '=') == Some((k, v)),
        tokens(k + seq!['='] + v) == seq![k + seq!['='] + v],
{
    let w = k + seq!['='] + v;
    lemma_seg_len_bound(k, '=');
    if seg_len(k, '=') < k.len() {
        assert(k[seg_len(k, '=') as int] == '=');
    }
    assert(w =~= k + (seq!['='] + v));
    lemma_seg_len_append(k, seq!['='] + v, '=');
    assert(w.take(k.len() as int) =~= k);
    assert(w.skip(k.len() as int + 1) =~= v);
    lemma_no_ws_concat(k, seq!['=']);
    lemma_no_ws_concat(k + seq!['='], v);
    lemma_one_word(w);
}

proof fn lemma_date_no_ws(date: (int, int, int))
    ensures
        no_ws(date_text(date)),
{
    lemma_zero_padded_value(date.0 as nat, 4);
    lemma_zero_padded_value(date.1 as nat, 2);
    lemma_zero_padded_value(date.2 as nat, 2);
    lemma_unsigned_no_ws(zero_padded(date.0 as nat, 4));
    lemma_unsigned_no_ws(zero_padded(date.1 as nat, 2));
    lemma_unsigned_no_ws(zero_padded(date.2 as nat, 2));
    let dash = seq!['-'];
    lemma_no_ws_concat(zero_padded(date.0 as nat, 4), dash);
    lemma_no_ws_concat(zero_padded(date.0 as nat, 4) + dash, zero_padded(date.1 as nat, 2));
    lemma_no_ws_concat(zero_padded(date.0 as nat, 4) + dash + zero_padded(date.1 as nat, 2), dash);
    lemma_no_ws_concat(
        zero_padded(date.0 as nat, 4) + dash + zero_padded(date.1 as nat, 2) + dash,
        zero_padded(date.2 as nat, 2),
    );
}

/// `k=v`.
spec fn setting(k: Seq<char>, v: Seq<char>) -> Seq<char> {
    k + seq!['='] + v
}

proof fn lemma_setting_keys()
    ensures
        no_ws("enabled"@) && !"enabled"@.contains('=') && "enabled"@.len() > 0,
        no_ws("rollout"@) && !"rollout"@.contains('=') && "rollout"@.len() > 0,
        no_ws("expires"@) && !"expires"@.contains('=') && "expires"@.len() > 0,
        no_ws("overrides"@) && !"overrides"@.contains('=') && "overrides"@.len() > 0,
        "rollout"@ != "enabled"@,
        "expires"@ != "enabled"@,
        "expires"@ != "rollout"@,
        no_ws("true"@),
        no_ws("false"@),
        "false"@ != "true"@,
{
    reveal_strlit("enabled");
    reveal_strlit("rollout");
    reveal_strlit("expires");
    reveal_strlit("overrides");
    reveal_strlit("true");
    reveal_strlit("false");
    assert("rollout"@[0] != "enabled"@[0]);
    assert("expires"@[1] != "enabled"@[1]);
    assert("expires"@[0] != "rollout"@[0]);
    assert("false"@.len() != "true"@.len());
}

proof fn lemma_three_words(a: Seq<char>, b: Seq<char>, c: Seq<char>)
    requires
        a.len() > 0 && no_ws(a),
        b.len() > 0 && no_ws(b),
        c.len() > 0 && no_ws(c),
    ensures
        tokens(a + seq![' '] + (b + seq![' '] + c)) == seq![a, b, c],
{
    assert(is_ws(' '));
    lemma_one_word(a);
    lemma_one_word(b);
    lemma_one_word(c);
    law_tokens_split_at_white_space(b, ' ', c);
    law_tokens_split_at_white_space(a, ' ', b + seq![' '] + c);
    assert(seq![a] + (seq![b] + seq![c]) =~= seq![a, b, c]);
}

proof fn lemma_four_words(a: Seq<char>, b: Seq<char>, c: Seq<char>, d: Seq<char>)
    requires
        a.len() > 0 && no_ws(a),
        b.len() > 0 && no_ws(b),
        c.len() > 0 && no_ws(c),
        d.len() > 0 && no_ws(d),
    ensures
        tokens(a + seq![' '] + (b + seq![' '] + (c + seq![' '] + d))) == seq![a, b, c, d],
{
    assert(is_ws(' '));
    lemma_one_word(a);
    lemma_three_words(b, c, d);
    law_tokens_split_at_white_space(a, ' ', b + seq![' '] + (c + seq![' '] + d));
    assert(seq![a] + seq![b, c, d] =~= seq![a, b, c, d]);
}

proof fn lemma_describe_shape(f: FlagView)
    ensures
        describe_text(f) == (match f.expires {
            Some(d) => setting("enabled"@, bool_text(f.enabled)) + seq![' '] + (setting(
                "rollout"@,
                decimal(f.rollout as nat),
            ) + seq![' '] + (setting("expires"@, date_text(days_to_civil(d))) + seq![' '] + setting(
                "overrides"@,
                decimal(f.overrides.dom().len()),
            ))),
            None => setting("enabled"@, bool_text(f.enabled)) + seq![' '] + (setting(
                "rollout"@,
                decimal(f.rollout as nat),
            ) + seq![' '] + setting("overrides"@, decimal(f.overrides.dom().len()))),
        }),
{
    reveal_strlit("enabled=");
    reveal_strlit(" rollout=");
    reveal_strlit(" expires=");
    reveal_strlit(" overrides=");
    reveal_strlit("enabled");
    reveal_strlit("rollout");
    reveal_strlit("expires");
    reveal_strlit("overrides");
    match f.expires {
        Some(d) => {
            assert(describe_text(f) =~= setting("enabled"@, bool_text(f.enabled)) + seq![' '] + (setting(
                "rollout"@,
                decimal(f.rollout as nat),
            ) + seq![' '] + (setting("expires"@, date_text(days_to_civil(d))) + seq![' '] + setting(
                "overrides"@,
                decimal(f.overrides.dom().len()),
            ))));
        },
        None => {
            assert(describe_text(f) =~= setting("enabled"@, bool_text(f.enabled)) + seq![' '] + (setting(
                "rollout"@,
                decimal(f.rollout as nat),
            ) + seq![' '] + setting("overrides"@, decimal(f.overrides.dom().len()))));
        },
    }
}

/// The description, as its words.
proof fn lemma_describe_words(f: FlagView)
    requires
        valid_flag(f),
    ensures
        tokens(describe_text(f)) == (match f.expires {
            Some(d) => seq![
                setting("enabled"@, bool_text(f.enabled)),
                setting("rollout"@, decimal(f.rollout as nat)),
                setting("expires"@, date_text(days_to_civil(d))),
                setting("overrides"@, decimal(f.overrides.dom().len())),
            ],
            None => seq![
                setting("enabled"@, bool_text(f.enabled)),
                setting("rollout"@, decimal(f.rollout as nat)),
                setting("overrides"@, decimal(f.overrides.dom().len())),
            ],
        }),
{
    lemma_setting_keys();
    lemma_describe_shape(f);
    let count = f.overrides.dom().len();
    assert(no_ws(bool_text(f.enabled)));
    lemma_decimal_value(f.rollout as nat);
    lemma_decimal_value(count);
    lemma_key_value("enabled"@, bool_text(f.enabled));
    lemma_key_value("rollout"@, decimal(f.rollout as nat));
    lemma_key_value("overrides"@, decimal(count));
    let e = setting("enabled"@, bool_text(f.enabled));
    let r = setting("rollout"@, decimal(f.rollout as nat));
    let o = setting("overrides"@, decimal(count));
    lemma_no_ws_concat("enabled"@ + seq!['='], bool_text(f.enabled));
    assert(no_ws(e) && e.len() > 0);
    assert(no_ws(r) && r.len() > 0);
    assert(no_ws(o) && o.len() > 0);
    match f.expires {
        Some(d) => {
            let v = date_text(days_to_civil(d));
            lemma_date_no_ws(days_to_civil(d));
            lemma_key_value("expires"@, v);
            let x = setting("expires"@, v);
            assert(no_ws(x) && x.len() > 0);
            lemma_four_words(e, r, x, o);
        },
        None => {
            lemma_three_words(e, r, o);
        },
    }
}

/// Reading `enabled=..` and `rollout=..` as attributes of a `flag` line.
proof fn lemma_first_settings(f: FlagView, line: nat)
    requires
        valid_flag(f),
    ensures
        apply_attrs(
            default_attrs(),
            seq![setting("enabled"@, bool_text(f.enabled)), setting("rollout"@, decimal(f.rollout as nat))],
            line,
        ) == Ok::<Attrs, ParseFailure>(Attrs { enabled: f.enabled, rollout: f.rollout, expires: None }),
{
    lemma_setting_keys();
    lemma_decimal_value(f.rollout as nat);
    assert(no_ws(bool_text(f.enabled)));
    lemma_key_value("enabled"@, bool_text(f.enabled));
    lemma_key_value("rollout"@, decimal(f.rollout as nat));
    let e = setting("enabled"@, bool_text(f.enabled));
    let r = setting("rollout"@, decimal(f.rollout as nat));
    let a = default_attrs();
    let a1 = Attrs { enabled: f.enabled, ..a };
    let a2 = Attrs { rollout: f.rollout, ..a1 };
    assert(bool_value(bool_text(f.enabled)) == Some(f.enabled));
    assert(apply_attr(a, e, line) == Ok::<Attrs, ParseFailure>(a1));
    assert(rollout_value(decimal(f.rollout as nat)) == Some(f.rollout));
    assert(apply_attr(a1, r, line) == Ok::<Attrs, ParseFailure>(a2));
    assert(apply_attrs(a, Seq::<Seq<char>>::empty(), line) == Ok::<Attrs, ParseFailure>(a));
    assert(seq![e].drop_last() =~= Seq::<Seq<char>>::empty());
    assert(seq![e, r].drop_last() =~= seq![e]);
    assert(apply_attrs(a, seq![e], line) == Ok::<Attrs, ParseFailure>(a1));
}

/// A flag's description reads back as the flag: its words are `key=value`
/// settings, and all but the last, read as the attributes of a `flag` line,
/// give back the flag's `enabled`, `rollout` and `expires`; the last counts
/// its overrides.
pub proof fn law_describe_reads_back(f: FlagView, line: nat)
    requires
        valid_flag(f),
    ensures
        tokens(describe_text(f)).len() == (if f.expires is Some { 4int } else { 3int }),
        apply_attrs(default_attrs(), tokens(describe_text(f)).drop_last(), line) == Ok::<Attrs, ParseFailure>(
            Attrs { enabled: f.enabled, rollout: f.rollout, expires: f.expires },
        ),
        split_once(tokens(describe_text(f)).last(), '=') == Some(
            ("overrides"@, decimal(f.overrides.dom().len())),
        ),
        unsigned_value(decimal(f.overrides.dom().len())) == Some(f.overrides.dom().len()),
{
    lemma_setting_keys();
    lemma_describe_words(f);
    lemma_first_settings(f, line);
    let count = f.overrides.dom().len();
    lemma_decimal_value(count);
    lemma_key_value("overrides"@, decimal(count));
    let e = setting("enabled"@, bool_text(f.enabled));
    let r = setting("rollout"@, decimal(f.rollout as nat));
    let o = setting("overrides"@, decimal(count));
    match f.expires {
        Some(d) => {
            let v = date_text(days_to_civil(d));
            lemma_date_no_ws(days_to_civil(d));
            lemma_key_value("expires"@, v);
            let x = setting("expires"@, v);
            law_printed_date_reads_back(d);
            let a2 = Attrs { enabled: f.enabled, rollout: f.rollout, expires: None };
            assert(apply_attr(a2, x, line) == Ok::<Attrs, ParseFailure>(Attrs { expires: Some(d), ..a2 }));
            assert(seq![e, r, x, o].drop_last() =~= seq![e, r, x]);
            assert(seq![e, r, x].drop_last() =~= seq![e, r]);
        },
        None => {
            assert(seq![e, r, o].drop_last() =~= seq![e, r]);
        },
    }
}

} // verus!
