//! Character-level scanning of configuration text: whitespace, lines,
//! tokens, `key=value` splitting and unsigned decimal numbers.
use vstd::prelude::*;

verus! {

/// The Unicode `White_Space` property, which is what `char::is_whitespace`,
/// `str::trim` and `str::split_whitespace` go by.
pub open spec fn is_ws(c: char) -> bool {
    let u = c as u32;
    ||| 0x09 <= u <= 0x0d
    ||| u == 0x20
    ||| u == 0x85
    ||| u == 0xa0
    ||| u == 0x1680
    ||| 0x2000 <= u <= 0x200a
    ||| u == 0x2028
    ||| u == 0x2029
    ||| u == 0x202f
    ||| u == 0x205f
    ||| u == 0x3000
}

/// Whether `c` is a Unicode whitespace character.
pub fn is_whitespace(c: char) -> (r: bool)
    ensures
        r == is_ws(c),
{
    let u = c as u32;
    (0x09 <= u && u <= 0x0d) || u == 0x20 || u == 0x85 || u == 0xa0 || u == 0x1680 || (0x2000
        <= u && u <= 0x200a) || u == 0x2028 || u == 0x2029 || u == 0x202f || u == 0x205f || u
        == 0x3000
}

/// Number of leading characters of `s` that are not `sep`.
pub open spec fn seg_len(s: Seq<char>, sep: char) -> nat
    decreases s.len(),
{
    if s.len() == 0 || s[0] == sep {
        0
    } else {
        1 + seg_len(s.drop_first(), sep)
    }
}

/// Number of leading characters of `s` that are not whitespace.
pub open spec fn word_len(s: Seq<char>) -> nat
    decreases s.len(),
{
    if s.len() == 0 || is_ws(s[0]) {
        0
    } else {
        1 + word_len(s.drop_first())
    }
}

pub proof fn lemma_seg_len_bound(s: Seq<char>, sep: char)
    ensures
        seg_len(s, sep) <= s.len(),
        seg_len(s, sep) < s.len() ==> s[seg_len(s, sep) as int] == sep,
        forall|k: int| 0 <= k < seg_len(s, sep) ==> s[k] != sep,
    decreases s.len(),
{
    if s.len() > 0 && s[0] != sep {
        lemma_seg_len_bound(s.drop_first(), sep);
        assert forall|k: int| 0 <= k < seg_len(s, sep) implies s[k] != sep by {
            if k > 0 {
                assert(s[k] == s.drop_first()[k - 1]);
            }
        }
    }
}

pub proof fn lemma_word_len_bound(s: Seq<char>)
    ensures
        word_len(s) <= s.len(),
        s.len() > 0 && !is_ws(s[0]) ==> word_len(s) >= 1,
    decreases s.len(),
{
    if s.len() > 0 && !is_ws(s[0]) {
        lemma_word_len_bound(s.drop_first());
    }
}

/// The pieces of `s` between occurrences of `sep` (always at least one piece),
/// as `str::split` gives them.
pub open spec fn split_on(s: Seq<char>, sep: char) -> Seq<Seq<char>>
    decreases s.len(),
{
    let n = seg_len(s, sep);
    if n >= s.len() {
        seq![s]
    } else {
        proof {
            lemma_seg_len_bound(s, sep);
        }
        seq![s.take(n as int)] + split_on(s.skip((n + 1) as int), sep)
    }
}

/// `str::split_once`: the text before and after the first `sep`, if any.
pub open spec fn split_once(s: Seq<char>, sep: char) -> Option<(Seq<char>, Seq<char>)> {
    let n = seg_len(s, sep);
    if n < s.len() {
        Some((s.take(n as int), s.skip((n + 1) as int)))
    } else {
        None
    }
}

/// The maximal runs of non-whitespace characters, as `str::split_whitespace`
/// gives them.
pub open spec fn tokens(s: Seq<char>) -> Seq<Seq<char>>
    decreases s.len(),
{
    if s.len() == 0 {
        seq![]
    } else if is_ws(s[0]) {
        tokens(s.drop_first())
    } else {
        let n = word_len(s);
        proof {
            lemma_word_len_bound(s);
        }
        seq![s.take(n as int)] + tokens(s.skip(n as int))
    }
}

/// The lines of `s`, as `str::lines` numbers them: split at `'\n'`, with no
/// empty line after a final `'\n'`. (A `'\r'` before the `'\n'` stays in the
/// line here; every use of a line ignores surrounding whitespace.)
pub open spec fn config_lines(s: Seq<char>) -> Seq<Seq<char>> {
    if s.len() == 0 {
        seq![]
    } else if s.last() == '\n' {
        split_on(s.drop_last(), '\n')
    } else {
        split_on(s, '\n')
    }
}

/// The text that a list of `(start, end)` spans covers in `s`.
pub open spec fn span_texts(s: Seq<char>, spans: Seq<(usize, usize)>) -> Seq<Seq<char>> {
    spans.map_values(|p: (usize, usize)| s.subrange(p.0 as int, p.1 as int))
}

pub open spec fn spans_within(spans: Seq<(usize, usize)>, lo: int, hi: int) -> bool {
    forall|k: int| 0 <= k < spans.len() ==> lo <= #[trigger] spans[k].0 <= spans[k].1 <= hi
}

proof fn lemma_seg_len_at(s: Seq<char>, sep: char, i: int, j: int, hi: int)
    requires
        0 <= i <= j <= hi <= s.len(),
        forall|k: int| i <= k < j ==> s[k] != sep,
        j == hi || s[j] == sep,
    ensures
        seg_len(s.subrange(i, hi), sep) == j - i,
    decreases j - i,
{
    let t = s.subrange(i, hi);
    if i < j {
        assert(t.drop_first() =~= s.subrange(i + 1, hi));
        lemma_seg_len_at(s, sep, i + 1, j, hi);
    }
}

proof fn lemma_word_len_at(s: Seq<char>, i: int, j: int, hi: int)
    requires
        0 <= i <= j <= hi <= s.len(),
        forall|k: int| i <= k < j ==> !is_ws(s[k]),
        j == hi || is_ws(s[j]),
    ensures
        word_len(s.subrange(i, hi)) == j - i,
    decreases j - i,
{
    let t = s.subrange(i, hi);
    if i < j {
        assert(t.drop_first() =~= s.subrange(i + 1, hi));
        lemma_word_len_at(s, i + 1, j, hi);
    }
}

/// Index of the first `sep` in `chars[i..hi]`, or `hi`.
pub fn scan_until(chars: &Vec<char>, i: usize, hi: usize, sep: char) -> (j: usize)
    requires
        i <= hi <= chars.len(),
    ensures
        i <= j <= hi,
        forall|k: int| i <= k < j ==> chars@[k] != sep,
        j == hi || chars@[j as int] == sep,
        seg_len(chars@.subrange(i as int, hi as int), sep) == j - i,
{
    let mut j = i;
    while j < hi && chars[j] != sep
        invariant
            i <= j <= hi <= chars.len(),
            forall|k: int| i <= k < j ==> chars@[k] != sep,
        decreases hi - j,
    {
        j += 1;
    }
    proof {
        lemma_seg_len_at(chars@, sep, i as int, j as int, hi as int);
    }
    j
}

/// Spans of the pieces of `chars[lo..hi]` between occurrences of `sep`.
pub fn split_spans(chars: &Vec<char>, lo: usize, hi: usize, sep: char) -> (spans: Vec<(usize, usize)>)
    requires
        lo <= hi <= chars.len(),
    ensures
        span_texts(chars@, spans@) == split_on(chars@.subrange(lo as int, hi as int), sep),
        spans_within(spans@, lo as int, hi as int),
{
    let ghost s = chars@;
    let mut spans: Vec<(usize, usize)> = Vec::new();
    let mut i = lo;
    loop
        invariant
            lo <= i <= hi <= chars.len(),
            s == chars@,
            span_texts(s, spans@) + split_on(s.subrange(i as int, hi as int), sep) == split_on(
                s.subrange(lo as int, hi as int),
                sep,
            ),
            spans_within(spans@, lo as int, hi as int),
        decreases hi - i,
    {
        let j = scan_until(chars, i, hi, sep);
        let ghost rest = s.subrange(i as int, hi as int);
        let ghost prev = span_texts(s, spans@);
        proof {
            assert(rest.take(j - i) =~= s.subrange(i as int, j as int));
        }
        spans.push((i, j));
        proof {
            assert(span_texts(s, spans@) =~= prev.push(s.subrange(i as int, j as int)));
        }
        if j == hi {
            proof {
                assert(rest.take(j - i) =~= rest);
                assert(split_on(rest, sep) =~= seq![rest]);
                assert(span_texts(s, spans@) =~= prev + split_on(rest, sep));
            }
            return spans;
        }
        proof {
            assert(rest.skip(j - i + 1) =~= s.subrange(j + 1, hi as int));
            assert(split_on(rest, sep) =~= seq![s.subrange(i as int, j as int)] + split_on(
                s.subrange(j + 1, hi as int),
                sep,
            ));
            assert(prev + split_on(rest, sep) =~= span_texts(s, spans@) + split_on(
                s.subrange(j + 1, hi as int),
                sep,
            ));
        }
        i = j + 1;
    }
}

/// Spans of the whitespace-separated tokens of `chars[lo..hi]`.
pub fn token_spans(chars: &Vec<char>, lo: usize, hi: usize) -> (spans: Vec<(usize, usize)>)
    requires
        lo <= hi <= chars.len(),
    ensures
        span_texts(chars@, spans@) == tokens(chars@.subrange(lo as int, hi as int)),
        spans_within(spans@, lo as int, hi as int),
{
    let ghost s = chars@;
    let mut spans: Vec<(usize, usize)> = Vec::new();
    let mut i = lo;
    while i < hi
        invariant
            lo <= i <= hi <= chars.len(),
            s == chars@,
            span_texts(s, spans@) + tokens(s.subrange(i as int, hi as int)) == tokens(
                s.subrange(lo as int, hi as int),
            ),
            spans_within(spans@, lo as int, hi as int),
        decreases hi - i,
    {
        let ghost rest = s.subrange(i as int, hi as int);
        if is_whitespace(chars[i]) {
            proof {
                assert(rest.drop_first() =~= s.subrange(i + 1, hi as int));
            }
            i += 1;
        } else {
            let mut j = i + 1;
            while j < hi && !is_whitespace(chars[j])
                invariant
                    i < j <= hi <= chars.len(),
                    s == chars@,
                    forall|k: int| i <= k < j ==> !is_ws(s[k]),
            decreases hi - j,
            {
                j += 1;
            }
            let ghost prev = span_texts(s, spans@);
            proof {
                lemma_word_len_at(s, i as int, j as int, hi as int);
                assert(rest.take(j - i) =~= s.subrange(i as int, j as int));
                assert(rest.skip(j - i) =~= s.subrange(j as int, hi as int));
            }
            spans.push((i, j));
            proof {
                assert(span_texts(s, spans@) =~= prev.push(s.subrange(i as int, j as int)));
                assert(prev + tokens(rest) =~= span_texts(s, spans@) + tokens(
                    s.subrange(j as int, hi as int),
                ));
            }
            i = j;
        }
    }
    proof {
        assert(tokens(s.subrange(hi as int, hi as int)) =~= Seq::<Seq<char>>::empty());
        assert(span_texts(s, spans@) + Seq::<Seq<char>>::empty() =~= span_texts(s, spans@));
    }
    spans
}

/// Whether `chars[lo..hi]` spells out `lit`.
pub fn span_is(chars: &Vec<char>, lo: usize, hi: usize, lit: &str) -> (r: bool)
    requires
        lo <= hi <= chars.len(),
    ensures
        r == (chars@.subrange(lo as int, hi as int) == lit@),
{
    let n = lit.unicode_len();
    if hi - lo != n {
        return false;
    }
    let mut k: usize = 0;
    while k < n
        invariant
            k <= n == hi - lo,
            lo <= hi <= chars.len(),
            n == lit@.len(),
            forall|t: int| 0 <= t < k ==> chars@[lo + t] == lit@[t],
        decreases n - k,
    {
        if chars[lo + k] != lit.get_char(k) {
            proof {
                assert(chars@.subrange(lo as int, hi as int)[k as int] != lit@[k as int]);
            }
            return false;
        }
        k += 1;
    }
    proof {
        assert(chars@.subrange(lo as int, hi as int) =~= lit@);
    }
    true
}

/// Whether `chars[lo..hi]` is the same text as `other`.
pub fn span_eq(chars: &Vec<char>, lo: usize, hi: usize, other: &Vec<char>) -> (r: bool)
    requires
        lo <= hi <= chars.len(),
    ensures
        r == (chars@.subrange(lo as int, hi as int) == other@),
{
    let n = other.len();
    if hi - lo != n {
        return false;
    }
    let mut k: usize = 0;
    while k < n
        invariant
            k <= n == hi - lo,
            lo <= hi <= chars.len(),
            n == other@.len(),
            forall|t: int| 0 <= t < k ==> chars@[lo + t] == other@[t],
        decreases n - k,
    {
        if chars[lo + k] != other[k] {
            proof {
                assert(chars@.subrange(lo as int, hi as int)[k as int] != other@[k as int]);
            }
            return false;
        }
        k += 1;
    }
    proof {
        assert(chars@.subrange(lo as int, hi as int) =~= other@);
    }
    true
}

/// The characters of `s`, in order.
pub fn str_chars(s: &str) -> (v: Vec<char>)
    ensures
        v@ == s@,
{
    broadcast use vstd::string::group_string_axioms;

    let mut v: Vec<char> = Vec::new();
    for c in it: s.chars()
        invariant
            it.seq() == s@,
            v@ == s@.take(it.index() as int),
        ensures
            v@ == s@,
    {
        v.push(c);
        proof {
            assert(s@.take(it.index() + 1) =~= v@);
        }
    }
    v
}

pub open spec fn is_digit(c: char) -> bool {
    48 <= c as u32 <= 57
}

pub open spec fn digit_value(c: char) -> nat {
    (c as u32 - 48) as nat
}

/// The number that a string of decimal digits spells.
pub open spec fn digits_value(s: Seq<char>) -> nat
    decreases s.len(),
{
    if s.len() == 0 {
        0
    } else {
        digits_value(s.drop_last()) * 10 + digit_value(s.last())
    }
}

pub open spec fn all_digits(s: Seq<char>) -> bool {
    forall|i: int| 0 <= i < s.len() ==> is_digit(#[trigger] s[i])
}

/// What `str::parse` gives for an unsigned integer type of unbounded width:
/// an optional `'+'`, then one or more ASCII digits.
pub open spec fn unsigned_value(s: Seq<char>) -> Option<nat> {
    let d = if s.len() > 0 && s[0] == '+' {
        s.drop_first()
    } else {
        s
    };
    if d.len() > 0 && all_digits(d) {
        Some(digits_value(d))
    } else {
        None
    }
}

proof fn lemma_digits_value_prefix(s: Seq<char>, k: int)
    requires
        all_digits(s),
        0 <= k <= s.len(),
    ensures
        digits_value(s.take(k)) <= digits_value(s),
    decreases s.len(),
{
    if k < s.len() {
        assert(s.drop_last().take(k) =~= s.take(k));
        lemma_digits_value_prefix(s.drop_last(), k);
    } else {
        assert(s.take(k) =~= s);
    }
}

/// Parses `chars[lo..hi]` as an unsigned decimal number no greater than
/// `limit`; `None` when the text is not a number or the number is larger.
pub fn parse_bounded(chars: &Vec<char>, lo: usize, hi: usize, limit: u64) -> (r: Option<u64>)
    requires
        lo <= hi <= chars.len(),
    ensures
        match unsigned_value(chars@.subrange(lo as int, hi as int)) {
            Some(n) => if n <= limit {
                r == Some(n as u64)
            } else {
                r is None
            },
            None => r is None,
        },
{
    let ghost s = chars@.subrange(lo as int, hi as int);
    let mut i = lo;
    if i < hi && chars[i] == '+' {
        i += 1;
    }
    let start = i;
    let ghost d = chars@.subrange(start as int, hi as int);
    proof {
        if start > lo {
            assert(s[0] == '+');
            assert(s.drop_first() =~= d);
        } else {
            assert(!(s.len() > 0 && s[0] == '+'));
            assert(s =~= d);
        }
        assert(unsigned_value(s) == if d.len() > 0 && all_digits(d) {
            Some(digits_value(d))
        } else {
            None::<nat>
        });
    }
    if i == hi {
        return None;
    }
    let mut acc: u64 = 0;
    while i < hi
        invariant
            start <= i <= hi <= chars.len(),
            start < hi,
            d == chars@.subrange(start as int, hi as int),
            unsigned_value(chars@.subrange(lo as int, hi as int)) == if d.len() > 0 && all_digits(
                d,
            ) {
                Some(digits_value(d))
            } else {
                None::<nat>
            },
            forall|k: int| start <= k < i ==> is_digit(chars@[k]),
            acc == digits_value(chars@.subrange(start as int, i as int)),
            acc <= limit,
        decreases hi - i,
    {
        let c = chars[i];
        let u = c as u32;
        if u < 48 || u > 57 {
            proof {
                assert(d[i - start] == c);
                assert(!is_digit(d[i - start]));
                assert(!all_digits(d));
            }
            return None;
        }
        let dv = (u - 48) as u64;
        proof {
            assert(chars@.subrange(start as int, i + 1).drop_last() =~= chars@.subrange(
                start as int,
                i as int,
            ));
            assert(chars@.subrange(start as int, i + 1).last() == c);
        }
        if dv > limit || acc > (limit - dv) / 10 {
            proof {
                assert(acc * 10 + dv > limit) by (nonlinear_arith)
                    requires
                        dv > limit || acc > (limit - dv) / 10,
                        dv <= 9,
                ;
                if all_digits(d) {
                    assert(d.take(i + 1 - start) =~= chars@.subrange(start as int, i + 1));
                    lemma_digits_value_prefix(d, i + 1 - start);
                    assert(digits_value(d) > limit);
                }
            }
            return None;
        }
        proof {
            assert(acc * 10 + dv <= limit) by (nonlinear_arith)
                requires
                    acc <= (limit - dv) / 10,
                    dv <= limit,
            ;
        }
        acc = acc * 10 + dv;
        i += 1;
    }
    proof {
        assert(chars@.subrange(start as int, i as int) =~= d);
        assert(all_digits(d));
    }
    Some(acc)
}

} // verus!
