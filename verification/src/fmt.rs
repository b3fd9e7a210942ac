//! Building text: decimal numbers, zero padding, `YYYY-MM-DD` dates.
use crate::date::{days_to_civil, is_expiry_day, lemma_civil_roundtrip, valid_date};
use vstd::prelude::*;

verus! {

/// `String::push`: appends `c` to the end of `s`.
#[verifier::external_body]
pub(crate) fn push_char(s: &mut String, c: char)
    ensures
        final(s)@ == old(s)@.push(c),
{
    s.push(c);
}

/// The string made of the characters of `v`.
pub fn chars_to_string(v: &Vec<char>) -> (s: String)
    ensures
        s@ == v@,
{
    let mut s = String::new();
    let mut i: usize = 0;
    while i < v.len()
        invariant
            i <= v@.len(),
            s@ == v@.take(i as int),
        decreases v.len() - i,
    {
        push_char(&mut s, v[i]);
        proof {
            assert(v@.take(i + 1) =~= s@);
        }
        i += 1;
    }
    proof {
        assert(v@.take(v@.len() as int) =~= v@);
    }
    s
}

pub open spec fn digit_char(d: nat) -> char {
    if d == 0 {
        '0'
    } else if d == 1 {
        '1'
    } else if d == 2 {
        '2'
    } else if d == 3 {
        '3'
    } else if d == 4 {
        '4'
    } else if d == 5 {
        '5'
    } else if d == 6 {
        '6'
    } else if d == 7 {
        '7'
    } else if d == 8 {
        '8'
    } else {
        '9'
    }
}

/// The decimal digits of `n`, most significant first, as `{}` prints it.
pub open spec fn decimal(n: nat) -> Seq<char>
    decreases n,
{
    if n < 10 {
        seq![digit_char(n)]
    } else {
        decimal(n / 10).push(digit_char(n % 10))
    }
}

/// `n` in decimal, left-padded with `'0'` to at least `width` characters,
/// as `{:0width$}` prints a non-negative number.
pub open spec fn zero_padded(n: nat, width: nat) -> Seq<char> {
    let t = decimal(n);
    if t.len() < width {
        Seq::new((width - t.len()) as nat, |i: int| '0') + t
    } else {
        t
    }
}

/// `YYYY-MM-DD` for a date with a non-negative year.
pub open spec fn date_text(date: (int, int, int)) -> Seq<char> {
    zero_padded(date.0 as nat, 4) + seq!['-'] + zero_padded(date.1 as nat, 2) + seq!['-']
        + zero_padded(date.2 as nat, 2)
}

fn digit(d: u64) -> (c: char)
    requires
        d < 10,
    ensures
        c == digit_char(d as nat),
{
    match d {
        0 => '0',
        1 => '1',
        2 => '2',
        3 => '3',
        4 => '4',
        5 => '5',
        6 => '6',
        7 => '7',
        8 => '8',
        _ => '9',
    }
}

/// Appends the decimal digits of `n` to `out`.
pub fn push_decimal(out: &mut String, n: u64)
    ensures
        final(out)@ == old(out)@ + decimal(n as nat),
    decreases n,
{
    if n >= 10 {
        push_decimal(out, n / 10);
    }
    push_char(out, digit(n % 10));
    proof {
        if n >= 10 {
            assert(old(out)@ + decimal(n as nat) =~= old(out)@ + decimal((n / 10) as nat) + seq![
                digit_char((n % 10) as nat),
            ]);
        }
    }
}

fn decimal_width(n: u64) -> (w: u64)
    ensures
        w == decimal(n as nat).len(),
    decreases n,
{
    if n < 10 {
        1
    } else {
        let w = decimal_width(n / 10);
        proof {
            assert(w <= n / 10 + 1) by {
                lemma_decimal_len_bound(n as nat / 10);
            }
        }
        w + 1
    }
}

proof fn lemma_decimal_len_bound(n: nat)
    ensures
        decimal(n).len() <= n + 1,
    decreases n,
{
    if n >= 10 {
        lemma_decimal_len_bound(n / 10);
    }
}

/// Appends `n` in decimal, left-padded with `'0'` to `width` characters.
pub fn push_zero_padded(out: &mut String, n: u64, width: u64)
    ensures
        final(out)@ == old(out)@ + zero_padded(n as nat, width as nat),
{
    let w = decimal_width(n);
    let ghost start = out@;
    if w < width {
        let mut k: u64 = 0;
        while k < width - w
            invariant
                k <= width - w,
                w < width,
                out@ == start + Seq::new(k as nat, |i: int| '0'),
            decreases width - w - k,
        {
            push_char(out, '0');
            proof {
                assert(start + Seq::new((k + 1) as nat, |i: int| '0') =~= out@);
            }
            k += 1;
        }
    }
    push_decimal(out, n);
    proof {
        if w < width {
            assert(out@ =~= start + zero_padded(n as nat, width as nat));
        }
    }
}

/// `YYYY-MM-DD` for a stored expiry day, turning [`crate::date::days_from_civil`] around.
pub fn civil_date_string(z: i64) -> (s: String)
    requires
        is_expiry_day(z as int),
    ensures
        s@ == date_text(days_to_civil(z as int)),
{
    let ghost (gy, gm, gd) = choose|y: int, m: int, d: int|
        valid_date(y, m, d) && crate::date::civil_fits(y, m, d) && z == #[trigger] crate::date::civil_to_days(y, m, d);
    proof {
        lemma_civil_roundtrip(gy, gm, gd);
    }
    let z = z + 719468;
    let era = (if z >= 0 {
        z
    } else {
        z - 146096
    }) / 146097;
    assert(era == (z as int) / 146097);
    let doe = z - era * 146097;
    let yoe = (doe - doe / 1460 + doe / 36524 - doe / 146096) / 365;
    let y = yoe + era * 400;
    let doy = doe - (365 * yoe + yoe / 4 - yoe / 100);
    let mp = (5 * doy + 2) / 153;
    let d = doy - (153 * mp + 2) / 5 + 1;
    let m = if mp < 10 {
        mp + 3
    } else {
        mp - 9
    };
    let y = if m <= 2 {
        y + 1
    } else {
        y
    };
    assert((y as int, m as int, d as int) == days_to_civil(z as int - 719468));
    let mut s = String::new();
    push_zero_padded(&mut s, y as u64, 4);
    push_char(&mut s, '-');
    push_zero_padded(&mut s, m as u64, 2);
    push_char(&mut s, '-');
    push_zero_padded(&mut s, d as u64, 2);
    proof {
        assert(s@ =~= date_text(days_to_civil(z as int - 719468)));
    }
    s
}

} // verus!
