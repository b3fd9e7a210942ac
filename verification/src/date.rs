//! Civil (proleptic Gregorian) dates as days since 1970-01-01, and the
//! `YYYY-MM-DD` text form used by `expires=`.
use crate::text::{parse_bounded, split_on, split_spans, span_texts, unsigned_value};
use vstd::prelude::*;

verus! {

pub open spec fn leap(y: int) -> bool {
    y % 4 == 0 && (y % 100 != 0 || y % 400 == 0)
}

pub open spec fn month_days(y: int, m: int) -> int {
    if m == 1 || m == 3 || m == 5 || m == 7 || m == 8 || m == 10 || m == 12 {
        31
    } else if m == 4 || m == 6 || m == 9 || m == 11 {
        30
    } else if m == 2 {
        if leap(y) {
            29
        } else {
            28
        }
    } else {
        0
    }
}

/// A calendar date that `expires=` accepts: a year that fits in `i64` (the
/// text form has no sign), a month 1..=12 and a day within that month.
pub open spec fn valid_date(y: int, m: int, d: int) -> bool {
    &&& 0 <= y <= i64::MAX
    &&& 1 <= m <= 12
    &&& 1 <= d <= month_days(y, m)
}

/// Years counted from March, so that a leap day ends the year.
pub open spec fn shifted_year(y: int, m: int) -> int {
    if m <= 2 {
        y - 1
    } else {
        y
    }
}

/// Day of the March-based year on which month `m`, day `d` falls.
pub open spec fn day_of_year(m: int, d: int) -> int {
    (153 * ((m + 9) % 12) + 2) / 5 + d - 1
}

/// Days in the first `yoe` years of a 400-year era.
pub open spec fn days_before_year(yoe: int) -> int {
    yoe * 365 + yoe / 4 - yoe / 100
}

/// Days from 1970-01-01 to the given date.
pub open spec fn civil_to_days(y: int, m: int, d: int) -> int {
    let y1 = shifted_year(y, m);
    let era = y1 / 400;
    let yoe = y1 - era * 400;
    era * 146097 + days_before_year(yoe) + day_of_year(m, d) - 719468
}

/// The arithmetic of `days_from_civil` stays within `i64`: the first day
/// of the date's 400-year era, and the day number itself.
pub open spec fn civil_fits(y: int, m: int, d: int) -> bool {
    let y1 = shifted_year(y, m);
    let era = y1 / 400;
    let first = era * 146097;
    let doe = days_before_year(y1 - era * 400) + day_of_year(m, d);
    &&& i64::MIN <= first
    &&& first + doe <= i64::MAX
    &&& i64::MIN <= first + doe - 719468
}

/// The day number of `YYYY-MM-DD` text: a valid date whose day number
/// fits in `i64`.
pub open spec fn date_days(v: Seq<char>) -> Option<int> {
    match date_fields(v) {
        Some((y, m, d)) => if civil_fits(y, m, d) {
            Some(civil_to_days(y, m, d))
        } else {
            None
        },
        None => None,
    }
}

/// The date (year, month, day) that lies `z` days after 1970-01-01.
pub open spec fn days_to_civil(z: int) -> (int, int, int) {
    let z1 = z + 719468;
    let era = z1 / 146097;
    let doe = z1 - era * 146097;
    let yoe = (doe - doe / 1460 + doe / 36524 - doe / 146096) / 365;
    let y = yoe + era * 400;
    let doy = doe - days_before_year(yoe);
    let mp = (5 * doy + 2) / 153;
    let d = doy - (153 * mp + 2) / 5 + 1;
    let m = if mp < 10 {
        mp + 3
    } else {
        mp - 9
    };
    (
        if m <= 2 {
            y + 1
        } else {
            y
        },
        m,
        d,
    )
}

/// The (year, month, day) that `YYYY-MM-DD` text stands for: three
/// `'-'`-separated unsigned numbers forming a valid date.
pub open spec fn date_fields(v: Seq<char>) -> Option<(int, int, int)> {
    let parts = split_on(v, '-');
    if parts.len() == 3 {
        match (
            unsigned_value(parts[0]),
            unsigned_value(parts[1]),
            unsigned_value(parts[2]),
        ) {
            (Some(y), Some(m), Some(d)) => if valid_date(y as int, m as int, d as int) {
                Some((y as int, m as int, d as int))
            } else {
                None
            },
            _ => None,
        }
    } else {
        None
    }
}

/// A day number that stands for a date `expires=` accepts.
pub open spec fn is_expiry_day(z: int) -> bool {
    exists|y: int, m: int, d: int|
        valid_date(y, m, d) && civil_fits(y, m, d) && z == #[trigger] civil_to_days(y, m, d)
}

pub fn is_leap_year(y: i64) -> (r: bool)
    ensures
        r == leap(y as int),
{
    y % 4 == 0 && (y % 100 != 0 || y % 400 == 0)
}

pub fn days_in_month(y: i64, m: u32) -> (r: u32)
    ensures
        r == month_days(y as int, m as int),
{
    match m {
        1 | 3 | 5 | 7 | 8 | 10 | 12 => 31,
        4 | 6 | 9 | 11 => 30,
        2 => {
            if is_leap_year(y) {
                29
            } else {
                28
            }
        },
        _ => 0,
    }
}

/// Days since the Unix epoch (1970-01-01), civil calendar, proleptic
/// Gregorian. Day granularity keeps `expires=2026-01-01` meaning the same
/// thing whatever the time of day.
pub fn days_from_civil(y: i64, m: i64, d: i64) -> (r: i64)
    requires
        1 <= m <= 12,
        1 <= d <= 31,
        civil_fits(y as int, m as int, d as int),
    ensures
        r == civil_to_days(y as int, m as int, d as int),
{
    proof {
        lemma_civil_fits_year(y as int, m as int, d as int);
    }
    let y = if m <= 2 {
        y - 1
    } else {
        y
    };
    let era = (if y >= 0 {
        y
    } else {
        y - 399
    }) / 400;
    assert(era == (y as int) / 400);
    let yoe = y - era * 400;
    let mp = (m + 9) % 12;
    let doy = (153 * mp + 2) / 5 + d - 1;
    let doe = yoe * 365 + yoe / 4 - yoe / 100 + doy;
    era * 146097 + doe - 719468
}

/// Where `civil_fits` holds, the year lies far inside `i64`.
proof fn lemma_civil_fits_year(y: int, m: int, d: int)
    requires
        1 <= m <= 12,
        1 <= d <= 31,
        civil_fits(y, m, d),
    ensures
        -0x100_0000_0000_0000 <= shifted_year(y, m) <= 0x100_0000_0000_0000,
{
    let y1 = shifted_year(y, m);
    let era = y1 / 400;
    assert(0 <= days_before_year(y1 - era * 400) + day_of_year(m, d));
    assert(era * 146097 <= i64::MAX);
    assert(0 <= y1 - era * 400 < 400);
    assert(-0x100_0000_0000_0000 <= y1 <= 0x100_0000_0000_0000) by (nonlinear_arith)
        requires
            0 <= y1 - era * 400 < 400,
            i64::MIN <= era * 146097 <= i64::MAX,
    ;
}

/// Every year within a thousand trillion of year 0 has day numbers that
/// fit in `i64`.
pub proof fn lemma_moderate_years_fit(y: int, m: int, d: int)
    requires
        -1_000_000_000_000_000 <= y <= 1_000_000_000_000_000,
        1 <= m <= 12,
        1 <= d <= 31,
    ensures
        civil_fits(y, m, d),
{
    let y1 = shifted_year(y, m);
    let era = y1 / 400;
    let yoe = y1 - era * 400;
    assert(0 <= yoe < 400);
    assert(-3_000_000_000_000 <= era <= 3_000_000_000_000) by (nonlinear_arith)
        requires
            era == y1 / 400,
            -1_000_000_000_000_001 <= y1 <= 1_000_000_000_000_000,
    ;
    assert(-3_000_000_000_000 * 146097 <= era * 146097 <= 3_000_000_000_000 * 146097) by (nonlinear_arith)
        requires
            -3_000_000_000_000 <= era <= 3_000_000_000_000,
    ;
}

/// Parses `chars[lo..hi]` as `YYYY-MM-DD` into (year, month, day).
pub fn parse_ymd(chars: &Vec<char>, lo: usize, hi: usize) -> (r: Option<(i64, i64, i64)>)
    requires
        lo <= hi <= chars.len(),
    ensures
        match date_fields(chars@.subrange(lo as int, hi as int)) {
            Some((y, m, d)) => r == Some((y as i64, m as i64, d as i64)),
            None => r is None,
        },
{
    let parts = split_spans(chars, lo, hi, '-');
    if parts.len() != 3 {
        return None;
    }
    proof {
        assert(span_texts(chars@, parts@)[0] == chars@.subrange(parts@[0].0 as int, parts@[0].1 as int));
        assert(span_texts(chars@, parts@)[1] == chars@.subrange(parts@[1].0 as int, parts@[1].1 as int));
        assert(span_texts(chars@, parts@)[2] == chars@.subrange(parts@[2].0 as int, parts@[2].1 as int));
    }
    let (y0, y1) = parts[0];
    let (m0, m1) = parts[1];
    let (d0, d1) = parts[2];
    let y = match parse_bounded(chars, y0, y1, 0x7fff_ffff_ffff_ffff) {
        Some(y) => y,
        None => return None,
    };
    let m = match parse_bounded(chars, m0, m1, 12) {
        Some(m) => m,
        None => return None,
    };
    let d = match parse_bounded(chars, d0, d1, 31) {
        Some(d) => d,
        None => return None,
    };
    if m < 1 || d < 1 || d > days_in_month(y as i64, m as u32) as u64 {
        return None;
    }
    Some((y as i64, m as i64, d as i64))
}

/// Whether the day number of the given date fits in `i64`.
pub fn days_fit(y: i64, m: i64, d: i64) -> (r: bool)
    requires
        1 <= m <= 12,
        1 <= d <= 31,
    ensures
        r == civil_fits(y as int, m as int, d as int),
{
    let y1: i128 = if m <= 2 {
        y as i128 - 1
    } else {
        y as i128
    };
    let era: i128 = (if y1 >= 0 {
        y1
    } else {
        y1 - 399
    }) / 400;
    assert(era == (y1 as int) / 400);
    let yoe = y1 - era * 400;
    let mp = (m + 9) % 12;
    let doy = (153 * mp + 2) / 5 + d - 1;
    let doe = yoe * 365 + yoe / 4 - yoe / 100 + doy as i128;
    let first = era * 146097;
    -0x8000_0000_0000_0000 <= first && first + doe <= 0x7fff_ffff_ffff_ffff
        && -0x8000_0000_0000_0000 <= first + doe - 719468
}

/// Parses `chars[lo..hi]` as a `YYYY-MM-DD` date, into days since the Unix
/// epoch; `None` for text that is not a valid date, or a date whose day
/// number does not fit in `i64`.
pub fn parse_date(chars: &Vec<char>, lo: usize, hi: usize) -> (r: Option<i64>)
    requires
        lo <= hi <= chars.len(),
    ensures
        match date_days(chars@.subrange(lo as int, hi as int)) {
            Some(z) => r == Some(z as i64),
            None => r is None,
        },
        r matches Some(z) ==> is_expiry_day(z as int),
{
    match parse_ymd(chars, lo, hi) {
        Some((y, m, d)) => {
            if !days_fit(y, m, d) {
                return None;
            }
            let days = days_from_civil(y, m, d);
            proof {
                assert(valid_date(y as int, m as int, d as int));
                assert(civil_to_days(y as int, m as int, d as int) == days);
            }
            Some(days)
        },
        None => None,
    }
}

/// Within a 400-year era, the year-of-era formula of `days_to_civil`
/// recovers the year from a day of that year.
proof fn lemma_year_of_era(yoe: int, doy: int)
    requires
        0 <= yoe <= 399,
        0 <= doy <= 365,
        doy == 365 ==> leap(yoe + 1),
    ensures
        ({
            let doe = days_before_year(yoe) + doy;
            (doe - doe / 1460 + doe / 36524 - doe / 146096) / 365 == yoe
        }),
{
    let doe = days_before_year(yoe) + doy;
    assert((doe - doe / 1460 + doe / 36524 - doe / 146096) / 365 == yoe) by (nonlinear_arith)
        requires
            0 <= yoe <= 399,
            0 <= doy <= 365,
            doy == 365 ==> leap(yoe + 1),
            doe == yoe * 365 + yoe / 4 - yoe / 100 + doy,
    ;
}

/// Within a March-based year, the month formula of `days_to_civil` recovers
/// the month and day.
proof fn lemma_month_of_year(m: int, d: int)
    requires
        1 <= m <= 12,
        1 <= d,
        d <= month_days(0, m) || (m == 2 && d == 29),
    ensures
        ({
            let mp = (m + 9) % 12;
            let doy = day_of_year(m, d);
            &&& 0 <= doy <= 365
            &&& doy == 365 ==> m == 2 && d == 29
            &&& (5 * doy + 2) / 153 == mp
            &&& doy - (153 * mp + 2) / 5 + 1 == d
        }),
{
    let mp = (m + 9) % 12;
    if m <= 2 {
        assert(mp == m + 9);
    } else {
        assert(mp == m - 3);
    }
}

/// Turning a date into its day number and back gives the same date: the
/// `expires` date that `describe` shows is the one that was written.
pub proof fn lemma_civil_roundtrip(y: int, m: int, d: int)
    requires
        valid_date(y, m, d),
    ensures
        days_to_civil(civil_to_days(y, m, d)) == (y, m, d),
{
    let y1 = shifted_year(y, m);
    let era = y1 / 400;
    let yoe = y1 - era * 400;
    let mp = (m + 9) % 12;
    let doy = day_of_year(m, d);
    lemma_month_of_year(m, d);
    if doy == 365 {
        assert(leap(y));
        assert(leap(yoe + 1)) by (nonlinear_arith)
            requires
                leap(y),
                y == y1 + 1,
                y1 == era * 400 + yoe,
        ;
    }
    lemma_year_of_era(yoe, doy);
    let doe = days_before_year(yoe) + doy;
    assert(0 <= doe <= 146096);
    let z1 = era * 146097 + doe;
    assert(z1 / 146097 == era && z1 - (z1 / 146097) * 146097 == doe) by (nonlinear_arith)
        requires
            0 <= doe < 146097,
            z1 == era * 146097 + doe,
    ;
    assert(civil_to_days(y, m, d) + 719468 == z1);
}

/// Day number, plus 719468, of March 1 of the March-based year `y1`.
pub open spec fn year_start(y1: int) -> int {
    (y1 / 400) * 146097 + days_before_year(y1 - (y1 / 400) * 400)
}

proof fn lemma_year_start_step(y1: int)
    ensures
        year_start(y1 + 1) == year_start(y1) + 365 + if leap(y1 + 1) {
            1int
        } else {
            0int
        },
{
    let e = y1 / 400;
    let r = y1 - e * 400;
    assert(0 <= r < 400);
    if r < 399 {
        assert((y1 + 1) / 400 == e) by (nonlinear_arith)
            requires
                y1 + 1 == e * 400 + r + 1,
                0 <= r + 1 < 400,
        ;
        assert(leap(y1 + 1) == leap(r + 1)) by (nonlinear_arith)
            requires
                y1 + 1 == e * 400 + (r + 1),
        ;
        assert(days_before_year(r + 1) == days_before_year(r) + 365 + if leap(r + 1) {
            1int
        } else {
            0int
        }) by (nonlinear_arith)
            requires
                0 <= r < 399,
        ;
    } else {
        assert((y1 + 1) / 400 == e + 1) by (nonlinear_arith)
            requires
                y1 + 1 == (e + 1) * 400,
        ;
        assert(leap(y1 + 1)) by (nonlinear_arith)
            requires
                y1 + 1 == (e + 1) * 400,
        ;
    }
}

/// The calendar day after the given one.
pub open spec fn next_day(y: int, m: int, d: int) -> (int, int, int) {
    if d < month_days(y, m) {
        (y, m, d + 1)
    } else if m < 12 {
        (y, m + 1, 1)
    } else {
        (y + 1, 1, 1)
    }
}

/// Consecutive calendar days get consecutive day numbers, in every year of
/// the proleptic Gregorian calendar, negative years included: the day
/// numbering is strictly increasing and has no gaps.
pub proof fn lemma_next_day(y: int, m: int, d: int)
    requires
        1 <= m <= 12,
        1 <= d <= month_days(y, m),
    ensures
        ({
            let (y2, m2, d2) = next_day(y, m, d);
            civil_to_days(y2, m2, d2) == civil_to_days(y, m, d) + 1
        }),
{
    if m == 2 && d == month_days(y, m) {
        lemma_year_start_step(y - 1);
        assert(civil_to_days(y, 2, d) == year_start(y - 1) + 336 + d - 719468);
        assert(civil_to_days(y, 3, 1) == year_start(y) - 719468);
    } else if d == month_days(y, m) && m < 12 {
        assert(shifted_year(y, m) == shifted_year(y, m + 1));
    } else if d == month_days(y, m) {
        assert(shifted_year(y, 12) == shifted_year(y + 1, 1));
    }
}

} // verus!
