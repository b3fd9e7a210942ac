//! Today's date from the system clock.
use vstd::prelude::*;

verus! {

#[verifier::external_type_specification]
#[verifier::external_body]
pub struct ExSystemTime(std::time::SystemTime);

/// `SystemTime::now`: what the system clock reads. Nothing is stated of it.
#[verifier::external_body]
fn system_now() -> (t: std::time::SystemTime) {
    std::time::SystemTime::now()
}

/// `SystemTime::duration_since(UNIX_EPOCH)`: how long after
/// 1970-01-01T00:00:00Z the time `t` lies, `None` (the outside error) when
/// it lies before. Nothing is stated of the duration.
#[verifier::external_body]
fn since_epoch(t: &std::time::SystemTime) -> (d: Option<core::time::Duration>) {
    match t.duration_since(std::time::UNIX_EPOCH) {
        Ok(d) => Some(d),
        Err(_) => None,
    }
}

/// `Duration::as_secs`: the whole seconds of a duration. `Duration` is
/// opaque here, so nothing is stated of the number.
#[verifier::external_body]
fn whole_secs(d: &core::time::Duration) -> (s: u64) {
    d.as_secs()
}

/// The system clock as whole seconds since 1970-01-01T00:00:00Z, `None`
/// when the clock reads earlier than the epoch.
fn unix_time_secs() -> (secs: Option<u64>) {
    match since_epoch(&system_now()) {
        Some(d) => Some(whole_secs(&d)),
        None => None,
    }
}

/// Largest day number that [`today_days`] can return.
pub open spec fn max_today() -> int {
    u64::MAX as int / 86400
}

/// The day (days since 1970-01-01) that a clock reading in seconds since
/// the epoch falls on; day 0 when the clock read earlier than the epoch.
pub open spec fn day_of_reading(secs: Option<u64>) -> int {
    match secs {
        Some(s) => s as int / 86400,
        None => 0,
    }
}

/// The day that a clock reading falls on, see [`day_of_reading`].
pub fn epoch_day(secs: Option<u64>) -> (d: i64)
    ensures
        d == day_of_reading(secs),
        0 <= d <= max_today(),
{
    match secs {
        Some(s) => (s / 86_400) as i64,
        None => 0,
    }
}

/// Today's date, as days since the Unix epoch. Falls back to day 0 if the
/// system clock is set before 1970, which just makes every expiry look like
/// it is still in the future.
pub fn today_days() -> (d: i64)
    ensures
        exists|secs: Option<u64>| d == #[trigger] day_of_reading(secs),
        0 <= d <= max_today(),
{
    let secs = unix_time_secs();
    let d = epoch_day(secs);
    proof {
        assert(d == day_of_reading(secs));
    }
    d
}

} // verus!
