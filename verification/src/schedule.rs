//! The two background schedules: the liveness sweep runs on a fixed period,
//! and history rotation fires one second before local midnight, then every
//! 24 hours. The wall clock comes from chrono; the delay arithmetic is
//! verified here.
use chrono::Timelike;
use vstd::prelude::*;

verus! {

/// Seconds between two liveness sweeps.
pub const SWEEP_PERIOD_SECS: u64 = 10;

/// Seconds between two history rotations once the schedule is armed.
pub const ROTATION_PERIOD_SECS: u64 = 86400;

/// The second-of-day at which history rotates: 23:59:59 local time, one
/// second before midnight.
pub const ROTATION_BOUNDARY_SECS: u32 = 86399;

/// Relies on chrono (`Utc::now`, `DateTime::timestamp`): seconds since the
/// Unix epoch by the system clock. Nothing can be promised of a clock
/// reading.
#[verifier::external_body]
pub fn utc_now_seconds() -> i64 {
    chrono::Utc::now().timestamp()
}

/// Seconds since the Unix epoch by the system clock, clamped at the epoch:
/// an instant before 1970 only arises from a misset clock and is treated as
/// the epoch itself.
pub fn epoch_seconds_now() -> (r: u64) {
    let t = utc_now_seconds();
    if t < 0 {
        0
    } else {
        t as u64
    }
}

/// Relies on chrono (`Local::now`, `NaiveTime::num_seconds_from_midnight`):
/// the number of non-leap seconds since the last local midnight, which
/// chrono keeps below 86400.
#[verifier::external_body]
pub fn local_seconds_into_day() -> (r: u32)
    ensures
        r < 86400,
{
    chrono::Local::now().time().num_seconds_from_midnight()
}

/// How long to wait, from the given second of the local day, until the next
/// rotation boundary at 23:59:59 local time.
pub fn delay_until_rotation(secs_into_day: u32) -> (r: u32)
    requires
        secs_into_day < 86400,
    ensures
        r == ROTATION_BOUNDARY_SECS - secs_into_day,
        r < 86400,
{
    ROTATION_BOUNDARY_SECS - secs_into_day
}

/// The delay until the next rotation, read from the local wall clock. The
/// rotation schedule is armed once with this delay and then fires every
/// `ROTATION_PERIOD_SECS`.
pub fn rotation_delay_now() -> (r: u32)
    ensures
        r < 86400,
{
    delay_until_rotation(local_seconds_into_day())
}

} // verus!
