//! Readings of the system clocks. Each function here makes one call into
//! `std::time`; nothing is promised about the values, which depend on when
//! they are read. Verified code takes them as inputs and states what holds
//! for every reading.

use core::time::Duration;
use std::time::{Instant, SystemTime, SystemTimeError, UNIX_EPOCH};
use vstd::prelude::*;

verus! {

/// The monotonic clock reading `std::time::Instant`, carried opaquely.
#[verifier::external_type_specification]
#[verifier::external_body]
pub struct ExInstant(Instant);

/// The wall clock reading `std::time::SystemTime`, carried opaquely.
#[verifier::external_type_specification]
#[verifier::external_body]
pub struct ExSystemTime(SystemTime);

/// The error of `SystemTime::duration_since`, carried opaquely.
#[verifier::external_type_specification]
#[verifier::external_body]
pub struct ExSystemTimeError(SystemTimeError);

/// Calls `Instant::now`. The reading depends on the time of the call, so
/// nothing is stated about it.
#[verifier::external_body]
pub(crate) fn instant_now() -> Instant {
    Instant::now()
}

/// Calls `Instant::elapsed` on `at`. The result depends on the time of the
/// call, so nothing is stated about it.
#[verifier::external_body]
pub(crate) fn instant_elapsed(at: &Instant) -> Duration {
    at.elapsed()
}

/// Calls `Duration::as_millis`. The duration is opaque here, so nothing is
/// stated about the number of milliseconds.
#[verifier::external_body]
pub(crate) fn duration_as_millis(d: &Duration) -> u128 {
    d.as_millis()
}

/// Calls `Duration::as_nanos`. The duration is opaque here, so nothing is
/// stated about the number of nanoseconds.
#[verifier::external_body]
pub(crate) fn duration_as_nanos(d: &Duration) -> u128 {
    d.as_nanos()
}

/// Calls `SystemTime::now`. The reading depends on the time of the call, so
/// nothing is stated about it.
#[verifier::external_body]
pub(crate) fn system_now() -> SystemTime {
    SystemTime::now()
}

/// Calls `SystemTime::duration_since(UNIX_EPOCH)` on `t`. Whether it fails
/// depends on the opaque reading, so nothing is stated about the outcome.
#[verifier::external_body]
pub(crate) fn since_unix_epoch(t: &SystemTime) -> Result<Duration, SystemTimeError> {
    t.duration_since(UNIX_EPOCH)
}

/// Milliseconds since the Unix epoch on the wall clock, or nothing when the
/// clock reads before the epoch.
pub fn epoch_millis_reading() -> Option<u128> {
    let now = system_now();
    match since_unix_epoch(&now) {
        Ok(d) => Some(duration_as_millis(&d)),
        Err(_) => None,
    }
}

/// The milliseconds of a wall-clock reading, 0 for a reading before the
/// epoch.
pub open spec fn wall_millis_of(reading: Option<u128>) -> u128 {
    match reading {
        Some(ms) => ms,
        None => 0,
    }
}

/// The milliseconds of a wall-clock reading, 0 for a reading before the
/// epoch.
pub fn millis_or_zero(reading: Option<u128>) -> (r: u128)
    ensures
        r == match reading {
            Some(ms) => ms,
            None => 0,
        },
{
    match reading {
        Some(ms) => ms,
        None => 0,
    }
}

/// `ms` is what the wall clock gave in milliseconds since the Unix epoch:
/// the milliseconds of some reading, or 0 for a reading before the epoch.
/// The definition stays inside this module, so elsewhere a value is known
/// to be one only when `unix_time_millis` returned it.
pub closed spec fn is_wall_millis(ms: u128) -> bool {
    exists|reading: Option<u128>| ms == #[trigger] wall_millis_of(reading)
}

/// Milliseconds since the Unix epoch on the wall clock, or 0 when the clock
/// reads before the epoch.
pub fn unix_time_millis() -> (r: u128)
    ensures
        is_wall_millis(r),
{
    let reading = epoch_millis_reading();
    let r = millis_or_zero(reading);
    assert(r == wall_millis_of(reading));
    r
}

/// The reading of a `MonoClock` at the moment it is made: 2^64 ns, so that
/// moments before a clock was made have readings too.
pub const READING_BASE: u128 = 0x1_0000_0000_0000_0000;

/// The monotonic clock as whole nanoseconds since an origin fixed when the
/// clock is made, counted from `READING_BASE`. Readings of one clock are
/// plain integers that verified code stores and compares.
#[derive(Debug, Clone, Copy)]
pub struct MonoClock {
    origin: Instant,
}

impl MonoClock {
    /// A clock whose origin is now.
    pub fn new() -> Self {
        MonoClock { origin: instant_now() }
    }

    /// `r` is a value that this clock can read: readings count from
    /// `READING_BASE`. The definition stays inside this module, so elsewhere
    /// a value is known to be a reading of a clock only when `now_nanos`
    /// returned it for that clock.
    pub closed spec fn is_reading_of(self, r: u128) -> bool {
        r >= READING_BASE
    }

    /// `READING_BASE` plus the nanoseconds elapsed since the origin, as the
    /// monotonic clock reads now (`u128::MAX` past the largest reading). The
    /// value depends on the time of the call; what is stated is that it is a
    /// reading of this clock.
    pub fn now_nanos(&self) -> (r: u128)
        ensures
            self.is_reading_of(r),
    {
        let d = instant_elapsed(&self.origin);
        let elapsed = duration_as_nanos(&d);
        if elapsed <= u128::MAX - READING_BASE {
            READING_BASE + elapsed
        } else {
            u128::MAX
        }
    }
}

/// `a - b`, or 0 when `b` exceeds `a`: the time from reading `b` to reading
/// `a` of one monotonic clock.
pub open spec fn nanos_between(a: u128, b: u128) -> u128 {
    if a >= b {
        (a - b) as u128
    } else {
        0
    }
}

/// The time from reading `since` to reading `now` of one clock is longer
/// than `limit` nanoseconds.
pub open spec fn silent_longer_than(now: u128, since: u128, limit: u128) -> bool {
    nanos_between(now, since) > limit
}

/// The time from reading `earlier` to reading `later`, 0 when `earlier` is
/// the later one.
pub fn elapsed_nanos(later: u128, earlier: u128) -> (r: u128)
    ensures
        r == nanos_between(later, earlier),
{
    if later >= earlier {
        later - earlier
    } else {
        0
    }
}

} // verus!
