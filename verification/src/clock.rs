//! Wall-clock access: whole seconds since the Unix epoch, and whole
//! milliseconds elapsed since an earlier reading.

use vstd::prelude::*;
use std::time::Duration;
use std::time::SystemTime;
use std::time::SystemTimeError;

verus! {

/// `std::time::SystemTime`, carried through opaquely.
#[verifier::external_type_specification]
#[verifier::external_body]
pub struct ExSystemTime(SystemTime);

/// `std::time::SystemTimeError`, carried through opaquely.
#[verifier::external_type_specification]
#[verifier::external_body]
pub struct ExSystemTimeError(SystemTimeError);

/// Gives `std::time::UNIX_EPOCH`, the reference point of Unix time.
/// Nothing about the value is used beyond handing it to `elapsed_since`.
#[verifier::external_body]
fn unix_epoch() -> SystemTime {
    std::time::UNIX_EPOCH
}

/// Calls `std::time::SystemTime::now`.
/// The reading depends on the machine's clock, so nothing is claimed of it.
#[verifier::external_body]
pub(crate) fn system_time_now() -> SystemTime {
    SystemTime::now()
}

/// Calls `std::time::SystemTime::elapsed` on `t`: the time from `t` to the
/// clock's current reading, or an error when the clock now reads earlier
/// than `t`. That depends on the machine's clock, so nothing is claimed of it.
#[verifier::external_body]
fn elapsed_since(t: &SystemTime) -> Result<Duration, SystemTimeError> {
    t.elapsed()
}

/// Calls `std::time::Duration::as_secs`.
/// The durations handled here come from the clock, so nothing is claimed of the result.
#[verifier::external_body]
fn whole_seconds(d: &Duration) -> u64 {
    d.as_secs()
}

/// Calls `std::time::Duration::as_millis`.
/// The durations handled here come from the clock, so nothing is claimed of the result.
#[verifier::external_body]
fn whole_millis(d: &Duration) -> u128 {
    d.as_millis()
}

/// Reads the system clock: seconds since the Unix epoch, or 0 when the
/// clock is set before the epoch.
fn read_unix_seconds() -> u64 {
    let epoch = unix_epoch();
    match elapsed_since(&epoch) {
        Ok(d) => whole_seconds(&d),
        Err(_) => 0,
    }
}

/// `t` is a value that a reading of the system clock (in whole seconds
/// since the Unix epoch) can give.
pub closed spec fn clock_reading(t: u64) -> bool {
    call_ensures(read_unix_seconds, (), t)
}

/// Seconds since the Unix epoch according to the system clock.
/// A clock set before the epoch reads as 0.
pub fn unix_timestamp() -> (t: u64)
    ensures
        clock_reading(t),
{
    let read = read_unix_seconds;
    read()
}

/// Whole milliseconds from `start` to the clock's current reading, or `None`
/// when the clock now reads earlier than `start` (it was set back).
pub fn millis_since(start: &SystemTime) -> Option<u128> {
    match elapsed_since(start) {
        Ok(d) => Some(whole_millis(&d)),
        Err(_) => None,
    }
}

} // verus!
