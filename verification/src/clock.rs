//! The current time in whole seconds.
use std::time::Duration;
use std::time::SystemTime;
use std::time::SystemTimeError;
use vstd::prelude::*;

verus! {

/// `std::time::SystemTime`, a reading of the system clock.
#[verifier::external_type_specification]
#[verifier::external_body]
pub struct ExSystemTime(SystemTime);

/// `std::time::SystemTimeError`, which says that a reading lies before the one it was measured from.
#[verifier::external_type_specification]
#[verifier::external_body]
pub struct ExSystemTimeError(SystemTimeError);

/// Calls `SystemTime::now`. Nothing is claimed of the reading: it depends on the system clock.
#[verifier::external_body]
fn read_clock() -> (t: SystemTime) {
    SystemTime::now()
}

/// Calls `SystemTime::duration_since` with the Unix epoch. Nothing is claimed of the result: a
/// reading of the clock has no value that could be named.
#[verifier::external_body]
fn since_epoch(t: SystemTime) -> (d: Result<Duration, SystemTimeError>) {
    t.duration_since(SystemTime::UNIX_EPOCH)
}

/// Calls `Duration::as_secs`. Nothing is claimed of the number of seconds.
#[verifier::external_body]
fn whole_seconds(d: Duration) -> (s: u64) {
    d.as_secs()
}

/// The seconds since the Unix epoch that a clock reading stands for: its distance from the epoch,
/// or zero where it lies before the epoch.
pub fn seconds_or_zero(elapsed: Option<u64>) -> (s: u64)
    ensures
        s == match elapsed {
            Some(seconds) => seconds,
            None => 0,
        },
{
    match elapsed {
        Some(seconds) => seconds,
        None => 0,
    }
}

/// `s` is what a reading of the system clock gives: the whole seconds of its distance from the Unix
/// epoch, or zero where it lies before the epoch. Which reading that is, only the clock says.
pub closed spec fn clock_gives(s: u64) -> bool {
    exists|t: SystemTime, elapsed: Result<Duration, SystemTimeError>|
        {
            &&& #[trigger] call_ensures(read_clock, (), t)
            &&& #[trigger] call_ensures(since_epoch, (t,), elapsed)
            &&& match elapsed {
                Ok(d) => call_ensures(whole_seconds, (d,), s),
                Err(_) => s == 0,
            }
        }
}

/// The seconds since the Unix epoch by the system clock, or zero where the clock lies before it.
pub fn now() -> (s: u64)
    ensures
        clock_gives(s),
{
    let elapsed = match since_epoch(read_clock()) {
        Ok(d) => Some(whole_seconds(d)),
        Err(_) => None,
    };
    seconds_or_zero(elapsed)
}

} // verus!
