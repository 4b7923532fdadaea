//! The wall clock, as far as the list of recent stickers reads it.

use std::time::{Duration, SystemTime, SystemTimeError};
use vstd::prelude::*;

verus! {

/// std's `SystemTime`, carried through as an opaque value.
#[verifier::external_type_specification]
#[verifier::external_body]
pub struct ExSystemTime(SystemTime);

/// std's `SystemTimeError`, carried through as an opaque value.
#[verifier::external_type_specification]
#[verifier::external_body]
pub struct ExSystemTimeError(SystemTimeError);

/// `SystemTime::now` reads the system clock. Nothing is claimed of the
/// reading.
pub assume_specification[ SystemTime::now ]() -> (now: SystemTime);

/// `Duration::as_secs` gives the whole seconds of a duration. Nothing is
/// claimed of their number.
pub assume_specification[ Duration::as_secs ](duration: &Duration) -> (secs: u64);

/// `SystemTime::duration_since`, taken from `std::time::UNIX_EPOCH`: the
/// time that passed from the start of Unix time to `now`, or an error where
/// `now` lies before that start. Nothing is claimed of which it is, nor of
/// the amount.
#[verifier::external_body]
fn since_unix_epoch(now: &SystemTime) -> (passed: Result<Duration, SystemTimeError>) {
    now.duration_since(std::time::UNIX_EPOCH)
}

/// The whole seconds that have passed since the start of Unix time, by the
/// system clock. A clock that stands before that start counts as standing
/// at it.
pub(crate) fn unix_seconds() -> (secs: u64) {
    let now = SystemTime::now();
    match since_unix_epoch(&now) {
        Ok(passed) => passed.as_secs(),
        Err(_) => 0,
    }
}

} // verus!
