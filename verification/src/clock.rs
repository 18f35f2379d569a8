//! Reading the wall clock, for seeding the word draw. What the clock says is
//! up to the machine: nothing is promised of the readings.
use vstd::prelude::*;
use std::time::Duration;
use std::time::SystemTime;

verus! {

/// `std::time::SystemTime`, a reading of the system clock; opaque here.
#[verifier::external_type_specification]
#[verifier::external_body]
pub struct ExSystemTime(std::time::SystemTime);

/// Calls `std::time::SystemTime::now`. Nothing is claimed of the reading: it
/// depends on the machine's clock.
#[verifier::external_body]
fn now() -> SystemTime {
    SystemTime::now()
}

/// Calls `SystemTime::duration_since` with `std::time::UNIX_EPOCH`, turning
/// its error (a reading before the epoch) into `None`. Nothing is claimed of
/// the result: the reading is opaque here.
#[verifier::external_body]
fn since_epoch(t: &SystemTime) -> Option<Duration> {
    match t.duration_since(std::time::UNIX_EPOCH) {
        Ok(d) => Some(d),
        Err(_) => None,
    }
}

/// Calls `Duration::as_millis`, the whole milliseconds of a duration.
/// Nothing is claimed of the result: the duration is opaque here.
#[verifier::external_body]
fn whole_millis(d: &Duration) -> u128 {
    d.as_millis()
}

/// Milliseconds since the Unix epoch, or `None` if the clock reads earlier.
pub(crate) fn unix_millis() -> Option<u128> {
    match since_epoch(&now()) {
        Some(d) => Some(whole_millis(&d)),
        None => None,
    }
}

} // verus!
