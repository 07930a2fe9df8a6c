//! The wall clock.
//!
//! What the clock says is not a function of anything the verifier can see:
//! nothing is claimed of it, and the library's rules are stated for every
//! reading, a failed one included.

use std::time::{Duration, SystemTime, UNIX_EPOCH};
use vstd::prelude::*;

verus! {

/// `std::time::SystemTime`: a reading of the system clock.
#[verifier::external_type_specification]
#[verifier::external_body]
pub struct ExSystemTime(SystemTime);

/// `SystemTime::now`: the current reading of the system clock.
pub assume_specification[ SystemTime::now ]() -> SystemTime;

/// `SystemTime::duration_since`, measured from the Unix epoch: the time that
/// has passed since then, or `None` where the reading lies before it.
#[verifier::external_body]
fn since_unix_epoch(t: &SystemTime) -> Option<Duration> {
    t.duration_since(UNIX_EPOCH).ok()
}

/// `Duration::as_millis`: the whole milliseconds in a duration.
pub assume_specification[ Duration::as_millis ](d: &Duration) -> u128;

/// The wall-clock time in milliseconds since the Unix epoch, or `None` where
/// the clock cannot be read as such.
pub(crate) fn unix_millis() -> Option<u128> {
    let t = SystemTime::now();
    match since_unix_epoch(&t) {
        Some(d) => Some(d.as_millis()),
        None => None,
    }
}

} // verus!
