//! Trusted boundary around the wall clock.

use vstd::prelude::*;

verus! {

/// Relies on `std::time::SystemTime::now`: milliseconds since the Unix
/// epoch.  Nothing can be promised of the value; a clock before the epoch is
/// reported as 0, the sentinel for "absent".
#[verifier::external_body]
pub(crate) fn now_millis() -> u64 {
    match std::time::SystemTime::now().duration_since(std::time::UNIX_EPOCH) {
        Ok(d) => d.as_millis() as u64,
        Err(_) => 0,
    }
}

} // verus!
