//! Wall-clock reading used to stamp snapshot documents.

use vstd::prelude::*;

use std::time::SystemTime;
use std::time::UNIX_EPOCH;

verus! {

/// Relies on `std::time::SystemTime::now` and `duration_since(UNIX_EPOCH)`:
/// the wall clock, read as epoch milliseconds, zero when it reads before
/// the epoch.  Nothing is promised of the value: it is a clock.
#[verifier::external_body]
fn system_millis() -> i64 {
    SystemTime::now()
        .duration_since(UNIX_EPOCH)
        .map(|d| d.as_millis() as i64)
        .unwrap_or(0)
}

/// The current wall-clock time in epoch milliseconds.
pub fn chrono_now() -> i64 {
    system_millis()
}

} // verus!
