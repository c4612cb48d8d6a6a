//! Wall-clock readings.
use vstd::prelude::*;

verus! {

/// Milliseconds since the Unix epoch by the system clock, or 0 where the
/// clock stands before the epoch.
#[verifier::external_body]
pub fn current_time_millis() -> u64 {
    match std::time::SystemTime::now().duration_since(std::time::UNIX_EPOCH) {
        Ok(d) => d.as_millis() as u64,
        Err(_) => 0,
    }
}

/// Relies on `chrono::Utc::now` and `timestamp_millis`: the time now in
/// milliseconds since the epoch, used to stamp new orders.
#[verifier::external_body]
pub(crate) fn utc_now_millis() -> i64 {
    chrono::Utc::now().timestamp_millis()
}

} // verus!
