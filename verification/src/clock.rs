//! The engine's clock: a monotonic-enough instant in whole milliseconds,
//! sampled once at the top of each timed operation.
use vstd::prelude::*;

verus! {

/// Relies on std::time::SystemTime::now; the sampled instant is converted to
/// whole milliseconds since the UNIX epoch (0 if the clock reads earlier,
/// saturating at u64::MAX). Nothing is promised of the value: callers state
/// what holds of every possible reading.
#[verifier::external_body]
pub(crate) fn now_millis() -> u64 {
    match std::time::SystemTime::now().duration_since(std::time::UNIX_EPOCH) {
        Ok(d) => u64::try_from(d.as_millis()).unwrap_or(u64::MAX),
        Err(_) => 0,
    }
}

} // verus!
