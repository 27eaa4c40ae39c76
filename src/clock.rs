//! Wall-clock time, for the advisory timestamps that entries carry.
use vstd::prelude::*;

verus! {

/// Relies on std::time::SystemTime::now and Duration::as_millis: milliseconds
/// since the Unix epoch. The value depends on the machine's clock, so nothing
/// is promised of it; a clock set before the epoch reads as 0.
#[verifier::external_body]
pub fn now_millis() -> (r: u128) {
    match std::time::SystemTime::now().duration_since(std::time::UNIX_EPOCH) {
        Ok(d) => d.as_millis(),
        Err(_) => 0,
    }
}

} // verus!
