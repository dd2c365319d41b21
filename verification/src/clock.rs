//! The wall clock.

use vstd::prelude::*;

verus! {

/// `SystemTime::now()` as milliseconds since the Unix epoch. Nothing is
/// promised of the value: it is the machine's clock.
#[verifier::external_body]
pub(crate) fn current_time_ms() -> (r: u64) {
    match std::time::SystemTime::now().duration_since(std::time::UNIX_EPOCH) {
        Ok(d) => d.as_millis() as u64,
        Err(_) => 0,
    }
}

} // verus!
