//! The two sources of nondeterminism the core consumes: the system clock
//! and the process random number generator.
//!
//! Nothing can be promised about either value, so both wrappers carry no
//! contract; every caller states what holds whatever comes back.

use vstd::prelude::*;

verus! {

/// Relies on `std::time::SystemTime`: `now` read once and expressed as
/// whole milliseconds since the Unix epoch, `None` when the clock reads
/// before the epoch.
#[verifier::external_body]
pub(crate) fn now_unix_millis() -> (r: Option<u64>) {
    match std::time::SystemTime::now().duration_since(std::time::SystemTime::UNIX_EPOCH) {
        Ok(d) => {
            let ms = d.as_millis();
            if ms > u64::MAX as u128 {
                Some(u64::MAX)
            } else {
                Some(ms as u64)
            }
        },
        Err(_) => None,
    }
}

/// Relies on `rand::random`: one draw from the thread-local generator.
#[verifier::external_body]
pub(crate) fn random_u64() -> (r: u64) {
    rand::random::<u64>()
}

} // verus!
