//! Wall-clock access for assigning sale dates and times at insertion.

use vstd::prelude::*;

verus! {

/// Seconds since the Unix epoch, read from the machine clock.
///
/// Relies on `std::time::SystemTime::elapsed` measured from
/// `std::time::UNIX_EPOCH`; a clock set before the epoch reads as zero.
/// Nothing can be promised of the value: two reads may return anything.
#[verifier::external_body]
pub(crate) fn now_unix_seconds() -> u64 {
    match std::time::UNIX_EPOCH.elapsed() {
        Ok(d) => d.as_secs(),
        Err(_) => 0,
    }
}

} // verus!
