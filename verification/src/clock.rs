//! Wall-clock access, behind a trusted wrapper.

use vstd::prelude::*;

verus! {

/// Relies on std's `SystemTime::now` and `duration_since`: the seconds
/// from the Unix epoch to now, or `None` when the clock sits before the
/// epoch. Nothing is promised of the value: the clock moves between calls.
#[verifier::external_body]
pub(crate) fn now_unix_secs() -> Option<u64> {
    match std::time::SystemTime::now().duration_since(std::time::UNIX_EPOCH) {
        Ok(d) => Some(d.as_secs()),
        Err(_) => None,
    }
}

} // verus!
