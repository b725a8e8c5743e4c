//! The crate's one source of randomness, behind a trusted wrapper.

use rand::Rng;
use vstd::prelude::*;

verus! {

/// Relies on rand's `Rng::gen_range` over the half-open range `0..n`: the
/// sample lies below `n`. The call panics only on an empty range, which the
/// precondition rules out. Nothing more is promised: two calls on the same
/// argument may differ.
#[verifier::external_body]
pub(crate) fn random_below(n: u32) -> (r: u32)
    requires
        n >= 1,
    ensures
        r < n,
{
    rand::thread_rng().gen_range(0..n)
}

} // verus!
