//! Source of the random draws used by the lossy link and the election timer.

use vstd::prelude::*;

verus! {

/// Draws an integer from the thread-local generator of the `rand` crate by
/// `Rng::gen_range` over the inclusive range `low..=high`.
///
/// Trusted: the draw lies within the range. `gen_range` panics on an empty
/// range, which the precondition excludes. Nothing else is claimed of the
/// value; two calls may differ.
#[verifier::external_body]
pub(crate) fn uniform_inclusive(low: u64, high: u64) -> (draw: u64)
    requires
        low <= high,
    ensures
        low <= draw <= high,
{
    rand::Rng::gen_range(&mut rand::thread_rng(), low..=high)
}

} // verus!
