use vstd::prelude::*;
use rand::Rng;

verus! {

/// Draws an index uniformly from `0..bound` with `rand::Rng::gen_range`
/// on the thread-local generator `rand::thread_rng()`.
/// `gen_range` panics on an empty range, so `bound` must be positive;
/// the contract claims only that the index lies in the range.
#[verifier::external_body]
pub(crate) fn random_below(bound: usize) -> (index: usize)
    requires
        bound > 0,
    ensures
        index < bound,
{
    rand::thread_rng().gen_range(0..bound)
}

} // verus!
