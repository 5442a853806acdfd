//! The source of chance for random positions: the thread-local generator of
//! `rand`. Of a drawn number nothing is known but its range.
use rand::rngs::ThreadRng;
use rand::Rng;
use vstd::prelude::*;

verus! {

#[verifier::external_type_specification]
#[verifier::external_body]
pub struct ExThreadRng(ThreadRng);

/// `Rng::gen_range` over `0..bound`: some number below `bound`. The call
/// panics on an empty range, which the precondition excludes.
#[verifier::external_body]
pub(crate) fn random_below(rng: &mut ThreadRng, bound: usize) -> (n: usize)
    requires
        bound > 0,
    ensures
        n < bound,
{
    rng.gen_range(0..bound)
}

} // verus!
