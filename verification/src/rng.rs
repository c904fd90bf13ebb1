//! The crate's one source of randomness: a seedable generator from the
//! rand crate, reached through a single trusted wrapper.

use vstd::prelude::*;

use rand::Rng;
use rand::rngs::StdRng;

verus! {

#[verifier::external_type_specification]
#[verifier::external_body]
pub struct ExStdRng(StdRng);

/// Relies on rand's `Rng::random_range` over `0..bound`: whatever the
/// generator's state, the sample lies below `bound`.
#[verifier::external_body]
pub(crate) fn random_below(rng: &mut StdRng, bound: usize) -> (r: usize)
    requires
        bound > 0,
    ensures
        r < bound,
{
    rng.random_range(0..bound)
}

} // verus!
