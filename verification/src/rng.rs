//! The sampler's randomness source: rand's `StdRng`, declared opaquely and
//! reached only through the two trusted wrappers below. Everything done with
//! a drawn value is verified for every value the contract admits.

use rand::Rng;
use rand::SeedableRng;
use vstd::prelude::*;

verus! {

#[verifier::external_type_specification]
#[verifier::external_body]
pub struct ExStdRng(rand::rngs::StdRng);

/// Relies on rand's `StdRng::seed_from_u64`: builds a generator whose stream
/// is a function of the seed alone, so a fixed seed replays a fixed trace.
#[verifier::external_body]
pub(crate) fn rng_from_seed(seed: u64) -> rand::rngs::StdRng {
    rand::rngs::StdRng::seed_from_u64(seed)
}

/// Relies on rand's `Rng::gen_range` on `0..bound`: some value below
/// `bound`. `gen_range` panics on an empty range, hence the precondition.
#[verifier::external_body]
pub(crate) fn draw_below(rng: &mut rand::rngs::StdRng, bound: u128) -> (r: u128)
    requires
        bound > 0,
    ensures
        r < bound,
{
    rng.gen_range(0..bound)
}

} // verus!
