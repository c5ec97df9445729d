//! Random draws for the neighbor generator, backed by the xoshiro generator
//! of the `rand_xoshiro` crate.  A draw's value is never promised beyond its
//! range: every caller must be correct for any outcome.

use vstd::prelude::*;

verus! {

#[verifier::external_type_specification]
#[verifier::external_body]
pub struct ExXoshiro(rand_xoshiro::Xoshiro256PlusPlus);

/// Relies on rand's `Rng::gen_range` over the range `0..n`: the draw lies
/// below `n`.  The call panics on an empty range, so `n` must be positive.
#[verifier::external_body]
pub fn rng_below(rng: &mut rand_xoshiro::Xoshiro256PlusPlus, n: usize) -> (r: usize)
    requires
        n >= 1,
    ensures
        r < n,
{
    rand::Rng::gen_range(rng, 0..n)
}

} // verus!
