//! The pseudo-random source that the engine threads through every operation
//! that resolves chance (drawing tiles from the bag, picking a random move).
//!
//! The generator itself lives in the `rand` crate; the library sees it only
//! through the two trusted items below.

use vstd::prelude::*;

verus! {

#[verifier::external_type_specification]
#[verifier::external_body]
pub struct ExStdRng(rand::rngs::StdRng);

/// A seedable pseudo-random source. Two sources built from the same seed
/// yield the same stream of numbers, which makes searches reproducible.
pub struct RandomSource {
    inner: rand::rngs::StdRng,
}

impl RandomSource {
    /// Relies on rand's `SeedableRng::seed_from_u64`: builds a generator
    /// deterministically from the seed; never panics.
    #[verifier::external_body]
    pub fn from_seed(seed: u64) -> RandomSource {
        RandomSource { inner: <rand::rngs::StdRng as rand::SeedableRng>::seed_from_u64(seed) }
    }

    /// Relies on rand's `RngExt::random_range` over `0..bound`: returns a
    /// uniformly distributed value of the range, and panics only when the
    /// range is empty.
    #[verifier::external_body]
    pub fn next_below(&mut self, bound: usize) -> (r: usize)
        requires
            bound >= 1,
        ensures
            r < bound,
    {
        rand::RngExt::random_range(&mut self.inner, 0..bound)
    }
}

} // verus!
