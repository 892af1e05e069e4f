//! The one source of randomness of the engine, handed to every operation
//! that samples, so that a seed fixes every draw.
use rand::Rng;
use rand::SeedableRng;
use vstd::prelude::*;

use crate::vectors::ONE;

verus! {

#[verifier::external_type_specification]
#[verifier::external_body]
pub struct ExStdRng(rand::rngs::StdRng);

/// Relies on rand's `SeedableRng::seed_from_u64`: a generator fixed by the seed.
#[verifier::external_body]
fn std_rng_from_seed(seed: u64) -> rand::rngs::StdRng {
    rand::rngs::StdRng::seed_from_u64(seed)
}

/// Relies on rand's `Rng::gen_range` on `0..n`: a uniform draw below `n`
/// (it panics on an empty range, which `requires` rules out).
#[verifier::external_body]
fn std_rng_below(rng: &mut rand::rngs::StdRng, n: usize) -> (r: usize)
    requires
        0 < n,
    ensures
        r < n,
{
    rng.gen_range(0..n)
}

/// A seeded, reproducible stream of uniform draws.
pub struct Sampler {
    rng: rand::rngs::StdRng,
}

impl Sampler {
    pub fn seeded(seed: u64) -> (r: Sampler) {
        Sampler { rng: std_rng_from_seed(seed) }
    }

    /// A uniform draw from `0..n`.
    pub fn below(&mut self, n: usize) -> (r: usize)
        requires
            0 < n,
        ensures
            r < n,
    {
        std_rng_below(&mut self.rng, n)
    }

    /// A uniform draw from the fixed-point grid of `[0, 1)`.
    pub fn unit(&mut self) -> (r: i64)
        ensures
            0 <= r < ONE,
    {
        self.below(ONE as usize) as i64
    }

    /// A fair coin.
    pub fn coin(&mut self) -> (r: bool) {
        self.below(2) == 0
    }
}

} // verus!
