//! Deterministic pseudo-random number generation for the routing solver,
//! backed by rand's standard generator. Every draw is a deterministic
//! function of the seed, so a solver run is reproducible.

use vstd::prelude::*;

verus! {

#[verifier::external_type_specification]
#[verifier::external_body]
pub struct ExStdRng(rand::rngs::StdRng);

/// A seeded pseudo-random generator.
pub struct Rng {
    inner: rand::rngs::StdRng,
}

impl Rng {
    /// Relies on rand's `SeedableRng::seed_from_u64`, which builds the
    /// generator state deterministically from the seed.
    #[verifier::external_body]
    pub fn from_seed(seed: u64) -> (r: Rng) {
        Rng { inner: <rand::rngs::StdRng as rand::SeedableRng>::seed_from_u64(seed) }
    }

    /// Relies on rand's `Rng::gen_range`, which returns a value uniformly
    /// drawn from `[0, bound)` and panics only on an empty range; the
    /// precondition rules the empty range out.
    #[verifier::external_body]
    pub fn next_below(&mut self, bound: u128) -> (r: u128)
        requires
            bound >= 1,
        ensures
            r < bound,
    {
        rand::Rng::gen_range(&mut self.inner, 0..bound)
    }
}

} // verus!
