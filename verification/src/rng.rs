//! The library's randomness source: a seedable generator wrapped around an
//! outside pseudo-random number generator. Growth and mutation draw from a
//! caller-supplied `RngSource`, so seeded runs are reproducible.

use vstd::prelude::*;
use rand::rngs::StdRng;
use rand::{Rng, SeedableRng};

verus! {

#[verifier::external_type_specification]
#[verifier::external_body]
pub struct ExStdRng(StdRng);

/// A stream of uniformly distributed draws. Nothing is assumed about the
/// values beyond the bounds of each draw.
pub struct RngSource {
    rng: StdRng,
}

impl RngSource {
    /// Relies on rand::rngs::StdRng::seed_from_u64 (SeedableRng): builds a
    /// deterministic generator from a seed. Nothing is promised about the
    /// values it will yield.
    #[verifier::external_body]
    pub fn seeded(seed: u64) -> RngSource {
        RngSource { rng: StdRng::seed_from_u64(seed) }
    }

    /// Relies on rand::rngs::StdRng::from_entropy (SeedableRng): builds a
    /// generator from fresh operating-system entropy.
    #[verifier::external_body]
    pub fn from_entropy() -> RngSource {
        RngSource { rng: StdRng::from_entropy() }
    }

    /// Relies on rand::Rng::gen_range over `0..bound`: yields a value of the
    /// non-empty range, so the result is below `bound`.
    #[verifier::external_body]
    pub fn below(&mut self, bound: u32) -> (r: u32)
        requires
            bound >= 1,
        ensures
            r < bound,
    {
        self.rng.gen_range(0..bound)
    }

    /// Relies on rand::Rng::gen_range over `-(max)..=max`: yields a value of
    /// the non-empty range, so the result's magnitude is at most `max`.
    #[verifier::external_body]
    pub fn signed_within(&mut self, max: u32) -> (r: i64)
        ensures
            -(max as int) <= r as int <= max as int,
    {
        self.rng.gen_range(-(max as i64)..=(max as i64))
    }

    /// Relies on rand::Rng::gen for u64: one draw of the generator.
    /// Nothing is promised of the value.
    #[verifier::external_body]
    fn gen_u64(&mut self) -> (r: u64) {
        self.rng.gen()
    }

    /// Splits off an independently seeded generator, advancing this one.
    pub fn fork(&mut self) -> (r: RngSource) {
        let seed = self.gen_u64();
        RngSource::seeded(seed)
    }
}

} // verus!
