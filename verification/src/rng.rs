//! The simulation's random source: a splitmix-style generator with an
//! exact functional specification, seeded once from the process entropy.
//!
//! Every draw is a pure function of the generator's state, so everything
//! computed from draws is deterministic given the seed.

use vstd::prelude::*;

verus! {

/// Relies on `rand::random` for seeding only; nothing can be promised
/// of a random draw, so this has no contract.
#[verifier::external_body]
fn entropy_u64() -> u64 {
    rand::random::<u64>()
}

/// One step of the state: an additive constant, wrapping.
pub open spec fn rng_advance(s: u64) -> u64 {
    s.wrapping_add(0x9E3779B97F4A7C15)
}

/// The output mix applied to a state value.
pub open spec fn rng_mix(s: u64) -> u64 {
    let z1 = (s ^ (s >> 30)).wrapping_mul(0xBF58476D1CE4E5B9);
    let z2 = (z1 ^ (z1 >> 27)).wrapping_mul(0x94D049BB133111EB);
    z2 ^ (z2 >> 31)
}

/// A deterministic pseudo-random generator over a 64-bit state.
pub struct SimRng {
    pub state: u64,
}

impl SimRng {
    /// A generator starting from the given seed.
    pub fn new(seed: u64) -> (r: SimRng)
        ensures
            r.state == seed,
    {
        SimRng { state: seed }
    }

    /// A generator seeded from the process entropy.
    pub fn from_entropy() -> SimRng {
        SimRng { state: entropy_u64() }
    }

    /// The next draw: advances the state and mixes it into the output.
    pub fn next_u64(&mut self) -> (r: u64)
        ensures
            final(self).state == rng_advance(old(self).state),
            r == rng_mix(final(self).state),
    {
        self.state = self.state.wrapping_add(0x9E3779B97F4A7C15);
        let s = self.state;
        let z1 = (s ^ (s >> 30)).wrapping_mul(0xBF58476D1CE4E5B9);
        let z2 = (z1 ^ (z1 >> 27)).wrapping_mul(0x94D049BB133111EB);
        z2 ^ (z2 >> 31)
    }

    /// A draw reduced below a positive bound.
    pub fn next_below(&mut self, n: u64) -> (r: u64)
        requires
            n > 0,
        ensures
            final(self).state == rng_advance(old(self).state),
            r == rng_mix(final(self).state) % n,
            r < n,
    {
        let v = self.next_u64();
        v % n
    }
}

} // verus!
