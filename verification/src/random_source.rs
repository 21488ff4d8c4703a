use vstd::prelude::*;

verus! {

/// A caller-supplied source of the random words that drive candidate
/// generation. Implement it with a seeded generator for reproducible
/// training, or use [`ThreadRandom`] for genuinely random runs.
pub trait RandomSource {
    fn next_u64(&mut self) -> u64;
}

/// One step of the linear congruential recurrence: multiply and add the
/// two constants, each modulo `2^64`.
pub open spec fn lcg_step(s: u64) -> u64 {
    vstd::wrapping::u64_specs::wrapping_add(
        vstd::wrapping::u64_specs::wrapping_mul(s, 6364136223846793005),
        1442695040888963407,
    )
}

/// A small deterministic linear congruential generator: with a fixed seed,
/// training that draws its randomness from here is reproducible, and the
/// exact word sequence is pinned by `lcg_step`.
pub struct Lcg64 {
    state: u64,
}

impl Lcg64 {
    /// The generator's current state.
    pub closed spec fn state(self) -> u64 {
        self.state
    }

    pub fn from_seed(seed: u64) -> (r: Lcg64)
        ensures
            r.state() == seed,
    {
        Lcg64 { state: seed }
    }

    /// Advance the recurrence once and return the new state: the word
    /// handed out is exactly `lcg_step` of the state before the call.
    pub fn step(&mut self) -> (r: u64)
        ensures
            r == lcg_step(old(self).state()),
            final(self).state() == r,
    {
        self.state = self.state.wrapping_mul(6364136223846793005).wrapping_add(
            1442695040888963407,
        );
        self.state
    }
}

impl RandomSource for Lcg64 {
    fn next_u64(&mut self) -> u64 {
        self.step()
    }
}

/// Relies on rand::random: draws one value from the thread-local generator.
/// Nothing is promised of which value comes back.
#[verifier::external_body]
fn random_u64() -> u64 {
    rand::random::<u64>()
}

/// A randomness source backed by the process's thread-local generator.
pub struct ThreadRandom {}

impl ThreadRandom {
    pub fn new() -> ThreadRandom {
        ThreadRandom {  }
    }
}

impl RandomSource for ThreadRandom {
    fn next_u64(&mut self) -> u64 {
        random_u64()
    }
}

} // verus!
