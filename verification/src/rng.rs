use vstd::prelude::*;

verus! {

#[verifier::external_type_specification]
#[verifier::external_body]
pub struct ExStdRng(rand::rngs::StdRng);

/// The pipeline's random source: a seedable generator passed explicitly
/// through every randomised stage, so that a run can be reproduced.
pub struct WorldRng {
    inner: rand::rngs::StdRng,
}

impl WorldRng {
    /// Relies on rand's `SeedableRng::seed_from_u64`: builds a generator whose
    /// stream is a function of the seed alone.
    #[verifier::external_body]
    pub fn from_seed(seed: u64) -> (r: WorldRng) {
        WorldRng { inner: rand::SeedableRng::seed_from_u64(seed) }
    }

    /// Relies on rand's `SeedableRng::from_entropy`: builds a generator seeded
    /// from the operating system's entropy source.
    #[verifier::external_body]
    pub fn from_entropy() -> (r: WorldRng) {
        WorldRng { inner: rand::SeedableRng::from_entropy() }
    }

    /// Relies on rand's `Rng::gen_range`: returns a value sampled from the
    /// half-open range `low..high`, and panics only when the range is empty,
    /// which the precondition rules out.
    #[verifier::external_body]
    pub fn gen_range(&mut self, low: u64, high: u64) -> (n: u64)
        requires
            low < high,
        ensures
            low <= n < high,
    {
        rand::Rng::gen_range(&mut self.inner, low..high)
    }

    /// A draw that succeeds with probability `percent` in 100; a zero
    /// probability never succeeds, and a certain one always does.
    pub fn chance(&mut self, percent: u64) -> (b: bool)
        requires
            percent <= 100,
        ensures
            percent == 0 ==> !b,
            percent == 100 ==> b,
    {
        let draw = self.gen_range(0, 100);
        draw < percent
    }

    /// A uniformly drawn index below `n`.
    pub fn pick_index(&mut self, n: usize) -> (k: usize)
        requires
            1 <= n,
        ensures
            k < n,
    {
        let draw = self.gen_range(0, n as u64);
        draw as usize
    }
}

} // verus!
