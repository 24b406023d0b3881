use vstd::prelude::*;

verus! {

/// Denominator of crossover and mutation rates: a rate `r` stands for the
/// probability `r / RATE_SCALE`, so `0` means never and `RATE_SCALE` always.
pub const RATE_SCALE: u64 = 1_000_000;

#[verifier::external_type_specification]
#[verifier::external_body]
pub struct ExStdRng(rand::rngs::StdRng);

/// An explicit stream of uniform random draws, wrapped around rand's
/// standard generator so that a run can be seeded and reproduced.
pub struct RandomStream {
    inner: rand::rngs::StdRng,
}

impl RandomStream {
    /// Relies on rand's `SeedableRng::seed_from_u64`: builds a generator
    /// deterministically from a 64-bit seed.
    #[verifier::external_body]
    pub fn from_seed(seed: u64) -> RandomStream {
        RandomStream { inner: <rand::rngs::StdRng as rand::SeedableRng>::seed_from_u64(seed) }
    }

    /// Relies on rand's `SeedableRng::from_entropy`: builds a generator
    /// seeded from the operating system.
    #[verifier::external_body]
    pub fn from_entropy() -> RandomStream {
        RandomStream { inner: <rand::rngs::StdRng as rand::SeedableRng>::from_entropy() }
    }

    /// Relies on rand's `Rng::gen_range`: a draw from `0..n` lies below `n`
    /// (`gen_range` panics on an empty range, hence the precondition).
    /// Nothing more is assumed of the draw.
    #[verifier::external_body]
    pub(crate) fn below(&mut self, n: usize) -> (r: usize)
        requires
            n >= 1,
        ensures
            r < n,
    {
        rand::Rng::gen_range(&mut self.inner, 0..n)
    }
}

/// Relies on rand's `SliceRandom::shuffle`, which reorders the slice in
/// place by swapping elements: the multiset of elements is unchanged.
#[verifier::external_body]
pub(crate) fn shuffle(route: &mut Vec<usize>, rng: &mut RandomStream)
    ensures
        final(route)@.to_multiset() == old(route)@.to_multiset(),
{
    rand::seq::SliceRandom::shuffle(route.as_mut_slice(), &mut rng.inner);
}

} // verus!
