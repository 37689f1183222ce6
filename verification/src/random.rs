//! Random numbers from a PCG generator.
use vstd::prelude::*;
use rand::{Rng, SeedableRng};
use std::ops::{Range, RangeInclusive};

verus! {

/// The generator behind [`RandomNumberGenerator`]: `rand_pcg::Pcg64Mcg`.
#[verifier::external_type_specification]
#[verifier::external_body]
pub struct ExMcg128Xsl64(rand_pcg::Mcg128Xsl64);

/// The state that a generator holds: the 128 bits of its one field.
pub uninterp spec fn pcg_state(rng: rand_pcg::Mcg128Xsl64) -> u128;

/// The state in which `SeedableRng::seed_from_u64` starts a generator for a
/// seed.
pub uninterp spec fn pcg_seeded_state(seed: u64) -> u128;

/// What `Rng::gen` draws as a `u64` from a generator in a given state, and
/// the state in which it leaves the generator.
pub uninterp spec fn pcg_drawn(state: u128) -> (u64, u128);

/// What `Rng::gen_range` draws from the half-open range from `low` to
/// `high` with a generator in a given state, and the state in which it
/// leaves the generator.
pub uninterp spec fn pcg_drawn_below(state: u128, low: i64, high: i64) -> (i64, u128);

/// What `Rng::gen_range` draws from the closed range from `low` to `high`
/// with a generator in a given state, and the state in which it leaves the
/// generator.
pub uninterp spec fn pcg_drawn_within(state: u128, low: i64, high: i64) -> (i64, u128);

/// `SeedableRng::from_entropy`: a generator seeded by the operating system.
/// Nothing is known of its state. The call gives up if the operating system
/// has no entropy to offer.
#[verifier::external_body]
fn pcg_from_entropy() -> (rng: rand_pcg::Mcg128Xsl64) {
    rand_pcg::Mcg128Xsl64::from_entropy()
}

/// `SeedableRng::seed_from_u64`: a generator seeded from `seed`. Its state
/// depends on nothing but the seed.
#[verifier::external_body]
fn pcg_seed_from_u64(seed: u64) -> (rng: rand_pcg::Mcg128Xsl64)
    ensures
        pcg_state(rng) == pcg_seeded_state(seed),
{
    rand_pcg::Mcg128Xsl64::seed_from_u64(seed)
}

/// `Rng::gen`: the next number of the generator, anywhere in `u64`. The
/// number and the state that the generator is left in depend on nothing
/// but the state that it was in.
#[verifier::external_body]
fn pcg_gen(rng: &mut rand_pcg::Mcg128Xsl64) -> (n: u64)
    ensures
        n == pcg_drawn(pcg_state(*old(rng))).0,
        pcg_state(*final(rng)) == pcg_drawn(pcg_state(*old(rng))).1,
{
    rng.gen()
}

/// `Rng::gen_range` on a half-open range, which must not be empty: the
/// number drawn lies in the range. The number and the state that the
/// generator is left in depend on nothing but the state that it was in and
/// the two bounds.
#[verifier::external_body]
fn pcg_gen_range(rng: &mut rand_pcg::Mcg128Xsl64, low: i64, high: i64) -> (n: i64)
    requires
        low < high,
    ensures
        low <= n < high,
        n == pcg_drawn_below(pcg_state(*old(rng)), low, high).0,
        pcg_state(*final(rng)) == pcg_drawn_below(pcg_state(*old(rng)), low, high).1,
{
    rng.gen_range(low..high)
}

/// `Rng::gen_range` on a closed range, which must not be empty: the number
/// drawn lies in the range. The number and the state that the generator is
/// left in depend on nothing but the state that it was in and the two
/// bounds.
#[verifier::external_body]
fn pcg_gen_range_inclusive(rng: &mut rand_pcg::Mcg128Xsl64, low: i64, high: i64) -> (n: i64)
    requires
        low <= high,
    ensures
        low <= n <= high,
        n == pcg_drawn_within(pcg_state(*old(rng)), low, high).0,
        pcg_state(*final(rng)) == pcg_drawn_within(pcg_state(*old(rng)), low, high).1,
{
    rng.gen_range(low..=high)
}

/// `RangeInclusive::start`: the lower bound of a closed range.
pub assume_specification<Idx>[ RangeInclusive::<Idx>::start ](range: &RangeInclusive<Idx>) -> (bound:
    &Idx)
    ensures
        *bound == range@.start,
;

/// `RangeInclusive::end`: the upper bound of a closed range.
pub assume_specification<Idx>[ RangeInclusive::<Idx>::end ](range: &RangeInclusive<Idx>) -> (bound:
    &Idx)
    ensures
        *bound == range@.end,
;

/// A source of random numbers. It holds the state of a PCG generator, and
/// every number drawn advances it.
pub struct RandomNumberGenerator {
    rng: rand_pcg::Mcg128Xsl64,
}

impl RandomNumberGenerator {
    /// The state of the generator. What a generator gives next, and the
    /// state that it is left in, depend on nothing but its state and on
    /// what is asked of it.
    pub closed spec fn view(&self) -> u128 {
        pcg_state(self.rng)
    }

    /// A generator with a seed chosen at random.
    pub fn new() -> (generator: Self) {
        Self { rng: pcg_from_entropy() }
    }

    /// A generator that starts from `seed`. Two generators with the same seed
    /// start in the same state, and so give the same numbers when asked the
    /// same way.
    pub fn seeded(seed: u64) -> (generator: Self)
        ensures
            generator@ == pcg_seeded_state(seed),
    {
        Self { rng: pcg_seed_from_u64(seed) }
    }

    /// The next random number.
    pub fn next(&mut self) -> (n: u64)
        ensures
            n == pcg_drawn(old(self)@).0,
            final(self)@ == pcg_drawn(old(self)@).1,
    {
        pcg_gen(&mut self.rng)
    }

    /// A random number from `range`, its upper end excluded.
    pub fn range(&mut self, range: Range<i64>) -> (n: i64)
        requires
            range.start < range.end,
        ensures
            range.start <= n < range.end,
            n == pcg_drawn_below(old(self)@, range.start, range.end).0,
            final(self)@ == pcg_drawn_below(old(self)@, range.start, range.end).1,
    {
        pcg_gen_range(&mut self.rng, range.start, range.end)
    }

    /// A random number from `range`, both ends included.
    pub fn range_inclusive(&mut self, range: RangeInclusive<i64>) -> (n: i64)
        requires
            range@.start <= range@.end,
        ensures
            range@.start <= n <= range@.end,
            n == pcg_drawn_within(old(self)@, range@.start, range@.end).0,
            final(self)@ == pcg_drawn_within(old(self)@, range@.start, range@.end).1,
    {
        pcg_gen_range_inclusive(&mut self.rng, *range.start(), *range.end())
    }
}

impl Default for RandomNumberGenerator {
    /// A generator with a seed chosen at random.
    fn default() -> (generator: Self) {
        Self::new()
    }
}

/// Hands out the random number generator of an application.
pub struct Random;

impl Random {
    /// A generator with a seed chosen at random.
    pub fn build(&self) -> (generator: RandomNumberGenerator) {
        RandomNumberGenerator::new()
    }
}

} // verus!
