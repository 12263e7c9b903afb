//! The generator of random bits that stand in for lost measurements.
use rand::{Rng, RngExt, SeedableRng};
use vstd::prelude::*;

verus! {

/// `rand::rngs::Xoshiro256PlusPlus`: a generator of pseudo-random values.
#[verifier::external_type_specification]
#[verifier::external_body]
pub struct ExXoshiro256PlusPlus(rand::rngs::Xoshiro256PlusPlus);

/// Bit `n` that a generator made with the seed gives.
pub uninterp spec fn bit_of_seed(seed: u64, n: nat) -> bool;

/// A generator, with the seed that it was made with and the number of bits that it gave.
pub struct Generator {
    rng: rand::rngs::Xoshiro256PlusPlus,
    seed: Ghost<u64>,
    count: Ghost<nat>,
}

impl Generator {
    /// The seed that the generator was made with.
    pub closed spec fn seed(&self) -> u64 {
        self.seed@
    }

    /// How many bits were drawn.
    pub closed spec fn count(&self) -> nat {
        self.count@
    }

    /// The bits that were drawn, in order.
    pub open spec fn drawn(&self) -> Seq<bool> {
        Seq::new(self.count(), |i: int| bit_of_seed(self.seed(), i as nat))
    }

    /// A generator with a seed.
    pub fn new(seed: u64) -> (generator: Generator)
        ensures
            generator.seed() == seed,
            generator.drawn() == Seq::<bool>::empty(),
    {
        seeded(seed)
    }

    /// Draws the next bit.
    pub fn draw(&mut self) -> (bit: bool)
        ensures
            final(self).seed() == old(self).seed(),
            final(self).drawn() == old(self).drawn().push(bit),
    {
        random_bit(self)
    }
}

/// Generators that were made with the same seed and gave equally many bits gave the same
/// bits.
pub proof fn law_seed_decides_the_bits(a: Generator, b: Generator)
    requires
        a.seed() == b.seed(),
        a.drawn().len() == b.drawn().len(),
    ensures
        a.drawn() == b.drawn(),
{
    assert(a.drawn() =~= b.drawn());
}

/// `rand::SeedableRng::seed_from_u64`, for `Xoshiro256PlusPlus`: the generator is made
/// with this seed, and has given no bits.
#[verifier::external_body]
fn seeded(seed: u64) -> (generator: Generator)
    ensures
        generator.seed() == seed,
        generator.count() == 0,
{
    Generator { rng: rand::rngs::Xoshiro256PlusPlus::seed_from_u64(seed), seed: Ghost(seed), count: Ghost(0) }
}

/// `rand::RngExt::random`, for a bit of `Xoshiro256PlusPlus`: the bit depends on the seed
/// and on how many bits were drawn before, on nothing else; one bit more is drawn.
#[verifier::external_body]
fn random_bit(generator: &mut Generator) -> (bit: bool)
    ensures
        bit == bit_of_seed(old(generator).seed(), old(generator).count()),
        final(generator).seed() == old(generator).seed(),
        final(generator).count() == old(generator).count() + 1,
{
    generator.rng.random::<bool>()
}

/// `rand::Rng::next_u64` of `rand::rng()`: a seed that the operating system provides.
/// Nothing is claimed of it.
#[verifier::external_body]
pub(crate) fn random_seed() -> (seed: u64)
{
    rand::rng().next_u64()
}

} // verus!
