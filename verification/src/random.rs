//! The source of the random choices that the search strategies make.

use vstd::prelude::*;
use rand::rngs::{OsRng, StdRng};
use rand::{Rng, SeedableRng};

verus! {

/// The standard generator of `rand`, `rand::rngs::StdRng`, carried through
/// as a value of which nothing is known.
#[verifier::external_type_specification]
#[verifier::external_body]
pub struct ExStdRng(StdRng);

/// A generator of random numbers. Nothing is known of the numbers that it
/// gives but the range in which they lie.
pub struct RandomSource {
    rng: StdRng,
}

impl RandomSource {
    /// A generator that gives the same numbers whenever it starts from the
    /// same seed.
    pub fn from_seed(seed: u64) -> RandomSource {
        RandomSource { rng: generator_from_seed(seed) }
    }

    /// A generator that starts from what the operating system offers, where
    /// the system has entropy to give.
    pub fn from_entropy() -> Option<RandomSource> {
        match generator_from_entropy() {
            Some(rng) => Some(RandomSource { rng }),
            None => None,
        }
    }

    /// A number below `n`.
    pub fn below(&mut self, n: usize) -> (r: usize)
        requires
            n > 0,
        ensures
            r < n,
    {
        draw_below(&mut self.rng, n)
    }
}

/// `SeedableRng::seed_from_u64` of `rand`, for its standard generator. It
/// builds a generator from the seed; nothing is claimed of it.
#[verifier::external_body]
fn generator_from_seed(seed: u64) -> StdRng {
    StdRng::seed_from_u64(seed)
}

/// `SeedableRng::from_rng` of `rand`, for its standard generator, on the
/// operating system's generator `OsRng`. The call gives a generator, or an
/// error where the system has no entropy to give; the error is dropped.
/// Nothing is claimed of the generator, nor of when there is one.
#[verifier::external_body]
fn generator_from_entropy() -> Option<StdRng> {
    StdRng::from_rng(OsRng).ok()
}

/// `Rng::gen_range` of `rand` on the range from zero up to, and without, `n`.
/// The call fails on an empty range, so `n` must not be zero; the number
/// drawn lies in the range. Which number it is depends on the state of the
/// generator, of which nothing is claimed.
#[verifier::external_body]
fn draw_below(rng: &mut StdRng, n: usize) -> (r: usize)
    requires
        n > 0,
    ensures
        r < n,
{
    rng.gen_range(0..n)
}

} // verus!
