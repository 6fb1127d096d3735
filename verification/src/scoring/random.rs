//! The combinator that scores at random.

use crate::score::{Score, ScoreRange};
use rand::rngs::StdRng;
use rand::Rng;
use vstd::prelude::*;

verus! {

/// `rand::rngs::StdRng`, the pseudorandom source that a [`RandomScore`] draws from.
#[verifier::external_type_specification]
#[verifier::external_body]
pub struct ExStdRng(StdRng);

/// `rand::Rng::random_range` on the inclusive range from `low` to `high`:
/// some value of that range. The call panics on an empty range, which the
/// precondition leaves out.
#[verifier::external_body]
fn random_between(rng: &mut StdRng, low: i64, high: i64) -> (r: i64)
    requires
        low <= high,
    ensures
        low <= r <= high,
{
    rng.random_range(low..=high)
}

/// Scores a value drawn anew from a range on every evaluation.
pub struct RandomScore {
    /// The pseudorandom source.
    pub rng: StdRng,
    /// The range that the scores are drawn from.
    pub range: ScoreRange,
}

impl RandomScore {
    /// A random combinator over the full unit range.
    pub fn new(rng: StdRng) -> (s: Self)
        ensures
            s.rng == rng,
            s.range.spec_min()@ == 0,
            s.range.spec_max()@ == crate::score::ONE,
    {
        RandomScore { rng, range: ScoreRange::full() }
    }

    /// A random combinator over `range`.
    pub fn with_range(rng: StdRng, range: ScoreRange) -> (s: Self)
        ensures
            s.rng == rng,
            s.range == range,
    {
        RandomScore { rng, range }
    }

    /// The pseudorandom source, to draw from or to reseed.
    pub fn rng_mut(&mut self) -> (r: &mut StdRng)
        ensures
            *r == old(self).rng,
            final(self).rng == *final(r),
            final(self).range == old(self).range,
    {
        &mut self.rng
    }

    /// Replaces the pseudorandom source.
    pub fn set_rng(&mut self, rng: StdRng)
        ensures
            final(self).rng == rng,
            final(self).range == old(self).range,
    {
        self.rng = rng;
    }

    /// The score of an entity with this combinator: a fresh draw from the range.
    pub fn evaluate(&mut self) -> (s: Score)
        ensures
            old(self).range.holds(s),
            final(self).range == old(self).range,
    {
        let low = self.range.min();
        let high = self.range.max();
        let raw = random_between(&mut self.rng, low.raw, high.raw);
        Score { raw }
    }
}

} // verus!
