//! The combinator that adds up its children.

use crate::score::{clamp, gate, sum_of, total, Score};
use vstd::prelude::*;

verus! {

/// Scores the sum of the child scores, or 0 if that sum stays below the threshold.
///
/// The sum is not normalised: it may exceed 1.0. It is clamped only to the
/// range that a score can represent.
#[derive(Clone, Copy, Debug, PartialEq, Eq, Structural)]
pub struct Sum {
    threshold: Score,
}

/// The score that a sum combinator with `threshold` gives over `children`.
pub open spec fn sum_score(children: Seq<Score>, threshold: Score) -> int {
    gate(clamp(total(children)), threshold@)
}

impl Sum {
    /// The threshold under which the sum counts as 0.
    pub closed spec fn spec_threshold(&self) -> Score {
        self.threshold
    }

    /// A sum combinator with the given threshold.
    pub fn new(threshold: Score) -> (s: Self)
        ensures
            s.spec_threshold() == threshold,
    {
        Sum { threshold }
    }

    /// The threshold under which the sum counts as 0.
    #[verifier::when_used_as_spec(spec_threshold)]
    pub fn threshold(&self) -> (t: Score)
        ensures
            t == self.spec_threshold(),
    {
        self.threshold
    }

    /// Replaces the threshold.
    pub fn set_threshold(&mut self, threshold: Score)
        ensures
            final(self).spec_threshold() == threshold,
    {
        self.threshold = threshold;
    }

    /// The score of an entity with this combinator whose children score `children`.
    pub fn evaluate(&self, children: &Vec<Score>) -> (s: Score)
        ensures
            s@ == sum_score(children@, self.spec_threshold()),
    {
        let sum = Score::saturating(sum_of(children));
        if sum.raw < self.threshold.raw {
            Score { raw: 0 }
        } else {
            sum
        }
    }
}

impl Default for Sum {
    fn default() -> (s: Self)
        ensures
            s.spec_threshold()@ == 0,
    {
        Sum { threshold: Score { raw: 0 } }
    }
}

} // verus!
