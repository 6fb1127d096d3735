//! The combinator that adds up its children unless one of them falls short.

use crate::score::{clamp, sum_of, total, Score};
use vstd::prelude::*;

verus! {

/// Scores 0 if any child scores below the threshold, and the sum of the child
/// scores otherwise.
///
/// The sum is not normalised: it may exceed 1.0. It is clamped only to the
/// range that a score can represent.
#[derive(Clone, Copy, Debug, PartialEq, Eq, Structural)]
pub struct AllOrNothing {
    threshold: Score,
}

/// Whether some score of `children` lies below `threshold`.
pub open spec fn any_below(children: Seq<Score>, threshold: Score) -> bool {
    exists|i: int| 0 <= i < children.len() && (#[trigger] children[i])@ < threshold@
}

/// The score that an all-or-nothing combinator with `threshold` gives over `children`.
pub open spec fn all_or_nothing_score(children: Seq<Score>, threshold: Score) -> int {
    if any_below(children, threshold) {
        0
    } else {
        clamp(total(children))
    }
}

impl AllOrNothing {
    /// The threshold that every child has to reach.
    pub closed spec fn spec_threshold(&self) -> Score {
        self.threshold
    }

    /// An all-or-nothing combinator with the given threshold.
    pub fn new(threshold: Score) -> (s: Self)
        ensures
            s.spec_threshold() == threshold,
    {
        AllOrNothing { threshold }
    }

    /// The threshold that every child has to reach.
    #[verifier::when_used_as_spec(spec_threshold)]
    pub fn threshold(&self) -> (t: Score)
        ensures
            t == self.spec_threshold(),
    {
        self.threshold
    }

    /// Replaces the threshold.
    pub fn set_threshold(&mut self, threshold: Score)
        ensures
            final(self).spec_threshold() == threshold,
    {
        self.threshold = threshold;
    }

    /// The score of an entity with this combinator whose children score `children`.
    pub fn evaluate(&self, children: &Vec<Score>) -> (s: Score)
        ensures
            s@ == all_or_nothing_score(children@, self.spec_threshold()),
    {
        let n = children.len();
        let mut i: usize = 0;
        while i < n
            invariant
                i <= n,
                n == children@.len(),
                forall|j: int| 0 <= j < i ==> (#[trigger] children@[j])@ >= self.threshold@,
            decreases n - i,
        {
            if children[i].raw < self.threshold.raw {
                return Score { raw: 0 };
            }
            i = i + 1;
        }
        Score::saturating(sum_of(children))
    }
}

impl Default for AllOrNothing {
    fn default() -> (s: Self)
        ensures
            s.spec_threshold()@ == 0,
    {
        AllOrNothing { threshold: Score { raw: 0 } }
    }
}

} // verus!
