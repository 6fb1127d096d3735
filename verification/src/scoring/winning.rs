//! The combinator that takes the best of its children.

use crate::score::{gate, highest, Score};
use vstd::prelude::*;

verus! {

/// Scores the highest child score, which is 0 if no child scores above 0, or 0
/// if that highest score stays below the threshold.
#[derive(Clone, Copy, Debug, PartialEq, Eq, Structural)]
pub struct Winning {
    threshold: Score,
}

/// The score that a winning combinator with `threshold` gives over `children`.
pub open spec fn winning_score(children: Seq<Score>, threshold: Score) -> int {
    gate(highest(children), threshold@)
}

/// The highest score is at least 0 and at least every child score, and it is 0
/// or the score of one of the children.
pub proof fn lemma_highest(children: Seq<Score>)
    ensures
        highest(children) >= 0,
        forall|i: int| 0 <= i < children.len() ==> (#[trigger] children[i])@ <= highest(children),
        highest(children) == 0 || exists|i: int|
            0 <= i < children.len() && (#[trigger] children[i])@ == highest(children),
    decreases children.len(),
{
    if children.len() > 0 {
        let front = children.drop_last();
        lemma_highest(front);
        assert forall|i: int| 0 <= i < children.len() implies (#[trigger] children[i])@ <= highest(
            children,
        ) by {
            if i < front.len() {
                assert(children[i] == front[i]);
            }
        }
        if highest(children) != 0 {
            if children.last()@ > highest(front) {
                assert(children[children.len() - 1]@ == highest(children));
            } else {
                let i = choose|i: int|
                    0 <= i < front.len() && (#[trigger] front[i])@ == highest(front);
                assert(children[i]@ == highest(children));
            }
        }
    }
}

impl Winning {
    /// The threshold under which the highest score counts as 0.
    pub closed spec fn spec_threshold(&self) -> Score {
        self.threshold
    }

    /// A winning combinator with the given threshold.
    pub fn new(threshold: Score) -> (s: Self)
        ensures
            s.spec_threshold() == threshold,
    {
        Winning { threshold }
    }

    /// The threshold under which the highest score counts as 0.
    #[verifier::when_used_as_spec(spec_threshold)]
    pub fn threshold(&self) -> (t: Score)
        ensures
            t == self.spec_threshold(),
    {
        self.threshold
    }

    /// Replaces the threshold.
    pub fn set_threshold(&mut self, threshold: Score)
        ensures
            final(self).spec_threshold() == threshold,
    {
        self.threshold = threshold;
    }

    /// The score of an entity with this combinator whose children score `children`.
    pub fn evaluate(&self, children: &Vec<Score>) -> (s: Score)
        ensures
            s@ == winning_score(children@, self.spec_threshold()),
    {
        let n = children.len();
        let mut max: i64 = 0;
        let mut i: usize = 0;
        while i < n
            invariant
                i <= n,
                n == children@.len(),
                max == highest(children@.subrange(0, i as int)),
            decreases n - i,
        {
            assert(children@.subrange(0, i as int + 1).drop_last() =~= children@.subrange(
                0,
                i as int,
            ));
            if children[i].raw > max {
                max = children[i].raw;
            }
            i = i + 1;
        }
        assert(children@.subrange(0, n as int) =~= children@);
        if max < self.threshold.raw {
            max = 0;
        }
        Score { raw: max }
    }
}

impl Default for Winning {
    fn default() -> (s: Self)
        ensures
            s.spec_threshold()@ == 0,
    {
        Winning { threshold: Score { raw: 0 } }
    }
}

} // verus!
