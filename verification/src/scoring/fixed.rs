//! The combinator that always gives the same score.

use crate::score::Score;
use vstd::prelude::*;

verus! {

/// Scores a fixed value, whatever the children score.
#[derive(Clone, Copy, Debug, PartialEq, Eq, Structural)]
pub struct FixedScore {
    value: Score,
}

impl FixedScore {
    /// The value that this combinator gives.
    pub closed spec fn spec_value(&self) -> Score {
        self.value
    }

    /// A combinator that always gives `value`.
    pub fn new(value: Score) -> (s: Self)
        ensures
            s.spec_value() == value,
    {
        FixedScore { value }
    }

    /// The value that this combinator gives.
    #[verifier::when_used_as_spec(spec_value)]
    pub fn value(&self) -> (v: Score)
        ensures
            v == self.spec_value(),
    {
        self.value
    }

    /// Replaces the value.
    pub fn set_value(&mut self, value: Score)
        ensures
            final(self).spec_value() == value,
    {
        self.value = value;
    }

    /// The score of an entity with this combinator: the fixed value.
    pub fn evaluate(&self, children: &Vec<Score>) -> (s: Score)
        ensures
            s == self.spec_value(),
    {
        self.value
    }
}

impl Default for FixedScore {
    fn default() -> (s: Self)
        ensures
            s.spec_value()@ == 0,
    {
        FixedScore { value: Score { raw: 0 } }
    }
}

} // verus!
