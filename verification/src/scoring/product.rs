//! The combinator that multiplies its children.

use crate::score::{clamp, gate, mul_raw, product, Score, ONE};
use vstd::prelude::*;

verus! {

/// Scores the product of the child scores, optionally compensated for the
/// number of children, or 0 if the result stays below the threshold.
///
/// Without children the product is 1.0.
#[derive(Clone, Copy, Debug, PartialEq, Eq, Structural)]
pub struct Product {
    threshold: Score,
    use_compensation: bool,
}

/// The product `p` of `n >= 1` scores after compensation: with the factor
/// `m = 1 - 1/n`, it is `p + ((1 - p) * m) * p`, every step in fixed point.
pub open spec fn compensated(p: int, n: int) -> int
    recommends
        n >= 1,
{
    let m = ONE - (ONE as int) / n;
    let makeup = mul_raw(clamp(ONE - p), m);
    clamp(p + mul_raw(makeup, p))
}

/// The score that a product combinator gives over `children`.
pub open spec fn product_score(children: Seq<Score>, threshold: Score, compensation: bool) -> int {
    let p = product(children);
    let q = if compensation && children.len() > 0 {
        compensated(p, children.len() as int)
    } else {
        p
    };
    gate(q, threshold@)
}

impl Product {
    /// The threshold under which the product counts as 0.
    pub closed spec fn spec_threshold(&self) -> Score {
        self.threshold
    }

    /// Whether the product is compensated for the number of children.
    pub closed spec fn spec_compensation(&self) -> bool {
        self.use_compensation
    }

    /// A product combinator with the given threshold and no compensation.
    pub fn new(threshold: Score) -> (s: Self)
        ensures
            s.spec_threshold() == threshold,
            !s.spec_compensation(),
    {
        Product { threshold, use_compensation: false }
    }

    /// The same combinator with compensation switched on or off.
    pub fn with_compensation(self, compensation: bool) -> (s: Self)
        ensures
            s.spec_threshold() == self.spec_threshold(),
            s.spec_compensation() == compensation,
    {
        Product { threshold: self.threshold, use_compensation: compensation }
    }

    /// The threshold under which the product counts as 0.
    #[verifier::when_used_as_spec(spec_threshold)]
    pub fn threshold(&self) -> (t: Score)
        ensures
            t == self.spec_threshold(),
    {
        self.threshold
    }

    /// Replaces the threshold.
    pub fn set_threshold(&mut self, threshold: Score)
        ensures
            final(self).spec_threshold() == threshold,
            final(self).spec_compensation() == old(self).spec_compensation(),
    {
        self.threshold = threshold;
    }

    /// The score of an entity with this combinator whose children score `children`.
    pub fn evaluate(&self, children: &Vec<Score>) -> (s: Score)
        ensures
            s@ == product_score(children@, self.spec_threshold(), self.spec_compensation()),
    {
        let n = children.len();
        let mut p = Score { raw: ONE };
        let mut i: usize = 0;
        while i < n
            invariant
                i <= n,
                n == children@.len(),
                p@ == product(children@.subrange(0, i as int)),
            decreases n - i,
        {
            assert(children@.subrange(0, i as int + 1).drop_last() =~= children@.subrange(
                0,
                i as int,
            ));
            p = p.times(children[i]);
            i = i + 1;
        }
        assert(children@.subrange(0, n as int) =~= children@);
        if self.use_compensation && n > 0 {
            let share: u64 = 1_000_000u64 / (n as u64);
            let factor = Score { raw: ONE - (share as i64) };
            let gap = Score::saturating(ONE as i128 - p.raw as i128);
            let makeup = gap.times(factor);
            p = Score::saturating(p.raw as i128 + makeup.times(p).raw as i128);
        }
        if p.raw < self.threshold.raw {
            p = Score { raw: 0 };
        }
        p
    }
}

impl Default for Product {
    fn default() -> (s: Self)
        ensures
            s.spec_threshold()@ == 0,
            !s.spec_compensation(),
    {
        Product { threshold: Score { raw: 0 }, use_compensation: false }
    }
}

} // verus!
