//! The score value and the arithmetic shared by the combinators.

use vstd::prelude::*;

verus! {

/// The raw value of the score 1.0: scores count millionths.
pub const ONE: i64 = 1_000_000;

/// A desirability score in fixed-point representation: `raw` millionths.
///
/// Scores are totally ordered by `raw`. The default score is 0.
#[derive(Clone, Copy, Debug, PartialEq, Eq, Structural, Hash)]
pub struct Score {
    pub raw: i64,
}

impl View for Score {
    type V = int;

    open spec fn view(&self) -> int {
        self.raw as int
    }
}

/// The nearest representable raw value to `v`.
pub open spec fn clamp(v: int) -> int {
    if v < i64::MIN {
        i64::MIN as int
    } else if v > i64::MAX {
        i64::MAX as int
    } else {
        v
    }
}

/// The quotient of `a` by the positive `b`, rounded toward zero.
pub open spec fn div_toward_zero(a: int, b: int) -> int
    recommends
        b > 0,
{
    if a >= 0 {
        a / b
    } else {
        -((-a) / b)
    }
}

/// The fixed-point product of two raw values: the exact product, scaled back
/// by [`ONE`], rounded toward zero and clamped to the representable range.
pub open spec fn mul_raw(a: int, b: int) -> int {
    clamp(div_toward_zero(a * b, ONE as int))
}

/// The exact sum of the raw values of `scores`.
pub open spec fn total(scores: Seq<Score>) -> int
    decreases scores.len(),
{
    if scores.len() == 0 {
        0
    } else {
        total(scores.drop_last()) + scores.last()@
    }
}

/// The fixed-point product of `scores`, multiplied in order starting from 1.0.
pub open spec fn product(scores: Seq<Score>) -> int
    decreases scores.len(),
{
    if scores.len() == 0 {
        ONE as int
    } else {
        mul_raw(product(scores.drop_last()), scores.last()@)
    }
}

/// The largest raw value among `scores`, never less than 0.
pub open spec fn highest(scores: Seq<Score>) -> int
    decreases scores.len(),
{
    if scores.len() == 0 {
        0
    } else if scores.last()@ > highest(scores.drop_last()) {
        scores.last()@
    } else {
        highest(scores.drop_last())
    }
}

/// `v` if it reaches `threshold`, otherwise 0.
pub open spec fn gate(v: int, threshold: int) -> int {
    if v < threshold {
        0
    } else {
        v
    }
}

impl Score {
    /// The score with the given raw value.
    pub fn new(raw: i64) -> (s: Score)
        ensures
            s@ == raw,
    {
        Score { raw }
    }

    /// The raw value of this score.
    pub fn get(&self) -> (raw: i64)
        ensures
            raw == self@,
    {
        self.raw
    }

    /// Overwrites the raw value of this score.
    pub fn set(&mut self, raw: i64)
        ensures
            final(self)@ == raw,
    {
        self.raw = raw;
    }

    /// The score nearest to the integer `v`.
    pub fn saturating(v: i128) -> (s: Score)
        ensures
            s@ == clamp(v as int),
    {
        if v < -0x8000_0000_0000_0000i128 {
            Score { raw: i64::MIN }
        } else if v > 0x7fff_ffff_ffff_ffffi128 {
            Score { raw: i64::MAX }
        } else {
            Score { raw: v as i64 }
        }
    }

    /// The fixed-point product of two scores.
    pub fn times(self, other: Score) -> (s: Score)
        ensures
            s@ == mul_raw(self@, other@),
    {
        let a: i128 = self.raw as i128;
        let b: i128 = other.raw as i128;
        assert(-0x4000_0000_0000_0000_0000_0000_0000_0000 <= a * b
            <= 0x4000_0000_0000_0000_0000_0000_0000_0000) by (nonlinear_arith)
            requires
                -0x8000_0000_0000_0000 <= a <= 0x8000_0000_0000_0000,
                -0x8000_0000_0000_0000 <= b <= 0x8000_0000_0000_0000,
        ;
        let wide: i128 = a * b;
        Score::saturating(div_one(wide))
    }
}

/// `wide / ONE`, rounded toward zero.
pub fn div_one(wide: i128) -> (q: i128)
    ensures
        q == div_toward_zero(wide as int, ONE as int),
{
    if wide >= 0 {
        ((wide as u128) / 1_000_000u128) as i128
    } else if wide == i128::MIN {
        -170141183460469231731687303715884i128
    } else {
        let pos: u128 = (-wide) as u128;
        -((pos / 1_000_000u128) as i128)
    }
}

/// The exact sum of `scores`.
pub fn sum_of(scores: &Vec<Score>) -> (t: i128)
    ensures
        t == total(scores@),
{
    let n = scores.len();
    let mut acc: i128 = 0;
    let mut i: usize = 0;
    while i < n
        invariant
            i <= n,
            n == scores@.len(),
            acc == total(scores@.subrange(0, i as int)),
            -(i * 0x8000_0000_0000_0000) <= acc <= i * 0x8000_0000_0000_0000,
        decreases n - i,
    {
        assert(scores@.subrange(0, i as int + 1).drop_last() =~= scores@.subrange(0, i as int));
        acc = acc + scores[i].raw as i128;
        i = i + 1;
    }
    assert(scores@.subrange(0, n as int) =~= scores@);
    acc
}

impl Default for Score {
    fn default() -> (s: Score)
        ensures
            s@ == 0,
    {
        Score { raw: 0 }
    }
}

/// An inclusive range of scores, from `min` up to `max`.
#[derive(Clone, Copy, Debug)]
pub struct ScoreRange {
    min: Score,
    max: Score,
}

impl ScoreRange {
    /// The lower end of the range.
    pub closed spec fn spec_min(&self) -> Score {
        self.min
    }

    /// The upper end of the range.
    pub closed spec fn spec_max(&self) -> Score {
        self.max
    }

    /// The lower end is not above the upper end.
    #[verifier::type_invariant]
    pub closed spec fn ordered(&self) -> bool {
        self.min@ <= self.max@
    }

    /// Whether `s` lies in the range.
    pub open spec fn holds(&self, s: Score) -> bool {
        self.spec_min()@ <= s@ <= self.spec_max()@
    }

    /// The range from `min` to `max`, or `None` if `min` lies above `max`.
    pub fn new(min: Score, max: Score) -> (r: Option<Self>)
        ensures
            r is Some <==> min@ <= max@,
            r matches Some(range) ==> range.spec_min() == min && range.spec_max() == max,
    {
        if min.raw <= max.raw {
            Some(ScoreRange { min, max })
        } else {
            None
        }
    }

    /// The full unit range, from 0 to 1.0.
    pub fn full() -> (range: Self)
        ensures
            range.spec_min()@ == 0,
            range.spec_max()@ == ONE,
    {
        ScoreRange { min: Score { raw: 0 }, max: Score { raw: ONE } }
    }

    /// The lower end of the range.
    #[verifier::when_used_as_spec(spec_min)]
    pub fn min(&self) -> (s: Score)
        ensures
            s == self.spec_min(),
            s@ <= self.spec_max()@,
    {
        proof {
            use_type_invariant(self);
        }
        self.min
    }

    /// The upper end of the range.
    #[verifier::when_used_as_spec(spec_max)]
    pub fn max(&self) -> (s: Score)
        ensures
            s == self.spec_max(),
            self.spec_min()@ <= s@,
    {
        proof {
            use_type_invariant(self);
        }
        self.max
    }

    /// Whether `s` lies in the range.
    pub fn contains(&self, s: Score) -> (b: bool)
        ensures
            b == self.holds(s),
    {
        self.min.raw <= s.raw && s.raw <= self.max.raw
    }
}

impl Default for ScoreRange {
    fn default() -> (range: Self)
        ensures
            range.spec_min()@ == 0,
            range.spec_max()@ == ONE,
    {
        ScoreRange::full()
    }
}

} // verus!
