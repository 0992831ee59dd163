//! Closeness scores as exact fractions.

use vstd::prelude::*;

verus! {

/// A closeness score: the fraction `numer / denom`, and zero where `denom`
/// is zero. Closeness is the number of other nodes that a node reaches,
/// over the sum of its distances to them.
#[derive(Clone, Copy, Debug)]
pub struct Score {
    pub numer: u64,
    pub denom: u64,
}

impl Score {
    /// The numerator of the fraction that the score stands for.
    pub open spec fn top(self) -> int {
        if self.denom == 0 {
            0
        } else {
            self.numer as int
        }
    }

    /// The denominator of the fraction that the score stands for, which is
    /// positive.
    pub open spec fn bottom(self) -> int {
        if self.denom == 0 {
            1
        } else {
            self.denom as int
        }
    }

    /// The score is less than `other`.
    pub open spec fn below(self, other: Score) -> bool {
        self.top() * other.bottom() < other.top() * self.bottom()
    }

    /// The score is as much as `other`.
    pub open spec fn same(self, other: Score) -> bool {
        self.top() * other.bottom() == other.top() * self.bottom()
    }

    /// The score `numer / denom`.
    pub fn new(numer: u64, denom: u64) -> (score: Score)
        ensures
            score.numer == numer,
            score.denom == denom,
    {
        Score { numer, denom }
    }

    /// The two sides of the comparison of this score with `other`, cross
    /// multiplied.
    fn cross(&self, other: &Score) -> (sides: (u128, u128))
        ensures
            sides.0 == self.top() * other.bottom(),
            sides.1 == other.top() * self.bottom(),
    {
        let a: u128 = if self.denom == 0 { 0 } else { self.numer as u128 };
        let b: u128 = if self.denom == 0 { 1 } else { self.denom as u128 };
        let c: u128 = if other.denom == 0 { 0 } else { other.numer as u128 };
        let d: u128 = if other.denom == 0 { 1 } else { other.denom as u128 };
        assert(a * d <= 0xffff_ffff_ffff_ffff * 0xffff_ffff_ffff_ffff) by (nonlinear_arith)
            requires
                0 <= a <= 0xffff_ffff_ffff_ffff,
                0 <= d <= 0xffff_ffff_ffff_ffff,
        ;
        assert(c * b <= 0xffff_ffff_ffff_ffff * 0xffff_ffff_ffff_ffff) by (nonlinear_arith)
            requires
                0 <= c <= 0xffff_ffff_ffff_ffff,
                0 <= b <= 0xffff_ffff_ffff_ffff,
        ;
        (a * d, c * b)
    }

    /// Whether the score is less than `other`.
    pub fn less_than(&self, other: &Score) -> (less: bool)
        ensures
            less == self.below(*other),
    {
        let sides = self.cross(other);
        sides.0 < sides.1
    }

    /// Whether the score is as much as `other`.
    pub fn equals(&self, other: &Score) -> (equal: bool)
        ensures
            equal == self.same(*other),
    {
        let sides = self.cross(other);
        sides.0 == sides.1
    }

    /// Whether the score is zero.
    pub fn is_zero(&self) -> (zero: bool)
        ensures
            zero == (self.top() == 0),
    {
        self.denom == 0 || self.numer == 0
    }

    /// Whether the score is one.
    pub fn is_one(&self) -> (one: bool)
        ensures
            one == (self.top() == self.bottom()),
    {
        self.denom != 0 && self.numer == self.denom
    }
}

/// A score below a second that is at most a third is below the third.
pub proof fn lemma_below_then_at_most(a: Score, b: Score, c: Score)
    requires
        a.below(b),
        !c.below(b),
    ensures
        a.below(c),
{
    let (p, q, r, s, t, u) = (a.top(), a.bottom(), b.top(), b.bottom(), c.top(), c.bottom());
    assert(p * u < t * q) by (nonlinear_arith)
        requires
            p * s < r * q,
            r * u <= t * s,
            q > 0,
            s > 0,
            u > 0,
            p >= 0,
            r >= 0,
            t >= 0,
    ;
}

/// A score at most a second that is below a third is below the third.
pub proof fn lemma_at_most_then_below(a: Score, b: Score, c: Score)
    requires
        !b.below(a),
        b.below(c),
    ensures
        a.below(c),
{
    let (p, q, r, s, t, u) = (a.top(), a.bottom(), b.top(), b.bottom(), c.top(), c.bottom());
    assert(p * u < t * q) by (nonlinear_arith)
        requires
            p * s <= r * q,
            r * u < t * s,
            q > 0,
            s > 0,
            u > 0,
            p >= 0,
            r >= 0,
            t >= 0,
    ;
}

} // verus!
