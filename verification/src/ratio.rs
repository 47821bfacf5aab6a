//! Exact rational hit parameters.
//!
//! A ray query returns the parameter `t` at which the ray meets a surface.
//! With integer coordinates that parameter is a rational number, kept here as
//! a numerator/denominator pair with a positive denominator. Comparisons
//! cross-multiply, which is exact as long as both sides stay below
//! `RATIO_BOUND` in magnitude; every `Ratio` the library produces does.

use vstd::prelude::*;

verus! {

/// Magnitude bound (2^63) on numerator and denominator: two bounded values
/// can be cross-multiplied in `i128` without overflow.
pub const RATIO_BOUND: i128 = 9223372036854775808;

/// An exact non-negative rational `num / den` with `den > 0`.
#[derive(Clone, Copy, PartialEq, Eq, Structural, Debug)]
pub struct Ratio {
    pub num: i128,
    pub den: i128,
}

impl Ratio {
    /// Bounds under which comparisons cannot overflow.
    pub open spec fn wf(self) -> bool {
        &&& 0 < self.den < RATIO_BOUND
        &&& -RATIO_BOUND <= self.num < RATIO_BOUND
    }

    /// `self < other` as rational numbers.
    pub open spec fn spec_lt(self, other: Ratio) -> bool {
        self.num * other.den < other.num * self.den
    }

    /// `self <= other` as rational numbers.
    pub open spec fn spec_le(self, other: Ratio) -> bool {
        self.num * other.den <= other.num * self.den
    }

    /// `self < m` for an integer `m`.
    pub open spec fn spec_lt_int(self, m: int) -> bool {
        self.num < m * self.den
    }

    pub open spec fn spec_nonneg(self) -> bool {
        self.num >= 0
    }

    pub fn lt(&self, other: &Ratio) -> (r: bool)
        requires
            self.wf(),
            other.wf(),
        ensures
            r == self.spec_lt(*other),
    {
        proof {
            lemma_mul_bound(self.num as int, other.den as int, RATIO_BOUND as int);
            lemma_mul_bound(other.num as int, self.den as int, RATIO_BOUND as int);
        }
        self.num * other.den < other.num * self.den
    }

    pub fn le(&self, other: &Ratio) -> (r: bool)
        requires
            self.wf(),
            other.wf(),
        ensures
            r == self.spec_le(*other),
    {
        proof {
            lemma_mul_bound(self.num as int, other.den as int, RATIO_BOUND as int);
            lemma_mul_bound(other.num as int, self.den as int, RATIO_BOUND as int);
        }
        self.num * other.den <= other.num * self.den
    }

    /// `self < m` for an integer bound `m` (a ray's maximum parameter).
    pub fn lt_int(&self, m: i64) -> (r: bool)
        requires
            self.wf(),
        ensures
            r == self.spec_lt_int(m as int),
    {
        proof {
            lemma_mul_bound(m as int, self.den as int, RATIO_BOUND as int);
        }
        self.num < (m as i128) * self.den
    }

}

/// `|a|, |b| <= bound` gives `|a * b| <= bound * bound`.
pub proof fn lemma_mul_bound(a: int, b: int, bound: int) by (nonlinear_arith)
    requires
        -bound <= a <= bound,
        -bound <= b <= bound,
        0 <= bound,
    ensures
        -(bound * bound) <= a * b <= bound * bound,
{
}

/// `|a| <= aa` and `|b| <= bb` give `|a * b| <= aa * bb`.
pub proof fn lemma_mul_bound2(a: int, b: int, aa: int, bb: int) by (nonlinear_arith)
    requires
        -aa <= a <= aa,
        -bb <= b <= bb,
        0 <= aa,
        0 <= bb,
    ensures
        -(aa * bb) <= a * b <= aa * bb,
{
}

} // verus!
