//! Exact rational scalars: a numerator over a positive denominator.
//!
//! Values are not kept in lowest terms; two `Rat`s stand for the same
//! number exactly when they cross-multiply equal (`spec_eq`).

use vstd::prelude::*;

verus! {

/// The rational number `num / den`. Well-formed when `den > 0`.
#[derive(Clone, Copy, Debug)]
pub struct Rat {
    pub num: i64,
    pub den: i64,
}

impl Rat {
    /// The denominator is positive, so the value is defined and the sign
    /// of the number is the sign of `num`.
    pub open spec fn wf(self) -> bool {
        self.den > 0
    }

    /// `self <= other`, as rationals: with positive denominators,
    /// `a/b <= c/d` exactly when `a*d <= c*b`.
    pub open spec fn spec_le(self, other: Rat) -> bool {
        self.num * other.den <= other.num * self.den
    }

    /// `self == other`, as rationals (equal values, not equal fields).
    pub open spec fn spec_eq(self, other: Rat) -> bool {
        self.num * other.den == other.num * self.den
    }

    /// Build the rational `num / den`.
    pub fn new(num: i64, den: i64) -> (r: Rat)
        requires
            den >= 1,
        ensures
            r.num == num,
            r.den == den,
            r.wf(),
    {
        Rat { num, den }
    }

    /// Exact comparison `self <= other` by cross-multiplication.
    pub fn le(&self, other: &Rat) -> (r: bool)
        requires
            self.wf(),
            other.wf(),
        ensures
            r == self.spec_le(*other),
    {
        proof {
            lemma_i64_mul_fits(self.num as int, other.den as int);
            lemma_i64_mul_fits(other.num as int, self.den as int);
        }
        (self.num as i128) * (other.den as i128) <= (other.num as i128) * (self.den as i128)
    }

    /// Exact value equality `self == other` by cross-multiplication.
    pub fn eq_value(&self, other: &Rat) -> (r: bool)
        requires
            self.wf(),
            other.wf(),
        ensures
            r == self.spec_eq(*other),
    {
        proof {
            lemma_i64_mul_fits(self.num as int, other.den as int);
            lemma_i64_mul_fits(other.num as int, self.den as int);
        }
        (self.num as i128) * (other.den as i128) == (other.num as i128) * (self.den as i128)
    }
}

/// The product of two values in `i64` range fits comfortably in `i128`.
pub proof fn lemma_i64_mul_fits(a: int, b: int)
    by (nonlinear_arith)
    requires
        i64::MIN <= a <= i64::MAX,
        i64::MIN <= b <= i64::MAX,
    ensures
        i128::MIN <= a * b <= i128::MAX,
{
}

} // verus!
