//! Distribution-free confidence intervals for the mean of a sorted sample,
//! built on the Dvoretzky-Kiefer-Wolfowitz inequality.
//!
//! All quantities are exact rationals: a scalar is a [`rat::Rat`] (a numerator
//! over a positive denominator) and a sample is a [`sample::Sample`] (sorted
//! integer observations over one shared positive denominator). The DKW band
//! half-width (epsilon) is transcendental, so callers compute it outside and
//! pass any rational approximation in; every computation on it here is exact.

use vstd::prelude::*;

pub mod decimal;
pub mod dkw;
pub mod rat;
pub mod sample;

use rat::Rat;

verus! {

use crate::decimal::append_rat_exact;
use crate::decimal::append_rat_fixed;
use crate::decimal::lemma_pow10_adds;
use crate::decimal::lemma_pow10_bounds;
use crate::decimal::lemma_ten_smooth_mul;
use crate::decimal::pow10;
use crate::decimal::render_exact;
use crate::decimal::render_fixed;
use crate::decimal::ten_smooth;
use vstd::string::StringExecFns;

/// A two-sided confidence interval: the pair (lower, upper).
///
/// The invariant `lower <= upper` is not mechanically enforced; it is
/// guaranteed when the pair comes out of an interval computation
/// (see the `ensures` of `dkw::ci`).
pub struct ConfidenceInterval {
    pub lower: Rat,
    pub upper: Rat,
}

/// A product of an `i64` numerator and a positive `i64` denominator stays
/// within one `i64`-by-`i64` product of the extreme values.
proof fn lemma_num_den_prod_range(a: int, b: int)
    by (nonlinear_arith)
    requires
        i64::MIN <= a <= i64::MAX,
        1 <= b <= i64::MAX,
    ensures
        (i64::MIN as int) * (i64::MAX as int) <= a * b,
        a * b <= (i64::MAX as int) * (i64::MAX as int),
        b * a == a * b,
{
}

/// A product of two positive `i64` denominators is positive and bounded.
proof fn lemma_den_prod_range(a: int, b: int)
    by (nonlinear_arith)
    requires
        1 <= a <= i64::MAX,
        1 <= b <= i64::MAX,
    ensures
        1 <= a * b,
        a * b <= (i64::MAX as int) * (i64::MAX as int),
{
}

impl ConfidenceInterval {
    /// Both endpoints are well-formed rationals.
    pub open spec fn wf(self) -> bool {
        self.lower.wf() && self.upper.wf()
    }

    /// Numerator of the midpoint `(lower + upper) / 2` over `mean_den`.
    pub open spec fn mean_num(self) -> int {
        self.lower.num * self.upper.den + self.upper.num * self.lower.den
    }

    /// Numerator of the half-width `upper - mean` over `mean_den`.
    pub open spec fn span_num(self) -> int {
        self.upper.num * self.lower.den - self.lower.num * self.upper.den
    }

    /// The common denominator of the midpoint and the half-width.
    pub open spec fn mean_den(self) -> int {
        2 * self.lower.den * self.upper.den
    }

    /// The report line: the two ends, then the midpoint plus-minus the
    /// half-width. With a precision, every number is rounded (half away
    /// from zero) to that many decimal places; without one, every number
    /// is written out exactly.
    pub open spec fn spec_render(self, precision: Option<usize>) -> Seq<char> {
        match precision {
            None => "["@ + render_exact(self.lower.num as int, self.lower.den as int) + ", "@
                + render_exact(self.upper.num as int, self.upper.den as int) + "], x\u{0304} = "@
                + render_exact(self.mean_num(), self.mean_den()) + " \u{b1} "@ + render_exact(
                self.span_num(),
                self.mean_den(),
            ),
            Some(p) => "["@ + render_fixed(self.lower.num as int, self.lower.den as int, p as nat)
                + ", "@ + render_fixed(self.upper.num as int, self.upper.den as int, p as nat)
                + "], x\u{0304} = "@ + render_fixed(self.mean_num(), self.mean_den(), p as nat)
                + " \u{b1} "@ + render_fixed(self.span_num(), self.mean_den(), p as nat),
        }
    }

    /// Renders `"[lower, upper], x̄ = mean ± span"`. The denominators must
    /// be small enough for the arithmetic to fit the machine; the exact mode
    /// additionally needs denominators that divide a power of ten, so that
    /// the expansions terminate.
    pub fn render(&self, precision: Option<usize>) -> (out: String)
        requires
            self.wf(),
            match precision {
                None => ten_smooth(self.lower.den as int) && ten_smooth(self.upper.den as int)
                    && self.lower.den <= pow10(18) && self.upper.den <= pow10(18),
                Some(p) => p <= 18 && 4 * self.lower.den * self.upper.den * pow10(p as nat)
                    <= i128::MAX,
            },
        ensures
            out@ == self.spec_render(precision),
    {
        proof {
            lemma_num_den_prod_range(self.lower.num as int, self.upper.den as int);
            lemma_num_den_prod_range(self.upper.num as int, self.lower.den as int);
            lemma_den_prod_range(self.lower.den as int, self.upper.den as int);
            assert(2 * ((i64::MIN as int) * (i64::MAX as int)) > i128::MIN) by (nonlinear_arith);
            assert(2 * ((i64::MAX as int) * (i64::MAX as int)) < i128::MAX) by (nonlinear_arith);
            assert((2 * (self.lower.den as int)) * (self.upper.den as int) == 2 * ((
            self.lower.den as int) * (self.upper.den as int))) by (nonlinear_arith);
        }
        let ln: i128 = self.lower.num as i128;
        let ld: i128 = self.lower.den as i128;
        let un: i128 = self.upper.num as i128;
        let ud: i128 = self.upper.den as i128;
        let mnum: i128 = ln * ud + un * ld;
        let mden: i128 = 2 * ld * ud;
        let snum: i128 = un * ld - ln * ud;
        let mut out = String::new();
        match precision {
            None => {
                proof {
                    assert(ten_smooth(2)) by {
                        reveal_with_fuel(ten_smooth, 3);
                    }
                    lemma_ten_smooth_mul(2, self.lower.den as int);
                    lemma_ten_smooth_mul(2 * self.lower.den as int, self.upper.den as int);
                    lemma_pow10_adds(18, 18);
                    lemma_pow10_bounds(18, 36);
                    assert((2 * self.lower.den as int) * (self.upper.den as int) <= 2 * pow10(36))
                        by (nonlinear_arith)
                        requires
                            1 <= self.lower.den as int <= pow10(18),
                            1 <= self.upper.den as int <= pow10(18),
                            pow10(36) == pow10(18) * pow10(18),
                    ;
                }
                out.append("[");
                append_rat_exact(&mut out, ln, ld);
                out.append(", ");
                append_rat_exact(&mut out, un, ud);
                out.append("], x\u{0304} = ");
                append_rat_exact(&mut out, mnum, mden);
                out.append(" \u{b1} ");
                append_rat_exact(&mut out, snum, mden);
            },
            Some(p) => {
                proof {
                    crate::decimal::lemma_pow10_pos(p as nat);
                    assert(2 * (self.lower.den as int) * pow10(p as nat) <= 4 * self.lower.den
                        * self.upper.den * pow10(p as nat)) by (nonlinear_arith)
                        requires
                            1 <= self.lower.den as int,
                            1 <= self.upper.den as int,
                            pow10(p as nat) >= 1,
                    ;
                    assert(2 * (self.upper.den as int) * pow10(p as nat) <= 4 * self.lower.den
                        * self.upper.den * pow10(p as nat)) by (nonlinear_arith)
                        requires
                            1 <= self.lower.den as int,
                            1 <= self.upper.den as int,
                            pow10(p as nat) >= 1,
                    ;
                    assert(2 * ((2 * self.lower.den as int) * (self.upper.den as int)) * pow10(
                        p as nat,
                    ) == 4 * self.lower.den * self.upper.den * pow10(p as nat))
                        by (nonlinear_arith);
                }
                out.append("[");
                append_rat_fixed(&mut out, ln, ld, p);
                out.append(", ");
                append_rat_fixed(&mut out, un, ud, p);
                out.append("], x\u{0304} = ");
                append_rat_fixed(&mut out, mnum, mden, p);
                out.append(" \u{b1} ");
                append_rat_fixed(&mut out, snum, mden, p);
            },
        }
        assert(out@ =~= self.spec_render(precision));
        out
    }
}

} // verus!
