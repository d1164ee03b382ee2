//! Distribution-free confidence bounds on the population mean from the
//! Dvoretzky-Kiefer-Wolfowitz (DKW) inequality.
//!
//! The DKW band half-width (epsilon) is handed in as an exact rational
//! `en / ed`; every quantity here is then an exact rational as well. For a
//! sample of `n` observations the envelopes at a point with empirical count
//! `c` are, over the common denominator `n * ed`:
//!
//!   upper envelope: `min(c*ed + n*en, n*ed)`  (that is `min(c/n + eps, 1)`)
//!   lower envelope: `max(c*ed - n*en, 0)`     (that is `max(c/n - eps, 0)`)
//!
//! The mean bounds integrate the observations against these step envelopes;
//! the *lower* mean bound uses the *upper* envelope and vice versa.

use vstd::prelude::*;

verus! {

use crate::ConfidenceInterval;
use crate::rat::Rat;
use crate::sample::Sample;
use crate::sample::count_le_rat;
use crate::sample::count_le_val;
use crate::sample::lemma_count_le_same_den;
use crate::sample::lemma_count_le_val_bounds;
use crate::sample::lemma_count_le_val_monotone;
use crate::sample::prob_by;
use crate::sample::sorted;

/// Numerator of the DKW upper envelope, over denominator `n * ed`:
/// the empirical probability `c / n` plus epsilon, clamped to 1.
pub open spec fn cdf_upper_num(c: int, n: int, en: int, ed: int) -> int {
    vstd::math::min(c * ed + n * en, n * ed)
}

/// Numerator of the DKW lower envelope, over denominator `n * ed`:
/// the empirical probability `c / n` minus epsilon, clamped to 0.
pub open spec fn cdf_lower_num(c: int, n: int, en: int, ed: int) -> int {
    vstd::math::max(c * ed - n * en, 0)
}

/// Empirical count at the sample's own `i`-th point: how many observations
/// are less than or equal to it.
pub open spec fn cnt_at(s: Seq<i64>, i: int) -> int {
    count_le_val(s, s[i] as int)
}

/// The upper envelope evaluated at sample points `0 ..= n-2` (the only
/// points the integration reads), as numerators over `n * ed`.
pub open spec fn upper_env(s: Seq<i64>, en: int, ed: int) -> Seq<int> {
    Seq::new((s.len() - 1) as nat, |i: int| cdf_upper_num(cnt_at(s, i), s.len() as int, en, ed))
}

/// The lower envelope evaluated at sample points `0 ..= n-2`.
pub open spec fn lower_env(s: Seq<i64>, en: int, ed: int) -> Seq<int> {
    Seq::new((s.len() - 1) as nat, |i: int| cdf_lower_num(cnt_at(s, i), s.len() as int, en, ed))
}

/// Interior part of the integral: `sum over i in 1 .. k of s[i] * (e[i] - e[i-1])`.
pub open spec fn interior_sum(s: Seq<i64>, e: Seq<int>, k: int) -> int
    decreases k,
{
    if k <= 1 {
        0
    } else {
        interior_sum(s, e, k - 1) + s[k - 1] * (e[k - 1] - e[k - 2])
    }
}

/// Numerator (over `sample_den * d`) of the full step-function integral of
/// the observations against an envelope `e` with common denominator `d`:
/// first term, last term, and the interior differences.
pub open spec fn stieltjes_num(s: Seq<i64>, e: Seq<int>, d: int) -> int {
    let n = s.len() as int;
    s[0] * e[0] + s[n - 1] * (d - e[n - 2]) + interior_sum(s, e, n - 1)
}

/// Summation-by-parts companion of `interior_sum`:
/// `sum over i in 0 .. k of e[i] * (s[i+1] - s[i])`.
pub open spec fn abel_sum(s: Seq<i64>, e: Seq<int>, k: int) -> int
    decreases k,
{
    if k <= 0 {
        0
    } else {
        abel_sum(s, e, k - 1) + e[k - 1] * (s[k] - s[k - 1])
    }
}

/// The machine-size precondition of the integration: every intermediate
/// product stays within `i64`, so the exact numerator does too.
pub open spec fn bounds_fit(s: Sample, eps: Rat) -> bool {
    let n = s.vals@.len() as int;
    let d = n * eps.den;
    &&& n * eps.den <= i64::MAX
    &&& n * eps.num <= i64::MAX
    &&& s.den * d <= i64::MAX
    &&& forall|i: int| 0 <= i < n ==> -i64::MAX <= #[trigger] (s.vals@[i] * d) <= i64::MAX
}

/// Multiplying the sides of `a <= b` by a nonnegative `c` keeps the order.
proof fn lemma_mul_mono(a: int, b: int, c: int)
    by (nonlinear_arith)
    requires
        a <= b,
        0 <= c,
    ensures
        a * c <= b * c,
        c * a <= c * b,
{
}

/// Products of nonnegative factors are nonnegative; of positive, positive.
proof fn lemma_mul_signs(a: int, b: int)
    by (nonlinear_arith)
    ensures
        0 <= a && 0 <= b ==> 0 <= a * b,
        1 <= a && 1 <= b ==> 1 <= a * b && a <= a * b && b <= a * b,
{
}

/// The envelopes bracket the empirical probability and stay within [0, 1]:
/// over the common denominator `n * ed`, the lower envelope numerator is at
/// most `c * ed` (which is `c/n`) which is at most the upper envelope
/// numerator, and both lie between 0 and `n * ed`.
pub proof fn lemma_envelopes_bracket_probability(c: int, n: int, en: int, ed: int)
    requires
        0 <= c <= n,
        1 <= n,
        1 <= ed,
        0 <= en,
    ensures
        0 <= cdf_lower_num(c, n, en, ed),
        cdf_lower_num(c, n, en, ed) <= c * ed,
        c * ed <= cdf_upper_num(c, n, en, ed),
        cdf_upper_num(c, n, en, ed) <= n * ed,
{
    lemma_mul_signs(c, ed);
    lemma_mul_signs(n, en);
    lemma_mul_mono(c, n, ed);
}

/// The envelope numerators at the sample's own points: each within
/// `[0, n*ed]`, non-decreasing from point to point, and the lower envelope
/// never above the upper one.
proof fn lemma_env_props(s: Seq<i64>, en: int, ed: int)
    requires
        sorted(s),
        s.len() >= 1,
        1 <= ed,
        0 <= en,
    ensures
        upper_env(s, en, ed).len() == s.len() - 1,
        lower_env(s, en, ed).len() == s.len() - 1,
        forall|i: int|
            0 <= i < s.len() - 1 ==> 0 <= #[trigger] upper_env(s, en, ed)[i] <= s.len() * ed,
        forall|i: int|
            0 <= i < s.len() - 1 ==> 0 <= #[trigger] lower_env(s, en, ed)[i] <= s.len() * ed,
        forall|i: int|
            0 <= i < s.len() - 1 ==> #[trigger] lower_env(s, en, ed)[i] <= #[trigger] upper_env(
                s,
                en,
                ed,
            )[i],
        forall|i: int, j: int|
            0 <= i <= j < s.len() - 1 ==> #[trigger] upper_env(s, en, ed)[i] <= #[trigger] upper_env(
                s,
                en,
                ed,
            )[j],
        forall|i: int, j: int|
            0 <= i <= j < s.len() - 1 ==> #[trigger] lower_env(s, en, ed)[i] <= #[trigger] lower_env(
                s,
                en,
                ed,
            )[j],
{
    let n = s.len() as int;
    assert forall|i: int| 0 <= i < n - 1 implies 0 <= #[trigger] upper_env(s, en, ed)[i] <= n
        * ed by {
        lemma_count_le_val_bounds(s, s[i] as int);
        lemma_envelopes_bracket_probability(cnt_at(s, i), n, en, ed);
    }
    assert forall|i: int| 0 <= i < n - 1 implies 0 <= #[trigger] lower_env(s, en, ed)[i] <= n
        * ed by {
        lemma_count_le_val_bounds(s, s[i] as int);
        lemma_envelopes_bracket_probability(cnt_at(s, i), n, en, ed);
    }
    assert forall|i: int| 0 <= i < n - 1 implies #[trigger] lower_env(s, en, ed)[i] <= upper_env(
        s,
        en,
        ed,
    )[i] by {
        lemma_count_le_val_bounds(s, s[i] as int);
        lemma_envelopes_bracket_probability(cnt_at(s, i), n, en, ed);
    }
    assert forall|i: int, j: int|
        0 <= i <= j < n - 1 implies #[trigger] upper_env(s, en, ed)[i] <= #[trigger] upper_env(
        s,
        en,
        ed,
    )[j] by {
        lemma_count_le_val_monotone(s, s[i] as int, s[j] as int);
        lemma_mul_mono(cnt_at(s, i), cnt_at(s, j), ed);
    }
    assert forall|i: int, j: int|
        0 <= i <= j < n - 1 implies #[trigger] lower_env(s, en, ed)[i] <= #[trigger] lower_env(
        s,
        en,
        ed,
    )[j] by {
        lemma_count_le_val_monotone(s, s[i] as int, s[j] as int);
        lemma_mul_mono(cnt_at(s, i), cnt_at(s, j), ed);
    }
}

/// A product of an `i64`-bounded pair: if `sv * d` is within `bb` and `u`
/// lies between 0 and `d`, then `sv * u` is within `bb` as well.
proof fn lemma_prod_bound(sv: int, u: int, d: int, bb: int)
    by (nonlinear_arith)
    requires
        0 <= u <= d,
        1 <= d,
        0 <= bb,
        -bb <= sv * d <= bb,
    ensures
        -bb <= sv * u <= bb,
{
}

/// Summation by parts: the interior sum collapses to boundary terms minus
/// the companion `abel_sum`.
proof fn lemma_interior_abel(s: Seq<i64>, e: Seq<int>, k: int)
    requires
        1 <= k <= s.len(),
        k <= e.len(),
    ensures
        interior_sum(s, e, k) == s[k - 1] * e[k - 1] - s[0] * e[0] - abel_sum(s, e, k - 1),
    decreases k,
{
    if k == 1 {
    } else {
        lemma_interior_abel(s, e, k - 1);
        let sk = s[k - 1] as int;
        let sk1 = s[k - 2] as int;
        let ek = e[k - 1];
        let ek1 = e[k - 2];
        assert(sk * (ek - ek1) == sk * ek - sk * ek1) by (nonlinear_arith);
        assert(ek1 * (sk - sk1) == ek1 * sk - ek1 * sk1) by (nonlinear_arith);
        assert(ek1 * sk == sk * ek1) by (nonlinear_arith);
        assert(ek1 * sk1 == sk1 * ek1) by (nonlinear_arith);
    }
}

/// The full integral in summation-by-parts form: the top observation times
/// the whole band, minus the envelope integrated against the increments.
proof fn lemma_stieltjes_abel(s: Seq<i64>, e: Seq<int>, d: int)
    requires
        s.len() >= 2,
        e.len() == s.len() - 1,
    ensures
        stieltjes_num(s, e, d) == s[s.len() - 1] * d - abel_sum(s, e, s.len() - 1),
{
    let n = s.len() as int;
    lemma_interior_abel(s, e, n - 1);
    let sn = s[n - 1] as int;
    let sn1 = s[n - 2] as int;
    let en2 = e[n - 2];
    assert(abel_sum(s, e, n - 1) == abel_sum(s, e, n - 2) + en2 * (sn - sn1));
    assert(sn * (d - en2) == sn * d - sn * en2) by (nonlinear_arith);
    assert(en2 * (sn - sn1) == en2 * sn - en2 * sn1) by (nonlinear_arith);
    assert(en2 * sn == sn * en2) by (nonlinear_arith);
    assert(en2 * sn1 == sn1 * en2) by (nonlinear_arith);
}

/// Integrating a pointwise-larger envelope (compared across denominators
/// `de` and `df`) gives a larger `abel_sum`, because the increments of a
/// sorted sequence are nonnegative.
proof fn lemma_abel_mono_scaled(s: Seq<i64>, e: Seq<int>, f: Seq<int>, de: int, df: int, k: int)
    requires
        sorted(s),
        0 <= k < s.len(),
        k <= e.len(),
        k <= f.len(),
        forall|i: int| 0 <= i < k ==> #[trigger] (f[i] * de) <= e[i] * df,
    ensures
        abel_sum(s, f, k) * de <= abel_sum(s, e, k) * df,
    decreases k,
{
    if k > 0 {
        lemma_abel_mono_scaled(s, e, f, de, df, k - 1);
        let dl = s[k] - s[k - 1] as int;
        let ek = e[k - 1];
        let fk = f[k - 1];
        assert(dl >= 0);
        assert(fk * de <= ek * df);
        assert((abel_sum(s, f, k - 1) + fk * dl) * de == abel_sum(s, f, k - 1) * de + (fk * de)
            * dl) by (nonlinear_arith);
        assert((abel_sum(s, e, k - 1) + ek * dl) * df == abel_sum(s, e, k - 1) * df + (ek * df)
            * dl) by (nonlinear_arith);
        assert((fk * de) * dl <= (ek * df) * dl) by (nonlinear_arith)
            requires
                fk * de <= ek * df,
                dl >= 0,
        ;
    }
}

/// An envelope within `[0, d]` integrated against the increments of a
/// sorted sequence stays between 0 and `d` times the total increase.
proof fn lemma_abel_range(s: Seq<i64>, e: Seq<int>, d: int, k: int)
    requires
        sorted(s),
        0 <= k < s.len(),
        k <= e.len(),
        forall|i: int| 0 <= i < k ==> 0 <= #[trigger] e[i] <= d,
    ensures
        0 <= abel_sum(s, e, k) <= d * (s[k] - s[0]),
    decreases k,
{
    if k > 0 {
        lemma_abel_range(s, e, d, k - 1);
        let dl = s[k] - s[k - 1] as int;
        let ek = e[k - 1];
        assert(dl >= 0);
        assert(0 <= ek * dl <= d * dl) by (nonlinear_arith)
            requires
                0 <= ek <= d,
                dl >= 0,
        ;
        let a = s[0] as int;
        let b = s[k - 1] as int;
        let c = s[k] as int;
        assert(d * (b - a) + d * (c - b) == d * (c - a)) by (nonlinear_arith);
    }
}

/// Every step-envelope integral lies between the smallest and the largest
/// observation (each times the common denominator `d`).
pub proof fn lemma_stieltjes_range(s: Seq<i64>, e: Seq<int>, d: int)
    requires
        sorted(s),
        s.len() >= 2,
        e.len() == s.len() - 1,
        forall|i: int| 0 <= i < e.len() ==> 0 <= #[trigger] e[i] <= d,
    ensures
        s[0] * d <= stieltjes_num(s, e, d) <= s[s.len() - 1] * d,
{
    let n = s.len() as int;
    lemma_stieltjes_abel(s, e, d);
    lemma_abel_range(s, e, d, n - 1);
    assert(d * (s[n - 1] - s[0]) == d * s[n - 1] - d * s[0]) by (nonlinear_arith);
    assert(d * s[n - 1] == s[n - 1] * d) by (nonlinear_arith);
    assert(d * s[0] == s[0] * d) by (nonlinear_arith);
}

/// The heart of the ordering law: integrating against the upper envelope
/// gives at most what integrating against the lower envelope gives (that is
/// why the *lower* mean bound uses the *upper* envelope).
pub proof fn lemma_interval_ordered(s: Seq<i64>, en: int, ed: int)
    requires
        sorted(s),
        s.len() >= 2,
        0 <= en,
        1 <= ed,
    ensures
        stieltjes_num(s, upper_env(s, en, ed), s.len() * ed) <= stieltjes_num(
            s,
            lower_env(s, en, ed),
            s.len() * ed,
        ),
{
    let n = s.len() as int;
    let d = n * ed;
    let up = upper_env(s, en, ed);
    let lo = lower_env(s, en, ed);
    lemma_env_props(s, en, ed);
    lemma_stieltjes_abel(s, up, d);
    lemma_stieltjes_abel(s, lo, d);
    assert forall|i: int| 0 <= i < n - 1 implies #[trigger] (lo[i] * 1) <= up[i] * 1 by {
        assert(lo[i] <= up[i]);
    }
    lemma_abel_mono_scaled(s, up, lo, 1, 1, n - 1);
}

/// A wider band raises the upper envelope: pointwise, the envelope for the
/// larger epsilon (as a rational over `n * ed2`) is at least the envelope
/// for the smaller one (over `n * ed1`).
#[verifier::rlimit(50)]
proof fn lemma_upper_env_mono_eps(c: int, n: int, en1: int, ed1: int, en2: int, ed2: int)
    requires
        0 <= c <= n,
        1 <= n,
        1 <= ed1,
        1 <= ed2,
        0 <= en1,
        0 <= en2,
        en1 * ed2 <= en2 * ed1,
    ensures
        cdf_upper_num(c, n, en1, ed1) * (n * ed2) <= cdf_upper_num(c, n, en2, ed2) * (n * ed1),
{
    let a1 = c * ed1 + n * en1;
    let m1 = n * ed1;
    let a2 = c * ed2 + n * en2;
    let m2 = n * ed2;
    lemma_mul_signs(n, ed1);
    lemma_mul_signs(n, ed2);
    if a2 <= m2 {
        if a1 <= m1 {
            assert((c * ed1 + n * en1) * (n * ed2) <= (c * ed2 + n * en2) * (n * ed1))
                by (nonlinear_arith)
                requires
                    en1 * ed2 <= en2 * ed1,
                    n >= 0,
            ;
        } else {
            // the first band is already clamped; then the second is clamped too
            assert((n - c) * ed1 <= n * en1) by (nonlinear_arith)
                requires
                    c * ed1 + n * en1 > n * ed1,
            ;
            assert(n * en2 * ed1 >= (n - c) * ed2 * ed1) by (nonlinear_arith)
                requires
                    (n - c) * ed1 <= n * en1,
                    en1 * ed2 <= en2 * ed1,
                    n >= 0,
                    ed2 >= 1,
            ;
            assert(a2 >= m2) by (nonlinear_arith)
                requires
                    n * en2 * ed1 >= (n - c) * ed2 * ed1,
                    ed1 >= 1,
                    a2 == c * ed2 + n * en2,
                    m2 == n * ed2,
            ;
            assert(m1 * m2 <= a2 * m1) by (nonlinear_arith)
                requires
                    m2 <= a2,
                    m1 >= 0,
            ;
        }
    } else {
        lemma_mul_mono(vstd::math::min(a1, m1), m1, m2);
        assert(m1 * m2 == m2 * m1) by (nonlinear_arith);
    }
}

/// A wider band lowers the lower envelope, pointwise, across denominators.
#[verifier::rlimit(50)]
proof fn lemma_lower_env_mono_eps(c: int, n: int, en1: int, ed1: int, en2: int, ed2: int)
    requires
        0 <= c <= n,
        1 <= n,
        1 <= ed1,
        1 <= ed2,
        0 <= en1,
        0 <= en2,
        en1 * ed2 <= en2 * ed1,
    ensures
        cdf_lower_num(c, n, en2, ed2) * (n * ed1) <= cdf_lower_num(c, n, en1, ed1) * (n * ed2),
{
    let b1 = c * ed1 - n * en1;
    let b2 = c * ed2 - n * en2;
    let m1 = n * ed1;
    let m2 = n * ed2;
    lemma_mul_signs(n, ed1);
    lemma_mul_signs(n, ed2);
    if b2 <= 0 {
        assert(cdf_lower_num(c, n, en2, ed2) == 0);
        assert(cdf_lower_num(c, n, en2, ed2) * m1 == 0) by (nonlinear_arith)
            requires
                cdf_lower_num(c, n, en2, ed2) == 0,
        ;
        lemma_mul_signs(cdf_lower_num(c, n, en1, ed1), m2);
    } else {
        assert((c * ed2 - n * en2) * (n * ed1) <= (c * ed1 - n * en1) * (n * ed2))
            by (nonlinear_arith)
            requires
                en1 * ed2 <= en2 * ed1,
                n >= 0,
        ;
        lemma_mul_mono(b1, vstd::math::max(b1, 0), m2);
    }
}

/// Summation-by-parts numerators compared across denominators, scaled by the
/// sample denominator.
proof fn lemma_cross_step(sn: int, a1: int, a2: int, d1: int, d2: int, sden: int)
    by (nonlinear_arith)
    requires
        a1 * d2 <= a2 * d1,
        1 <= sden,
    ensures
        (sn * d2 - a2) * (sden * d1) <= (sn * d1 - a1) * (sden * d2),
{
}

/// Monotonicity law: a wider DKW band (a larger epsilon, which a stricter,
/// smaller alpha produces) can only widen the interval. Read over the full
/// denominators `sden * (n * ed)`, the first claim is
/// `ci_lower(s, eps2) <= ci_lower(s, eps1)` and the second is
/// `ci_upper(s, eps1) <= ci_upper(s, eps2)` whenever `eps1 <= eps2`.
pub proof fn lemma_wider_band_widens(
    s: Seq<i64>,
    sden: int,
    en1: int,
    ed1: int,
    en2: int,
    ed2: int,
)
    requires
        sorted(s),
        s.len() >= 2,
        1 <= sden,
        0 <= en1,
        1 <= ed1,
        0 <= en2,
        1 <= ed2,
        en1 * ed2 <= en2 * ed1,
    ensures
        stieltjes_num(s, upper_env(s, en2, ed2), s.len() * ed2) * (sden * (s.len() * ed1))
            <= stieltjes_num(s, upper_env(s, en1, ed1), s.len() * ed1) * (sden * (s.len() * ed2)),
        stieltjes_num(s, lower_env(s, en1, ed1), s.len() * ed1) * (sden * (s.len() * ed2))
            <= stieltjes_num(s, lower_env(s, en2, ed2), s.len() * ed2) * (sden * (s.len() * ed1)),
{
    let n = s.len() as int;
    let d1 = n * ed1;
    let d2 = n * ed2;
    let up1 = upper_env(s, en1, ed1);
    let up2 = upper_env(s, en2, ed2);
    let lo1 = lower_env(s, en1, ed1);
    let lo2 = lower_env(s, en2, ed2);
    assert forall|i: int| 0 <= i < n - 1 implies #[trigger] (up1[i] * d2) <= up2[i] * d1 by {
        lemma_count_le_val_bounds(s, s[i] as int);
        lemma_upper_env_mono_eps(cnt_at(s, i), n, en1, ed1, en2, ed2);
    }
    assert forall|i: int| 0 <= i < n - 1 implies #[trigger] (lo2[i] * d1) <= lo1[i] * d2 by {
        lemma_count_le_val_bounds(s, s[i] as int);
        lemma_lower_env_mono_eps(cnt_at(s, i), n, en1, ed1, en2, ed2);
    }
    lemma_abel_mono_scaled(s, up2, up1, d2, d1, n - 1);
    lemma_abel_mono_scaled(s, lo1, lo2, d1, d2, n - 1);
    lemma_stieltjes_abel(s, up1, d1);
    lemma_stieltjes_abel(s, up2, d2);
    lemma_stieltjes_abel(s, lo1, d1);
    lemma_stieltjes_abel(s, lo2, d2);
    let sn = s[n - 1] as int;
    lemma_cross_step(sn, abel_sum(s, up1, n - 1), abel_sum(s, up2, n - 1), d1, d2, sden);
    lemma_cross_step(sn, abel_sum(s, lo2, n - 1), abel_sum(s, lo1, n - 1), d2, d1, sden);
}

/// Degenerate-sample law: when every observation equals the first one, both
/// integral numerators are exactly that observation times the common
/// denominator, so both interval ends are exactly that observation.
pub proof fn lemma_constant_sample_collapses(s: Seq<i64>, en: int, ed: int)
    requires
        s.len() >= 2,
        forall|i: int| 0 <= i < s.len() ==> #[trigger] s[i] == s[0],
        0 <= en,
        1 <= ed,
    ensures
        stieltjes_num(s, upper_env(s, en, ed), s.len() * ed) == s[0] * (s.len() * ed),
        stieltjes_num(s, lower_env(s, en, ed), s.len() * ed) == s[0] * (s.len() * ed),
{
    let n = s.len() as int;
    let d = n * ed;
    assert(sorted(s));
    lemma_env_props(s, en, ed);
    lemma_stieltjes_abel(s, upper_env(s, en, ed), d);
    lemma_stieltjes_abel(s, lower_env(s, en, ed), d);
    lemma_abel_range(s, upper_env(s, en, ed), d, n - 1);
    lemma_abel_range(s, lower_env(s, en, ed), d, n - 1);
    assert(d * (s[n - 1] - s[0]) == 0) by (nonlinear_arith)
        requires
            s[n - 1] == s[0],
    ;
}

/// The DKW upper envelope of the true CDF at `x`:
/// `min(empirical probability + epsilon, 1)`, exactly, over denominator
/// `n * eps.den`.
pub fn cdf_upper(s: &Sample, x: Rat, eps: Rat) -> (r: Rat)
    requires
        s.wf(),
        x.wf(),
        eps.wf(),
        eps.num >= 0,
        1 <= s.vals@.len(),
        s.vals@.len() * eps.den <= i64::MAX,
        s.vals@.len() * eps.num <= i64::MAX,
    ensures
        r.den == s.vals@.len() * eps.den,
        r.num == cdf_upper_num(
            count_le_rat(s.vals@, s.den as int, x.num as int, x.den as int),
            s.vals@.len() as int,
            eps.num as int,
            eps.den as int,
        ),
        0 <= r.num <= r.den,
        r.wf(),
{
    proof {
        lemma_mul_signs(s.vals@.len() as int, eps.den as int);
    }
    let p = prob_by(s, x);
    let n: i64 = p.den;
    proof {
        lemma_mul_signs(n as int, eps.den as int);
        lemma_mul_signs(n as int, eps.num as int);
        lemma_envelopes_bracket_probability(p.num as int, n as int, eps.num as int, eps.den as int);
    }
    let nd: i64 = n * eps.den;
    let nn: i64 = n * eps.num;
    let raw: i128 = (p.num as i128) * (eps.den as i128) + (nn as i128);
    let v: i128 = if raw > nd as i128 {
        nd as i128
    } else {
        raw
    };
    Rat { num: v as i64, den: nd }
}

/// The DKW lower envelope of the true CDF at `x`:
/// `max(0, empirical probability - epsilon)`, exactly, over denominator
/// `n * eps.den`.
pub fn cdf_lower(s: &Sample, x: Rat, eps: Rat) -> (r: Rat)
    requires
        s.wf(),
        x.wf(),
        eps.wf(),
        eps.num >= 0,
        1 <= s.vals@.len(),
        s.vals@.len() * eps.den <= i64::MAX,
        s.vals@.len() * eps.num <= i64::MAX,
    ensures
        r.den == s.vals@.len() * eps.den,
        r.num == cdf_lower_num(
            count_le_rat(s.vals@, s.den as int, x.num as int, x.den as int),
            s.vals@.len() as int,
            eps.num as int,
            eps.den as int,
        ),
        0 <= r.num <= r.den,
        r.wf(),
{
    proof {
        lemma_mul_signs(s.vals@.len() as int, eps.den as int);
    }
    let p = prob_by(s, x);
    let n: i64 = p.den;
    proof {
        lemma_mul_signs(n as int, eps.den as int);
        lemma_mul_signs(n as int, eps.num as int);
        lemma_envelopes_bracket_probability(p.num as int, n as int, eps.num as int, eps.den as int);
    }
    let nd: i64 = n * eps.den;
    let nn: i64 = n * eps.num;
    let raw: i128 = (p.num as i128) * (eps.den as i128) - (nn as i128);
    let v: i128 = if raw < 0 {
        0
    } else {
        raw
    };
    Rat { num: v as i64, den: nd }
}

/// The chosen envelope's numerator at the sample's `i`-th point, by binary
/// search for the empirical count and an exact clamp.
fn env_at(s: &Sample, i: usize, eps: &Rat, use_upper: bool) -> (u: i64)
    requires
        s.wf(),
        eps.wf(),
        eps.num >= 0,
        1 <= s.vals@.len(),
        i < s.vals@.len(),
        s.vals@.len() * eps.den <= i64::MAX,
        s.vals@.len() * eps.num <= i64::MAX,
    ensures
        u == if use_upper {
            cdf_upper_num(cnt_at(s.vals@, i as int), s.vals@.len() as int, eps.num as int, eps.den as int)
        } else {
            cdf_lower_num(cnt_at(s.vals@, i as int), s.vals@.len() as int, eps.num as int, eps.den as int)
        },
        0 <= u <= s.vals@.len() * eps.den,
{
    proof {
        lemma_mul_signs(s.vals@.len() as int, eps.den as int);
    }
    let x = Rat { num: s.vals[i], den: s.den };
    let p = prob_by(s, x);
    proof {
        lemma_count_le_same_den(s.vals@, s.den as int, s.vals@[i as int] as int);
        lemma_envelopes_bracket_probability(
            p.num as int,
            p.den as int,
            eps.num as int,
            eps.den as int,
        );
    }
    let n: i64 = p.den;
    let nd: i64 = n * eps.den;
    let nn: i64 = n * eps.num;
    let v: i128 = if use_upper {
        let raw: i128 = (p.num as i128) * (eps.den as i128) + (nn as i128);
        if raw > nd as i128 {
            nd as i128
        } else {
            raw
        }
    } else {
        let raw: i128 = (p.num as i128) * (eps.den as i128) - (nn as i128);
        if raw < 0 {
            0
        } else {
            raw
        }
    };
    v as i64
}

/// The numerator, over `s.den * (n * eps.den)`, of the integral of the
/// observations against the chosen envelope: first term, interior
/// differences, last term.
fn integrate(s: &Sample, eps: &Rat, use_upper: bool) -> (num: i64)
    requires
        s.wf(),
        eps.wf(),
        eps.num >= 0,
        s.vals@.len() >= 2,
        bounds_fit(*s, *eps),
    ensures
        num == stieltjes_num(
            s.vals@,
            if use_upper {
                upper_env(s.vals@, eps.num as int, eps.den as int)
            } else {
                lower_env(s.vals@, eps.num as int, eps.den as int)
            },
            s.vals@.len() * eps.den,
        ),
{
    let n = s.vals.len();
    let ghost en = eps.num as int;
    let ghost ed = eps.den as int;
    let ghost d = s.vals@.len() * ed;
    let ghost e: Seq<int> = if use_upper {
        upper_env(s.vals@, en, ed)
    } else {
        lower_env(s.vals@, en, ed)
    };
    proof {
        lemma_mul_signs(n as int, ed);
        lemma_env_props(s.vals@, en, ed);
        assert forall|j: int| 0 <= j < n - 1 implies 0 <= #[trigger] e[j] <= d by {
            if use_upper {
                assert(e[j] == upper_env(s.vals@, en, ed)[j]);
            } else {
                assert(e[j] == lower_env(s.vals@, en, ed)[j]);
            }
        }
    }
    let nd: i64 = (n as i64) * eps.den;
    let u_first: i64 = env_at(s, 0, eps, use_upper);
    let mut u_prev: i64 = u_first;
    let mut others: i128 = 0;
    let mut i: usize = 1;
    while i < n - 1
        invariant
            s.wf(),
            eps.wf(),
            eps.num >= 0,
            bounds_fit(*s, *eps),
            n == s.vals@.len(),
            n >= 2,
            en == eps.num as int,
            ed == eps.den as int,
            d == n * ed,
            1 <= d <= i64::MAX,
            nd == d,
            e == if use_upper {
                upper_env(s.vals@, en, ed)
            } else {
                lower_env(s.vals@, en, ed)
            },
            e.len() == n - 1,
            forall|j: int| 0 <= j < n - 1 ==> 0 <= #[trigger] e[j] <= d,
            1 <= i <= n - 1,
            u_prev == e[i - 1],
            others == interior_sum(s.vals@, e, i as int),
            -4 * (i64::MAX as int) <= others <= 4 * (i64::MAX as int),
        decreases n - i,
    {
        let u: i64 = env_at(s, i, eps, use_upper);
        proof {
            if use_upper {
                assert(e[i as int] == upper_env(s.vals@, en, ed)[i as int]);
            } else {
                assert(e[i as int] == lower_env(s.vals@, en, ed)[i as int]);
            }
            assert(u == e[i as int]);
            crate::rat::lemma_i64_mul_fits(s.vals@[i as int] as int, (u - u_prev) as int);
            // the new partial sum is interior_sum at i + 1; bound it through
            // its summation-by-parts form
            lemma_interior_abel(s.vals@, e, i + 1);
            lemma_abel_range(s.vals@, e, d, i as int);
            let bb = i64::MAX as int;
            lemma_prod_bound(s.vals@[i as int] as int, e[i as int], d, bb);
            lemma_prod_bound(s.vals@[0] as int, e[0], d, bb);
            let a = s.vals@[0] as int;
            let c = s.vals@[i as int] as int;
            assert(-bb <= a * d <= bb);
            assert(-bb <= c * d <= bb);
            assert(d * (c - a) == c * d - a * d) by (nonlinear_arith);
        }
        let term: i128 = (s.vals[i] as i128) * ((u as i128) - (u_prev as i128));
        others = others + term;
        u_prev = u;
        i = i + 1;
    }
    proof {
        let bb = i64::MAX as int;
        lemma_prod_bound(s.vals@[0] as int, e[0], d, bb);
        lemma_prod_bound(s.vals@[n - 1] as int, d - e[n - 2], d, bb);
        lemma_stieltjes_range(s.vals@, e, d);
        assert(-bb <= s.vals@[0] * d <= bb);
        assert(-bb <= s.vals@[n - 1] * d <= bb);
    }
    let first: i128 = (s.vals[0] as i128) * (u_first as i128);
    let last: i128 = (s.vals[n - 1] as i128) * ((nd as i128) - (u_prev as i128));
    let total: i128 = first + others + last;
    total as i64
}

/// A plain product inequality scaled to the full denominator: from
/// `lo <= v <= hi` (all over `d`) to the same ordering over `sden * d`.
proof fn lemma_range_to_rat(lo: int, hi: int, v: int, sden: int, d: int)
    by (nonlinear_arith)
    requires
        lo * d <= v <= hi * d,
        1 <= sden,
        1 <= d,
    ensures
        lo * (sden * d) <= v * sden,
        v * sden <= hi * (sden * d),
{
}

/// A lower bound on the population mean: the integral of the sample against
/// the *upper* DKW envelope (the larger assumed CDF pulls probability mass
/// toward smaller values). The result is exact, and it never falls below
/// the smallest observation nor above the largest.
pub fn ci_lower(s: &Sample, eps: Rat) -> (r: Rat)
    requires
        s.wf(),
        eps.wf(),
        eps.num >= 0,
        s.vals@.len() >= 2,
        bounds_fit(*s, eps),
    ensures
        r.den == s.den * (s.vals@.len() * eps.den),
        r.num == stieltjes_num(
            s.vals@,
            upper_env(s.vals@, eps.num as int, eps.den as int),
            s.vals@.len() * eps.den,
        ),
        r.wf(),
        (Rat { num: s.vals@[0], den: s.den }).spec_le(r),
        r.spec_le(Rat { num: s.vals@[s.vals@.len() - 1], den: s.den }),
{
    let num = integrate(s, &eps, true);
    let n = s.vals.len();
    proof {
        lemma_mul_signs(n as int, eps.den as int);
        lemma_mul_signs(s.den as int, n as int * eps.den as int);
        lemma_env_props(s.vals@, eps.num as int, eps.den as int);
        lemma_stieltjes_range(
            s.vals@,
            upper_env(s.vals@, eps.num as int, eps.den as int),
            n as int * eps.den as int,
        );
        lemma_range_to_rat(
            s.vals@[0] as int,
            s.vals@[n - 1] as int,
            num as int,
            s.den as int,
            n as int * eps.den as int,
        );
    }
    let nd: i64 = (n as i64) * eps.den;
    Rat { num, den: s.den * nd }
}

/// An upper bound on the population mean: the integral of the sample against
/// the *lower* DKW envelope. Exact, and within the observed range.
pub fn ci_upper(s: &Sample, eps: Rat) -> (r: Rat)
    requires
        s.wf(),
        eps.wf(),
        eps.num >= 0,
        s.vals@.len() >= 2,
        bounds_fit(*s, eps),
    ensures
        r.den == s.den * (s.vals@.len() * eps.den),
        r.num == stieltjes_num(
            s.vals@,
            lower_env(s.vals@, eps.num as int, eps.den as int),
            s.vals@.len() * eps.den,
        ),
        r.wf(),
        (Rat { num: s.vals@[0], den: s.den }).spec_le(r),
        r.spec_le(Rat { num: s.vals@[s.vals@.len() - 1], den: s.den }),
{
    let num = integrate(s, &eps, false);
    let n = s.vals.len();
    proof {
        lemma_mul_signs(n as int, eps.den as int);
        lemma_mul_signs(s.den as int, n as int * eps.den as int);
        lemma_env_props(s.vals@, eps.num as int, eps.den as int);
        lemma_stieltjes_range(
            s.vals@,
            lower_env(s.vals@, eps.num as int, eps.den as int),
            n as int * eps.den as int,
        );
        lemma_range_to_rat(
            s.vals@[0] as int,
            s.vals@[n - 1] as int,
            num as int,
            s.den as int,
            n as int * eps.den as int,
        );
    }
    let nd: i64 = (n as i64) * eps.den;
    Rat { num, den: s.den * nd }
}

/// The DKW confidence interval for the mean of a sorted sample at band
/// half-width `eps`: the pair of the lower and the upper integral bound.
/// The pair is always ordered, and both ends lie within the observed range.
pub fn ci(s: &Sample, eps: Rat) -> (r: ConfidenceInterval)
    requires
        s.wf(),
        eps.wf(),
        eps.num >= 0,
        s.vals@.len() >= 2,
        bounds_fit(*s, eps),
    ensures
        r.lower.den == s.den * (s.vals@.len() * eps.den),
        r.lower.num == stieltjes_num(
            s.vals@,
            upper_env(s.vals@, eps.num as int, eps.den as int),
            s.vals@.len() * eps.den,
        ),
        r.upper.den == s.den * (s.vals@.len() * eps.den),
        r.upper.num == stieltjes_num(
            s.vals@,
            lower_env(s.vals@, eps.num as int, eps.den as int),
            s.vals@.len() * eps.den,
        ),
        r.wf(),
        r.lower.spec_le(r.upper),
        (Rat { num: s.vals@[0], den: s.den }).spec_le(r.lower),
        r.upper.spec_le(Rat { num: s.vals@[s.vals@.len() - 1], den: s.den }),
{
    let lower = ci_lower(s, eps);
    let upper = ci_upper(s, eps);
    proof {
        lemma_interval_ordered(s.vals@, eps.num as int, eps.den as int);
        lemma_mul_mono(lower.num as int, upper.num as int, lower.den as int);
    }
    ConfidenceInterval { lower, upper }
}

} // verus!
