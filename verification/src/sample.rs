//! Order-statistics utilities over a sorted sample: nearest-rank quantile
//! lookup and empirical-CDF probability lookup via binary search.

use vstd::prelude::*;

verus! {

use crate::rat::Rat;
use crate::rat::lemma_i64_mul_fits;

/// The sequence is sorted in non-decreasing order.
pub open spec fn sorted(s: Seq<i64>) -> bool {
    forall|i: int, j: int| 0 <= i <= j < s.len() ==> s[i] <= s[j]
}

/// A sample: observations `vals[i] / den`, sorted ascending, immutable once
/// constructed. All observations share the one positive denominator, so the
/// order of the values is the order of the numerators.
pub struct Sample {
    pub vals: Vec<i64>,
    pub den: i64,
}

impl Sample {
    /// The invariant every operation assumes: positive denominator and
    /// non-decreasing order.
    pub open spec fn wf(self) -> bool {
        self.den > 0 && sorted(self.vals@)
    }

    /// Build a sample, refusing unsorted input or a non-positive denominator.
    pub fn new(vals: Vec<i64>, den: i64) -> (r: Option<Sample>)
        ensures
            r is Some <==> (den >= 1 && sorted(vals@)),
            r is Some ==> r->Some_0.vals@ == vals@ && r->Some_0.den == den && r->Some_0.wf(),
    {
        if den < 1 {
            return None;
        }
        let n = vals.len();
        let mut i: usize = 1;
        while i < n
            invariant
                1 <= i,
                n == vals@.len(),
                forall|a: int, b: int| 0 <= a <= b < i ==> vals@[a] <= vals@[b],
            decreases n - i,
        {
            if vals[i - 1] > vals[i] {
                return None;
            }
            assert forall|a: int, b: int| 0 <= a <= b < i + 1 implies vals@[a] <= vals@[b] by {
                if b == i && a < i {
                    assert(vals@[a] <= vals@[i - 1]);
                }
            }
            i = i + 1;
        }
        Some(Sample { vals, den })
    }

    /// The number of observations.
    pub fn len(&self) -> (n: usize)
        ensures
            n == self.vals@.len(),
    {
        self.vals.len()
    }
}

/// How many elements of `s` (each standing for `s[i] / den`) are less than
/// or equal to the rational `xn / xd`. With positive denominators,
/// `s[i]/den <= xn/xd` exactly when `s[i]*xd <= xn*den`.
pub open spec fn count_le_rat(s: Seq<i64>, den: int, xn: int, xd: int) -> int
    decreases s.len(),
{
    if s.len() == 0 {
        0
    } else {
        count_le_rat(s.drop_last(), den, xn, xd) + if s.last() * xd <= xn * den {
            1int
        } else {
            0int
        }
    }
}

/// How many elements of `s` are less than or equal to `v` (same denominator
/// on both sides, so the comparison is on the numerators alone).
pub open spec fn count_le_val(s: Seq<i64>, v: int) -> int
    decreases s.len(),
{
    if s.len() == 0 {
        0
    } else {
        count_le_val(s.drop_last(), v) + if s.last() <= v {
            1int
        } else {
            0int
        }
    }
}

/// Multiplying both sides of a comparison by a positive factor neither
/// creates nor destroys the inequality.
pub proof fn lemma_mul_le_iff(a: int, b: int, c: int)
    by (nonlinear_arith)
    requires
        c > 0,
    ensures
        (a * c <= b * c) <==> (a <= b),
{
}

/// If everything below `idx` compares `<=` and everything from `idx` on
/// compares `>`, then the count is exactly `idx`.
pub proof fn lemma_count_le_rat_is_partition(s: Seq<i64>, den: int, xn: int, xd: int, idx: int)
    requires
        0 <= idx <= s.len(),
        forall|i: int| 0 <= i < idx ==> #[trigger] (s[i] * xd) <= xn * den,
        forall|i: int| idx <= i < s.len() ==> #[trigger] (s[i] * xd) > xn * den,
    ensures
        count_le_rat(s, den, xn, xd) == idx,
    decreases s.len(),
{
    if s.len() > 0 {
        if idx == s.len() {
            lemma_count_le_rat_is_partition(s.drop_last(), den, xn, xd, idx - 1);
        } else {
            lemma_count_le_rat_is_partition(s.drop_last(), den, xn, xd, idx);
        }
    }
}

/// When the probe shares the sample's denominator the rational count is the
/// plain numerator count.
pub proof fn lemma_count_le_same_den(s: Seq<i64>, den: int, v: int)
    requires
        den > 0,
    ensures
        count_le_rat(s, den, v, den) == count_le_val(s, v),
    decreases s.len(),
{
    if s.len() > 0 {
        lemma_count_le_same_den(s.drop_last(), den, v);
        lemma_mul_le_iff(s.last() as int, v, den);
    }
}

/// A count is between 0 and the length of the sequence.
pub proof fn lemma_count_le_val_bounds(s: Seq<i64>, v: int)
    ensures
        0 <= count_le_val(s, v) <= s.len(),
    decreases s.len(),
{
    if s.len() > 0 {
        lemma_count_le_val_bounds(s.drop_last(), v);
    }
}

/// Counting against a larger threshold counts at least as many elements.
pub proof fn lemma_count_le_val_monotone(s: Seq<i64>, v: int, w: int)
    requires
        v <= w,
    ensures
        count_le_val(s, v) <= count_le_val(s, w),
    decreases s.len(),
{
    if s.len() > 0 {
        lemma_count_le_val_monotone(s.drop_last(), v, w);
    }
}

/// The empirical CDF of the sample at `x`: the fraction of observations
/// less than or equal to `x`, found by binary search. Ties count every
/// equal observation (the rightmost matching rank), so the result is
/// `count_le / n` in every case.
pub fn prob_by(s: &Sample, x: Rat) -> (r: Rat)
    requires
        s.wf(),
        x.wf(),
        1 <= s.vals@.len() <= i64::MAX,
    ensures
        r.den == s.vals@.len(),
        r.num == count_le_rat(s.vals@, s.den as int, x.num as int, x.den as int),
        0 <= r.num <= r.den,
        r.wf(),
{
    let n = s.vals.len();
    let mut lo: usize = 0;
    let mut hi: usize = n;
    while lo < hi
        invariant
            s.wf(),
            x.wf(),
            lo <= hi <= n,
            n == s.vals@.len(),
            forall|i: int| 0 <= i < lo ==> #[trigger] (s.vals@[i] * x.den) <= x.num * s.den,
            forall|i: int| hi <= i < n ==> #[trigger] (s.vals@[i] * x.den) > x.num * s.den,
        decreases hi - lo,
    {
        let mid = lo + (hi - lo) / 2;
        proof {
            lemma_i64_mul_fits(s.vals@[mid as int] as int, x.den as int);
            lemma_i64_mul_fits(x.num as int, s.den as int);
        }
        if (s.vals[mid] as i128) * (x.den as i128) <= (x.num as i128) * (s.den as i128) {
            assert forall|i: int| 0 <= i < mid + 1 implies #[trigger] (s.vals@[i] * x.den) <= x.num
                * s.den by {
                assert(s.vals@[i] <= s.vals@[mid as int]);
                lemma_mul_le_iff(s.vals@[i] as int, s.vals@[mid as int] as int, x.den as int);
            }
            lo = mid + 1;
        } else {
            assert forall|i: int| mid <= i < n implies #[trigger] (s.vals@[i] * x.den) > x.num
                * s.den by {
                assert(s.vals@[mid as int] <= s.vals@[i]);
                lemma_mul_le_iff(s.vals@[mid as int] as int, s.vals@[i] as int, x.den as int);
            }
            hi = mid;
        }
    }
    proof {
        lemma_count_le_rat_is_partition(
            s.vals@,
            s.den as int,
            x.num as int,
            x.den as int,
            lo as int,
        );
    }
    Rat { num: lo as i64, den: n as i64 }
}

/// The index the nearest-rank quantile selects: truncate `q * n`, then step
/// one back unless that is already zero.
pub open spec fn quantile_index(qn: int, qd: int, n: int) -> int {
    let i = (qn * n) / qd;
    if i == 0 {
        0int
    } else {
        i - 1
    }
}

/// The product of a quantile numerator and a length stays within `i128`.
proof fn lemma_quantile_prod_fits(qn: int, n: int)
    by (nonlinear_arith)
    requires
        0 <= qn <= i64::MAX,
        0 <= n <= u64::MAX,
    ensures
        0 <= qn * n <= u128::MAX,
{
}

/// The nearest-rank index is within bounds when `0 <= q <= 1` and `n >= 1`.
proof fn lemma_quantile_index_in_range(qn: int, qd: int, n: int)
    by (nonlinear_arith)
    requires
        0 <= qn <= qd,
        1 <= qd,
        1 <= n,
    ensures
        0 <= quantile_index(qn, qd, n) < n,
        0 <= (qn * n) / qd <= n,
{
}

/// Nearest-rank quantile lookup on a sorted sequence: the element at
/// position `max(0, truncate(q * n) - 1)`. Discrete jumps, no interpolation.
pub fn quantile<T>(ordered: &Vec<T>, q: Rat) -> (r: &T)
    requires
        q.wf(),
        0 <= q.num <= q.den,
        ordered@.len() >= 1,
    ensures
        *r == ordered@[quantile_index(q.num as int, q.den as int, ordered@.len() as int)],
{
    let n = ordered.len();
    proof {
        lemma_quantile_prod_fits(q.num as int, n as int);
        lemma_quantile_index_in_range(q.num as int, q.den as int, n as int);
    }
    let prod: u128 = (q.num as u128) * (n as u128);
    let i: u128 = prod / (q.den as u128);
    let index: usize = if i == 0 {
        0
    } else {
        (i - 1) as usize
    };
    &ordered[index]
}

} // verus!
