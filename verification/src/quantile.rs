//! Confidence intervals for quantiles, by order statistics.
//!
//! On sorted data the engine picks the two order statistics whose ranks
//! bracket the requested quantile under a normal-approximation rank
//! interval; a convenience wrapper sorts fixed-point input first. The
//! two-sided normal critical value `z` is an external input, supplied by
//! the caller from a distribution provider.

use vstd::prelude::*;

use crate::confidence::Confidence;
use crate::fixed::{cdiv, fx_mul, sqrt_floor, lemma_tdiv_mag, cdiv_i128, tdiv_i128, isqrt_u128,
    Fixed, SCALE};
use crate::interval::Interval;

verus! {

/// The one-indexed ranks of the two order statistics bracketing quantile
/// `q`: the ceilings of `n*q` minus and plus `z * sqrt(n*q*(1-q))`.
pub open spec fn quantile_ranks(z: int, n: int, q: int) -> (int, int) {
    let arg = n * q * (SCALE - q);
    let mid = fx_mul(z, sqrt_floor(arg));
    (cdiv(n * q - mid, SCALE as int), cdiv(n * q + mid, SCALE as int))
}

/// The exact outcome of the quantile engine on sorted data: the pair of
/// order statistics at the bracketing ranks, or `None` where the sample
/// is too small or a rank falls outside it (including a lower rank below
/// one, the guarded underflow case).
pub open spec fn quantile_ci_result<T>(z: int, sorted: Seq<T>, q: int) -> Option<(T, T)> {
    let n = sorted.len() as int;
    if n < 3 {
        None
    } else {
        let ranks = quantile_ranks(z, n, q);
        if 1 <= ranks.0 <= n && 1 <= ranks.1 <= n {
            Some((sorted[ranks.0 - 1], sorted[ranks.1 - 1]))
        } else {
            None
        }
    }
}

/// Whether a returned interval matches a prescribed bound pair.
pub open spec fn quantile_matches<T>(m: Option<(T, T)>, r: Option<Interval<T>>) -> bool {
    match (r, m) {
        (Some(iv), Some(p)) => iv.left_val() == p.0 && iv.right_val() == p.1,
        (None, None) => true,
        _ => false,
    }
}

/// The confidence interval for a quantile of data already sorted
/// ascending (or whose element order is itself the intended order).
/// `confidence` documents the level and sidedness the caller used to look
/// up `z`; the quantile must lie strictly between zero and one. The
/// interval is built with the unordered constructor: the first bound is
/// the lower-rank statistic whatever the element type's own ordering.
pub fn ci_sorted_unchecked<T: Copy>(
    confidence: Confidence,
    z: Fixed,
    sorted: &Vec<T>,
    quantile: Fixed,
) -> (r: Option<Interval<T>>)
    requires
        0 < quantile.val() < SCALE,
    ensures
        quantile_matches(quantile_ci_result(z.val(), sorted@, quantile.val()), r),
{
    let len = sorted.len();
    if len < 3 {
        return None;
    }
    let n: i128 = len as i128;
    let q: i128 = quantile.raw() as i128;
    let s128: i128 = SCALE as i128;
    proof {
        assert(0 <= n * q && n * q <= 20_000_000_000_000_000_000_000_000_000i128 && 0 <= n * q * (
        SCALE as int - q) && n * q * (SCALE as int - q)
            <= 20_000_000_000_000_000_000_000_000_000_000_000_000i128) by (nonlinear_arith)
            requires
                0 <= n <= 0xffff_ffff_ffff_ffff,
                0 < q < SCALE as int,
                SCALE == 1_000_000_000i64,
        ;
    }
    let arg: i128 = n * q * (s128 - q);
    let root_u = isqrt_u128(arg as u128);
    proof {
        assert(root_u <= 5_000_000_000_000_000_000u128) by (nonlinear_arith)
            requires
                root_u * root_u <= 20_000_000_000_000_000_000_000_000_000_000_000_000u128,
        ;
    }
    let root: i128 = root_u as i128;
    let zr: i128 = z.raw() as i128;
    proof {
        assert(-47_000_000_000_000_000_000_000_000_000_000_000_000i128 <= zr * root && zr * root
            <= 47_000_000_000_000_000_000_000_000_000_000_000_000i128) by (nonlinear_arith)
            requires
                i64::MIN <= zr <= i64::MAX,
                0 <= root <= 5_000_000_000_000_000_000i128,
        ;
        lemma_tdiv_mag(
            zr as int * root as int,
            SCALE as int,
            47_000_000_000_000_000_000_000_000_000i128 as int,
        );
        assert(0 <= n * q <= 20_000_000_000_000_000_000_000_000_000i128) by (nonlinear_arith)
            requires
                0 <= n <= 0xffff_ffff_ffff_ffff,
                0 <= q <= SCALE as int,
                SCALE == 1_000_000_000i64,
        ;
    }
    let mid = tdiv_i128(zr * root, s128);
    let nq: i128 = n * q;
    let lo_rank = cdiv_i128(nq - mid, s128);
    let hi_rank = cdiv_i128(nq + mid, s128);
    proof {
        crate::fixed::lemma_fdiv_bounds((nq - mid) as int, SCALE as int);
        crate::fixed::lemma_fdiv_bounds(-((nq - mid) as int), SCALE as int);
        crate::fixed::lemma_fdiv_bounds((nq + mid) as int, SCALE as int);
        crate::fixed::lemma_fdiv_bounds(-((nq + mid) as int), SCALE as int);
    }
    if 1 <= lo_rank && lo_rank <= n && 1 <= hi_rank && hi_rank <= n {
        let lo_ix: usize = (lo_rank - 1) as usize;
        let hi_ix: usize = (hi_rank - 1) as usize;
        let left: T = sorted[lo_ix];
        let right: T = sorted[hi_ix];
        Some(Interval::new_unordered_unchecked(left, right))
    } else {
        None
    }
}

/// The ascending order on fixed-point values.
pub open spec fn fixed_le() -> spec_fn(Fixed, Fixed) -> bool {
    |a: Fixed, b: Fixed| a.val() <= b.val()
}

/// The ascending order on fixed-point values is a total ordering.
pub proof fn lemma_fixed_le_total()
    ensures
        vstd::relations::total_ordering(fixed_le()),
{
    let le = fixed_le();
    assert forall|a: Fixed, b: Fixed| #[trigger] le(a, b) && #[trigger] le(b, a) implies a == b by {
        a.lemma_val_injective(b);
    }
}

/// The sample in ascending order, at spec level.
pub open spec fn sorted_version(s: Seq<Fixed>) -> Seq<Fixed> {
    s.sort_by(fixed_le())
}

/// Sorts a sample of fixed-point values ascending, by insertion.
fn sort_fixed(data: &Vec<Fixed>) -> (out: Vec<Fixed>)
    ensures
        out@ == sorted_version(data@),
{
    broadcast use vstd::seq_lib::group_to_multiset_ensures;

    let mut v: Vec<Fixed> = Vec::new();
    let mut i: usize = 0;
    proof {
        assert(data@.take(0) =~= Seq::<Fixed>::empty());
        assert(Seq::<Fixed>::empty().to_multiset() =~= v@.to_multiset());
    }
    while i < data.len()
        invariant
            0 <= i <= data@.len(),
            v@.len() == i,
            vstd::relations::sorted_by(v@, fixed_le()),
            v@.to_multiset() == data@.take(i as int).to_multiset(),
        decreases data@.len() - i,
    {
        let x = data[i];
        let mut j: usize = 0;
        while j < v.len() && v[j].raw() <= x.raw()
            invariant
                0 <= j <= v@.len(),
                forall|k: int| 0 <= k < j ==> fixed_le()(#[trigger] v@[k], x),
            decreases v@.len() - j,
        {
            j = j + 1;
        }
        let ghost prev = v@;
        proof {
            let le = fixed_le();
            assert forall|k: int| j <= k < prev.len() implies le(x, #[trigger] prev[k]) by {
                if (j as int) < k {
                    assert(le(prev[j as int], prev[k]));
                }
            }
            assert(data@.take(i as int + 1) =~= data@.take(i as int).push(data@[i as int]));
        }
        v.insert(j, x);
        proof {
            let le = fixed_le();
            let new = v@;
            let jj = j as int;
            assert(new == prev.insert(jj, x));
            assert forall|p: int, q: int| 0 <= p < q < new.len() implies le(
                #[trigger] new[p],
                #[trigger] new[q],
            ) by {
                if q < jj {
                    assert(new[p] == prev[p] && new[q] == prev[q]);
                    assert(le(prev[p], prev[q]));
                } else if p > jj {
                    assert(new[p] == prev[p - 1] && new[q] == prev[q - 1]);
                    assert(le(prev[p - 1], prev[q - 1]));
                } else if p < jj && q == jj {
                    assert(new[p] == prev[p] && new[q] == x);
                } else if p == jj && q > jj {
                    assert(new[p] == x && new[q] == prev[q - 1]);
                } else {
                    assert(p < jj && q > jj);
                    assert(new[p] == prev[p] && new[q] == prev[q - 1]);
                    assert(le(x, prev[q - 1]));
                    if p < jj - 1 || jj < prev.len() {
                        assert(le(prev[p], x) || le(prev[p], prev[q - 1]));
                    }
                    if q - 1 > p {
                        assert(le(prev[p], prev[q - 1]));
                    } else {
                        assert(le(prev[p], x));
                    }
                }
            }
            assert(vstd::relations::sorted_by(new, le));
            vstd::seq_lib::to_multiset_insert(prev, jj, x);
            vstd::seq_lib::to_multiset_build(data@.take(i as int), data@[i as int]);
            assert(new.to_multiset() =~= data@.take(i as int + 1).to_multiset());
        }
        i = i + 1;
    }
    proof {
        assert(data@.take(data@.len() as int) =~= data@);
        lemma_fixed_le_total();
        data@.lemma_sort_by_ensures(fixed_le());
        vstd::seq_lib::lemma_sorted_unique(v@, sorted_version(data@), fixed_le());
    }
    v
}

/// The confidence interval for a quantile of arbitrarily ordered data:
/// sorts a copy ascending, then reads the bracketing order statistics.
pub fn ci(confidence: Confidence, z: Fixed, data: &Vec<Fixed>, quantile: Fixed) -> (r: Option<
    Interval<Fixed>>)
    requires
        0 < quantile.val() < SCALE,
    ensures
        quantile_matches(quantile_ci_result(z.val(), sorted_version(data@), quantile.val()), r),
{
    let sorted = sort_fixed(data);
    ci_sorted_unchecked(confidence, z, &sorted, quantile)
}

/// The quantile interval reads only the multiset of values: two samples
/// holding the same values in any order give the same interval.
pub proof fn lemma_quantile_order_invariant(z: int, a: Seq<Fixed>, b: Seq<Fixed>, q: int)
    requires
        a.to_multiset() == b.to_multiset(),
    ensures
        quantile_ci_result(z, sorted_version(a), q) == quantile_ci_result(z, sorted_version(b), q),
{
    lemma_fixed_le_total();
    a.lemma_sort_by_ensures(fixed_le());
    b.lemma_sort_by_ensures(fixed_le());
    vstd::seq_lib::lemma_sorted_unique(sorted_version(a), sorted_version(b), fixed_le());
    assert(sorted_version(a) == sorted_version(b));
}

/// The quantile interval's bounds are sample values: each bound of a
/// returned interval occurs in the input.
pub proof fn lemma_quantile_bounds_from_sample(z: int, data: Seq<Fixed>, q: int)
    requires
        quantile_ci_result(z, sorted_version(data), q) is Some,
    ensures
        ({
            let p = quantile_ci_result(z, sorted_version(data), q)->Some_0;
            data.to_multiset().contains(p.0) && data.to_multiset().contains(p.1)
        }),
{
    broadcast use vstd::seq_lib::group_to_multiset_ensures;

    lemma_fixed_le_total();
    data.lemma_sort_by_ensures(fixed_le());
    let s = sorted_version(data);
    let n = s.len() as int;
    let ranks = quantile_ranks(z, n, q);
    assert(s.contains(s[ranks.0 - 1]));
    assert(s.contains(s[ranks.1 - 1]));
    assert(s.to_multiset() =~= data.to_multiset());
}

} // verus!
