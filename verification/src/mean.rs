//! Confidence intervals over the mean (arithmetic, geometric, harmonic) of
//! a sample of fixed-point values.
//!
//! The three mean kinds are parameterizations of one engine: a validity
//! predicate, a forward transform into the computation domain, and an
//! inverse transform of the bound pair ([`MeanAdapter`]). The engine
//! streams the sample once, accumulates the transformed values and their
//! squares exactly (integer accumulation cannot lose precision, so no
//! rounding compensation is needed), and applies the Student's-t margin
//! formula. The t critical value for `n - 1` degrees of freedom is an
//! external input, supplied by the caller from a distribution provider.

use vstd::prelude::*;

use crate::confidence::Confidence;
use crate::error::{CIError, CIResult, ConversionContext};
use crate::fixed::{
    tdiv, sqrt_floor, lemma_fdiv_bounds, tdiv_i128, isqrt_u128, ln_fx, ln_scaled, exp_fx,
    exp_scaled, Fixed, SCALE,
};
use crate::interval::Interval;

verus! {

/// The three-function adapter that turns the shared engine into a CI over
/// a particular kind of mean.
pub trait MeanAdapter {
    /// Which sample elements the kind accepts.
    spec fn spec_valid(x: int) -> bool;

    /// The forward transform into the computation domain, for valid `x`.
    spec fn spec_transform(x: int) -> int;

    /// The inverse transform of the transform-domain bound pair; `None`
    /// where a bound has no representable image.
    spec fn spec_inverse(lo: int, hi: int) -> Option<(int, int)>;

    /// Decides [`MeanAdapter::spec_valid`].
    fn is_valid(x: Fixed) -> (b: bool)
        ensures
            b == Self::spec_valid(x.val()),
    ;

    /// Computes [`MeanAdapter::spec_transform`].
    fn transform(x: Fixed) -> (r: Fixed)
        requires
            Self::spec_valid(x.val()),
        ensures
            r.val() == Self::spec_transform(x.val()),
    ;

    /// Computes [`MeanAdapter::spec_inverse`].
    fn inverse(lo: i128, hi: i128) -> (r: Option<(i128, i128)>)
        requires
            i128::MIN < lo,
            i128::MIN < hi,
        ensures
            match (r, Self::spec_inverse(lo as int, hi as int)) {
                (Some(p), Some(q)) => p.0 == q.0 && p.1 == q.1,
                (None, None) => true,
                _ => false,
            },
    ;
}

/// One streaming pass over the sample: validity gate, transform, and exact
/// accumulation of the transformed values and their squares. Returns the
/// first failure along the stream, or the two accumulators.
pub open spec fn accumulate<A: MeanAdapter>(vals: Seq<int>) -> Result<(int, int), CIError>
    decreases vals.len(),
{
    if vals.len() == 0 {
        Ok((0, 0))
    } else {
        match accumulate::<A>(vals.drop_last()) {
            Err(e) => Err(e),
            Ok((sum, sumsq)) => {
                let x = vals.last();
                if !A::spec_valid(x) {
                    Err(CIError::InvalidInputData)
                } else {
                    let y = A::spec_transform(x);
                    if sumsq + y * y > i128::MAX {
                        Err(CIError::FloatConversionError(ConversionContext::SumOfSquares))
                    } else {
                        Ok((sum + y, sumsq + y * y))
                    }
                }
            },
        }
    }
}

/// The transform-domain bounds of the mean CI: sample mean plus and minus
/// `t` times the Bessel-corrected standard deviation over the square root
/// of the population.
pub open spec fn mean_ci_bounds(sum: int, sumsq: int, n: int, t: int) -> (int, int) {
    let mean = tdiv(sum, n);
    let num = sumsq - tdiv(sum * sum, n);
    let var = tdiv(num, n - 1);
    let sd = sqrt_floor(var);
    let rootn = sqrt_floor(n * SCALE * SCALE);
    let margin = tdiv(t * sd, rootn);
    (mean - margin, mean + margin)
}

/// The exact outcome of the mean-CI engine for adapter `A`, critical value
/// `t`, and sample `vals`: either the ordered bound pair, or the first
/// failure.
pub open spec fn mean_ci_result<A: MeanAdapter>(t: int, vals: Seq<int>) -> Result<(int, int), CIError> {
    match accumulate::<A>(vals) {
        Err(e) => Err(e),
        Ok((sum, sumsq)) => {
            if vals.len() < 2 {
                Err(CIError::TooFewSamples(vals.len() as usize))
            } else if sum * sum > i128::MAX {
                Err(CIError::FloatConversionError(ConversionContext::SquareOfSum))
            } else {
                let bounds = mean_ci_bounds(sum, sumsq, vals.len() as int, t);
                match A::spec_inverse(bounds.0, bounds.1) {
                    None => Err(CIError::FloatConversionError(ConversionContext::Bound)),
                    Some(p) => {
                        let lo = if p.0 <= p.1 { p.0 } else { p.1 };
                        let hi = if p.0 <= p.1 { p.1 } else { p.0 };
                        if i64::MIN <= lo && hi <= i64::MAX {
                            Ok((lo, hi))
                        } else {
                            Err(CIError::FloatConversionError(ConversionContext::Bound))
                        }
                    },
                }
            }
        },
    }
}

/// The fixed-point values of a sample.
pub open spec fn vals_of(data: Seq<Fixed>) -> Seq<int> {
    data.map_values(|x: Fixed| x.val())
}

/// Whether the engine's returned value is exactly the one
/// [`mean_ci_result`] prescribes.
pub open spec fn mean_ci_matches<A: MeanAdapter>(
    t: int,
    vals: Seq<int>,
    r: CIResult<Interval<Fixed>>,
) -> bool {
    match (r, mean_ci_result::<A>(t, vals)) {
        (Ok(iv), Ok(b)) => iv.left_val().val() == b.0 && iv.right_val().val() == b.1,
        (Err(e), Err(m)) => e == m,
        _ => false,
    }
}

/// Trait for computing confidence intervals on the mean of a sample.
/// `confidence` documents the level and sidedness the caller used to look
/// up `t`; `t` must be the Student's-t critical value for that confidence
/// specification at `data.len() - 1` degrees of freedom.
pub trait MeanCI: MeanAdapter + Sized {
    /// The confidence interval over this kind of mean, exactly as
    /// [`mean_ci_result`] prescribes for the adapter.
    fn ci(confidence: Confidence, t: Fixed, data: &Vec<Fixed>) -> (r: CIResult<Interval<Fixed>>)
        ensures
            mean_ci_matches::<Self>(t.val(), vals_of(data@), r),
    ;
}

/// An error anywhere in a stream prefix settles the whole stream.
proof fn lemma_accumulate_error<A: MeanAdapter>(vals: Seq<int>, i: int)
    requires
        0 <= i <= vals.len(),
        accumulate::<A>(vals.take(i)) is Err,
    ensures
        accumulate::<A>(vals) == accumulate::<A>(vals.take(i)),
    decreases vals.len() - i,
{
    if i < vals.len() {
        assert(vals.take(i + 1).drop_last() =~= vals.take(i));
        lemma_accumulate_error::<A>(vals, i + 1);
    } else {
        assert(vals.take(i) =~= vals);
    }
}

/// The accumulators are a nonnegative sum of squares and a sum it
/// dominates: `n * sumsq >= sum * sum` (the integer Cauchy–Schwarz bound
/// that makes the variance numerator nonnegative).
proof fn lemma_accumulate_cauchy<A: MeanAdapter>(vals: Seq<int>)
    requires
        accumulate::<A>(vals) is Ok,
    ensures
        accumulate::<A>(vals)->Ok_0.1 >= 0,
        vals.len() * accumulate::<A>(vals)->Ok_0.1 >= accumulate::<A>(vals)->Ok_0.0
            * accumulate::<A>(vals)->Ok_0.0,
    decreases vals.len(),
{
    if vals.len() > 0 {
        lemma_accumulate_cauchy::<A>(vals.drop_last());
        let (s1, s2) = accumulate::<A>(vals.drop_last())->Ok_0;
        let x = A::spec_transform(vals.last());
        let k = vals.len() - 1;
        assert(x * x >= 0) by (nonlinear_arith);
        if k == 0 {
            assert(1 * (s2 + x * x) >= (s1 + x) * (s1 + x)) by (nonlinear_arith)
                requires
                    s1 == 0,
                    s2 == 0,
            ;
        } else {
            assert(k * k * x * x + s1 * s1 >= 2 * k * s1 * x) by (nonlinear_arith);
            assert(k * (k * x * x + s2) >= k * (2 * s1 * x)) by (nonlinear_arith)
                requires
                    k * s2 >= s1 * s1,
                    k * k * x * x + s1 * s1 >= 2 * k * s1 * x,
            ;
            assert(k * x * x + s2 >= 2 * s1 * x) by (nonlinear_arith)
                requires
                    k >= 1,
                    k * (k * x * x + s2) >= k * (2 * s1 * x),
            ;
            assert((k + 1) * (s2 + x * x) >= (s1 + x) * (s1 + x)) by (nonlinear_arith)
                requires
                    k * s2 >= s1 * s1,
                    k * x * x + s2 >= 2 * s1 * x,
            ;
        }
    }
}

/// The shared engine: one streaming pass with validity and transform,
/// exact accumulation, the t-based margin in transform space, and the
/// inverse transform, the final interval ordered after the inverse.
fn ci_with_transforms<A: MeanAdapter>(
    confidence: Confidence,
    t: Fixed,
    data: &Vec<Fixed>,
) -> (r: CIResult<Interval<Fixed>>)
    ensures
        mean_ci_matches::<A>(t.val(), vals_of(data@), r),
{
    let ghost vals = vals_of(data@);
    let mut i: usize = 0;
    let mut sum: i128 = 0;
    let mut sumsq: i128 = 0;
    proof {
        assert(vals.take(0) =~= Seq::<int>::empty());
    }
    while i < data.len()
        invariant
            0 <= i <= data.len(),
            vals == vals_of(data@),
            vals.len() == data.len(),
            accumulate::<A>(vals.take(i as int)) == Ok::<(int, int), CIError>((sum as int, sumsq as int)),
            (i as int) * (i64::MIN as int) <= sum <= (i as int) * (i64::MAX as int),
            0 <= sumsq,
        decreases data.len() - i,
    {
        let x = data[i];
        proof {
            assert(vals[i as int] == x.val());
            assert(vals.take(i as int + 1).drop_last() =~= vals.take(i as int));
        }
        if !A::is_valid(x) {
            proof {
                lemma_accumulate_error::<A>(vals, i as int + 1);
            }
            return Err(CIError::InvalidInputData);
        }
        let y = A::transform(x);
        let yraw = y.raw();
        let yv: i128 = yraw as i128;
        proof {
            assert(yv * yv <= i128::MAX) by (nonlinear_arith)
                requires
                    i64::MIN <= yv <= i64::MAX,
            ;
            assert(yv * yv >= 0) by (nonlinear_arith);
            assert(i as int + 1 <= 0xffff_ffff_ffff_ffffu64);
        }
        let sq = yv * yv;
        sum = sum + yv;
        match sumsq.checked_add(sq) {
            Some(s) => {
                sumsq = s;
            },
            None => {
                proof {
                    lemma_accumulate_error::<A>(vals, i as int + 1);
                }
                return Err(CIError::FloatConversionError(ConversionContext::SumOfSquares));
            },
        }
        i = i + 1;
    }
    proof {
        assert(vals.take(vals.len() as int) =~= vals);
    }
    let n = data.len();
    if n < 2 {
        return Err(CIError::TooFewSamples(n));
    }
    let s2 = match sum.checked_mul(sum) {
        Some(v) => v,
        None => {
            proof {
                assert(sum * sum >= 0) by (nonlinear_arith);
            }
            return Err(CIError::FloatConversionError(ConversionContext::SquareOfSum));
        },
    };
    proof {
        assert(sum * sum >= 0) by (nonlinear_arith);
    }
    let n128: i128 = n as i128;
    let mean = tdiv_i128(sum, n128);
    let s2q = tdiv_i128(s2, n128);
    proof {
        lemma_accumulate_cauchy::<A>(vals);
        // variance numerator is nonnegative: sumsq >= s2 / n
        assert(s2q == s2 as int / n as int);
        vstd::arithmetic::div_mod::lemma_div_is_ordered(s2 as int, n as int * sumsq as int, n as int);
        vstd::arithmetic::div_mod::lemma_div_multiples_vanish(sumsq as int, n as int);
        assert(s2q <= sumsq);
        assert(s2q >= 0) by {
            lemma_fdiv_bounds(s2 as int, n as int);
        }
    }
    let num = sumsq - s2q;
    let var = tdiv_i128(num, n128 - 1);
    proof {
        lemma_fdiv_bounds(num as int, n as int - 1);
        assert(var == num as int / (n as int - 1));
        assert(0 <= var <= num);
    }
    let sd_u = isqrt_u128(var as u128);
    proof {
        assert(sd_u <= 13_043_817_825_332_782_212u128) by (nonlinear_arith)
            requires
                sd_u * sd_u <= i128::MAX,
        ;
    }
    let sd128 = sd_u as i128;
    let nss: u128 = (n as u128) * (SCALE as u128) * (SCALE as u128);
    proof {
        assert((n as int) * (SCALE as int) * (SCALE as int) <= u128::MAX) by (nonlinear_arith)
            requires
                0 <= n as int <= 0xffff_ffff_ffff_ffffu64,
                SCALE == 1_000_000_000i64,
        ;
    }
    let rootn = isqrt_u128(nss);
    proof {
        assert(rootn >= 1) by {
            if rootn == 0 {
                assert((rootn as int + 1) * (rootn as int + 1) == 1) by (nonlinear_arith)
                    requires
                        rootn == 0u128,
                ;
                assert(nss < 1);
                assert((n as int) * (SCALE as int) * (SCALE as int) >= 1) by (nonlinear_arith)
                    requires
                        n as int >= 2,
                        SCALE == 1_000_000_000i64,
                ;
            }
        }
        assert(nss <= 18_446_744_073_709_551_615_000_000_000_000_000_000) by (nonlinear_arith)
            requires
                nss == (n as int) * (SCALE as int) * (SCALE as int),
                0 <= n as int <= 0xffff_ffff_ffff_ffff,
                SCALE == 1_000_000_000i64,
        ;
        assert(rootn <= 4_300_000_000_000_000_000u64) by (nonlinear_arith)
            requires
                rootn * rootn <= 18_446_744_073_709_551_615_000_000_000_000_000_000,
        ;
    }
    let traw = t.raw();
    let t128: i128 = traw as i128;
    proof {
        assert(-130_000_000_000_000_000_000_000_000_000_000_000_000 <= t128 * sd128
            <= 130_000_000_000_000_000_000_000_000_000_000_000_000) by (nonlinear_arith)
            requires
                i64::MIN <= t128 <= i64::MAX,
                0 <= sd128 <= 13_043_817_825_332_782_212i128,
        ;
    }
    let tsd = t128 * sd128;
    let margin = tdiv_i128(tsd, rootn as i128);
    proof {
        // the margin's magnitude is at most the product's
        lemma_fdiv_bounds(vstd::math::abs(tsd as int) as int, rootn as int);
        assert(-130_000_000_000_000_000_000_000_000_000_000_000_000 <= margin
            <= 130_000_000_000_000_000_000_000_000_000_000_000_000);
        // the mean stays within the element range
        if sum >= 0 {
            vstd::arithmetic::div_mod::lemma_div_is_ordered(
                sum as int,
                n as int * (i64::MAX as int),
                n as int,
            );
            vstd::arithmetic::div_mod::lemma_div_multiples_vanish(i64::MAX as int, n as int);
        } else {
            vstd::arithmetic::div_mod::lemma_div_is_ordered(
                -(sum as int),
                n as int * (-(i64::MIN as int)),
                n as int,
            );
            vstd::arithmetic::div_mod::lemma_div_multiples_vanish(-(i64::MIN as int), n as int);
        }
        assert(i64::MIN <= mean <= i64::MAX);
    }
    let lo_t = mean - margin;
    let hi_t = mean + margin;
    match A::inverse(lo_t, hi_t) {
        None => Err(CIError::FloatConversionError(ConversionContext::Bound)),
        Some((a, b)) => {
            let lo = if a <= b {
                a
            } else {
                b
            };
            let hi = if a <= b {
                b
            } else {
                a
            };
            if lo >= i64::MIN as i128 && hi <= i64::MAX as i128 {
                Ok(Interval::new(Fixed::from_raw(lo as i64), Fixed::from_raw(hi as i64)))
            } else {
                Err(CIError::FloatConversionError(ConversionContext::Bound))
            }
        },
    }
}

/// Computation for the arithmetic mean.
pub struct Arithmetic;

impl MeanAdapter for Arithmetic {
    /// Every fixed-point value is finite, so every element is valid.
    open spec fn spec_valid(x: int) -> bool {
        true
    }

    open spec fn spec_transform(x: int) -> int {
        x
    }

    open spec fn spec_inverse(lo: int, hi: int) -> Option<(int, int)> {
        Some((lo, hi))
    }

    fn is_valid(x: Fixed) -> (b: bool) {
        true
    }

    fn transform(x: Fixed) -> (r: Fixed) {
        x
    }

    fn inverse(lo: i128, hi: i128) -> (r: Option<(i128, i128)>) {
        Some((lo, hi))
    }
}

impl MeanCI for Arithmetic {
    fn ci(confidence: Confidence, t: Fixed, data: &Vec<Fixed>) -> (r: CIResult<Interval<Fixed>>) {
        ci_with_transforms::<Arithmetic>(confidence, t, data)
    }
}

/// Computation for the geometric mean.
pub struct Geometric;

impl MeanAdapter for Geometric {
    /// Only strictly positive values have a logarithm.
    open spec fn spec_valid(x: int) -> bool {
        x >= 1
    }

    /// The natural logarithm, in fixed-point units.
    open spec fn spec_transform(x: int) -> int {
        ln_scaled(x)
    }

    /// Exponentiation of both bounds; `None` where a bound's exponential
    /// is not representable.
    open spec fn spec_inverse(lo: int, hi: int) -> Option<(int, int)> {
        match (exp_scaled(lo), exp_scaled(hi)) {
            (Some(a), Some(b)) => Some((a, b)),
            _ => None,
        }
    }

    fn is_valid(x: Fixed) -> (b: bool) {
        x.raw() >= 1
    }

    fn transform(x: Fixed) -> (r: Fixed) {
        ln_fx(x)
    }

    fn inverse(lo: i128, hi: i128) -> (r: Option<(i128, i128)>) {
        match (exp_fx(lo), exp_fx(hi)) {
            (Some(a), Some(b)) => Some((a as i128, b as i128)),
            _ => None,
        }
    }
}

impl MeanCI for Geometric {
    fn ci(confidence: Confidence, t: Fixed, data: &Vec<Fixed>) -> (r: CIResult<Interval<Fixed>>) {
        ci_with_transforms::<Geometric>(confidence, t, data)
    }
}

/// Computation for the harmonic mean.
pub struct Harmonic;

impl MeanAdapter for Harmonic {
    /// Only strictly positive values have a reciprocal in the domain.
    open spec fn spec_valid(x: int) -> bool {
        x >= 1
    }

    /// The reciprocal, in fixed-point units.
    open spec fn spec_transform(x: int) -> int {
        tdiv(SCALE as int * SCALE as int, x)
    }

    /// Reciprocal of both bounds, mirrored: the reciprocal reverses order,
    /// so the transform-space low bound maps to the result's high side.
    open spec fn spec_inverse(lo: int, hi: int) -> Option<(int, int)> {
        if lo == 0 || hi == 0 {
            None
        } else {
            Some((tdiv(SCALE as int * SCALE as int, hi), tdiv(SCALE as int * SCALE as int, lo)))
        }
    }

    fn is_valid(x: Fixed) -> (b: bool) {
        x.raw() >= 1
    }

    fn transform(x: Fixed) -> (r: Fixed) {
        let v = tdiv_i128(SCALE as i128 * SCALE as i128, x.raw() as i128);
        proof {
            lemma_fdiv_bounds(SCALE as int * SCALE as int, x.val());
        }
        Fixed::from_raw(v as i64)
    }

    fn inverse(lo: i128, hi: i128) -> (r: Option<(i128, i128)>) {
        if lo == 0 || hi == 0 {
            None
        } else {
            Some((recip_i128(hi), recip_i128(lo)))
        }
    }
}

impl MeanCI for Harmonic {
    fn ci(confidence: Confidence, t: Fixed, data: &Vec<Fixed>) -> (r: CIResult<Interval<Fixed>>) {
        ci_with_transforms::<Harmonic>(confidence, t, data)
    }
}

/// The fixed-point reciprocal of a nonzero value of either sign.
fn recip_i128(x: i128) -> (r: i128)
    requires
        x != 0,
        x > i128::MIN,
    ensures
        r == tdiv(SCALE as int * SCALE as int, x as int),
{
    if x > 0 {
        tdiv_i128(SCALE as i128 * SCALE as i128, x)
    } else {
        let q = tdiv_i128(SCALE as i128 * SCALE as i128, -x);
        proof {
            lemma_fdiv_bounds(SCALE as int * SCALE as int, -(x as int));
        }
        -q
    }
}

/// For every sample the engine accepts, the returned bounds are ordered:
/// the low bound is at most the high bound, whatever the transform and
/// critical value, because the engine orders the pair after the inverse
/// transform.
pub proof fn lemma_mean_ci_ordered<A: MeanAdapter>(t: int, vals: Seq<int>)
    requires
        mean_ci_result::<A>(t, vals) is Ok,
    ensures
        mean_ci_result::<A>(t, vals)->Ok_0.0 <= mean_ci_result::<A>(t, vals)->Ok_0.1,
{
}

/// The arithmetic mean CI is symmetric about the sample mean: its bounds
/// sum to exactly twice the computed mean.
pub proof fn lemma_arithmetic_symmetric(t: int, vals: Seq<int>)
    requires
        mean_ci_result::<Arithmetic>(t, vals) is Ok,
    ensures
        ({
            let b = mean_ci_result::<Arithmetic>(t, vals)->Ok_0;
            let acc = accumulate::<Arithmetic>(vals)->Ok_0;
            b.0 + b.1 == 2 * tdiv(acc.0, vals.len() as int)
        }),
{
}

} // verus!
