//! Confidence intervals for a binomial proportion.
//!
//! The default method is the Wilson score interval; an alternate normal
//! approximation with its stricter sufficiency gate is also provided. The
//! two-sided normal critical value `z` for the requested confidence level
//! is an external input, supplied by the caller from a distribution
//! provider. Bounds are not clamped to the probability range: callers
//! relying on clamping must clamp themselves.

use vstd::prelude::*;

use crate::error::{CIError, CIResult, ConversionContext};
use crate::fixed::{fx, fx_mul, tdiv, sqrt_floor, lemma_fdiv_bounds, lemma_tdiv_mag, tdiv_i128,
    isqrt_u128, Fixed, SCALE};
use crate::interval::Interval;

verus! {

/// The Wilson score bounds, in fixed-point units, for critical value `z`,
/// population `n`, and success count `ns`: center `(ns + z^2/2)/(n + z^2)`
/// plus and minus `(z/(n + z^2)) * sqrt(ns*nf/n + z^2/4)`.
pub open spec fn wilson_bounds(z: int, n: int, ns: int) -> (int, int) {
    let nf = n - ns;
    let z2 = fx_mul(z, z);
    let ns_s = ns * SCALE;
    let n_s = n * SCALE;
    let den = n_s + z2;
    let mean = tdiv((ns_s + tdiv(z2, 2)) * SCALE, den);
    let q1 = tdiv(ns * nf, n);
    let r1 = ns * nf - q1 * n;
    let inner = q1 * SCALE + tdiv(r1 * SCALE, n) + tdiv(z2, 4);
    let root = sqrt_floor(inner * SCALE);
    let zdiv = tdiv(z * SCALE, den);
    let span = fx_mul(zdiv, root);
    (mean - span, mean + span)
}

/// The exact outcome of the Wilson engine: validation, the sufficiency
/// gates, then the score bounds (or a conversion failure where a bound
/// leaves the representable range).
pub open spec fn wilson_result(conf: int, z: int, n: int, ns: int) -> Result<(int, int), CIError> {
    if ns > n {
        Err(CIError::InvalidSuccesses(ns as usize, n as usize))
    } else if conf <= 0 || conf >= SCALE {
        Err(CIError::InvalidConfidenceLevel(fx(conf)))
    } else if ns < 2 {
        Err(CIError::TooFewSuccesses(ns as usize, n as usize, fx(ns * SCALE)))
    } else if n - ns < 2 {
        Err(CIError::TooFewFailures((n - ns) as usize, n as usize, fx((n - ns) * SCALE)))
    } else {
        let b = wilson_bounds(z, n, ns);
        if i64::MIN <= b.0 <= i64::MAX && i64::MIN <= b.1 <= i64::MAX {
            Ok(b)
        } else {
            Err(CIError::FloatConversionError(ConversionContext::Proportion))
        }
    }
}

/// Whether a returned interval matches a prescribed bound pair.
pub open spec fn proportion_matches(
    m: Result<(int, int), CIError>,
    r: CIResult<Interval<Fixed>>,
) -> bool {
    match (r, m) {
        (Ok(iv), Ok(b)) => iv.left_val().val() == b.0 && iv.right_val().val() == b.1,
        (Err(e), Err(me)) => e == me,
        _ => false,
    }
}

/// The number of `true` values in a sample.
pub open spec fn count_true(s: Seq<bool>) -> int
    decreases s.len(),
{
    if s.len() == 0 {
        0int
    } else {
        count_true(s.drop_last()) + if s.last() {
            1int
        } else {
            0int
        }
    }
}

/// The two-sided confidence interval over the proportion of successes in
/// a sample, by the Wilson score method. `confidence` is the raw level
/// (validated here); `z` must be the two-sided normal critical value for
/// it.
pub fn ci_wilson(confidence: Fixed, z: Fixed, population: usize, successes: usize) -> (r:
    CIResult<Interval<Fixed>>)
    ensures
        proportion_matches(wilson_result(confidence.val(), z.val(), population as int, successes as int), r),
{
    if successes > population {
        return Err(CIError::InvalidSuccesses(successes, population));
    }
    let craw = confidence.raw();
    if craw <= 0 || craw >= SCALE {
        return Err(CIError::InvalidConfidenceLevel(Fixed::from_raw(craw)));
    }
    if successes < 2 {
        return Err(CIError::TooFewSuccesses(
            successes,
            population,
            Fixed::from_raw((successes as i64) * SCALE),
        ));
    }
    if population - successes < 2 {
        return Err(CIError::TooFewFailures(
            population - successes,
            population,
            Fixed::from_raw(((population - successes) as i64) * SCALE),
        ));
    }
    let n: i128 = population as i128;
    let ns: i128 = successes as i128;
    let nf: i128 = n - ns;
    let zr: i128 = z.raw() as i128;
    let s128: i128 = SCALE as i128;
    proof {
        assert(0 <= zr * zr <= 90_000_000_000_000_000_000_000_000_000i128 * 1_000_000_000i128)
            by (nonlinear_arith)
            requires
                i64::MIN <= zr <= i64::MAX,
        ;
    }
    let z2 = tdiv_i128(zr * zr, s128);
    proof {
        lemma_tdiv_mag(
            zr as int * zr as int,
            SCALE as int,
            90_000_000_000_000_000_000_000_000_000,
        );
        assert(0 <= z2 <= 90_000_000_000_000_000_000_000_000_000i128);
        assert(n * (SCALE as i128) <= 20_000_000_000_000_000_000_000_000_000i128) by (nonlinear_arith)
            requires
                0 <= n <= 0xffff_ffff_ffff_ffff,
                SCALE == 1_000_000_000i64,
        ;
        assert(ns * (SCALE as i128) <= 20_000_000_000_000_000_000_000_000_000i128)
            by (nonlinear_arith)
            requires
                0 <= ns <= 0xffff_ffff_ffff_ffff,
                SCALE == 1_000_000_000i64,
        ;
        assert(ns * (SCALE as i128) >= 0) by (nonlinear_arith)
            requires
                ns >= 0,
                SCALE == 1_000_000_000i64,
        ;
    }
    let ns_s: i128 = ns * s128;
    let n_s: i128 = n * s128;
    let den: i128 = n_s + z2;
    proof {
        assert(n_s >= 4 * (SCALE as int)) by (nonlinear_arith)
            requires
                n >= 4,
                n_s == n * (SCALE as int),
                SCALE == 1_000_000_000i64,
        ;
        lemma_tdiv_mag(z2 as int, 2, 45_000_000_000_000_000_000_000_000_000);
    }
    let zhalf = tdiv_i128(z2, 2);
    let a: i128 = ns_s + zhalf;
    proof {
        assert(0 <= a <= 65_000_000_000_000_000_000_000_000_000i128);
        assert(a * (SCALE as int) <= 65_000_000_000_000_000_000_000_000_000_000_000_000i128)
            by (nonlinear_arith)
            requires
                0 <= a <= 65_000_000_000_000_000_000_000_000_000i128,
        ;
        assert(a * (SCALE as int) >= 0) by (nonlinear_arith)
            requires
                a >= 0,
        ;
    }
    let mean = tdiv_i128(a * s128, den);
    proof {
        lemma_fdiv_bounds(a as int * SCALE as int, den as int);
        // ns * nf fits: their sum is n, so the product is at most (n/2)^2
        assert(4 * (ns * nf) <= n * n && 0 <= ns * nf && ns * nf <= ns * n) by (nonlinear_arith)
            requires
                0 <= ns,
                0 <= nf,
                ns + nf == n,
        ;
        assert(n * n <= 0xffff_ffff_ffff_ffffi128 * 0xffff_ffff_ffff_ffffi128)
            by (nonlinear_arith)
            requires
                0 <= n <= 0xffff_ffff_ffff_ffff,
        ;
        assert(ns * nf <= 90_000_000_000_000_000_000_000_000_000_000_000_000i128);
        assert(ns * n <= 0xffff_ffff_ffff_ffffi128 * 0xffff_ffff_ffff_ffffi128)
            by (nonlinear_arith)
            requires
                0 <= ns <= 0xffff_ffff_ffff_ffff,
                0 <= n <= 0xffff_ffff_ffff_ffff,
        ;
    }
    let nsnf: i128 = ns * nf;
    let q1 = tdiv_i128(nsnf, n);
    proof {
        lemma_fdiv_bounds(nsnf as int, n as int);
        // the quotient is at most the success count
        vstd::arithmetic::div_mod::lemma_div_is_ordered(nsnf as int, ns as int * n as int, n as int);
        vstd::arithmetic::div_mod::lemma_div_multiples_vanish(ns as int, n as int);
        assert(0 <= q1 <= ns);
        vstd::arithmetic::div_mod::lemma_fundamental_div_mod(nsnf as int, n as int);
        vstd::arithmetic::div_mod::lemma_mod_division_less_than_divisor(nsnf as int, n as int);
        assert(q1 * n <= nsnf && nsnf - q1 * n < n) by (nonlinear_arith)
            requires
                nsnf as int == n as int * q1 as int + nsnf as int % n as int,
                0 <= nsnf as int % n as int,
                (nsnf as int % n as int) < (n as int),
        ;
        assert(q1 * (SCALE as int) <= 20_000_000_000_000_000_000_000_000_000i128
            && q1 * (SCALE as int) >= 0) by (nonlinear_arith)
            requires
                0 <= q1 <= 0xffff_ffff_ffff_ffff,
                SCALE == 1_000_000_000i64,
        ;
    }
    let r1: i128 = nsnf - q1 * n;
    proof {
        assert(r1 * (SCALE as int) <= 20_000_000_000_000_000_000_000_000_000i128
            && r1 * (SCALE as int) >= 0) by (nonlinear_arith)
            requires
                0 <= r1 <= 0xffff_ffff_ffff_ffff,
                SCALE == 1_000_000_000i64,
        ;
        lemma_fdiv_bounds(r1 as int * SCALE as int, n as int);
        lemma_fdiv_bounds(z2 as int, 4);
    }
    let inner: i128 = q1 * s128 + tdiv_i128(r1 * s128, n) + tdiv_i128(z2, 4);
    proof {
        assert(0 <= inner <= 63_000_000_000_000_000_000_000_000_000i128);
        assert(inner * (SCALE as int) <= 63_000_000_000_000_000_000_000_000_000_000_000_000i128
            && inner * (SCALE as int) >= 0) by (nonlinear_arith)
            requires
                0 <= inner <= 63_000_000_000_000_000_000_000_000_000i128,
        ;
    }
    let root_u = isqrt_u128((inner * s128) as u128);
    proof {
        assert(root_u <= 8_000_000_000_000_000_000u128) by (nonlinear_arith)
            requires
                root_u * root_u <= 63_000_000_000_000_000_000_000_000_000_000_000_000u128,
        ;
        assert(zr * (SCALE as int) <= 10_000_000_000_000_000_000_000_000_000i128
            && zr * (SCALE as int) >= -10_000_000_000_000_000_000_000_000_000i128)
            by (nonlinear_arith)
            requires
                i64::MIN <= zr <= i64::MAX,
                SCALE == 1_000_000_000i64,
        ;
    }
    let root: i128 = root_u as i128;
    // the score quotient is at most one in magnitude: for small z the
    // denominator holds at least four population units, for large z it
    // holds the square
    proof {
        let zabs = vstd::math::abs(zr as int) as int;
        if zabs <= SCALE as int {
            assert(zabs * (SCALE as int) <= (SCALE as int) * (den as int)) by (nonlinear_arith)
                requires
                    0 <= zabs <= SCALE as int,
                    den as int >= 4 * (SCALE as int),
                    SCALE == 1_000_000_000i64,
            ;
        } else {
            assert(zabs * zabs == zr as int * zr as int) by (nonlinear_arith)
                requires
                    zabs == zr as int || zabs == -(zr as int),
            ;
            assert(zabs * zabs >= zabs * (SCALE as int)) by (nonlinear_arith)
                requires
                    zabs > SCALE as int,
                    SCALE == 1_000_000_000i64,
            ;
            vstd::arithmetic::div_mod::lemma_div_is_ordered(
                zabs * (SCALE as int),
                zabs * zabs,
                SCALE as int,
            );
            vstd::arithmetic::div_mod::lemma_div_multiples_vanish(zabs, SCALE as int);
            assert((SCALE as int) * zabs == zabs * (SCALE as int)) by (nonlinear_arith);
            assert(z2 >= zabs);
            assert(zabs * (SCALE as int) <= (SCALE as int) * (den as int)) by (nonlinear_arith)
                requires
                    z2 >= zabs,
                    den as int >= n_s as int + z2,
                    n_s >= 0,
                    zabs >= 0,
                    SCALE == 1_000_000_000i64,
            ;
        }
        lemma_tdiv_mag(zr as int * SCALE as int, den as int, SCALE as int);
    }
    let zdiv = tdiv_i128(zr * s128, den);
    proof {
        assert(-(8_000_000_000_000_000_000_000_000_000i128)
            <= zdiv * root <= 8_000_000_000_000_000_000_000_000_000i128) by (nonlinear_arith)
            requires
                -(SCALE as int) <= zdiv <= SCALE as int,
                0 <= root <= 8_000_000_000_000_000_000i128,
                SCALE == 1_000_000_000i64,
        ;
        lemma_fdiv_bounds(zdiv as int * root as int, SCALE as int);
        lemma_fdiv_bounds(-(zdiv as int * root as int), SCALE as int);
    }
    let span = tdiv_i128(zdiv * root, s128);
    let lo = mean - span;
    let hi = mean + span;
    if lo >= i64::MIN as i128 && lo <= i64::MAX as i128 && hi >= i64::MIN as i128 && hi
        <= i64::MAX as i128 {
        Ok(Interval::new(Fixed::from_raw(lo as i64), Fixed::from_raw(hi as i64)))
    } else {
        Err(CIError::FloatConversionError(ConversionContext::Proportion))
    }
}

/// The default proportion CI: the Wilson score method.
pub fn ci(confidence: Fixed, z: Fixed, population: usize, successes: usize) -> (r: CIResult<
    Interval<Fixed>>)
    ensures
        proportion_matches(wilson_result(confidence.val(), z.val(), population as int, successes as int), r),
{
    ci_wilson(confidence, z, population, successes)
}

/// The two-sided proportion CI over the `true` values of a boolean
/// sample: counts them, then applies the Wilson score method.
pub fn ci_true(confidence: Fixed, z: Fixed, data: &Vec<bool>) -> (r: CIResult<Interval<Fixed>>)
    ensures
        proportion_matches(
            wilson_result(confidence.val(), z.val(), data@.len() as int, count_true(data@)),
            r,
        ),
{
    let mut population: usize = 0;
    let mut successes: usize = 0;
    let mut i: usize = 0;
    proof {
        assert(data@.take(0) =~= Seq::<bool>::empty());
    }
    while i < data.len()
        invariant
            0 <= i <= data@.len(),
            population == i,
            successes == count_true(data@.take(i as int)),
            0 <= successes <= i,
        decreases data@.len() - i,
    {
        proof {
            assert(data@.take(i as int + 1).drop_last() =~= data@.take(i as int));
        }
        population = population + 1;
        if data[i] {
            successes = successes + 1;
        }
        i = i + 1;
    }
    proof {
        assert(data@.take(data@.len() as int) =~= data@);
    }
    ci(confidence, z, population, successes)
}

/// The two-sided proportion CI over the sample elements satisfying a
/// condition: counts the matches, then applies the Wilson score method.
/// The flag sequence named in the contract records what the condition
/// returned on each element.
pub fn ci_if<T: Copy, F: Fn(T) -> bool>(confidence: Fixed, z: Fixed, data: &Vec<T>, cond: F) -> (r:
    CIResult<Interval<Fixed>>)
    requires
        forall|i: int| 0 <= i < data@.len() ==> #[trigger] cond.requires((data@[i],)),
    ensures
        exists|flags: Seq<bool>|
            {
                &&& flags.len() == data@.len()
                &&& forall|i: int|
                    0 <= i < flags.len() ==> #[trigger] cond.ensures((data@[i],), flags[i])
                &&& proportion_matches(
                    wilson_result(confidence.val(), z.val(), data@.len() as int, count_true(flags)),
                    r,
                )
            },
{
    let mut successes: usize = 0;
    let mut i: usize = 0;
    let ghost mut flags = Seq::<bool>::empty();
    while i < data.len()
        invariant
            0 <= i <= data@.len(),
            flags.len() == i,
            forall|j: int| 0 <= j < i ==> #[trigger] cond.ensures((data@[j],), flags[j]),
            successes == count_true(flags),
            0 <= successes <= i,
            forall|j: int| 0 <= j < data@.len() ==> #[trigger] cond.requires((data@[j],)),
        decreases data@.len() - i,
    {
        let b = cond(data[i]);
        proof {
            let prev = flags;
            flags = flags.push(b);
            assert(flags.drop_last() =~= prev);
        }
        if b {
            successes = successes + 1;
        }
        i = i + 1;
    }
    let r = ci(confidence, z, data.len(), successes);
    proof {
        assert(flags.len() == data@.len());
    }
    r
}

/// The normal-approximation bounds, in fixed-point units: the observed
/// proportion `p` plus and minus `z * sqrt(p*(1-p)/n)`.
pub open spec fn z_normal_bounds(z: int, n: int, ns: int) -> (int, int) {
    let p = tdiv(ns * SCALE, n);
    let q = SCALE - p;
    let arg = tdiv(fx_mul(p, q) * SCALE, n * SCALE);
    let sd = sqrt_floor(arg * SCALE);
    let span = fx_mul(z, sd);
    (p - span, p + span)
}

/// The exact outcome of the normal-approximation engine: validation, the
/// rule-of-thumb gates `n*p >= 10` and `n*q >= 10`, then the bounds.
pub open spec fn z_normal_result(conf: int, z: int, n: int, ns: int) -> Result<(int, int), CIError> {
    if ns > n {
        Err(CIError::InvalidSuccesses(ns as usize, n as usize))
    } else if conf <= 0 || conf >= SCALE {
        Err(CIError::InvalidConfidenceLevel(fx(conf)))
    } else {
        let p = tdiv(ns * SCALE, n);
        let q = SCALE - p;
        if n * p < 10 * SCALE {
            Err(CIError::TooFewSuccesses(ns as usize, n as usize, fx(tdiv(n * p, SCALE as int))))
        } else if n * q < 10 * SCALE {
            Err(CIError::TooFewFailures((n - ns) as usize, n as usize, fx(tdiv(n * q, SCALE as int))))
        } else {
            let b = z_normal_bounds(z, n, ns);
            if i64::MIN <= b.0 <= i64::MAX && i64::MIN <= b.1 <= i64::MAX {
                Ok(b)
            } else {
                Err(CIError::FloatConversionError(ConversionContext::Proportion))
            }
        }
    }
}

/// The two-sided proportion CI by the plain normal approximation, with
/// its stricter sufficiency gate.
pub fn ci_z_normal(confidence: Fixed, z: Fixed, population: usize, successes: usize) -> (r:
    CIResult<Interval<Fixed>>)
    ensures
        proportion_matches(
            z_normal_result(confidence.val(), z.val(), population as int, successes as int),
            r,
        ),
{
    if successes > population {
        return Err(CIError::InvalidSuccesses(successes, population));
    }
    let craw = confidence.raw();
    if craw <= 0 || craw >= SCALE {
        return Err(CIError::InvalidConfidenceLevel(Fixed::from_raw(craw)));
    }
    let n: i128 = population as i128;
    let ns: i128 = successes as i128;
    let s128: i128 = SCALE as i128;
    proof {
        assert(0 <= ns * (SCALE as int) <= 20_000_000_000_000_000_000_000_000_000i128)
            by (nonlinear_arith)
            requires
                0 <= ns <= 0xffff_ffff_ffff_ffff,
                SCALE == 1_000_000_000i64,
        ;
    }
    if population == 0 {
        // an empty population fails the success gate: n times any
        // proportion is zero
        return Err(CIError::TooFewSuccesses(successes, population, Fixed::from_raw(0)));
    }
    let p = tdiv_i128(ns * s128, n);
    proof {
        lemma_fdiv_bounds(ns as int * SCALE as int, n as int);
        vstd::arithmetic::div_mod::lemma_div_is_ordered(
            ns as int * SCALE as int,
            n as int * SCALE as int,
            n as int,
        );
        vstd::arithmetic::div_mod::lemma_div_multiples_vanish(SCALE as int, n as int);
        assert(ns as int * SCALE as int <= n as int * SCALE as int) by (nonlinear_arith)
            requires
                0 <= ns <= n,
                SCALE == 1_000_000_000i64,
        ;
        assert(0 <= p <= SCALE as int);
        assert(0 <= n * p <= 20_000_000_000_000_000_000_000_000_000i128) by (nonlinear_arith)
            requires
                0 <= n <= 0xffff_ffff_ffff_ffff,
                0 <= p <= SCALE as int,
                SCALE == 1_000_000_000i64,
        ;
    }
    let q: i128 = s128 - p;
    proof {
        assert(0 <= n * q <= 20_000_000_000_000_000_000_000_000_000i128) by (nonlinear_arith)
            requires
                0 <= n <= 0xffff_ffff_ffff_ffff,
                0 <= q <= SCALE as int,
                SCALE == 1_000_000_000i64,
        ;
        lemma_fdiv_bounds(n as int * p as int, SCALE as int);
        lemma_fdiv_bounds(n as int * q as int, SCALE as int);
    }
    let np: i128 = n * p;
    let nq: i128 = n * q;
    if np < 10 * s128 {
        return Err(CIError::TooFewSuccesses(
            successes,
            population,
            Fixed::from_raw(tdiv_i128(np, s128) as i64),
        ));
    }
    if nq < 10 * s128 {
        return Err(CIError::TooFewFailures(
            population - successes,
            population,
            Fixed::from_raw(tdiv_i128(nq, s128) as i64),
        ));
    }
    proof {
        assert(0 <= p * q <= 1_000_000_000_000_000_000i128) by (nonlinear_arith)
            requires
                0 <= p <= SCALE as int,
                0 <= q <= SCALE as int,
                SCALE == 1_000_000_000i64,
        ;
        lemma_fdiv_bounds(p as int * q as int, SCALE as int);
    }
    let pq = tdiv_i128(p * q, s128);
    proof {
        assert(0 <= pq * (SCALE as int) <= 1_000_000_000_000_000_000_000_000_000i128)
            by (nonlinear_arith)
            requires
                0 <= pq <= 1_000_000_000i128,
                SCALE == 1_000_000_000i64,
        ;
        assert(n * (SCALE as int) >= 1) by (nonlinear_arith)
            requires
                n >= 1,
                SCALE == 1_000_000_000i64,
        ;
        lemma_fdiv_bounds(pq as int * SCALE as int, n as int * SCALE as int);
    }
    let arg = tdiv_i128(pq * s128, n * s128);
    proof {
        assert(0 <= arg * (SCALE as int) <= 1_000_000_000_000_000_000_000_000_000_000_000_000i128)
            by (nonlinear_arith)
            requires
                0 <= arg <= 1_000_000_000_000_000_000_000_000_000i128,
                SCALE == 1_000_000_000i64,
        ;
    }
    let sd_u = isqrt_u128((arg * s128) as u128);
    proof {
        assert(sd_u <= 1_000_000_000_000_000_000u128) by (nonlinear_arith)
            requires
                sd_u * sd_u <= 1_000_000_000_000_000_000_000_000_000_000_000_000u128,
        ;
    }
    let sd: i128 = sd_u as i128;
    let zr: i128 = z.raw() as i128;
    proof {
        assert(-(10_000_000_000_000_000_000_000_000_000_000_000_000i128) <= zr * sd
            <= 10_000_000_000_000_000_000_000_000_000_000_000_000i128) by (nonlinear_arith)
            requires
                i64::MIN <= zr <= i64::MAX,
                0 <= sd <= 1_000_000_000_000_000_000i128,
        ;
        lemma_fdiv_bounds(zr as int * sd as int, SCALE as int);
        lemma_fdiv_bounds(-(zr as int * sd as int), SCALE as int);
    }
    let span = tdiv_i128(zr * sd, s128);
    let lo = p - span;
    let hi = p + span;
    if lo >= i64::MIN as i128 && lo <= i64::MAX as i128 && hi >= i64::MIN as i128 && hi
        <= i64::MAX as i128 {
        Ok(Interval::new(Fixed::from_raw(lo as i64), Fixed::from_raw(hi as i64)))
    } else {
        Err(CIError::FloatConversionError(ConversionContext::Proportion))
    }
}

/// For a nonnegative critical value the Wilson interval is ordered: its
/// half-width is nonnegative, so the low bound is at most the high bound.
pub proof fn lemma_wilson_ordered(conf: int, z: int, n: int, ns: int)
    requires
        z >= 0,
        wilson_result(conf, z, n, ns) is Ok,
    ensures
        wilson_result(conf, z, n, ns)->Ok_0.0 <= wilson_result(conf, z, n, ns)->Ok_0.1,
{
    let nf = n - ns;
    let z2 = fx_mul(z, z);
    let n_s = n * SCALE;
    let den = n_s + z2;
    assert(z * z >= 0) by (nonlinear_arith);
    lemma_fdiv_bounds(z * z, SCALE as int);
    assert(z2 >= 0);
    assert(n >= 4);
    assert(n_s >= 4 * (SCALE as int)) by (nonlinear_arith)
        requires
            n >= 4,
            n_s == n * SCALE,
            SCALE == 1_000_000_000i64,
    ;
    assert(den >= 1);
    assert(z * SCALE >= 0) by (nonlinear_arith)
        requires
            z >= 0,
            SCALE == 1_000_000_000i64,
    ;
    lemma_fdiv_bounds(z * SCALE, den);
    let zdiv = tdiv(z * SCALE, den);
    assert(zdiv >= 0);
    assert(ns * nf >= 0) by (nonlinear_arith)
        requires
            ns >= 2,
            nf >= 2,
    ;
    lemma_fdiv_bounds(ns * nf, n);
    let q1 = tdiv(ns * nf, n);
    assert(q1 >= 0);
    vstd::arithmetic::div_mod::lemma_fundamental_div_mod(ns * nf, n);
    vstd::arithmetic::div_mod::lemma_mod_division_less_than_divisor(ns * nf, n);
    let r1 = ns * nf - q1 * n;
    assert(r1 >= 0) by (nonlinear_arith)
        requires
            ns * nf == n * q1 + (ns * nf) % n,
            0 <= (ns * nf) % n,
            r1 == ns * nf - q1 * n,
    ;
    assert(q1 * SCALE >= 0 && r1 * SCALE >= 0) by (nonlinear_arith)
        requires
            q1 >= 0,
            r1 >= 0,
            SCALE == 1_000_000_000i64,
    ;
    lemma_fdiv_bounds(r1 * SCALE, n);
    lemma_fdiv_bounds(z2, 4);
    let inner = q1 * SCALE + tdiv(r1 * SCALE, n) + tdiv(z2, 4);
    assert(inner >= 0);
    assert(inner * SCALE >= 0) by (nonlinear_arith)
        requires
            inner >= 0,
            SCALE == 1_000_000_000i64,
    ;
    crate::fixed::lemma_sqrt_floor_exists(inner * SCALE);
    let root = sqrt_floor(inner * SCALE);
    assert(zdiv * root >= 0) by (nonlinear_arith)
        requires
            zdiv >= 0,
            root >= 0,
    ;
    lemma_fdiv_bounds(zdiv * root, SCALE as int);
}

/// For a nonnegative critical value the normal-approximation interval is
/// ordered: its half-width is nonnegative.
pub proof fn lemma_z_normal_ordered(conf: int, z: int, n: int, ns: int)
    requires
        z >= 0,
        n >= 0,
        ns >= 0,
        z_normal_result(conf, z, n, ns) is Ok,
    ensures
        z_normal_result(conf, z, n, ns)->Ok_0.0 <= z_normal_result(conf, z, n, ns)->Ok_0.1,
{
    if n == 0 {
        let p0 = tdiv(ns * SCALE, n);
        assert(n * p0 == 0) by (nonlinear_arith)
            requires
                n == 0,
        ;
        assert(false);
    }
    assert(ns * SCALE >= 0) by (nonlinear_arith)
        requires
            ns >= 0,
            SCALE == 1_000_000_000i64,
    ;
    lemma_fdiv_bounds(ns * SCALE, n);
    let p = tdiv(ns * SCALE, n);
    assert(p >= 0);
    assert(ns * SCALE <= n * SCALE) by (nonlinear_arith)
        requires
            0 <= ns <= n,
            SCALE == 1_000_000_000i64,
    ;
    vstd::arithmetic::div_mod::lemma_div_is_ordered(ns * SCALE, n * SCALE, n);
    vstd::arithmetic::div_mod::lemma_div_multiples_vanish(SCALE as int, n);
    assert(p <= SCALE);
    let q = SCALE - p;
    assert(p * q >= 0) by (nonlinear_arith)
        requires
            p >= 0,
            q >= 0,
    ;
    lemma_fdiv_bounds(p * q, SCALE as int);
    let pq = fx_mul(p, q);
    assert(pq >= 0);
    assert(pq * SCALE >= 0 && n * SCALE >= 1) by (nonlinear_arith)
        requires
            pq >= 0,
            n >= 1,
            SCALE == 1_000_000_000i64,
    ;
    lemma_fdiv_bounds(pq * SCALE, n * SCALE);
    let arg = tdiv(pq * SCALE, n * SCALE);
    assert(arg >= 0);
    assert(arg * SCALE >= 0) by (nonlinear_arith)
        requires
            arg >= 0,
            SCALE == 1_000_000_000i64,
    ;
    crate::fixed::lemma_sqrt_floor_exists(arg * SCALE);
    let sd = sqrt_floor(arg * SCALE);
    assert(z * sd >= 0) by (nonlinear_arith)
        requires
            z >= 0,
            sd >= 0,
    ;
    lemma_fdiv_bounds(z * sd, SCALE as int);
}

} // verus!
