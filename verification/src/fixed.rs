//! Fixed-point scalars: signed 64-bit counts of billionths.
//!
//! A [`Fixed`] value represents the rational number `raw / SCALE` with
//! `SCALE == 1_000_000_000`. All operations are exact integer arithmetic,
//! specified by the spec functions in this module; division truncates
//! toward zero, as Rust's integer division does.

use vstd::prelude::*;

verus! {

/// Number of fixed-point units per 1.0.
pub const SCALE: i64 = 1_000_000_000;

/// A fixed-point scalar: the rational number `raw / SCALE`.
#[derive(Clone, Copy, Debug, PartialEq, Eq, PartialOrd, Ord, Hash, Structural)]
pub struct Fixed {
    raw: i64,
}

impl Fixed {
    /// The raw unit count of this value, as a mathematical integer.
    pub closed spec fn val(self) -> int {
        self.raw as int
    }

    /// Builds a value from a raw count of billionths.
    pub fn from_raw(raw: i64) -> (r: Fixed)
        ensures
            r.val() == raw,
            r == fx(raw as int),
    {
        Fixed { raw }
    }

    /// The raw count of billionths.
    pub fn raw(self) -> (r: i64)
        ensures
            r == self.val(),
    {
        self.raw
    }

    /// Builds the value representing the whole number `n`.
    pub fn from_int(n: i64) -> (r: Fixed)
        requires
            n * SCALE <= i64::MAX,
            n * SCALE >= i64::MIN,
        ensures
            r.val() == n * SCALE,
    {
        Fixed { raw: n * SCALE }
    }

    /// Two values with the same unit count are the same value.
    pub proof fn lemma_val_injective(self, other: Fixed)
        requires
            self.val() == other.val(),
        ensures
            self == other,
    {
    }
}

/// The fixed-point value with the given raw count, at spec level.
pub closed spec fn fx(v: int) -> Fixed {
    Fixed { raw: v as i64 }
}

/// Truncating division (toward zero), the rounding of every division in
/// this crate; agrees with Rust's `/` on integers.
pub open spec fn tdiv(x: int, d: int) -> int
    recommends
        d != 0,
{
    let q = (vstd::math::abs(x) / vstd::math::abs(d)) as int;
    if (x >= 0) == (d >= 0) {
        q
    } else {
        -q
    }
}

/// Product of two fixed-point values, truncated to fixed-point units.
pub open spec fn fx_mul(a: int, b: int) -> int {
    tdiv(a * b, SCALE as int)
}

/// Quotient of two fixed-point values, truncated to fixed-point units.
pub open spec fn fx_div(a: int, b: int) -> int
    recommends
        b != 0,
{
    tdiv(a * SCALE, b)
}

/// Ceiling division for a positive divisor.
pub open spec fn cdiv(a: int, d: int) -> int
    recommends
        d > 0,
{
    if a % d == 0 {
        a / d
    } else {
        a / d + 1
    }
}

/// The integer square root: the greatest `r >= 0` with `r * r <= x`.
pub open spec fn sqrt_floor(x: int) -> int
    recommends
        x >= 0,
{
    choose|r: int| r >= 0 && #[trigger] (r * r) <= x && x < (r + 1) * (r + 1)
}

/// Any `r` bracketing `x` between consecutive squares is the integer
/// square root.
pub proof fn lemma_sqrt_floor(x: int, r: int)
    requires
        r >= 0,
        r * r <= x,
        x < (r + 1) * (r + 1),
    ensures
        sqrt_floor(x) == r,
{
    assert(exists|c: int| c >= 0 && #[trigger] (c * c) <= x && x < (c + 1) * (c + 1)) by {
        assert(r >= 0 && r * r <= x && x < (r + 1) * (r + 1));
    }
    let c = sqrt_floor(x);
    assert(c >= 0 && c * c <= x && x < (c + 1) * (c + 1));
    if c < r {
        assert((c + 1) * (c + 1) <= r * r) by (nonlinear_arith)
            requires
                0 <= c < r,
        ;
        assert(false);
    }
    if c > r {
        assert((r + 1) * (r + 1) <= c * c) by (nonlinear_arith)
            requires
                0 <= r < c,
        ;
        assert(false);
    }
}

/// Every nonnegative integer lies between two consecutive squares, so
/// [`sqrt_floor`] is well defined and nonnegative.
pub proof fn lemma_sqrt_floor_exists(x: int)
    requires
        x >= 0,
    ensures
        sqrt_floor(x) >= 0,
        sqrt_floor(x) * sqrt_floor(x) <= x,
        x < (sqrt_floor(x) + 1) * (sqrt_floor(x) + 1),
    decreases x,
{
    if x == 0 {
        lemma_sqrt_floor(0, 0);
    } else {
        lemma_sqrt_floor_exists(x - 1);
        let r = sqrt_floor(x - 1);
        if x < (r + 1) * (r + 1) {
            lemma_sqrt_floor(x, r);
        } else {
            assert(x == (r + 1) * (r + 1));
            assert((r + 1) * (r + 1) < (r + 2) * (r + 2)) by (nonlinear_arith)
                requires
                    r >= 0,
            ;
            lemma_sqrt_floor(x, r + 1);
        }
    }
}

/// Floor division by a positive divisor keeps a value between zero and
/// itself.
pub proof fn lemma_fdiv_bounds(a: int, d: int)
    requires
        d >= 1,
    ensures
        a >= 0 ==> 0 <= a / d <= a,
        a < 0 ==> a <= a / d <= 0,
{
    vstd::arithmetic::div_mod::lemma_fundamental_div_mod(a, d);
    vstd::arithmetic::div_mod::lemma_mod_division_less_than_divisor(a, d);
    let q = a / d;
    let m = a % d;
    assert((a >= 0 ==> 0 <= q <= a) && (a < 0 ==> a <= q <= 0)) by (nonlinear_arith)
        requires
            a == d * q + m,
            0 <= m < d,
            d >= 1,
    ;
}

/// Truncating division of machine integers, for a positive divisor.
pub fn tdiv_i128(a: i128, d: i128) -> (q: i128)
    requires
        d > 0,
    ensures
        q == tdiv(a as int, d as int),
{
    proof {
        lemma_fdiv_bounds(a as int, d as int);
        lemma_fdiv_bounds(-(a as int), d as int);
    }
    let r = a.checked_div(d);
    r.unwrap()
}

/// Euclidean (floor, for a positive divisor) division with remainder.
pub fn fdiv_i128(a: i128, d: i128) -> (r: (i128, i128))
    requires
        d > 0,
    ensures
        r.0 == (a as int) / (d as int),
        r.1 == (a as int) % (d as int),
{
    proof {
        lemma_fdiv_bounds(a as int, d as int);
        vstd::arithmetic::div_mod::lemma_mod_division_less_than_divisor(a as int, d as int);
    }
    let q = a.checked_div_euclid(d);
    let m = a.checked_rem_euclid(d);
    (q.unwrap(), m.unwrap())
}

/// Ceiling division of machine integers, for a positive divisor.
pub fn cdiv_i128(a: i128, d: i128) -> (q: i128)
    requires
        d > 0,
        a < i128::MAX,
    ensures
        q == cdiv(a as int, d as int),
{
    proof {
        lemma_fdiv_bounds(a as int, d as int);
    }
    let (fq, fr) = fdiv_i128(a, d);
    if fr == 0 {
        fq
    } else {
        fq + 1
    }
}

/// The integer square root of a 128-bit value, by bisection.
pub fn isqrt_u128(x: u128) -> (r: u128)
    ensures
        r * r <= x < (r + 1) * (r + 1),
        r == sqrt_floor(x as int),
{
    if x == 0 {
        proof {
            lemma_sqrt_floor(0, 0);
        }
        return 0;
    }
    let mut lo: u128 = 0;
    let mut hi: u128 = 0x1_0000_0000_0000_0000;
    proof {
        assert((hi as int) * (hi as int) > x as int) by (nonlinear_arith)
            requires
                hi == 0x1_0000_0000_0000_0000u128,
                x <= u128::MAX,
        ;
    }
    while lo + 1 < hi
        invariant
            0 <= lo < hi <= 0x1_0000_0000_0000_0000u128,
            lo * lo <= x as int,
            (hi as int) * (hi as int) > x as int,
        decreases hi - lo,
    {
        let mid = lo + (hi - lo) / 2;
        proof {
            assert(mid * mid <= u128::MAX) by (nonlinear_arith)
                requires
                    0 <= mid <= 0xffff_ffff_ffff_ffffu128,
            ;
        }
        let m2 = mid * mid;
        if m2 <= x {
            lo = mid;
        } else {
            hi = mid;
        }
    }
    proof {
        lemma_sqrt_floor(x as int, lo as int);
    }
    lo
}


/// Fixed-point units of the natural logarithm of two.
pub const LN2: i64 = 693_147_181;

/// A magnitude bound through truncating division: if `|a| <= bound * d`,
/// then `|tdiv(a, d)| <= bound`.
pub proof fn lemma_tdiv_mag(a: int, d: int, bound: int)
    requires
        d >= 1,
        bound >= 0,
        -(bound * d) <= a <= bound * d,
    ensures
        -bound <= tdiv(a, d) <= bound,
{
    let ab = vstd::math::abs(a) as int;
    assert(ab <= bound * d);
    vstd::arithmetic::div_mod::lemma_div_is_ordered(ab, d * bound, d);
    vstd::arithmetic::div_mod::lemma_div_multiples_vanish(bound, d);
    lemma_fdiv_bounds(ab, d);
}

/// Halving normalization: divide by two (at most 64 times) until the
/// value is below two, counting the halvings.
pub open spec fn ln_norm_down(m: int, k: int) -> (int, int)
    decreases 64 - k,
    when k <= 64
{
    if k < 64 && m >= 2 * SCALE {
        ln_norm_down(tdiv(m, 2), k + 1)
    } else {
        (m, k)
    }
}

/// Doubling normalization: multiply by two (at most 64 times) until the
/// value reaches one, counting the doublings negatively.
pub open spec fn ln_norm_up(m: int, k: int) -> (int, int)
    decreases 64 + k,
    when k >= -64
{
    if k > -64 && m < SCALE {
        ln_norm_up(2 * m, k - 1)
    } else {
        (m, k)
    }
}

/// The log series on a normalized mantissa `m` in `[1, 2)`: with
/// `z = (m - 1)/(m + 1)`, twice the sum of the odd-power terms of the
/// inverse hyperbolic tangent series through the thirteenth.
pub open spec fn ln_series(m: int) -> int {
    let z = fx_div(m - SCALE, m + SCALE);
    let z2 = fx_mul(z, z);
    let t3 = fx_mul(z, z2);
    let t5 = fx_mul(t3, z2);
    let t7 = fx_mul(t5, z2);
    let t9 = fx_mul(t7, z2);
    let t11 = fx_mul(t9, z2);
    let t13 = fx_mul(t11, z2);
    2 * (z + tdiv(t3, 3) + tdiv(t5, 5) + tdiv(t7, 7) + tdiv(t9, 9) + tdiv(t11, 11) + tdiv(
        t13,
        13,
    ))
}

/// The crate's fixed-point natural logarithm of `v` (in fixed-point
/// units): normalize to `m * 2^k` with mantissa in `[1, 2)`, then
/// `k * ln 2` plus the series on the mantissa.
pub open spec fn ln_scaled(v: int) -> int
    recommends
        v >= 1,
{
    let nd = ln_norm_down(v, 0);
    let nu = ln_norm_up(v, 0);
    let m = if v >= SCALE {
        nd.0
    } else {
        nu.0
    };
    let k = if v >= SCALE {
        nd.1
    } else {
        nu.1
    };
    k * LN2 + ln_series(m)
}

/// The exponential series on a remainder `r` in `[0, ln 2)`: the factorial
/// series through the twelfth term.
pub open spec fn exp_series(r: int) -> int {
    let t0 = SCALE as int;
    let t1 = tdiv(t0 * r, 1 * SCALE);
    let t2 = tdiv(t1 * r, 2 * SCALE);
    let t3 = tdiv(t2 * r, 3 * SCALE);
    let t4 = tdiv(t3 * r, 4 * SCALE);
    let t5 = tdiv(t4 * r, 5 * SCALE);
    let t6 = tdiv(t5 * r, 6 * SCALE);
    let t7 = tdiv(t6 * r, 7 * SCALE);
    let t8 = tdiv(t7 * r, 8 * SCALE);
    let t9 = tdiv(t8 * r, 9 * SCALE);
    let t10 = tdiv(t9 * r, 10 * SCALE);
    let t11 = tdiv(t10 * r, 11 * SCALE);
    let t12 = tdiv(t11 * r, 12 * SCALE);
    t0 + t1 + t2 + t3 + t4 + t5 + t6 + t7 + t8 + t9 + t10 + t11 + t12
}

/// Doubling `k` times, stopping early once the value leaves the
/// representable range (the caller then reports the overflow).
pub open spec fn shift_up(p: int, k: int) -> int
    decreases k,
    when k >= 0
{
    if k <= 0 || p > i64::MAX {
        p
    } else {
        shift_up(2 * p, k - 1)
    }
}

/// Halving `k` times.
pub open spec fn shift_down(p: int, k: int) -> int
    decreases k,
    when k >= 0
{
    if k <= 0 {
        p
    } else {
        shift_down(tdiv(p, 2), k - 1)
    }
}

/// The crate's fixed-point exponential of `x` (in fixed-point units):
/// `None` where the result would not be representable. Splits
/// `x = k * ln 2 + r` and shifts the series value on `r` by `k` binary
/// places.
pub open spec fn exp_scaled(x: int) -> Option<int> {
    if x > 23 * SCALE {
        None
    } else if x < -25 * SCALE {
        Some(0)
    } else {
        let k = x / (LN2 as int);
        let r = x % (LN2 as int);
        let p = exp_series(r);
        let y = if k >= 0 {
            shift_up(p, k)
        } else {
            shift_down(p, -k)
        };
        if y > i64::MAX {
            None
        } else {
            Some(y)
        }
    }
}


/// The log series, executably: mirrors [`ln_series`] term for term.
fn ln_series_fx(m: i128) -> (r: i64)
    requires
        1 <= m <= i64::MAX,
    ensures
        r == ln_series(m as int),
        -14 * (SCALE as int) <= r <= 14 * (SCALE as int),
{
    let s128: i128 = SCALE as i128;
    proof {
        assert(-((SCALE as int) * ((m as int) + SCALE)) <= ((m as int) - SCALE) * SCALE <= (
        SCALE as int) * ((m as int) + SCALE)) by (nonlinear_arith)
            requires
                1 <= m as int <= i64::MAX,
                SCALE == 1_000_000_000i64,
        ;
    }
    let z = tdiv_i128((m - s128) * s128, m + s128);
    proof {
        lemma_tdiv_mag(((m as int) - SCALE) * SCALE, (m as int) + SCALE, SCALE as int);
        assert(-(SCALE as int) * (SCALE as int) <= z * z <= (SCALE as int) * (SCALE as int))
            by (nonlinear_arith)
            requires
                -(SCALE as int) <= z as int <= SCALE as int,
        ;
    }
    let z2 = tdiv_i128(z * z, s128);
    proof {
        lemma_tdiv_mag((z as int) * (z as int), SCALE as int, SCALE as int);
        lemma_mul_cap(z as int, z2 as int);
    }
    let t3 = tdiv_i128(z * z2, s128);
    proof {
        lemma_tdiv_mag((z as int) * (z2 as int), SCALE as int, SCALE as int);
        lemma_mul_cap(t3 as int, z2 as int);
    }
    let t5 = tdiv_i128(t3 * z2, s128);
    proof {
        lemma_tdiv_mag((t3 as int) * (z2 as int), SCALE as int, SCALE as int);
        lemma_mul_cap(t5 as int, z2 as int);
    }
    let t7 = tdiv_i128(t5 * z2, s128);
    proof {
        lemma_tdiv_mag((t5 as int) * (z2 as int), SCALE as int, SCALE as int);
        lemma_mul_cap(t7 as int, z2 as int);
    }
    let t9 = tdiv_i128(t7 * z2, s128);
    proof {
        lemma_tdiv_mag((t7 as int) * (z2 as int), SCALE as int, SCALE as int);
        lemma_mul_cap(t9 as int, z2 as int);
    }
    let t11 = tdiv_i128(t9 * z2, s128);
    proof {
        lemma_tdiv_mag((t9 as int) * (z2 as int), SCALE as int, SCALE as int);
        lemma_mul_cap(t11 as int, z2 as int);
    }
    let t13 = tdiv_i128(t11 * z2, s128);
    proof {
        lemma_tdiv_mag((t11 as int) * (z2 as int), SCALE as int, SCALE as int);
        lemma_tdiv_mag(t3 as int, 3, SCALE as int);
        lemma_tdiv_mag(t5 as int, 5, SCALE as int);
        lemma_tdiv_mag(t7 as int, 7, SCALE as int);
        lemma_tdiv_mag(t9 as int, 9, SCALE as int);
        lemma_tdiv_mag(t11 as int, 11, SCALE as int);
        lemma_tdiv_mag(t13 as int, 13, SCALE as int);
    }
    let q3 = tdiv_i128(t3, 3);
    let q5 = tdiv_i128(t5, 5);
    let q7 = tdiv_i128(t7, 7);
    let q9 = tdiv_i128(t9, 9);
    let q11 = tdiv_i128(t11, 11);
    let q13 = tdiv_i128(t13, 13);
    let total: i128 = 2 * (z + q3 + q5 + q7 + q9 + q11 + q13);
    total as i64
}

/// Two values bounded by one in fixed-point units have a product bounded
/// by the square of the unit.
proof fn lemma_mul_cap(a: int, b: int)
    requires
        -(SCALE as int) <= a <= SCALE as int,
        -(SCALE as int) <= b <= SCALE as int,
    ensures
        -(SCALE as int) * (SCALE as int) <= a * b <= (SCALE as int) * (SCALE as int),
{
    assert(-(SCALE as int) * (SCALE as int) <= a * b <= (SCALE as int) * (SCALE as int))
        by (nonlinear_arith)
        requires
            -(SCALE as int) <= a <= SCALE as int,
            -(SCALE as int) <= b <= SCALE as int,
    ;
}

/// The fixed-point natural logarithm: computes [`ln_scaled`].
pub fn ln_fx(x: Fixed) -> (r: Fixed)
    requires
        x.val() >= 1,
    ensures
        r.val() == ln_scaled(x.val()),
{
    let ghost v0 = x.val();
    let mut m: i128 = x.raw() as i128;
    let mut k: i64 = 0;
    if m >= SCALE as i128 {
        while m >= 2 * (SCALE as i128) && k < 64
            invariant
                SCALE as int <= m <= i64::MAX,
                0 <= k <= 64,
                ln_norm_down(m as int, k as int) == ln_norm_down(v0, 0),
            decreases 64 - k,
        {
            proof {
                vstd::arithmetic::div_mod::lemma_div_is_ordered(
                    2 * (SCALE as int),
                    m as int,
                    2,
                );
                vstd::arithmetic::div_mod::lemma_div_multiples_vanish(SCALE as int, 2);
                lemma_fdiv_bounds(m as int, 2);
            }
            m = tdiv_i128(m, 2);
            k = k + 1;
        }
    } else {
        while m < SCALE as i128 && k > -64
            invariant
                1 <= m < 2 * (SCALE as int),
                -64 <= k <= 0,
                ln_norm_up(m as int, k as int) == ln_norm_up(v0, 0),
            decreases 64 + k,
        {
            m = 2 * m;
            k = k - 1;
        }
    }
    let ser = ln_series_fx(m);
    let total: i128 = (k as i128) * (LN2 as i128) + (ser as i128);
    Fixed::from_raw(total as i64)
}

/// The exponential series, executably: mirrors [`exp_series`] term for
/// term.
fn exp_series_fx(r: i128) -> (p: i128)
    requires
        0 <= r <= SCALE as int,
    ensures
        p == exp_series(r as int),
        0 <= p <= 13 * (SCALE as int),
{
    let s128: i128 = SCALE as i128;
    let t0: i128 = s128;
    proof {
        lemma_mul_cap(t0 as int, r as int);
    }
    let t1 = tdiv_i128(t0 * r, 1 * s128);
    proof {
        lemma_tdiv_mag((t0 as int) * (r as int), 1 * (SCALE as int), SCALE as int);
        lemma_mul_cap(t1 as int, r as int);
    }
    let t2 = tdiv_i128(t1 * r, 2 * s128);
    proof {
        lemma_tdiv_mag((t1 as int) * (r as int), 2 * (SCALE as int), SCALE as int);
        lemma_mul_cap(t2 as int, r as int);
    }
    let t3 = tdiv_i128(t2 * r, 3 * s128);
    proof {
        lemma_tdiv_mag((t2 as int) * (r as int), 3 * (SCALE as int), SCALE as int);
        lemma_mul_cap(t3 as int, r as int);
    }
    let t4 = tdiv_i128(t3 * r, 4 * s128);
    proof {
        lemma_tdiv_mag((t3 as int) * (r as int), 4 * (SCALE as int), SCALE as int);
        lemma_mul_cap(t4 as int, r as int);
    }
    let t5 = tdiv_i128(t4 * r, 5 * s128);
    proof {
        lemma_tdiv_mag((t4 as int) * (r as int), 5 * (SCALE as int), SCALE as int);
        lemma_mul_cap(t5 as int, r as int);
    }
    let t6 = tdiv_i128(t5 * r, 6 * s128);
    proof {
        lemma_tdiv_mag((t5 as int) * (r as int), 6 * (SCALE as int), SCALE as int);
        lemma_mul_cap(t6 as int, r as int);
    }
    let t7 = tdiv_i128(t6 * r, 7 * s128);
    proof {
        lemma_tdiv_mag((t6 as int) * (r as int), 7 * (SCALE as int), SCALE as int);
        lemma_mul_cap(t7 as int, r as int);
    }
    let t8 = tdiv_i128(t7 * r, 8 * s128);
    proof {
        lemma_tdiv_mag((t7 as int) * (r as int), 8 * (SCALE as int), SCALE as int);
        lemma_mul_cap(t8 as int, r as int);
    }
    let t9 = tdiv_i128(t8 * r, 9 * s128);
    proof {
        lemma_tdiv_mag((t8 as int) * (r as int), 9 * (SCALE as int), SCALE as int);
        lemma_mul_cap(t9 as int, r as int);
    }
    let t10 = tdiv_i128(t9 * r, 10 * s128);
    proof {
        lemma_tdiv_mag((t9 as int) * (r as int), 10 * (SCALE as int), SCALE as int);
        lemma_mul_cap(t10 as int, r as int);
    }
    let t11 = tdiv_i128(t10 * r, 11 * s128);
    proof {
        lemma_tdiv_mag((t10 as int) * (r as int), 11 * (SCALE as int), SCALE as int);
        lemma_mul_cap(t11 as int, r as int);
    }
    let t12 = tdiv_i128(t11 * r, 12 * s128);
    proof {
        lemma_tdiv_mag((t11 as int) * (r as int), 12 * (SCALE as int), SCALE as int);
        lemma_fdiv_bounds((t0 as int) * (r as int), 1 * (SCALE as int));
        lemma_fdiv_bounds((t1 as int) * (r as int), 2 * (SCALE as int));
        lemma_fdiv_bounds((t2 as int) * (r as int), 3 * (SCALE as int));
        lemma_fdiv_bounds((t3 as int) * (r as int), 4 * (SCALE as int));
        lemma_fdiv_bounds((t4 as int) * (r as int), 5 * (SCALE as int));
        lemma_fdiv_bounds((t5 as int) * (r as int), 6 * (SCALE as int));
        lemma_fdiv_bounds((t6 as int) * (r as int), 7 * (SCALE as int));
        lemma_fdiv_bounds((t7 as int) * (r as int), 8 * (SCALE as int));
        lemma_fdiv_bounds((t8 as int) * (r as int), 9 * (SCALE as int));
        lemma_fdiv_bounds((t9 as int) * (r as int), 10 * (SCALE as int));
        lemma_fdiv_bounds((t10 as int) * (r as int), 11 * (SCALE as int));
        lemma_fdiv_bounds((t11 as int) * (r as int), 12 * (SCALE as int));
    }
    t0 + t1 + t2 + t3 + t4 + t5 + t6 + t7 + t8 + t9 + t10 + t11 + t12
}

/// The fixed-point exponential: computes [`exp_scaled`].
pub fn exp_fx(x: i128) -> (r: Option<i64>)
    ensures
        match (r, exp_scaled(x as int)) {
            (Some(a), Some(b)) => a == b,
            (None, None) => true,
            _ => false,
        },
{
    let s128: i128 = SCALE as i128;
    if x > 23 * s128 {
        return None;
    }
    if x < -25 * s128 {
        return Some(0);
    }
    let (k, rem) = fdiv_i128(x, LN2 as i128);
    proof {
        vstd::arithmetic::div_mod::lemma_div_is_ordered(-25 * (SCALE as int), x as int, LN2 as int);
        vstd::arithmetic::div_mod::lemma_div_is_ordered(x as int, 23 * (SCALE as int), LN2 as int);
        vstd::arithmetic::div_mod::lemma_mod_division_less_than_divisor(x as int, LN2 as int);
    }
    let p0 = exp_series_fx(rem);
    let mut p: i128 = p0;
    if k >= 0 {
        let mut j: i128 = k;
        while j > 0 && p <= i64::MAX as i128
            invariant
                0 <= j,
                0 <= p <= 2 * (i64::MAX as int),
                shift_up(p as int, j as int) == shift_up(p0 as int, k as int),
            decreases j,
        {
            p = 2 * p;
            j = j - 1;
        }
        if p > i64::MAX as i128 {
            None
        } else {
            Some(p as i64)
        }
    } else {
        let mut j: i128 = -k;
        while j > 0
            invariant
                0 <= j,
                0 <= p <= 13 * (SCALE as int),
                shift_down(p as int, j as int) == shift_down(p0 as int, -(k as int)),
            decreases j,
        {
            proof {
                lemma_fdiv_bounds(p as int, 2);
            }
            p = tdiv_i128(p, 2);
            j = j - 1;
        }
        if p > i64::MAX as i128 {
            None
        } else {
            Some(p as i64)
        }
    }
}

} // verus!


