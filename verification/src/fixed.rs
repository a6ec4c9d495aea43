//! Fixed-point arithmetic kernel.
//!
//! Every scalar quantity of the engine is a fixed-point number with six
//! decimal places: the value `1_000_000` stands for `1.0` ("micro-units").
//! This module holds the shared numeric building blocks: clamping, an exact
//! integer square root, and fixed-point approximations of the exponential
//! and natural logarithm used by the retention model.

use vstd::prelude::*;
use vstd::arithmetic::power::pow;
use vstd::arithmetic::power2::pow2;

verus! {

/// One whole unit in fixed-point representation: `SCALE` stands for `1.0`.
pub const SCALE: i64 = 1_000_000;

/// `SCALE` as `u128`, for wide intermediate arithmetic.
pub const SCALE_U: u128 = 1_000_000;

/// Euler's number `e` in micro-units.
pub const EULER_MICRO: u128 = 2_718_281;

/// `ln 2` in micro-units.
pub const LN2_MICRO: u128 = 693_147;

/// Exponent arguments at or above this cap (`20.0`) drive every decay or
/// logistic quotient in this crate to its saturated value.
pub const EXP_ARG_CAP: u128 = 20_000_000;

/// Largest argument accepted by [`ln_fp`].
pub const LN_ARG_MAX: u128 = 10_000_000_000_000_000_000_000_000_000;

/// Clamps a mathematical integer into the unit interval `[0, SCALE]`.
pub open spec fn clamp_unit(x: int) -> int {
    if x < 0 {
        0
    } else if x > SCALE {
        SCALE as int
    } else {
        x
    }
}

/// Bounds the product of two bounded non-negative factors.
pub proof fn lemma_mul_le(a: int, b: int, ca: int, cb: int)
    requires
        0 <= a <= ca,
        0 <= b <= cb,
    ensures
        a * b <= ca * cb,
{
    assert(a * b <= ca * cb) by (nonlinear_arith)
        requires
            0 <= a <= ca,
            0 <= b <= cb,
    ;
}

/// The quotient of two micro-unit factors by at least `SCALE` stays a
/// micro-unit value.
pub proof fn lemma_unit_mul_div(a: int, b: int, d: int)
    requires
        0 <= a <= 1_000_000,
        0 <= b <= 1_000_000,
        d >= 1_000_000,
    ensures
        0 <= a * b / d <= 1_000_000,
{
    lemma_mul_le(a, b, 1_000_000, 1_000_000);
    vstd::arithmetic::div_mod::lemma_div_is_ordered_by_denominator(a * b, 1_000_000, d);
    vstd::arithmetic::div_mod::lemma_div_is_ordered(a * b, 1_000_000_000_000, 1_000_000);
    vstd::arithmetic::div_mod::lemma_div_pos_is_pos(a * b, d);
}

/// The floor of the square root of a non-negative integer.
pub open spec fn sqrt_floor(n: int) -> int
    decreases n,
{
    if n <= 0 {
        0
    } else {
        let r = sqrt_floor(n - 1);
        if (r + 1) * (r + 1) <= n {
            r + 1
        } else {
            r
        }
    }
}

/// `sqrt_floor(n)` is characterised by `r * r <= n < (r + 1) * (r + 1)`.
pub proof fn lemma_sqrt_floor_props(n: int)
    requires
        0 <= n,
    ensures
        0 <= sqrt_floor(n),
        sqrt_floor(n) * sqrt_floor(n) <= n,
        n < (sqrt_floor(n) + 1) * (sqrt_floor(n) + 1),
    decreases n,
{
    if n > 0 {
        lemma_sqrt_floor_props(n - 1);
        let r = sqrt_floor(n - 1);
        if (r + 1) * (r + 1) <= n {
            assert(sqrt_floor(n) == r + 1);
            assert((r + 1 + 1) * (r + 1 + 1) > n) by (nonlinear_arith)
                requires
                    0 <= r,
                    (n - 1) < (r + 1) * (r + 1),
            ;
        } else {
            assert(sqrt_floor(n) == r);
        }
    }
}

/// No two distinct integers satisfy the square-root characterisation.
pub proof fn lemma_sqrt_floor_unique(n: int, r: int)
    requires
        0 <= r,
        r * r <= n,
        n < (r + 1) * (r + 1),
    ensures
        r == sqrt_floor(n),
{
    lemma_sqrt_floor_props(n);
    let s = sqrt_floor(n);
    if r < s {
        assert((r + 1) * (r + 1) <= s * s) by (nonlinear_arith)
            requires
                0 <= r,
                r + 1 <= s,
        ;
    }
    if s < r {
        assert((s + 1) * (s + 1) <= r * r) by (nonlinear_arith)
            requires
                0 <= s,
                s + 1 <= r,
        ;
    }
}

/// Exact integer square root by bisection.
pub fn isqrt(n: u128) -> (r: u128)
    requires
        n < 0x40000000000000000000000000000000,
    ensures
        r == sqrt_floor(n as int),
        r * r <= n,
        n < (r + 1) * (r + 1),
{
    if n == 0 {
        return 0;
    }
    let mut lo: u128 = 0;
    let mut hi: u128 = 0x8000000000000000;
    assert(hi * hi == 0x40000000000000000000000000000000) by (nonlinear_arith)
        requires
            hi == 0x8000000000000000,
    ;
    while hi - lo > 1
        invariant
            lo < hi,
            hi <= 0x8000000000000000,
            lo * lo <= n,
            n < hi * hi,
        decreases hi - lo,
    {
        let mid: u128 = lo + (hi - lo) / 2;
        proof {
            vstd::arithmetic::div_mod::lemma_fundamental_div_mod((hi - lo) as int, 2);
        }
        assert(mid * mid < 0x40000000000000000000000000000000) by (nonlinear_arith)
            requires
                mid < 0x8000000000000000,
        ;
        if mid * mid <= n {
            lo = mid;
        } else {
            hi = mid;
        }
    }
    proof {
        lemma_sqrt_floor_unique(n as int, lo as int);
    }
    lo
}

/// Fixed-point `e^n` for a whole number of units `n`, in micro-units.
pub open spec fn exp_whole(n: nat) -> int
    decreases n,
{
    if n == 0 {
        SCALE as int
    } else {
        exp_whole((n - 1) as nat) * EULER_MICRO / (SCALE as int)
    }
}

/// `exp_whole` stays between `SCALE` and `SCALE * 3^n`.
pub proof fn lemma_exp_whole_bounds(n: nat)
    ensures
        SCALE <= exp_whole(n),
        exp_whole(n) <= SCALE * pow(3, n),
    decreases n,
{
    reveal(pow);
    vstd::arithmetic::power::lemma_pow_positive(3, n);
    if n == 0 {
        assert(pow(3, 0) == 1);
    } else {
        lemma_exp_whole_bounds((n - 1) as nat);
        let prev = exp_whole((n - 1) as nat);
        let p = pow(3, (n - 1) as nat);
        assert(pow(3, n) == 3 * p);
        assert(prev * EULER_MICRO <= prev * (3 * SCALE)) by (nonlinear_arith)
            requires
                prev >= 0,
        ;
        assert(prev * (3 * SCALE) == (3 * prev) * SCALE) by (nonlinear_arith);
        vstd::arithmetic::div_mod::lemma_div_is_ordered(
            prev * EULER_MICRO,
            (3 * prev) * SCALE,
            SCALE as int,
        );
        vstd::arithmetic::div_mod::lemma_div_multiples_vanish(3 * prev, SCALE as int);
        assert(3 * prev <= 3 * (SCALE * p)) by (nonlinear_arith)
            requires
                prev <= SCALE * p,
        ;
        assert(3 * (SCALE * p) == SCALE * (3 * p)) by (nonlinear_arith);
        assert(prev * (2 * SCALE) <= prev * EULER_MICRO) by (nonlinear_arith)
            requires
                prev >= 0,
        ;
        assert(prev * (2 * SCALE) == (2 * prev) * SCALE) by (nonlinear_arith);
        vstd::arithmetic::div_mod::lemma_div_is_ordered(
            (2 * prev) * SCALE,
            prev * EULER_MICRO,
            SCALE as int,
        );
        vstd::arithmetic::div_mod::lemma_div_multiples_vanish(2 * prev, SCALE as int);
    }
}

/// Fixed-point `e^f` for a fractional argument `0 <= f <= SCALE`, in
/// micro-units, by an eight-term Taylor expansion.
pub open spec fn exp_frac(f: int) -> int {
    let t1 = f;
    let t2 = t1 * f / (2 * SCALE);
    let t3 = t2 * f / (3 * SCALE);
    let t4 = t3 * f / (4 * SCALE);
    let t5 = t4 * f / (5 * SCALE);
    let t6 = t5 * f / (6 * SCALE);
    let t7 = t6 * f / (7 * SCALE);
    let t8 = t7 * f / (8 * SCALE);
    SCALE + t1 + t2 + t3 + t4 + t5 + t6 + t7 + t8
}

/// Fixed-point `e^x` for `0 <= x < EXP_ARG_CAP`, in micro-units.
pub open spec fn exp_pos_spec(x: int) -> int {
    exp_whole((x / (SCALE as int)) as nat) * exp_frac(x % (SCALE as int)) / (SCALE as int)
}

/// Computes [`exp_pos_spec`] exactly.
pub fn exp_pos(x: u128) -> (r: u128)
    requires
        x < EXP_ARG_CAP,
    ensures
        r == exp_pos_spec(x as int),
        SCALE_U <= r <= 20_000_000_000_000_000,
{
    let n: u128 = x / SCALE_U;
    let f: u128 = x % SCALE_U;
    assert(n <= 19);
    assert(f <= SCALE_U);

    // whole part: repeated multiplication by e
    let mut acc: u128 = SCALE_U;
    let mut i: u128 = 0;
    while i < n
        invariant
            i <= n,
            n <= 19,
            acc == exp_whole(i as nat),
            SCALE_U <= acc,
            acc <= 2_000_000_000_000_000,
        decreases n - i,
    {
        proof {
            lemma_exp_whole_bounds((i + 1) as nat);
            assert(pow(3, (i + 1) as nat) <= pow(3, 19)) by {
                vstd::arithmetic::power::lemma_pow_increases(3, (i + 1) as nat, 19);
            }
            assert(pow(3, 19) == 1162261467) by {
                reveal_with_fuel(pow, 20);
            }
            assert(SCALE * pow(3, (i + 1) as nat) <= SCALE * 1162261467) by (nonlinear_arith)
                requires
                    pow(3, (i + 1) as nat) <= 1162261467,
            ;
            lemma_mul_le(acc as int, EULER_MICRO as int, 2_000_000_000_000_000, EULER_MICRO as int);
        }
        acc = acc * EULER_MICRO / SCALE_U;
        i = i + 1;
    }

    // fractional part: Taylor expansion
    let t1: u128 = f;
    proof {
        lemma_mul_le(t1 as int, f as int, 1_000_000, 1_000_000);
        lemma_unit_mul_div(t1 as int, f as int, 2_000_000);
    }
    let t2: u128 = t1 * f / (2 * SCALE_U);
    proof {
        lemma_mul_le(t2 as int, f as int, 1_000_000, 1_000_000);
        lemma_unit_mul_div(t2 as int, f as int, 3_000_000);
    }
    let t3: u128 = t2 * f / (3 * SCALE_U);
    proof {
        lemma_mul_le(t3 as int, f as int, 1_000_000, 1_000_000);
        lemma_unit_mul_div(t3 as int, f as int, 4_000_000);
    }
    let t4: u128 = t3 * f / (4 * SCALE_U);
    proof {
        lemma_mul_le(t4 as int, f as int, 1_000_000, 1_000_000);
        lemma_unit_mul_div(t4 as int, f as int, 5_000_000);
    }
    let t5: u128 = t4 * f / (5 * SCALE_U);
    proof {
        lemma_mul_le(t5 as int, f as int, 1_000_000, 1_000_000);
        lemma_unit_mul_div(t5 as int, f as int, 6_000_000);
    }
    let t6: u128 = t5 * f / (6 * SCALE_U);
    proof {
        lemma_mul_le(t6 as int, f as int, 1_000_000, 1_000_000);
        lemma_unit_mul_div(t6 as int, f as int, 7_000_000);
    }
    let t7: u128 = t6 * f / (7 * SCALE_U);
    proof {
        lemma_mul_le(t7 as int, f as int, 1_000_000, 1_000_000);
        lemma_unit_mul_div(t7 as int, f as int, 8_000_000);
    }
    let t8: u128 = t7 * f / (8 * SCALE_U);
    let frac: u128 = SCALE_U + t1 + t2 + t3 + t4 + t5 + t6 + t7 + t8;
    assert(frac == exp_frac(f as int));
    assert(frac <= 9_000_000);

    proof {
        lemma_mul_le(acc as int, frac as int, 2_000_000_000_000_000, 9_000_000);
        assert(acc * frac >= SCALE_U * SCALE_U) by (nonlinear_arith)
            requires
                acc >= SCALE_U,
                frac >= SCALE_U,
        ;
        vstd::arithmetic::div_mod::lemma_div_is_ordered(
            (SCALE_U * SCALE_U) as int,
            (acc * frac) as int,
            SCALE as int,
        );
        vstd::arithmetic::div_mod::lemma_div_multiples_vanish(SCALE as int, SCALE as int);
        vstd::arithmetic::div_mod::lemma_div_is_ordered(
            (acc * frac) as int,
            18_000_000_000_000_000_000_000,
            SCALE as int,
        );
    }
    let r: u128 = acc * frac / SCALE_U;
    r
}

/// Number of halvings needed to bring `v` under `2 * SCALE`.
pub open spec fn ln_shift_count(v: int) -> nat
    decreases v,
{
    if v < 2 * SCALE {
        0
    } else {
        1 + ln_shift_count(v / 2)
    }
}

/// The value left in `[SCALE, 2 * SCALE)` after those halvings.
pub open spec fn ln_shift_val(v: int) -> int
    decreases v,
{
    if v < 2 * SCALE {
        v
    } else {
        ln_shift_val(v / 2)
    }
}

/// Fixed-point `ln(v / SCALE)` for `v` in `[SCALE, 2 * SCALE)`, in
/// micro-units, via the inverse-hyperbolic-tangent series.
pub open spec fn ln_frac(v: int) -> int {
    let w = (v - SCALE) * SCALE / (v + SCALE);
    let p = w * w / (SCALE as int);
    let c3 = w * p / (SCALE as int);
    let c5 = c3 * p / (SCALE as int);
    let c7 = c5 * p / (SCALE as int);
    let c9 = c7 * p / (SCALE as int);
    2 * (w + c3 / 3 + c5 / 5 + c7 / 7 + c9 / 9)
}

/// Fixed-point natural logarithm of `u / SCALE` for `u >= SCALE`, in
/// micro-units.
pub open spec fn ln_fp_spec(u: int) -> int {
    ln_shift_count(u) * LN2_MICRO + ln_frac(ln_shift_val(u))
}

/// Computes [`ln_fp_spec`] exactly.
pub fn ln_fp(u: u128) -> (r: u128)
    requires
        SCALE_U <= u <= LN_ARG_MAX,
    ensures
        r == ln_fp_spec(u as int),
        r < 100_000_000,
{
    let mut v: u128 = u;
    let mut m: u128 = 0;
    proof {
        vstd::arithmetic::power2::lemma2_to64();
        assert(pow2(0) * v == v) by (nonlinear_arith)
            requires
                pow2(0) == 1,
        ;
    }
    while v >= 2 * SCALE_U
        invariant
            SCALE_U <= v <= u,
            u <= LN_ARG_MAX,
            pow2(m as nat) * v <= u,
            m <= 100,
            ln_shift_count(u as int) == m + ln_shift_count(v as int),
            ln_shift_val(u as int) == ln_shift_val(v as int),
        decreases v,
    {
        proof {
            let p2 = pow2(m as nat);
            vstd::arithmetic::power2::lemma_pow2_pos(m as nat);
            vstd::arithmetic::div_mod::lemma_fundamental_div_mod(v as int, 2);
            assert(p2 * (v / 2) * 2 <= p2 * v) by (nonlinear_arith)
                requires
                    p2 >= 0,
                    (v / 2) * 2 <= v,
            ;
            vstd::arithmetic::power2::lemma_pow2_unfold((m + 1) as nat);
            assert(pow2((m + 1) as nat) * (v / 2) == p2 * (v / 2) * 2) by (nonlinear_arith)
                requires
                    pow2((m + 1) as nat) == 2 * p2,
            ;
            if m >= 96 {
                vstd::arithmetic::power2::lemma_pow2_adds(64, 32);
                vstd::arithmetic::power2::lemma2_to64();
                assert(pow2(96) == 0x1000000000000000000000000) by (nonlinear_arith)
                    requires
                        pow2(96) == pow2(64) * pow2(32),
                        pow2(64) == 0x10000000000000000,
                        pow2(32) == 0x100000000,
                ;
                if m > 96 {
                    vstd::arithmetic::power2::lemma_pow2_strictly_increases(96, m as nat);
                }
                assert(pow2(96) * v > LN_ARG_MAX) by (nonlinear_arith)
                    requires
                        pow2(96) == 0x1000000000000000000000000,
                        v >= SCALE_U,
                ;
                assert(p2 * v >= pow2(96) * v) by (nonlinear_arith)
                    requires
                        p2 >= pow2(96),
                        v >= 0,
                ;
                assert(false);
            }
            assert(ln_shift_count(v as int) == 1 + ln_shift_count((v as int) / 2));
            assert(ln_shift_val(v as int) == ln_shift_val((v as int) / 2));
        }
        v = v / 2;
        m = m + 1;
    }

    // series on the remaining value in [SCALE, 2 * SCALE)
    proof {
        lemma_mul_le((v - SCALE_U) as int, SCALE_U as int, 1_000_000, 1_000_000);
        lemma_unit_mul_div((v - SCALE_U) as int, SCALE_U as int, (v + SCALE_U) as int);
    }
    let w: u128 = (v - SCALE_U) * SCALE_U / (v + SCALE_U);
    proof {
        lemma_mul_le(w as int, w as int, 1_000_000, 1_000_000);
        lemma_unit_mul_div(w as int, w as int, 1_000_000);
    }
    let p: u128 = w * w / SCALE_U;
    proof {
        lemma_mul_le(w as int, p as int, 1_000_000, 1_000_000);
        lemma_unit_mul_div(w as int, p as int, 1_000_000);
    }
    let c3: u128 = w * p / SCALE_U;
    proof {
        lemma_mul_le(c3 as int, p as int, 1_000_000, 1_000_000);
        lemma_unit_mul_div(c3 as int, p as int, 1_000_000);
    }
    let c5: u128 = c3 * p / SCALE_U;
    proof {
        lemma_mul_le(c5 as int, p as int, 1_000_000, 1_000_000);
        lemma_unit_mul_div(c5 as int, p as int, 1_000_000);
    }
    let c7: u128 = c5 * p / SCALE_U;
    proof {
        lemma_mul_le(c7 as int, p as int, 1_000_000, 1_000_000);
        lemma_unit_mul_div(c7 as int, p as int, 1_000_000);
    }
    let c9: u128 = c7 * p / SCALE_U;
    let series: u128 = 2 * (w + c3 / 3 + c5 / 5 + c7 / 7 + c9 / 9);
    assert(series == ln_frac(v as int));
    let r: u128 = m * LN2_MICRO + series;
    r
}

} // verus!
