//! Fixed-point trigonometry on angles in nanoradians, scaled by
//! [`crate::fp::SCALE`]: truncated Taylor series for sine and cosine on
//! `[0, pi/2]` and for the arctangent, with the usual range reductions.
//!
//! The spec functions define the approximations exactly; the executable
//! functions are proved to compute them. The approximations stay within a
//! few parts in a hundred thousand of the real functions on their domains,
//! which is far finer than the coarse kilometers-scale decisions built on
//! them.

use vstd::prelude::*;
use crate::fp::{SCALE, spec_mul_fp, mul_fp, lemma_mul_fp_le_factor};
use vstd::arithmetic::div_mod::{lemma_div_is_ordered, lemma_div_multiples_vanish};
use vstd::arithmetic::mul::lemma_mul_upper_bound;

verus! {

/// pi in nanoradians, rounded to the nearest integer.
pub const PI_NANO: u64 = 3_141_592_654;

/// pi / 2 in nanoradians.
pub const HALF_PI_NANO: u64 = 1_570_796_327;

/// pi / 4 in nanoradians.
pub const QUARTER_PI_NANO: u64 = 785_398_163;

/// tan(pi / 8) scaled by `SCALE`, rounded down.
pub const TAN_EIGHTH_PI: u64 = 414_213_562;

/// Truncated Taylor series for sin, on scaled inputs in `[0, pi/2]`.
pub open spec fn spec_sin_fp(x: int) -> int {
    let x2 = spec_mul_fp(x, x);
    let x3 = spec_mul_fp(x, x2);
    let x5 = spec_mul_fp(x3, x2);
    let x7 = spec_mul_fp(x5, x2);
    let x9 = spec_mul_fp(x7, x2);
    x - x3 / 6 + x5 / 120 - x7 / 5040 + x9 / 362880
}

/// Truncated Taylor series for cos, on scaled inputs in `[0, pi/2]`,
/// clamped below at zero.
pub open spec fn spec_cos_fp(x: int) -> int {
    let x2 = spec_mul_fp(x, x);
    let x4 = spec_mul_fp(x2, x2);
    let x6 = spec_mul_fp(x4, x2);
    let x8 = spec_mul_fp(x6, x2);
    let c = SCALE as int - x2 / 2 + x4 / 24 - x6 / 720 + x8 / 40320;
    if c < 0 {
        0
    } else {
        c
    }
}

/// Truncated Taylor series for atan, on scaled inputs in `[0, 1/2]`.
pub open spec fn spec_atan_taylor(v: int) -> int {
    let v2 = spec_mul_fp(v, v);
    let v3 = spec_mul_fp(v, v2);
    let v5 = spec_mul_fp(v3, v2);
    let v7 = spec_mul_fp(v5, v2);
    let v9 = spec_mul_fp(v7, v2);
    let v11 = spec_mul_fp(v9, v2);
    v - v3 / 3 + v5 / 5 - v7 / 7 + v9 / 9 - v11 / 11
}

/// atan on scaled inputs in `[0, 1]`: direct series below tan(pi/8),
/// otherwise reduced through atan(t) = pi/4 - atan((1 - t) / (1 + t)).
pub open spec fn spec_atan_fp(t: int) -> int {
    if t <= TAN_EIGHTH_PI as int {
        spec_atan_taylor(t)
    } else {
        let v = ((SCALE as int - t) * SCALE as int) / (SCALE as int + t);
        QUARTER_PI_NANO as int - spec_atan_taylor(v)
    }
}

/// atan2 on a nonnegative quadrant, both arguments scaled by `SCALE`.
pub open spec fn spec_atan2_fp(y: int, x: int) -> int {
    if y <= x {
        spec_atan_fp((y * SCALE as int) / x)
    } else {
        HALF_PI_NANO as int - spec_atan_fp((x * SCALE as int) / y)
    }
}

/// Sine of `x` nanoradians, for `x` in `[0, pi/2]`, scaled by `SCALE`.
pub fn sin_fp(x: u64) -> (r: u64)
    requires
        x <= HALF_PI_NANO,
    ensures
        r == spec_sin_fp(x as int),
        r <= 2 * x,
{
    let x2 = mul_fp(x, x);
    proof {
        lemma_mul_fp_le_factor(x as int, x as int, 2);
    }
    let x3 = mul_fp(x, x2);
    proof {
        lemma_mul_fp_le_factor(x as int, x2 as int, 4);
    }
    let x5 = mul_fp(x3, x2);
    proof {
        lemma_mul_fp_le_factor(x3 as int, x2 as int, 4);
    }
    let x7 = mul_fp(x5, x2);
    proof {
        lemma_mul_fp_le_factor(x5 as int, x2 as int, 4);
    }
    let x9 = mul_fp(x7, x2);
    proof {
        lemma_mul_fp_le_factor(x7 as int, x2 as int, 4);
    }
    assert(x2 <= 2 * x && x3 <= 4 * x && x5 <= 16 * x && x7 <= 64 * x && x9 <= 256 * x);
    x - x3 / 6 + x5 / 120 - x7 / 5040 + x9 / 362880
}

/// Cosine of `x` nanoradians, for `x` in `[0, pi/2]`, scaled by `SCALE` and
/// clamped below at zero.
pub fn cos_fp(x: u64) -> (r: u64)
    requires
        x <= HALF_PI_NANO,
    ensures
        r == spec_cos_fp(x as int),
        r <= SCALE + 2 * x,
{
    let x2 = mul_fp(x, x);
    proof {
        lemma_mul_fp_le_factor(x as int, x as int, 2);
    }
    let x4 = mul_fp(x2, x2);
    proof {
        lemma_mul_fp_le_factor(x2 as int, x2 as int, 4);
    }
    let x6 = mul_fp(x4, x2);
    proof {
        lemma_mul_fp_le_factor(x4 as int, x2 as int, 4);
    }
    let x8 = mul_fp(x6, x2);
    proof {
        lemma_mul_fp_le_factor(x6 as int, x2 as int, 4);
    }
    assert(x2 <= 2 * x && x4 <= 8 * x && x6 <= 32 * x && x8 <= 128 * x);
    let c: i64 = SCALE as i64 - (x2 / 2) as i64 + (x4 / 24) as i64 - (x6 / 720) as i64 + (x8
        / 40320) as i64;
    if c < 0 {
        0
    } else {
        c as u64
    }
}

/// Arctangent of `v / SCALE` by the direct series, for `v` in `[0, 1/2]`.
fn atan_taylor(v: u64) -> (r: u64)
    requires
        v <= 500_000_000,
    ensures
        r == spec_atan_taylor(v as int),
        r <= v + v / 5 + v / 9,
{
    let v2 = mul_fp(v, v);
    proof {
        lemma_mul_fp_le_factor(v as int, v as int, 1);
    }
    let v3 = mul_fp(v, v2);
    proof {
        lemma_mul_fp_le_factor(v as int, v2 as int, 1);
    }
    let v5 = mul_fp(v3, v2);
    proof {
        lemma_mul_fp_le_factor(v3 as int, v2 as int, 1);
    }
    let v7 = mul_fp(v5, v2);
    proof {
        lemma_mul_fp_le_factor(v5 as int, v2 as int, 1);
    }
    let v9 = mul_fp(v7, v2);
    proof {
        lemma_mul_fp_le_factor(v7 as int, v2 as int, 1);
    }
    let v11 = mul_fp(v9, v2);
    proof {
        lemma_mul_fp_le_factor(v9 as int, v2 as int, 1);
    }
    assert(v2 <= v && v3 <= v && v5 <= v && v7 <= v && v9 <= v && v11 <= v);
    v - v3 / 3 + v5 / 5 - v7 / 7 + v9 / 9 - v11 / 11
}

/// Arctangent of `t / SCALE`, for `t` in `[0, 1]`, in nanoradians.
fn atan_fp(t: u64) -> (r: u64)
    requires
        t <= SCALE,
    ensures
        r == spec_atan_fp(t as int),
        r <= QUARTER_PI_NANO,
{
    if t <= TAN_EIGHTH_PI {
        atan_taylor(t)
    } else {
        let s = SCALE;
        let num = (s - t) * s;
        let v = num / (s + t);
        assert(v <= 500_000_000) by {
            assert((s - t) as int * s as int <= 500_000_000 * (s + t) as int);
            lemma_div_is_ordered(
                (s - t) as int * s as int,
                500_000_000 * (s + t) as int,
                (s + t) as int,
            );
            lemma_div_multiples_vanish(500_000_000, (s + t) as int);
        }
        let a = atan_taylor(v);
        QUARTER_PI_NANO - a
    }
}

/// Arctangent of `y / x` over the nonnegative quadrant, in nanoradians.
/// Both arguments are scaled by `SCALE` and must not both be zero.
pub fn atan2_fp(y: u64, x: u64) -> (r: u64)
    requires
        y <= SCALE,
        x <= SCALE,
        y > 0 || x > 0,
    ensures
        r == spec_atan2_fp(y as int, x as int),
        r <= HALF_PI_NANO,
{
    if y <= x {
        let t = y * SCALE / x;
        assert(t <= SCALE) by {
            lemma_mul_upper_bound(y as int, x as int, SCALE as int, SCALE as int);
            lemma_div_is_ordered(y as int * SCALE as int, x as int * SCALE as int, x as int);
            lemma_div_multiples_vanish(SCALE as int, x as int);
            assert(x as int * SCALE as int == SCALE as int * x as int);
        }
        atan_fp(t)
    } else {
        let t = x * SCALE / y;
        assert(t <= SCALE) by {
            lemma_mul_upper_bound(x as int, y as int, SCALE as int, SCALE as int);
            lemma_div_is_ordered(x as int * SCALE as int, y as int * SCALE as int, y as int);
            lemma_div_multiples_vanish(SCALE as int, y as int);
            assert(y as int * SCALE as int == SCALE as int * y as int);
        }
        let a = atan_fp(t);
        HALF_PI_NANO - a
    }
}

} // verus!
