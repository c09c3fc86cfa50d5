//! Fixed-point arithmetic primitives shared by the distance and statistics
//! code: scaled multiplication and exact integer square roots.

use vstd::prelude::*;
use vstd::arithmetic::div_mod::lemma_div_is_ordered;
use vstd::arithmetic::mul::lemma_mul_upper_bound;

verus! {

/// Fixed-point scale: a scaled value `v` stands for the real number `v / SCALE`.
pub const SCALE: u64 = 1_000_000_000;

/// Product of two scaled values, itself scaled: `(a * b) / SCALE`.
pub open spec fn spec_mul_fp(a: int, b: int) -> int {
    (a * b) / (SCALE as int)
}

/// `r` is the integer square root of `x` rounded down.
pub open spec fn is_sqrt_floor(x: int, r: int) -> bool {
    0 <= r && r * r <= x && x < (r + 1) * (r + 1)
}

/// The integer square root of `x` rounded down (for `x >= 0`).
pub open spec fn sqrt_floor(x: int) -> int {
    choose|r: int| is_sqrt_floor(x, r)
}

/// Any witness of `is_sqrt_floor` is the unique square root, so it equals
/// `sqrt_floor`.
pub proof fn lemma_sqrt_floor_unique(x: int, r: int)
    requires
        is_sqrt_floor(x, r),
    ensures
        sqrt_floor(x) == r,
{
    assert(is_sqrt_floor(x, sqrt_floor(x)));
    let s = sqrt_floor(x);
    assert(s == r) by (nonlinear_arith)
        requires
            0 <= r,
            r * r <= x,
            x < (r + 1) * (r + 1),
            0 <= s,
            s * s <= x,
            x < (s + 1) * (s + 1),
    ;
}

/// A scaled product with a factor at most `k * SCALE` is at most `k` times
/// the other factor.
pub proof fn lemma_mul_fp_le_factor(a: int, b: int, k: int)
    requires
        0 <= a,
        0 <= b <= k * (SCALE as int),
    ensures
        spec_mul_fp(a, b) <= k * a,
{
    let s = SCALE as int;
    lemma_mul_upper_bound(a, a, b, k * s);
    assert(a * (k * s) == (k * a) * s) by (nonlinear_arith);
    lemma_div_is_ordered(a * b, (k * a) * s, s);
    assert((k * a) * s / s == k * a) by (nonlinear_arith)
        requires
            s == SCALE as int,
    ;
}

/// Fixed-point multiplication: `(a * b) / SCALE`, computed without overflow.
pub fn mul_fp(a: u64, b: u64) -> (r: u64)
    requires
        a <= 1_000_000_000_000,
        b <= 1_000_000_000_000,
    ensures
        r == spec_mul_fp(a as int, b as int),
{
    proof {
        lemma_mul_upper_bound(a as int, 1_000_000_000_000, b as int, 1_000_000_000_000);
    }
    (((a as u128) * (b as u128)) / (SCALE as u128)) as u64
}

/// Integer square root, rounded down, of any `x < 2^126`.
pub fn isqrt(x: u128) -> (r: u128)
    requires
        x < 0x4000_0000_0000_0000_0000_0000_0000_0000u128,
    ensures
        is_sqrt_floor(x as int, r as int),
        r <= 0x8000_0000_0000_0000u128,
{
    let mut lo: u128 = 0;
    let mut hi: u128 = 0x8000_0000_0000_0000u128;
    assert(hi * hi == 0x4000_0000_0000_0000_0000_0000_0000_0000u128);
    while lo + 1 < hi
        invariant
            lo < hi <= 0x8000_0000_0000_0000u128,
            lo * lo <= x,
            x < hi * hi,
        decreases hi - lo,
    {
        let mid: u128 = lo + (hi - lo) / 2;
        assert(lo < mid < hi);
        assert(mid * mid <= 0x4000_0000_0000_0000_0000_0000_0000_0000u128) by (nonlinear_arith)
            requires
                0 <= mid <= 0x8000_0000_0000_0000u128,
        ;
        if mid * mid <= x {
            lo = mid;
        } else {
            hi = mid;
        }
    }
    lo
}

} // verus!
