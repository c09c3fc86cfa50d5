//! Statistics over paired samples: the Pearson correlation coefficient in
//! fixed point (scaled by one million), proved bounded by one through the
//! Cauchy-Schwarz inequality, and the monotonicity of prefix averages of
//! sorted sequences.

use vstd::prelude::*;
use vstd::math::abs;
use vstd::arithmetic::div_mod::{
    lemma_fundamental_div_mod,
    lemma_div_is_ordered,
    lemma_div_multiples_vanish,
};
use crate::fp::{isqrt, is_sqrt_floor, sqrt_floor, lemma_sqrt_floor_unique};

verus! {

/// The correlation coefficient is scaled by one million.
pub const CORRELATION_SCALE: i64 = 1_000_000;

/// Largest paired-sample count for which sums are taken without
/// downscaling; larger samples are scaled to keep the arithmetic exact.
pub const EXACT_SAMPLE_LIMIT: usize = 4096;

// ---------------------------------------------------------------------
// Sums over sequences of integer pairs
// ---------------------------------------------------------------------
pub open spec fn sum_x(s: Seq<(int, int)>) -> int
    decreases s.len(),
{
    if s.len() == 0 {
        0
    } else {
        sum_x(s.drop_last()) + s.last().0
    }
}

pub open spec fn sum_y(s: Seq<(int, int)>) -> int
    decreases s.len(),
{
    if s.len() == 0 {
        0
    } else {
        sum_y(s.drop_last()) + s.last().1
    }
}

pub open spec fn sum_xy(s: Seq<(int, int)>) -> int
    decreases s.len(),
{
    if s.len() == 0 {
        0
    } else {
        sum_xy(s.drop_last()) + s.last().0 * s.last().1
    }
}

pub open spec fn sum_xx(s: Seq<(int, int)>) -> int
    decreases s.len(),
{
    if s.len() == 0 {
        0
    } else {
        sum_xx(s.drop_last()) + s.last().0 * s.last().0
    }
}

pub open spec fn sum_yy(s: Seq<(int, int)>) -> int
    decreases s.len(),
{
    if s.len() == 0 {
        0
    } else {
        sum_yy(s.drop_last()) + s.last().1 * s.last().1
    }
}

proof fn lemma_sum_squares_nonneg(s: Seq<(int, int)>)
    ensures
        sum_xx(s) >= 0,
        sum_yy(s) >= 0,
    decreases s.len(),
{
    if s.len() > 0 {
        lemma_sum_squares_nonneg(s.drop_last());
        let a = s.last().0;
        let b = s.last().1;
        assert(a * a >= 0 && b * b >= 0) by (nonlinear_arith);
    }
}

/// Cauchy-Schwarz for integer pair sequences:
/// `(sum of x*y)^2 <= (sum of x^2) * (sum of y^2)`.
pub proof fn lemma_cauchy_schwarz(s: Seq<(int, int)>)
    ensures
        sum_xy(s) * sum_xy(s) <= sum_xx(s) * sum_yy(s),
    decreases s.len(),
{
    if s.len() == 0 {
        assert(0 * 0 <= 0 * 0) by (nonlinear_arith);
    } else {
        let s0 = s.drop_last();
        lemma_cauchy_schwarz(s0);
        lemma_sum_squares_nonneg(s0);
        let p = sum_xy(s0);
        let aa = sum_xx(s0);
        let bb = sum_yy(s0);
        let a = s.last().0;
        let b = s.last().1;
        assert((p + a * b) * (p + a * b) <= (aa + a * a) * (bb + b * b)) by (nonlinear_arith)
            requires
                p * p <= aa * bb,
                aa >= 0,
                bb >= 0,
        ;
    }
}

// ---------------------------------------------------------------------
// Centering: the Pearson numerator and denominators as sums of squares
// ---------------------------------------------------------------------
/// Each pair `(x, y)` replaced by `(n*x - a, n*y - b)`.
pub open spec fn centered(s: Seq<(int, int)>, n: int, a: int, b: int) -> Seq<(int, int)> {
    s.map_values(|p: (int, int)| (n * p.0 - a, n * p.1 - b))
}

#[verifier::rlimit(60)]
proof fn lemma_centered_sums(s: Seq<(int, int)>, n: int, a: int, b: int)
    ensures
        sum_xy(centered(s, n, a, b)) == n * n * sum_xy(s) - n * b * sum_x(s) - n * a * sum_y(s)
            + s.len() * (a * b),
        sum_xx(centered(s, n, a, b)) == n * n * sum_xx(s) - 2 * (n * a * sum_x(s)) + s.len() * (a
            * a),
        sum_yy(centered(s, n, a, b)) == n * n * sum_yy(s) - 2 * (n * b * sum_y(s)) + s.len() * (b
            * b),
    decreases s.len(),
{
    let c = centered(s, n, a, b);
    if s.len() == 0 {
        assert(c =~= Seq::<(int, int)>::empty());
    } else {
        let s0 = s.drop_last();
        lemma_centered_sums(s0, n, a, b);
        assert(c.drop_last() =~= centered(s0, n, a, b));
        let x = s.last().0;
        let y = s.last().1;
        assert(c.last() == (n * x - a, n * y - b));
        let nx = n * x;
        let ny = n * y;
        assert((nx - a) * (ny - b) == nx * ny - b * nx - a * ny + a * b) by (nonlinear_arith);
        assert((nx - a) * (nx - a) == nx * nx - 2 * (a * nx) + a * a) by (nonlinear_arith);
        assert((ny - b) * (ny - b) == ny * ny - 2 * (b * ny) + b * b) by (nonlinear_arith);
        assert(nx * ny == n * n * (x * y) && b * nx == n * b * x && a * ny == n * a * y && nx
            * nx == n * n * (x * x) && a * nx == n * a * x && ny * ny == n * n * (y * y) && b
            * ny == n * b * y) by (nonlinear_arith)
            requires
                nx == n * x,
                ny == n * y,
        ;
        assert(n * n * sum_xy(s) == n * n * sum_xy(s0) + n * n * (x * y)) by (nonlinear_arith)
            requires
                sum_xy(s) == sum_xy(s0) + x * y,
        ;
        assert(n * n * sum_xx(s) == n * n * sum_xx(s0) + n * n * (x * x)) by (nonlinear_arith)
            requires
                sum_xx(s) == sum_xx(s0) + x * x,
        ;
        assert(n * n * sum_yy(s) == n * n * sum_yy(s0) + n * n * (y * y)) by (nonlinear_arith)
            requires
                sum_yy(s) == sum_yy(s0) + y * y,
        ;
        assert(n * b * sum_x(s) == n * b * sum_x(s0) + n * b * x) by (nonlinear_arith)
            requires
                sum_x(s) == sum_x(s0) + x,
        ;
        assert(n * a * sum_y(s) == n * a * sum_y(s0) + n * a * y) by (nonlinear_arith)
            requires
                sum_y(s) == sum_y(s0) + y,
        ;
        assert(n * a * sum_x(s) == n * a * sum_x(s0) + n * a * x) by (nonlinear_arith)
            requires
                sum_x(s) == sum_x(s0) + x,
        ;
        assert(n * b * sum_y(s) == n * b * sum_y(s0) + n * b * y) by (nonlinear_arith)
            requires
                sum_y(s) == sum_y(s0) + y,
        ;
        assert(s.len() * (a * b) == s0.len() * (a * b) + a * b) by (nonlinear_arith)
            requires
                s.len() == s0.len() + 1,
        ;
        assert(s.len() * (a * a) == s0.len() * (a * a) + a * a) by (nonlinear_arith)
            requires
                s.len() == s0.len() + 1,
        ;
        assert(s.len() * (b * b) == s0.len() * (b * b) + b * b) by (nonlinear_arith)
            requires
                s.len() == s0.len() + 1,
        ;
    }
}

/// The Pearson numerator, squared, never exceeds the product of the two
/// denominators, and the denominators are nonnegative.
pub proof fn lemma_pearson_bound(s: Seq<(int, int)>)
    requires
        s.len() >= 1,
    ensures
        (s.len() * sum_xy(s) - sum_x(s) * sum_y(s)) * (s.len() * sum_xy(s) - sum_x(s) * sum_y(s))
            <= (s.len() * sum_xx(s) - sum_x(s) * sum_x(s)) * (s.len() * sum_yy(s) - sum_y(s)
            * sum_y(s)),
        s.len() * sum_xx(s) - sum_x(s) * sum_x(s) >= 0,
        s.len() * sum_yy(s) - sum_y(s) * sum_y(s) >= 0,
{
    let n = s.len() as int;
    let a = sum_x(s);
    let b = sum_y(s);
    let c = centered(s, n, a, b);
    lemma_centered_sums(s, n, a, b);
    lemma_cauchy_schwarz(c);
    lemma_sum_squares_nonneg(c);
    let num = n * sum_xy(s) - a * b;
    let d1 = n * sum_xx(s) - a * a;
    let d2 = n * sum_yy(s) - b * b;
    assert(sum_xy(c) == n * num) by (nonlinear_arith)
        requires
            sum_xy(c) == n * n * sum_xy(s) - n * b * a - n * a * b + n * (a * b),
            num == n * sum_xy(s) - a * b,
    ;
    assert(sum_xx(c) == n * d1) by (nonlinear_arith)
        requires
            sum_xx(c) == n * n * sum_xx(s) - 2 * (n * a * a) + n * (a * a),
            d1 == n * sum_xx(s) - a * a,
    ;
    assert(sum_yy(c) == n * d2) by (nonlinear_arith)
        requires
            sum_yy(c) == n * n * sum_yy(s) - 2 * (n * b * b) + n * (b * b),
            d2 == n * sum_yy(s) - b * b,
    ;
    assert(num * num <= d1 * d2) by (nonlinear_arith)
        requires
            (n * num) * (n * num) <= (n * d1) * (n * d2),
            n >= 1,
    ;
    assert(d1 >= 0) by (nonlinear_arith)
        requires
            n * d1 >= 0,
            n >= 1,
    ;
    assert(d2 >= 0) by (nonlinear_arith)
        requires
            n * d2 >= 0,
            n >= 1,
    ;
}

/// Element-wise bounds cap every sum.
proof fn lemma_sum_bounds(t: Seq<(int, int)>, b: int)
    requires
        b >= 0,
        forall|k: int| 0 <= k < t.len() ==> 0 <= (#[trigger] t[k]).0 <= b && -b <= t[k].1 <= b,
    ensures
        0 <= sum_x(t) <= t.len() * b,
        -(t.len() * b) <= sum_y(t) <= t.len() * b,
        -(t.len() * (b * b)) <= sum_xy(t) <= t.len() * (b * b),
        0 <= sum_xx(t) <= t.len() * (b * b),
        0 <= sum_yy(t) <= t.len() * (b * b),
    decreases t.len(),
{
    if t.len() == 0 {
    } else {
        let t0 = t.drop_last();
        assert forall|k: int|
            0 <= k < t0.len() implies 0 <= (#[trigger] t0[k]).0 <= b && -b <= t0[k].1 <= b by {
            assert(t0[k] == t[k]);
        }
        lemma_sum_bounds(t0, b);
        let x = t.last().0;
        let y = t.last().1;
        let n0 = t0.len() as int;
        assert(-(b * b) <= x * y <= b * b && 0 <= x * x <= b * b && 0 <= y * y <= b * b)
            by (nonlinear_arith)
            requires
                0 <= x <= b,
                -b <= y <= b,
        ;
        assert(t.len() * b == n0 * b + b && t.len() * (b * b) == n0 * (b * b) + b * b)
            by (nonlinear_arith)
            requires
                t.len() == n0 + 1,
        ;
    }
}

// ---------------------------------------------------------------------
// The fixed-point correlation coefficient
// ---------------------------------------------------------------------
/// The divisor applied to every sample value before summing: one while the
/// sample count stays within `EXACT_SAMPLE_LIMIT`, doubling with each
/// halving beyond it.
pub open spec fn shift_divisor(n: int) -> int
    decreases n,
{
    if n <= 4096 {
        1
    } else {
        2 * shift_divisor(n / 2)
    }
}

pub proof fn lemma_shift_divisor(n: int)
    requires
        n >= 0,
    ensures
        1 <= shift_divisor(n),
        n < 4097 * shift_divisor(n),
        n >= 1 ==> shift_divisor(n) <= n,
    decreases n,
{
    if n > 4096 {
        lemma_shift_divisor(n / 2);
        let p0 = shift_divisor(n / 2);
        assert(n < 4097 * (2 * p0)) by (nonlinear_arith)
            requires
                n / 2 < 4097 * p0,
                n <= 2 * (n / 2) + 1,
                p0 >= 1,
        ;
        assert(2 * p0 <= n) by (nonlinear_arith)
            requires
                p0 <= n / 2,
                2 * (n / 2) <= n,
        ;
    }
}

/// A value scaled down by a positive divisor, rounding the magnitude down.
pub open spec fn scale_down(v: int, p: int) -> int {
    if v < 0 {
        -((-v) / p)
    } else {
        v / p
    }
}

/// Every pair scaled down by `p`.
pub open spec fn scaled_pairs(s: Seq<(int, int)>, p: int) -> Seq<(int, int)> {
    s.map_values(|q: (int, int)| (scale_down(q.0, p), scale_down(q.1, p)))
}

/// The Pearson correlation coefficient of the paired samples, scaled by
/// one million and computed in fixed point: sums are taken over the
/// down-scaled pairs, and the result is
/// `(n*Sxy - Sx*Sy) * 1e6 / sqrt((n*Sxx - Sx^2) * (n*Syy - Sy^2))`,
/// or zero when the sample is empty or either series has no variance.
pub open spec fn spec_correlation(s: Seq<(int, int)>) -> int {
    if s.len() == 0 {
        0
    } else {
        let p = shift_divisor(s.len() as int);
        let t = scaled_pairs(s, p);
        let n = s.len() as int;
        let num = n * sum_xy(t) - sum_x(t) * sum_y(t);
        let d1 = n * sum_xx(t) - sum_x(t) * sum_x(t);
        let d2 = n * sum_yy(t) - sum_y(t) * sum_y(t);
        let den = sqrt_floor(d1 * d2);
        if den == 0 {
            0
        } else {
            let mag = (abs(num) * (CORRELATION_SCALE as int)) / den;
            if num < 0 {
                -mag
            } else {
                mag
            }
        }
    }
}

/// The view of executable samples as integer pairs.
pub open spec fn pairs_view(s: Seq<(u64, i64)>) -> Seq<(int, int)> {
    s.map_values(|p: (u64, i64)| (p.0 as int, p.1 as int))
}

fn shift_divisor_exec(n: usize) -> (p: u64)
    ensures
        p as int == shift_divisor(n as int),
        1 <= p,
    decreases n,
{
    if n <= EXACT_SAMPLE_LIMIT {
        1
    } else {
        proof {
            lemma_shift_divisor(n as int / 2);
        }
        let p0 = shift_divisor_exec(n / 2);
        proof {
            assert(p0 <= n as int / 2);
        }
        2 * p0
    }
}

/// The Pearson correlation of the paired samples, scaled by one million.
/// Empty or variance-free samples give zero rather than an error.
#[verifier::rlimit(80)]
pub fn correlation_scaled(pairs: &Vec<(u64, i64)>) -> (r: i64)
    requires
        forall|k: int|
            0 <= k < pairs@.len() ==> (#[trigger] pairs@[k]).0 <= 524_287 && -524_287
                <= pairs@[k].1 <= 524_287,
    ensures
        r as int == spec_correlation(pairs_view(pairs@)),
        -1_000_000 <= r <= 1_000_000,
        pairs@.len() == 0 ==> r == 0,
{
    let n = pairs.len();
    if n == 0 {
        return 0;
    }
    let p = shift_divisor_exec(n);
    proof {
        lemma_shift_divisor(n as int);
    }
    let ghost sv = pairs_view(pairs@);
    let ghost tv = scaled_pairs(sv, p as int);
    let ghost xb = 524_287int / (p as int);
    proof {
        lemma_fundamental_div_mod(524_287int, p as int);
        assert(xb * (p as int) <= 524_287) by (nonlinear_arith)
            requires
                524_287int == (p as int) * xb + 524_287int % (p as int),
                524_287int % (p as int) >= 0,
        ;
        assert(xb >= 0);
    }
    proof {
        assert forall|k: int|
            0 <= k < tv.len() implies 0 <= (#[trigger] tv[k]).0 <= xb && -xb <= tv[k].1
            <= xb by {
            assert(sv[k] == (pairs@[k].0 as int, pairs@[k].1 as int));
            assert(tv[k] == (scale_down(sv[k].0, p as int), scale_down(sv[k].1, p as int)));
            lemma_div_is_ordered(0, sv[k].0, p as int);
            lemma_div_is_ordered(sv[k].0, 524_287, p as int);
            if sv[k].1 < 0 {
                lemma_div_is_ordered(0, -sv[k].1, p as int);
                lemma_div_is_ordered(-sv[k].1, 524_287, p as int);
            } else {
                lemma_div_is_ordered(0, sv[k].1, p as int);
                lemma_div_is_ordered(sv[k].1, 524_287, p as int);
            }
        }
    }
    let mut sx: i128 = 0;
    let mut sy: i128 = 0;
    let mut sxy: i128 = 0;
    let mut sxx: i128 = 0;
    let mut syy: i128 = 0;
    let mut i: usize = 0;
    while i < n
        invariant
            n == pairs@.len(),
            1 <= n,
            i <= n,
            1 <= p,
            sv == pairs_view(pairs@),
            tv == scaled_pairs(sv, p as int),
            tv.len() == n,
            xb == 524_287int / (p as int),
            0 <= xb <= 524_287,
            forall|k: int|
                0 <= k < pairs@.len() ==> (#[trigger] pairs@[k]).0 <= 524_287 && -524_287
                    <= pairs@[k].1 <= 524_287,
            forall|k: int|
                0 <= k < tv.len() ==> 0 <= (#[trigger] tv[k]).0 <= xb && -xb <= tv[k].1 <= xb,
            sx == sum_x(tv.subrange(0, i as int)),
            sy == sum_y(tv.subrange(0, i as int)),
            sxy == sum_xy(tv.subrange(0, i as int)),
            sxx == sum_xx(tv.subrange(0, i as int)),
            syy == sum_yy(tv.subrange(0, i as int)),
        decreases n - i,
    {
        let x: u64 = pairs[i].0 / p;
        let yv: i64 = pairs[i].1;
        let ym: u64 = if yv < 0 {
            ((-yv) as u64) / p
        } else {
            (yv as u64) / p
        };
        let y: i64 = if yv < 0 {
            -(ym as i64)
        } else {
            ym as i64
        };
        proof {
            assert(tv[i as int] == (scale_down(sv[i as int].0, p as int), scale_down(
                sv[i as int].1,
                p as int,
            )));
            assert(sv[i as int] == (pairs@[i as int].0 as int, pairs@[i as int].1 as int));
            lemma_div_is_ordered(x as int * 1, 524_287int, p as int);
            assert(x as int == scale_down(sv[i as int].0, p as int));
            assert(y as int == scale_down(sv[i as int].1, p as int));
            assert(tv.subrange(0, i + 1).drop_last() =~= tv.subrange(0, i as int));
            assert(tv.subrange(0, i + 1).last() == tv[i as int]);
        }
        let xi: i128 = x as i128;
        let yi: i128 = y as i128;
        proof {
            assert(0 <= xi <= xb && -xb <= yi <= xb);
            assert(-(xb * xb) <= xi * yi <= xb * xb && 0 <= xi * xi <= xb * xb && 0 <= yi * yi
                <= xb * xb && xb * xb <= 0x8000_0000_0000i128) by (nonlinear_arith)
                requires
                    0 <= xi <= xb,
                    -xb <= yi <= xb,
                    xb <= 524_287,
            ;
            let pre = tv.subrange(0, i as int);
            lemma_sum_bounds(pre, xb);
            assert(pre.len() == i as int);
            assert(0 <= pre.len() * xb <= 0x8000_0000_0000_0000_0000_0000i128 && 0 <= pre.len()
                * (xb * xb) <= 0x8000_0000_0000_0000_0000_0000_0000i128) by (nonlinear_arith)
                requires
                    pre.len() <= 0x1_0000_0000_0000_0000,
                    0 <= xb <= 524_287,
            ;
        }
        sx = sx + xi;
        sy = sy + yi;
        sxy = sxy + xi * yi;
        sxx = sxx + xi * xi;
        syy = syy + yi * yi;
        i = i + 1;
    }
    proof {
        assert(tv.subrange(0, n as int) =~= tv);
        lemma_sum_bounds(tv, xb);
    }
    let ni: i128 = n as i128;
    proof {
        // the sample count is bounded by the divisor, which caps every sum
        assert(tv.len() * xb <= 4097 * 524_287) by (nonlinear_arith)
            requires
                tv.len() < 4097 * (p as int),
                xb * (p as int) <= 524_287,
                xb >= 0,
                p as int >= 1,
        ;
        let c = 4097int * 524_287;
        assert(-c <= sx <= c && -c <= sy <= c) by (nonlinear_arith)
            requires
                0 <= sx <= tv.len() * xb,
                -(tv.len() * xb) <= sy <= tv.len() * xb,
                tv.len() * xb <= c,
                xb >= 0,
                tv.len() >= 1,
        ;
        assert(-(c * c) <= ni * sxy <= c * c && 0 <= ni * sxx <= c * c && 0 <= ni * syy <= c
            * c) by (nonlinear_arith)
            requires
                ni == tv.len() as int,
                -(tv.len() * (xb * xb)) <= sxy <= tv.len() * (xb * xb),
                0 <= sxx <= tv.len() * (xb * xb),
                0 <= syy <= tv.len() * (xb * xb),
                tv.len() * xb <= c,
                xb >= 0,
                tv.len() >= 1,
        ;
        assert(-(c * c) <= sx * sy <= c * c && 0 <= sx * sx <= c * c && 0 <= sy * sy <= c * c)
            by (nonlinear_arith)
            requires
                -c <= sx <= c,
                -c <= sy <= c,
        ;
    }
    let num: i128 = ni * sxy - sx * sy;
    let d1: i128 = ni * sxx - sx * sx;
    let d2: i128 = ni * syy - sy * sy;
    proof {
        lemma_pearson_bound(tv);
        let c = 4097int * 524_287;
        assert(0 <= sx * sx && 0 <= sy * sy) by (nonlinear_arith);
        assert(0 <= d1 <= c * c && 0 <= d2 <= c * c);
        assert((d1 as int) * (d2 as int) < 0x4000_0000_0000_0000_0000_0000_0000_0000)
            by (nonlinear_arith)
            requires
                0 <= d1 <= (4097int * 524_287) * (4097int * 524_287),
                0 <= d2 <= (4097int * 524_287) * (4097int * 524_287),
        ;
    }
    let den: u128 = isqrt((d1 as u128) * (d2 as u128));
    proof {
        lemma_sqrt_floor_unique((d1 as int) * (d2 as int), den as int);
    }
    if den == 0 {
        return 0;
    }
    let numa: u128 = if num < 0 {
        (-num) as u128
    } else {
        num as u128
    };
    proof {
        assert(numa as int == abs(num as int));
        assert(numa as int <= den as int) by (nonlinear_arith)
            requires
                (num as int) * (num as int) <= (d1 as int) * (d2 as int),
                is_sqrt_floor((d1 as int) * (d2 as int), den as int),
                numa as int == abs(num as int),
        ;
        lemma_div_is_ordered(
            (numa as int) * 1_000_000,
            (den as int) * 1_000_000,
            den as int,
        );
        lemma_div_multiples_vanish(1_000_000, den as int);
        assert((den as int) * 1_000_000 == 1_000_000 * (den as int));
    }
    let mag: u128 = numa * 1_000_000 / den;
    if num < 0 {
        -(mag as i64)
    } else {
        mag as i64
    }
}

// ---------------------------------------------------------------------
// Prefix averages of sorted sequences
// ---------------------------------------------------------------------
/// Sum of the first `k` elements.
pub open spec fn sum_first(s: Seq<int>, k: int) -> int
    decreases k,
{
    if k <= 0 {
        0
    } else {
        sum_first(s, k - 1) + s[k - 1]
    }
}

/// Average of the first `min(k, len)` elements, rounded down; meaningful
/// for nonempty sequences and `k >= 1`.
pub open spec fn avg_first(s: Seq<int>, k: int) -> int {
    let m = if k <= s.len() {
        k
    } else {
        s.len() as int
    };
    sum_first(s, m) / m
}

proof fn lemma_sum_first_le(s: Seq<int>, m: int)
    requires
        0 <= m < s.len(),
        forall|a: int, b: int| 0 <= a < b < s.len() ==> s[a] <= s[b],
    ensures
        sum_first(s, m) <= m * s[m],
    decreases m,
{
    if m == 0 {
        assert(m * s[m] == 0) by (nonlinear_arith)
            requires
                m == 0,
        ;
    } else {
        lemma_sum_first_le(s, m - 1);
        assert(s[m - 1] <= s[m]);
        assert((m - 1) * s[m - 1] + s[m - 1] == m * s[m - 1]) by (nonlinear_arith);
        assert(m * s[m - 1] <= m * s[m]) by (nonlinear_arith)
            requires
                s[m - 1] <= s[m],
                m >= 1,
        ;
        assert(sum_first(s, m) == sum_first(s, m - 1) + s[m - 1]);
        assert(sum_first(s, m) <= m * s[m - 1]);
    }
}

/// Cross-multiplied fractions compare as their floors do.
proof fn lemma_div_cross(aa: int, bb: int, cc: int, dd: int)
    requires
        aa * dd >= cc * bb,
        bb > 0,
        dd > 0,
    ensures
        aa / bb >= cc / dd,
{
    let q = cc / dd;
    lemma_fundamental_div_mod(cc, dd);
    assert(dd * q <= cc);
    assert(aa >= q * bb) by (nonlinear_arith)
        requires
            aa * dd >= cc * bb,
            dd * q <= cc,
            bb > 0,
            dd > 0,
    ;
    lemma_div_is_ordered(q * bb, aa, bb);
    lemma_div_multiples_vanish(q, bb);
    assert(bb * q == q * bb) by (nonlinear_arith);
}

proof fn lemma_avg_step(s: Seq<int>, m: int)
    requires
        1 <= m < s.len(),
        forall|a: int, b: int| 0 <= a < b < s.len() ==> s[a] <= s[b],
    ensures
        sum_first(s, m) / m <= sum_first(s, m + 1) / (m + 1),
{
    lemma_sum_first_le(s, m);
    let sm = sum_first(s, m);
    let sm1 = sum_first(s, m + 1);
    assert(sm1 == sm + s[m]);
    assert(sm1 * m >= sm * (m + 1)) by (nonlinear_arith)
        requires
            sm1 == sm + s[m],
            sm <= m * s[m],
    ;
    lemma_div_cross(sm1, m + 1, sm, m);
}

/// Averaging over more of an ascending sequence never shrinks the average:
/// the isolation score computed with a larger neighbor budget `k2` is at
/// least the score computed with a smaller `k1`, over the same sorted
/// neighbor distances.
pub proof fn lemma_avg_first_monotonic(s: Seq<int>, k1: int, k2: int)
    requires
        s.len() >= 1,
        1 <= k1 <= k2,
        forall|a: int, b: int| 0 <= a < b < s.len() ==> s[a] <= s[b],
    ensures
        avg_first(s, k1) <= avg_first(s, k2),
    decreases k2,
{
    let m1 = if k1 <= s.len() {
        k1
    } else {
        s.len() as int
    };
    let m2 = if k2 <= s.len() {
        k2
    } else {
        s.len() as int
    };
    if m1 < m2 {
        lemma_avg_first_monotonic(s, k1, k2 - 1);
        let m2p = if k2 - 1 <= s.len() {
            k2 - 1
        } else {
            s.len() as int
        };
        if m2p < m2 {
            lemma_avg_step(s, m2 - 1);
        }
    }
}

} // verus!
