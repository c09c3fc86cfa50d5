//! Great-circle (haversine) distance between points given in microdegrees,
//! computed entirely in fixed point: angles in nanoradians, distances in
//! meters.

use vstd::prelude::*;
use vstd::math::abs;
use vstd::arithmetic::div_mod::{lemma_div_is_ordered, lemma_div_multiples_vanish};
use vstd::arithmetic::mul::lemma_mul_upper_bound;
use crate::fp::{
    SCALE,
    spec_mul_fp,
    mul_fp,
    sqrt_floor,
    is_sqrt_floor,
    isqrt,
    lemma_sqrt_floor_unique,
    lemma_mul_fp_le_factor,
};
use crate::trig::{
    PI_NANO,
    HALF_PI_NANO,
    spec_sin_fp,
    spec_cos_fp,
    spec_atan2_fp,
    sin_fp,
    cos_fp,
    atan2_fp,
};

verus! {

/// Microdegrees in 180 degrees.
pub const MICRODEG_PER_180: u64 = 180_000_000;

/// Mean Earth radius, in meters.
pub const EARTH_RADIUS_M: u64 = 6_371_000;

/// No two points on the sphere are farther apart than half its circumference.
pub const MAX_GEO_DISTANCE_M: u64 = 20_015_087;

/// A latitude in microdegrees lies between the poles.
pub open spec fn valid_lat(lat: int) -> bool {
    -90_000_000 <= lat <= 90_000_000
}

/// A longitude in microdegrees lies within a single wrap of the globe.
pub open spec fn valid_lon(lon: int) -> bool {
    -180_000_000 <= lon <= 180_000_000
}

/// Microdegrees to nanoradians, rounding the magnitude down.
pub open spec fn spec_rad(d: int) -> int {
    let m = (abs(d) * PI_NANO as int) / MICRODEG_PER_180 as int;
    if d < 0 {
        -m
    } else {
        m
    }
}

/// The haversine central angle and distance, as computed by this crate:
/// `a = sin^2(dlat/2) + cos(lat1) cos(lat2) sin^2(dlon/2)` in fixed point,
/// clamped to `[0, 1]`, and the distance
/// `R * 2 * atan2(sqrt(a), sqrt(1 - a))` in meters.
#[verifier::opaque]
pub open spec fn spec_haversine_m(lat1: int, lon1: int, lat2: int, lon2: int) -> int {
    let r1 = spec_rad(lat1);
    let r2 = spec_rad(lat2);
    let o1 = spec_rad(lon1);
    let o2 = spec_rad(lon2);
    let hdlat = abs(r2 - r1) as int / 2;
    let hd = abs(o2 - o1) as int / 2;
    let hdlon = if hd > HALF_PI_NANO as int {
        PI_NANO as int - hd
    } else {
        hd
    };
    let s1 = spec_sin_fp(hdlat);
    let s2 = spec_sin_fp(hdlon);
    let c1 = spec_cos_fp(abs(r1) as int);
    let c2 = spec_cos_fp(abs(r2) as int);
    let a0 = spec_mul_fp(s1, s1) + spec_mul_fp(spec_mul_fp(c1, c2), spec_mul_fp(s2, s2));
    let a = if a0 > SCALE as int {
        SCALE as int
    } else {
        a0
    };
    let sq_a = sqrt_floor(a * SCALE as int);
    let sq_b = sqrt_floor((SCALE as int - a) * SCALE as int);
    let c = 2 * spec_atan2_fp(sq_a, sq_b);
    (EARTH_RADIUS_M as int * c) / SCALE as int
}

/// Microdegrees to nanoradians.
pub fn rad_of_udeg(d: i64) -> (r: i64)
    requires
        -180_000_000 <= d <= 180_000_000,
    ensures
        r == spec_rad(d as int),
        -(PI_NANO as int) <= r <= PI_NANO as int,
        -90_000_000 <= d <= 90_000_000 ==> -(HALF_PI_NANO as int) <= r <= HALF_PI_NANO as int,
{
    let m: u64 = if d < 0 {
        (-d) as u64
    } else {
        d as u64
    };
    let rm: u64 = m * PI_NANO / MICRODEG_PER_180;
    proof {
        lemma_div_is_ordered(
            m as int * PI_NANO as int,
            180_000_000 * PI_NANO as int,
            MICRODEG_PER_180 as int,
        );
        if m <= 90_000_000 {
            lemma_div_is_ordered(
                m as int * PI_NANO as int,
                90_000_000 * PI_NANO as int,
                MICRODEG_PER_180 as int,
            );
        }
    }
    if d < 0 {
        -(rm as i64)
    } else {
        rm as i64
    }
}

/// Great-circle distance in meters between two points in microdegrees,
/// by the haversine formula in fixed point.
#[verifier::rlimit(60)]
pub fn haversine_m(lat1: i64, lon1: i64, lat2: i64, lon2: i64) -> (r: u64)
    requires
        valid_lat(lat1 as int),
        valid_lon(lon1 as int),
        valid_lat(lat2 as int),
        valid_lon(lon2 as int),
    ensures
        r == spec_haversine_m(lat1 as int, lon1 as int, lat2 as int, lon2 as int),
        r <= MAX_GEO_DISTANCE_M,
{
    proof {
        reveal(spec_haversine_m);
    }
    let r1 = rad_of_udeg(lat1);
    let r2 = rad_of_udeg(lat2);
    let o1 = rad_of_udeg(lon1);
    let o2 = rad_of_udeg(lon2);
    let adlat: u64 = if r2 >= r1 {
        (r2 - r1) as u64
    } else {
        (r1 - r2) as u64
    };
    let adlon: u64 = if o2 >= o1 {
        (o2 - o1) as u64
    } else {
        (o1 - o2) as u64
    };
    let hdlat = adlat / 2;
    let hd = adlon / 2;
    let hdlon = if hd > HALF_PI_NANO {
        PI_NANO - hd
    } else {
        hd
    };
    let a1: u64 = if r1 < 0 {
        (-r1) as u64
    } else {
        r1 as u64
    };
    let a2: u64 = if r2 < 0 {
        (-r2) as u64
    } else {
        r2 as u64
    };
    let s1 = sin_fp(hdlat);
    let s2 = sin_fp(hdlon);
    let c1 = cos_fp(a1);
    let c2 = cos_fp(a2);
    let s1sq = mul_fp(s1, s1);
    proof {
        lemma_mul_fp_le_factor(s1 as int, s1 as int, 4);
    }
    let c1c2 = mul_fp(c1, c2);
    proof {
        lemma_mul_fp_le_factor(c1 as int, c2 as int, 5);
    }
    let s2sq = mul_fp(s2, s2);
    proof {
        lemma_mul_fp_le_factor(s2 as int, s2 as int, 4);
    }
    let cross = mul_fp(c1c2, s2sq);
    proof {
        lemma_mul_fp_le_factor(c1c2 as int, s2sq as int, 13);
    }
    let a0 = s1sq + cross;
    let a = if a0 > SCALE {
        SCALE
    } else {
        a0
    };
    let sq_a = isqrt((a as u128) * (SCALE as u128)) as u64;
    let sq_b = isqrt(((SCALE - a) as u128) * (SCALE as u128)) as u64;
    proof {
        lemma_sqrt_floor_unique(a as int * SCALE as int, sq_a as int);
        lemma_sqrt_floor_unique((SCALE - a) as int * SCALE as int, sq_b as int);
        assert(sq_a <= SCALE && sq_b <= SCALE) by (nonlinear_arith)
            requires
                is_sqrt_floor(a as int * SCALE as int, sq_a as int),
                is_sqrt_floor((SCALE - a) as int * SCALE as int, sq_b as int),
                0 <= a <= SCALE,
                SCALE == 1_000_000_000,
        ;
        assert(sq_a > 0 || sq_b > 0) by (nonlinear_arith)
            requires
                is_sqrt_floor((a as int) * (SCALE as int), sq_a as int),
                is_sqrt_floor(((SCALE - a) as int) * (SCALE as int), sq_b as int),
                0 <= a <= SCALE,
                SCALE == 1_000_000_000,
        ;
    }
    let angle = atan2_fp(sq_a, sq_b);
    let c = 2 * angle;
    let dist = (EARTH_RADIUS_M * c) / SCALE;
    proof {
        lemma_div_is_ordered(
            EARTH_RADIUS_M as int * c as int,
            EARTH_RADIUS_M as int * PI_NANO as int,
            SCALE as int,
        );
    }
    dist
}

/// The distance from any point to itself is zero.
pub proof fn lemma_haversine_self(lat: int, lon: int)
    requires
        valid_lat(lat),
        valid_lon(lon),
    ensures
        spec_haversine_m(lat, lon, lat, lon) == 0,
{
    reveal(spec_haversine_m);
    let s = SCALE as int;
    assert(spec_sin_fp(0) == 0);
    let c1 = spec_cos_fp(abs(spec_rad(lat)) as int);
    let c1c2 = spec_mul_fp(c1, c1);
    assert(spec_mul_fp(c1c2, spec_mul_fp(0, 0)) == 0);
    lemma_sqrt_floor_unique(0, 0);
    lemma_sqrt_floor_unique(s * s, s);
    assert(spec_atan2_fp(0, s) == 0);
    assert(spec_haversine_m(lat, lon, lat, lon) == (EARTH_RADIUS_M as int * 0) / s);
}

/// The haversine distance is symmetric in its two endpoints.
pub proof fn lemma_haversine_symmetric(lat1: int, lon1: int, lat2: int, lon2: int)
    requires
        valid_lat(lat1),
        valid_lon(lon1),
        valid_lat(lat2),
        valid_lon(lon2),
    ensures
        spec_haversine_m(lat1, lon1, lat2, lon2) == spec_haversine_m(lat2, lon2, lat1, lon1),
{
    reveal(spec_haversine_m);
    let c1 = spec_cos_fp(abs(spec_rad(lat1)) as int);
    let c2 = spec_cos_fp(abs(spec_rad(lat2)) as int);
    assert(c1 * c2 == c2 * c1);
}

} // verus!
