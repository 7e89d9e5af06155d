//! Locus estimation: an approximate chromaticity point on the combined
//! blackbody / daylight locus for a given color temperature.
//!
//! Each cubic-rational approximation is evaluated over the fixed-point
//! reciprocal `u = RK / t`, so every coefficient becomes one integer
//! constant and every term one multiplication or division; the bounds
//! lemmas show that each branch keeps the chromaticity inside the valid
//! region `x, y in [0, 1], x + y <= 1`.

use vstd::prelude::*;
use vstd::arithmetic::div_mod::*;
use vstd::arithmetic::mul::*;
use crate::fixed::{Chromaticity, SCALE, HALF_SCALE};

verus! {

/// Scale of the reciprocal temperature: `RK / t` stands for `1 / t`.
pub const RK: i64 = 268435456;

// Daylight locus, 2500 K to 7000 K:
// x = 0.244063 + 0.09911e3 / T + 2.9678e6 / T^2 - 4.6070e9 / T^3
pub const DA0: i64 = 15995;
pub const DA1: i64 = 6495273;
pub const DAI2: i64 = 370480;
pub const DAI3: i64 = 64065097716;

// Daylight locus, 7000 K to 25000 K:
// x = 0.237040 + 0.24748e3 / T + 1.9018e6 / T^2 - 2.0064e9 / T^3
pub const DB0: i64 = 15535;
pub const DB1: i64 = 16218849;
pub const DBI2: i64 = 578143;
pub const DBI3: i64 = 147103222278;

// Daylight y: -3 x^2 + 2.870 x - 0.275
pub const DY1: i64 = 188088;
pub const DY0: i64 = 18022;

/// The daylight-locus x coordinate on the low branch (2500 K to 7000 K).
pub open spec fn daylight_x_lo(t: int) -> int {
    let u = (RK as int) / t;
    let u2 = u * u;
    let u3 = u2 * u;
    (DA0 as int) + (DA1 as int) * u / (RK as int) + u2 / (DAI2 as int) - u3 / (DAI3 as int)
}

/// The daylight-locus x coordinate on the high branch (7000 K to 25000 K).
pub open spec fn daylight_x_hi(t: int) -> int {
    let u = (RK as int) / t;
    let u2 = u * u;
    let u3 = u2 * u;
    (DB0 as int) + (DB1 as int) * u / (RK as int) + u2 / (DBI2 as int) - u3 / (DBI3 as int)
}

/// The daylight-locus y coordinate as a quadratic in x.
pub open spec fn daylight_y(x: int) -> int {
    let x2 = x * x / (SCALE as int);
    (DY1 as int) * x / (SCALE as int) - 3 * x2 - (DY0 as int)
}

/// The daylight-illuminant x coordinate, branched at 7000 K.
pub open spec fn illuminant_d_x(t: int) -> int {
    if t <= 7000 {
        daylight_x_lo(t)
    } else {
        daylight_x_hi(t)
    }
}

/// The daylight-illuminant y coordinate.
pub open spec fn illuminant_d_y(t: int) -> int {
    daylight_y(illuminant_d_x(t))
}

/// A physically valid chromaticity point: both coordinates in [0, 1] and
/// their sum at most 1.
pub open spec fn chromaticity_valid(x: int, y: int) -> bool {
    &&& 0 <= x <= SCALE
    &&& 0 <= y <= SCALE
    &&& x + y <= SCALE
}

/// The reciprocal `RK / t` lies between its values at the interval ends.
proof fn lemma_recip_bounds(t: int, tlo: int, thi: int)
    requires
        1 <= tlo <= t <= thi,
    ensures
        (RK as int) / thi <= (RK as int) / t <= (RK as int) / tlo,
{
    lemma_div_is_ordered_by_denominator(RK as int, tlo, t);
    lemma_div_is_ordered_by_denominator(RK as int, t, thi);
}

/// Floor facts for one non-negative division.
proof fn lemma_floor_facts(a: int, d: int)
    requires
        0 <= a,
        0 < d,
    ensures
        a == d * (a / d) + a % d,
        0 <= a % d < d,
{
    lemma_fundamental_div_mod(a, d);
    lemma_mod_division_less_than_divisor(a, d);
}

/// Bounds for the low daylight x branch.
proof fn lemma_da_x_bounds(t: int)
    requires
        2500 <= t <= 7000,
    ensures
        19980 <= daylight_x_lo(t) <= 30420,
{
    let u = (RK as int) / t;
    lemma_recip_bounds(t, 2500, 7000);
    let u2 = u * u;
    let u3 = u2 * u;
    let q1 = (DA1 as int) * u / (RK as int);
    let q2 = u2 / (DAI2 as int);
    let q3 = u3 / (DAI3 as int);
    lemma_mul_nonnegative(DA1 as int, u);
    lemma_mul_nonnegative(u, u);
    lemma_mul_nonnegative(u2, u);
    lemma_floor_facts((DA1 as int) * u, RK as int);
    lemma_floor_facts(u2, DAI2 as int);
    lemma_floor_facts(u3, DAI3 as int);
    assert(19980 <= (DA0 as int) + q1 + q2 - q3 <= 30420) by (nonlinear_arith)
        requires
            38347 <= u <= 107374,
            u2 == u * u,
            u3 == u2 * u,
            (DA1 as int) * u == (RK as int) * q1 + ((DA1 as int) * u) % (RK as int),
            0 <= ((DA1 as int) * u) % (RK as int) < RK,
            u2 == (DAI2 as int) * q2 + u2 % (DAI2 as int),
            0 <= u2 % (DAI2 as int) < DAI2,
            u3 == (DAI3 as int) * q3 + u3 % (DAI3 as int),
            0 <= u3 % (DAI3 as int) < DAI3,
    ;
}

// Planckian locus, 1667 K to 4000 K:
// x = 0.179910 + 0.8776956e3 / T - 0.2343589e6 / T^2 - 0.2661239e9 / T^3
pub const PL0: i64 = 11791;
pub const PL1: i64 = 57520659;
pub const PLI2: i64 = 4691572;
pub const PLI3: i64 = 1109062001494;

// Planckian y, 1667 K to 2222 K:
// -1.1064814 x^3 - 1.34811020 x^2 + 2.18555832 x - 0.20219683
pub const YA3: i64 = 72514;
pub const YA2: i64 = 88350;
pub const YA1: i64 = 143233;
pub const YA0: i64 = 13251;

// Planckian y, 2222 K to 4000 K:
// -0.9549476 x^3 - 1.37418593 x^2 + 2.09137015 x - 0.16748867
pub const YB3: i64 = 62583;
pub const YB2: i64 = 90059;
pub const YB1: i64 = 137060;
pub const YB0: i64 = 10977;

// Planckian locus, 4000 K to 25000 K:
// x = 0.240390 + 0.2226347e3 / T + 2.1070379e6 / T^2 - 3.0258469e9 / T^3
pub const PH0: i64 = 15754;
pub const PH1: i64 = 14590588;
pub const PHI2: i64 = 521828;
pub const PHI3: i64 = 97542246827;

// Planckian y, above 4000 K:
// 3.0817580 x^3 - 5.87338670 x^2 + 3.75112997 x - 0.37001483
pub const YC3: i64 = 201966;
pub const YC2: i64 = 384918;
pub const YC1: i64 = 245834;
pub const YC0: i64 = 24249;

/// Pi in `SCALE` units.
pub const PI_FIXED: i64 = 205887;

/// The Planckian-locus x coordinate on the low branch (1667 K to 4000 K).
pub open spec fn planckian_x_lo(t: int) -> int {
    let u = (RK as int) / t;
    let u2 = u * u;
    let u3 = u2 * u;
    (PL0 as int) + (PL1 as int) * u / (RK as int) - u2 / (PLI2 as int) - u3 / (PLI3 as int)
}

/// The Planckian-locus x coordinate on the high branch (above 4000 K).
pub open spec fn planckian_x_hi(t: int) -> int {
    let u = (RK as int) / t;
    let u2 = u * u;
    let u3 = u2 * u;
    (PH0 as int) + (PH1 as int) * u / (RK as int) + u2 / (PHI2 as int) - u3 / (PHI3 as int)
}

/// The Planckian y cubic for 1667 K to 2222 K.
pub open spec fn planckian_y_a(x: int) -> int {
    let s = SCALE as int;
    let x2 = x * x / s;
    let x3 = x2 * x / s;
    (YA1 as int) * x / s - (YA3 as int) * x3 / s - (YA2 as int) * x2 / s - (YA0 as int)
}

/// The Planckian y cubic for 2222 K to 4000 K.
pub open spec fn planckian_y_b(x: int) -> int {
    let s = SCALE as int;
    let x2 = x * x / s;
    let x3 = x2 * x / s;
    (YB1 as int) * x / s - (YB3 as int) * x3 / s - (YB2 as int) * x2 / s - (YB0 as int)
}

/// The Planckian y cubic for temperatures above 4000 K.
pub open spec fn planckian_y_c(x: int) -> int {
    let s = SCALE as int;
    let x2 = x * x / s;
    let x3 = x2 * x / s;
    (YC3 as int) * x3 / s + (YC1 as int) * x / s - (YC2 as int) * x2 / s - (YC0 as int)
}

/// The Planckian-locus x coordinate, branched at 4000 K.
pub open spec fn planckian_x(t: int) -> int {
    if t <= 4000 {
        planckian_x_lo(t)
    } else {
        planckian_x_hi(t)
    }
}

/// The Planckian-locus y coordinate: the cubic matching the branch of `t`,
/// with the known coefficient change at 2222 K reproduced, not smoothed.
pub open spec fn planckian_y(t: int) -> int {
    if t <= 2222 {
        planckian_y_a(planckian_x_lo(t))
    } else if t <= 4000 {
        planckian_y_b(planckian_x_lo(t))
    } else {
        planckian_y_c(planckian_x_hi(t))
    }
}

/// Bounds for the high daylight x branch.
proof fn lemma_db_x_bounds(t: int)
    requires
        7001 <= t <= 25000,
    ensures
        16340 <= daylight_x_hi(t) <= 20050,
{
    let u = (RK as int) / t;
    lemma_recip_bounds(t, 7001, 25000);
    let u2 = u * u;
    let u3 = u2 * u;
    let q1 = (DB1 as int) * u / (RK as int);
    let q2 = u2 / (DBI2 as int);
    let q3 = u3 / (DBI3 as int);
    lemma_mul_nonnegative(DB1 as int, u);
    lemma_mul_nonnegative(u, u);
    lemma_mul_nonnegative(u2, u);
    lemma_floor_facts((DB1 as int) * u, RK as int);
    lemma_floor_facts(u2, DBI2 as int);
    lemma_floor_facts(u3, DBI3 as int);
    assert(16340 <= (DB0 as int) + q1 + q2 - q3 <= 20050) by (nonlinear_arith)
        requires
            10737 <= u <= 38342,
            u2 == u * u,
            u3 == u2 * u,
            (DB1 as int) * u == (RK as int) * q1 + ((DB1 as int) * u) % (RK as int),
            0 <= ((DB1 as int) * u) % (RK as int) < RK,
            u2 == (DBI2 as int) * q2 + u2 % (DBI2 as int),
            0 <= u2 % (DBI2 as int) < DBI2,
            u3 == (DBI3 as int) * q3 + u3 % (DBI3 as int),
            0 <= u3 % (DBI3 as int) < DBI3,
    ;
}

/// Bounds for the daylight y quadratic over the union of both x ranges.
proof fn lemma_d_y_bounds(x: int)
    requires
        16340 <= x <= 30420,
    ensures
        16620 <= daylight_y(x) <= 26960,
{
    let s = SCALE as int;
    let x2 = x * x / s;
    let q1 = (DY1 as int) * x / s;
    lemma_mul_nonnegative(x, x);
    lemma_mul_nonnegative(DY1 as int, x);
    lemma_floor_facts(x * x, s);
    lemma_floor_facts((DY1 as int) * x, s);
    assert(16620 <= q1 - 3 * x2 - (DY0 as int) <= 26960) by (nonlinear_arith)
        requires
            16340 <= x <= 30420,
            x * x == (SCALE as int) * x2 + (x * x) % (SCALE as int),
            0 <= (x * x) % (SCALE as int) < SCALE,
            (DY1 as int) * x == (SCALE as int) * q1 + ((DY1 as int) * x) % (SCALE as int),
            0 <= ((DY1 as int) * x) % (SCALE as int) < SCALE,
    ;
}

/// The daylight illuminant yields a valid chromaticity on 2500 K to 25000 K.
pub proof fn lemma_illuminant_d_valid(t: int)
    requires
        2500 <= t <= 25000,
    ensures
        chromaticity_valid(illuminant_d_x(t), illuminant_d_y(t)),
        16340 <= illuminant_d_x(t) <= 30420,
        16620 <= illuminant_d_y(t) <= 26960,
{
    if t <= 7000 {
        lemma_da_x_bounds(t);
    } else {
        lemma_db_x_bounds(t);
    }
    lemma_d_y_bounds(illuminant_d_x(t));
}

/// Bounds for the low Planckian x branch, split at the 2222 K coefficient
/// change so that each y cubic sees a tight x interval.
proof fn lemma_pl_x_bounds(t: int)
    requires
        1667 <= t <= 4000,
    ensures
        24900 <= planckian_x_lo(t) <= 37040,
        t <= 2222 ==> 32940 <= planckian_x_lo(t),
        2223 <= t ==> planckian_x_lo(t) <= 33010,
{
    let u = (RK as int) / t;
    let u2 = u * u;
    let u3 = u2 * u;
    let q1 = (PL1 as int) * u / (RK as int);
    let q2 = u2 / (PLI2 as int);
    let q3 = u3 / (PLI3 as int);
    lemma_mul_nonnegative(PL1 as int, u);
    lemma_mul_nonnegative(u, u);
    lemma_mul_nonnegative(u2, u);
    lemma_floor_facts((PL1 as int) * u, RK as int);
    lemma_floor_facts(u2, PLI2 as int);
    lemma_floor_facts(u3, PLI3 as int);
    if t <= 2222 {
        lemma_recip_bounds(t, 1667, 2222);
        assert(32940 <= (PL0 as int) + q1 - q2 - q3 <= 37040) by (nonlinear_arith)
            requires
                120808 <= u <= 161029,
                u2 == u * u,
                u3 == u2 * u,
                (PL1 as int) * u == (RK as int) * q1 + ((PL1 as int) * u) % (RK as int),
                0 <= ((PL1 as int) * u) % (RK as int) < RK,
                u2 == (PLI2 as int) * q2 + u2 % (PLI2 as int),
                0 <= u2 % (PLI2 as int) < PLI2,
                u3 == (PLI3 as int) * q3 + u3 % (PLI3 as int),
                0 <= u3 % (PLI3 as int) < PLI3,
        ;
    } else {
        lemma_recip_bounds(t, 2223, 4000);
        assert(24900 <= (PL0 as int) + q1 - q2 - q3 <= 33010) by (nonlinear_arith)
            requires
                67108 <= u <= 120754,
                u2 == u * u,
                u3 == u2 * u,
                (PL1 as int) * u == (RK as int) * q1 + ((PL1 as int) * u) % (RK as int),
                0 <= ((PL1 as int) * u) % (RK as int) < RK,
                u2 == (PLI2 as int) * q2 + u2 % (PLI2 as int),
                0 <= u2 % (PLI2 as int) < PLI2,
                u3 == (PLI3 as int) * q3 + u3 % (PLI3 as int),
                0 <= u3 % (PLI3 as int) < PLI3,
        ;
    }
}

/// Bounds for the high Planckian x branch.
proof fn lemma_ph_x_bounds(t: int)
    requires
        4001 <= t <= 24999,
    ensures
        16510 <= planckian_x_hi(t) <= 24960,
{
    let u = (RK as int) / t;
    lemma_recip_bounds(t, 4001, 24999);
    let u2 = u * u;
    let u3 = u2 * u;
    let q1 = (PH1 as int) * u / (RK as int);
    let q2 = u2 / (PHI2 as int);
    let q3 = u3 / (PHI3 as int);
    lemma_mul_nonnegative(PH1 as int, u);
    lemma_mul_nonnegative(u, u);
    lemma_mul_nonnegative(u2, u);
    lemma_floor_facts((PH1 as int) * u, RK as int);
    lemma_floor_facts(u2, PHI2 as int);
    lemma_floor_facts(u3, PHI3 as int);
    assert(16510 <= (PH0 as int) + q1 + q2 - q3 <= 24960) by (nonlinear_arith)
        requires
            10737 <= u <= 67092,
            u2 == u * u,
            u3 == u2 * u,
            (PH1 as int) * u == (RK as int) * q1 + ((PH1 as int) * u) % (RK as int),
            0 <= ((PH1 as int) * u) % (RK as int) < RK,
            u2 == (PHI2 as int) * q2 + u2 % (PHI2 as int),
            0 <= u2 % (PHI2 as int) < PHI2,
            u3 == (PHI3 as int) * q3 + u3 % (PHI3 as int),
            0 <= u3 % (PHI3 as int) < PHI3,
    ;
}

/// Floor facts for the three divisions of one y cubic, plus the claim.
proof fn lemma_cubic_floor_facts(x: int)
    requires
        0 <= x <= SCALE,
    ensures
        x * x == (SCALE as int) * (x * x / (SCALE as int)) + (x * x) % (SCALE as int),
        0 <= (x * x) % (SCALE as int) < SCALE,
        (x * x / (SCALE as int)) * x == (SCALE as int) * ((x * x / (SCALE as int)) * x / (
        SCALE as int)) + ((x * x / (SCALE as int)) * x) % (SCALE as int),
        0 <= ((x * x / (SCALE as int)) * x) % (SCALE as int) < SCALE,
        0 <= x * x / (SCALE as int),
        0 <= (x * x / (SCALE as int)) * x / (SCALE as int),
{
    let s = SCALE as int;
    lemma_mul_nonnegative(x, x);
    lemma_floor_facts(x * x, s);
    lemma_div_pos_is_pos(x * x, s);
    lemma_mul_nonnegative(x * x / s, x);
    lemma_floor_facts((x * x / s) * x, s);
    lemma_div_pos_is_pos((x * x / s) * x, s);
}

/// Bounds for the low Planckian y cubic over its x interval.
proof fn lemma_ya_bounds(x: int)
    requires
        32940 <= x <= 37040,
    ensures
        26360 <= planckian_y_a(x) <= 27250,
{
    let s = SCALE as int;
    let x2 = x * x / s;
    let x3 = x2 * x / s;
    let q1 = (YA1 as int) * x / s;
    let q3 = (YA3 as int) * x3 / s;
    let q2 = (YA2 as int) * x2 / s;
    lemma_cubic_floor_facts(x);
    lemma_mul_nonnegative(YA1 as int, x);
    lemma_floor_facts((YA1 as int) * x, s);
    lemma_mul_nonnegative(YA3 as int, x3);
    lemma_floor_facts((YA3 as int) * x3, s);
    lemma_mul_nonnegative(YA2 as int, x2);
    lemma_floor_facts((YA2 as int) * x2, s);
    assert(26360 <= q1 - q3 - q2 - (YA0 as int) <= 27250) by (nonlinear_arith)
        requires
            32940 <= x <= 37040,
            x * x == (SCALE as int) * x2 + (x * x) % (SCALE as int),
            0 <= (x * x) % (SCALE as int) < SCALE,
            x2 * x == (SCALE as int) * x3 + (x2 * x) % (SCALE as int),
            0 <= (x2 * x) % (SCALE as int) < SCALE,
            (YA1 as int) * x == (SCALE as int) * q1 + ((YA1 as int) * x) % (SCALE as int),
            0 <= ((YA1 as int) * x) % (SCALE as int) < SCALE,
            (YA3 as int) * x3 == (SCALE as int) * q3 + ((YA3 as int) * x3) % (SCALE as int),
            0 <= ((YA3 as int) * x3) % (SCALE as int) < SCALE,
            (YA2 as int) * x2 == (SCALE as int) * q2 + ((YA2 as int) * x2) % (SCALE as int),
            0 <= ((YA2 as int) * x2) % (SCALE as int) < SCALE,
    ;
}

/// Bounds for the middle Planckian y cubic over its x interval.
proof fn lemma_yb_bounds(x: int)
    requires
        24900 <= x <= 33010,
    ensures
        24630 <= planckian_y_b(x) <= 27250,
{
    let s = SCALE as int;
    let x2 = x * x / s;
    let x3 = x2 * x / s;
    let q1 = (YB1 as int) * x / s;
    let q3 = (YB3 as int) * x3 / s;
    let q2 = (YB2 as int) * x2 / s;
    lemma_cubic_floor_facts(x);
    lemma_mul_nonnegative(YB1 as int, x);
    lemma_floor_facts((YB1 as int) * x, s);
    lemma_mul_nonnegative(YB3 as int, x3);
    lemma_floor_facts((YB3 as int) * x3, s);
    lemma_mul_nonnegative(YB2 as int, x2);
    lemma_floor_facts((YB2 as int) * x2, s);
    assert(24630 <= q1 - q3 - q2 - (YB0 as int) <= 27250) by (nonlinear_arith)
        requires
            24900 <= x <= 33010,
            x * x == (SCALE as int) * x2 + (x * x) % (SCALE as int),
            0 <= (x * x) % (SCALE as int) < SCALE,
            x2 * x == (SCALE as int) * x3 + (x2 * x) % (SCALE as int),
            0 <= (x2 * x) % (SCALE as int) < SCALE,
            (YB1 as int) * x == (SCALE as int) * q1 + ((YB1 as int) * x) % (SCALE as int),
            0 <= ((YB1 as int) * x) % (SCALE as int) < SCALE,
            (YB3 as int) * x3 == (SCALE as int) * q3 + ((YB3 as int) * x3) % (SCALE as int),
            0 <= ((YB3 as int) * x3) % (SCALE as int) < SCALE,
            (YB2 as int) * x2 == (SCALE as int) * q2 + ((YB2 as int) * x2) % (SCALE as int),
            0 <= ((YB2 as int) * x2) % (SCALE as int) < SCALE,
    ;
}

/// Bounds for the high Planckian y cubic over its x interval.
proof fn lemma_yc_bounds(x: int)
    requires
        16510 <= x <= 24960,
    ensures
        16450 <= planckian_y_c(x) <= 24740,
{
    let s = SCALE as int;
    let x2 = x * x / s;
    let x3 = x2 * x / s;
    let q3 = (YC3 as int) * x3 / s;
    let q1 = (YC1 as int) * x / s;
    let q2 = (YC2 as int) * x2 / s;
    lemma_cubic_floor_facts(x);
    lemma_mul_nonnegative(YC1 as int, x);
    lemma_floor_facts((YC1 as int) * x, s);
    lemma_mul_nonnegative(YC3 as int, x3);
    lemma_floor_facts((YC3 as int) * x3, s);
    lemma_mul_nonnegative(YC2 as int, x2);
    lemma_floor_facts((YC2 as int) * x2, s);
    assert(16450 <= q3 + q1 - q2 - (YC0 as int) <= 24740) by (nonlinear_arith)
        requires
            16510 <= x <= 24960,
            x * x == (SCALE as int) * x2 + (x * x) % (SCALE as int),
            0 <= (x * x) % (SCALE as int) < SCALE,
            x2 * x == (SCALE as int) * x3 + (x2 * x) % (SCALE as int),
            0 <= (x2 * x) % (SCALE as int) < SCALE,
            (YC1 as int) * x == (SCALE as int) * q1 + ((YC1 as int) * x) % (SCALE as int),
            0 <= ((YC1 as int) * x) % (SCALE as int) < SCALE,
            (YC3 as int) * x3 == (SCALE as int) * q3 + ((YC3 as int) * x3) % (SCALE as int),
            0 <= ((YC3 as int) * x3) % (SCALE as int) < SCALE,
            (YC2 as int) * x2 == (SCALE as int) * q2 + ((YC2 as int) * x2) % (SCALE as int),
            0 <= ((YC2 as int) * x2) % (SCALE as int) < SCALE,
    ;
}

/// The Planckian locus yields a valid chromaticity on 1667 K to 24999 K.
pub proof fn lemma_planckian_valid(t: int)
    requires
        1667 <= t <= 24999,
    ensures
        chromaticity_valid(planckian_x(t), planckian_y(t)),
        16510 <= planckian_x(t) <= 37040,
        16450 <= planckian_y(t) <= 27250,
{
    if t <= 2222 {
        lemma_pl_x_bounds(t);
        lemma_ya_bounds(planckian_x_lo(t));
    } else if t <= 4000 {
        lemma_pl_x_bounds(t);
        lemma_yb_bounds(planckian_x_lo(t));
    } else {
        lemma_ph_x_bounds(t);
        lemma_yc_bounds(planckian_x_hi(t));
    }
}

/// A product of two bounded non-negative factors, divided by a positive
/// constant: bounds for the product and the quotient.
proof fn lemma_mul_div_bound(a: int, b: int, ca: int, cb: int, d: int)
    requires
        0 <= a <= ca,
        0 <= b <= cb,
        0 < d,
    ensures
        0 <= a * b <= ca * cb,
        0 <= a * b / d <= ca * cb / d,
{
    lemma_mul_upper_bound(a, ca, b, cb);
    lemma_mul_nonnegative(a, b);
    lemma_div_pos_is_pos(a * b, d);
    lemma_div_is_ordered(a * b, ca * cb, d);
}

/// The truncated cosine series `cos(pi * f / SCALE)` for the first half of
/// the turn, `f` in `[0, SCALE / 2]`, clamped into `[0, SCALE]`.
pub open spec fn cos_q(f: int) -> int {
    let s = SCALE as int;
    let up = (PI_FIXED as int) * f / s;
    let u2 = up * up / s;
    let u4 = u2 * u2 / s;
    let u6 = u4 * u2 / s;
    let u8 = u6 * u2 / s;
    let raw = s + u4 / 24 + u8 / 40320 - u2 / 2 - u6 / 720;
    if raw < 0 {
        0
    } else if raw > s {
        s
    } else {
        raw
    }
}

/// `cos(pi * f / SCALE)` for `f` in `[0, SCALE]`, by the half-turn
/// symmetry `cos(pi (1 - f)) == -cos(pi f)`.
pub open spec fn cos_pi(f: int) -> int {
    if f <= HALF_SCALE {
        cos_q(f)
    } else {
        -cos_q(SCALE - f)
    }
}

/// The raised-cosine blend weight `(cos(pi (4000 - t) / 1500) + 1) / 2` of
/// the daylight point against the Planckian point.
pub open spec fn blend_weight(t: int) -> int {
    (cos_pi((4000 - t) * SCALE / 1500) + SCALE) / 2
}

/// Temperatures are clamped into [1000, 25000] before use.
pub open spec fn clamp_temp(t: int) -> int {
    if t < 1000 {
        1000
    } else if t > 25000 {
        25000
    } else {
        t
    }
}

/// The x coordinate of the estimated locus point: pure daylight at and
/// above 4000 K, a raised-cosine blend of daylight and Planckian on
/// [2500, 4000), and pure Planckian below (held at 1667 K).
#[verifier::opaque]
pub open spec fn estimate_x(t0: int) -> int {
    let t = clamp_temp(t0);
    if t >= 4000 {
        illuminant_d_x(t)
    } else if t >= 2500 {
        let w = blend_weight(t);
        (illuminant_d_x(t) * w + planckian_x(t) * (SCALE - w)) / (SCALE as int)
    } else if t >= 1667 {
        planckian_x(t)
    } else {
        planckian_x(1667)
    }
}

/// The y coordinate of the estimated locus point; branches as `estimate_x`.
#[verifier::opaque]
pub open spec fn estimate_y(t0: int) -> int {
    let t = clamp_temp(t0);
    if t >= 4000 {
        illuminant_d_y(t)
    } else if t >= 2500 {
        let w = blend_weight(t);
        (illuminant_d_y(t) * w + planckian_y(t) * (SCALE - w)) / (SCALE as int)
    } else if t >= 1667 {
        planckian_y(t)
    } else {
        planckian_y(1667)
    }
}

/// The clamped cosine stays within `[0, SCALE]`.
proof fn lemma_cos_q_range(f: int)
    ensures
        0 <= cos_q(f) <= SCALE,
{
}

/// The signed cosine stays within `[-SCALE, SCALE]`.
pub proof fn lemma_cos_pi_range(f: int)
    ensures
        -SCALE <= cos_pi(f) <= SCALE,
{
    lemma_cos_q_range(f);
    lemma_cos_q_range(SCALE - f);
}

/// The blend weight is a convex coefficient in `[0, SCALE]`.
pub proof fn lemma_blend_weight_range(t: int)
    ensures
        0 <= blend_weight(t) <= SCALE,
{
    let f = (4000 - t) * SCALE / (1500 as int);
    lemma_cos_pi_range(f);
    let c = cos_pi(f);
    lemma_div_pos_is_pos(c + SCALE, 2);
    lemma_div_is_ordered(c + SCALE, 2 * SCALE, 2);
}

/// The estimated chromaticity is valid for every temperature: each pure
/// branch stays within its proven box, and a convex blend of two valid
/// points is valid.
pub proof fn lemma_estimate_valid(t0: int)
    ensures
        chromaticity_valid(estimate_x(t0), estimate_y(t0)),
{
    reveal(estimate_x);
    reveal(estimate_y);
    let t = clamp_temp(t0);
    if t >= 4000 {
        lemma_illuminant_d_valid(t);
    } else if t >= 2500 {
        lemma_illuminant_d_valid(t);
        lemma_planckian_valid(t);
        lemma_blend_weight_range(t);
        let s = SCALE as int;
        let w = blend_weight(t);
        let x1 = illuminant_d_x(t);
        let y1 = illuminant_d_y(t);
        let x2 = planckian_x(t);
        let y2 = planckian_y(t);
        let numx = x1 * w + x2 * (s - w);
        let numy = y1 * w + y2 * (s - w);
        lemma_mul_nonnegative(x1, w);
        lemma_mul_nonnegative(x2, s - w);
        lemma_mul_nonnegative(y1, w);
        lemma_mul_nonnegative(y2, s - w);
        lemma_floor_facts(numx, s);
        lemma_floor_facts(numy, s);
        let bx = numx / s;
        let by = numy / s;
        assert(0 <= bx && 0 <= by && bx + by <= s) by (nonlinear_arith)
            requires
                0 <= w <= s,
                0 < s,
                0 <= x1,
                0 <= y1,
                x1 + y1 <= s,
                0 <= x2,
                0 <= y2,
                x2 + y2 <= s,
                numx == x1 * w + x2 * (s - w),
                numy == y1 * w + y2 * (s - w),
                numx == s * bx + numx % s,
                0 <= numx % s < s,
                numy == s * by + numy % s,
                0 <= numy % s < s,
        ;
    } else if t >= 1667 {
        lemma_planckian_valid(t);
    } else {
        lemma_planckian_valid(1667);
    }
}

/// The CIE daylight-illuminant approximation: the chromaticity of natural
/// daylight at `temp` kelvin, valid on [2500, 25000].
pub fn illuminant_d(temp: i64) -> (c: Chromaticity)
    requires
        2500 <= temp <= 25000,
    ensures
        c.x == illuminant_d_x(temp as int),
        c.y == illuminant_d_y(temp as int),
        chromaticity_valid(c.x as int, c.y as int),
{
    proof {
        lemma_illuminant_d_valid(temp as int);
        lemma_recip_bounds(temp as int, 2500, 25000);
    }
    let u: i64 = RK / temp;
    proof {
        lemma_mul_div_bound(u as int, u as int, 107374, 107374, SCALE as int);
    }
    let u2: i64 = u * u;
    proof {
        lemma_mul_div_bound(u2 as int, u as int, 11529175876, 107374, SCALE as int);
    }
    let u3: i64 = u2 * u;
    proof {
        lemma_mul_div_bound(DA1 as int, u as int, DA1 as int, 107374, RK as int);
        lemma_mul_div_bound(DB1 as int, u as int, DB1 as int, 107374, RK as int);
        lemma_div_pos_is_pos(u2 as int, DAI2 as int);
        lemma_div_pos_is_pos(u3 as int, DAI3 as int);
        lemma_div_pos_is_pos(u2 as int, DBI2 as int);
        lemma_div_pos_is_pos(u3 as int, DBI3 as int);
        lemma_div_is_ordered(u2 as int, 11529175876, DAI2 as int);
        lemma_div_is_ordered(u3 as int, 1237933730509624, DAI3 as int);
        lemma_div_is_ordered(u2 as int, 11529175876, DBI2 as int);
        lemma_div_is_ordered(u3 as int, 1237933730509624, DBI3 as int);
    }
    let x: i64 = if temp <= 7000 {
        DA0 + DA1 * u / RK + u2 / DAI2 - u3 / DAI3
    } else {
        DB0 + DB1 * u / RK + u2 / DBI2 - u3 / DBI3
    };
    proof {
        assert(x == illuminant_d_x(temp as int));
        lemma_mul_div_bound(x as int, x as int, 30420, 30420, SCALE as int);
        lemma_mul_div_bound(DY1 as int, x as int, DY1 as int, 30420, SCALE as int);
    }
    let x2: i64 = x * x / SCALE;
    let y: i64 = DY1 * x / SCALE - 3 * x2 - DY0;
    Chromaticity { x, y }
}

/// The Planckian-locus approximation: the chromaticity of an ideal
/// blackbody radiator at `temp` kelvin, valid on [1667, 24999].
pub fn planckian_locus(temp: i64) -> (c: Chromaticity)
    requires
        1667 <= temp <= 24999,
    ensures
        c.x == planckian_x(temp as int),
        c.y == planckian_y(temp as int),
        chromaticity_valid(c.x as int, c.y as int),
{
    proof {
        lemma_planckian_valid(temp as int);
        lemma_recip_bounds(temp as int, 1667, 24999);
    }
    let u: i64 = RK / temp;
    proof {
        lemma_mul_div_bound(u as int, u as int, 161029, 161029, SCALE as int);
    }
    let u2: i64 = u * u;
    proof {
        lemma_mul_div_bound(u2 as int, u as int, 25930338841, 161029, SCALE as int);
    }
    let u3: i64 = u2 * u;
    let x: i64;
    let y: i64;
    if temp <= 4000 {
        proof {
            lemma_pl_x_bounds(temp as int);
            lemma_mul_div_bound(PL1 as int, u as int, PL1 as int, 161029, RK as int);
            lemma_div_pos_is_pos(u2 as int, PLI2 as int);
            lemma_div_pos_is_pos(u3 as int, PLI3 as int);
            lemma_div_is_ordered(u2 as int, 25930338841, PLI2 as int);
            lemma_div_is_ordered(u3 as int, 4175536533227389, PLI3 as int);
        }
        x = PL0 + PL1 * u / RK - u2 / PLI2 - u3 / PLI3;
        proof {
            assert(x == planckian_x_lo(temp as int));
            lemma_mul_div_bound(x as int, x as int, 37040, 37040, SCALE as int);
        }
        let x2: i64 = x * x / SCALE;
        proof {
            lemma_mul_div_bound(x2 as int, x as int, 20934, 37040, SCALE as int);
        }
        let x3: i64 = x2 * x / SCALE;
        proof {
            lemma_mul_div_bound(YA1 as int, x as int, YA1 as int, 37040, SCALE as int);
            lemma_mul_div_bound(YA3 as int, x3 as int, YA3 as int, 11831, SCALE as int);
            lemma_mul_div_bound(YA2 as int, x2 as int, YA2 as int, 20934, SCALE as int);
            lemma_mul_div_bound(YB1 as int, x as int, YB1 as int, 37040, SCALE as int);
            lemma_mul_div_bound(YB3 as int, x3 as int, YB3 as int, 11831, SCALE as int);
            lemma_mul_div_bound(YB2 as int, x2 as int, YB2 as int, 20934, SCALE as int);
        }
        if temp <= 2222 {
            y = YA1 * x / SCALE - YA3 * x3 / SCALE - YA2 * x2 / SCALE - YA0;
        } else {
            y = YB1 * x / SCALE - YB3 * x3 / SCALE - YB2 * x2 / SCALE - YB0;
        }
    } else {
        proof {
            lemma_ph_x_bounds(temp as int);
            lemma_mul_div_bound(PH1 as int, u as int, PH1 as int, 161029, RK as int);
            lemma_div_pos_is_pos(u2 as int, PHI2 as int);
            lemma_div_pos_is_pos(u3 as int, PHI3 as int);
            lemma_div_is_ordered(u2 as int, 25930338841, PHI2 as int);
            lemma_div_is_ordered(u3 as int, 4175536533227389, PHI3 as int);
        }
        x = PH0 + PH1 * u / RK + u2 / PHI2 - u3 / PHI3;
        proof {
            assert(x == planckian_x_hi(temp as int));
            lemma_mul_div_bound(x as int, x as int, 24960, 24960, SCALE as int);
        }
        let x2: i64 = x * x / SCALE;
        proof {
            lemma_mul_div_bound(x2 as int, x as int, 9506, 24960, SCALE as int);
        }
        let x3: i64 = x2 * x / SCALE;
        proof {
            lemma_mul_div_bound(YC3 as int, x3 as int, YC3 as int, 3620, SCALE as int);
            lemma_mul_div_bound(YC1 as int, x as int, YC1 as int, 24960, SCALE as int);
            lemma_mul_div_bound(YC2 as int, x2 as int, YC2 as int, 9506, SCALE as int);
        }
        y = YC3 * x3 / SCALE + YC1 * x / SCALE - YC2 * x2 / SCALE - YC0;
    }
    Chromaticity { x, y }
}

/// The truncated cosine series, first half of the turn.
fn cos_q_fixed(f: i64) -> (r: i64)
    requires
        0 <= f <= HALF_SCALE,
    ensures
        r == cos_q(f as int),
        0 <= r <= SCALE,
{
    proof {
        lemma_mul_div_bound(PI_FIXED as int, f as int, PI_FIXED as int, HALF_SCALE as int, SCALE as int);
    }
    let up: i64 = PI_FIXED * f / SCALE;
    proof {
        lemma_mul_div_bound(up as int, up as int, 102943, 102943, SCALE as int);
    }
    let u2: i64 = up * up / SCALE;
    proof {
        lemma_mul_div_bound(u2 as int, u2 as int, 161701, 161701, SCALE as int);
    }
    let u4: i64 = u2 * u2 / SCALE;
    proof {
        lemma_mul_div_bound(u4 as int, u2 as int, 398974, 161701, SCALE as int);
    }
    let u6: i64 = u4 * u2 / SCALE;
    proof {
        lemma_mul_div_bound(u6 as int, u2 as int, 984413, 161701, SCALE as int);
        lemma_div_pos_is_pos(u4 as int, 24);
        lemma_div_pos_is_pos(u2 as int, 2);
        lemma_div_pos_is_pos(u6 as int, 720);
        lemma_div_is_ordered(u4 as int, 398974, 24);
        lemma_div_is_ordered(u2 as int, 161701, 2);
        lemma_div_is_ordered(u6 as int, 984413, 720);
    }
    let u8: i64 = u6 * u2 / SCALE;
    proof {
        lemma_div_pos_is_pos(u8 as int, 40320);
        lemma_div_is_ordered(u8 as int, 2428902, 40320);
    }
    let raw: i64 = SCALE + u4 / 24 + u8 / 40320 - u2 / 2 - u6 / 720;
    if raw < 0 {
        0
    } else if raw > SCALE {
        SCALE
    } else {
        raw
    }
}

/// `cos(pi * f / SCALE)` for `f` in `[0, SCALE]`.
pub fn cos_pi_fixed(f: i64) -> (r: i64)
    requires
        0 <= f <= SCALE,
    ensures
        r == cos_pi(f as int),
        -SCALE <= r <= SCALE,
{
    if f <= HALF_SCALE {
        cos_q_fixed(f)
    } else {
        -cos_q_fixed(SCALE - f)
    }
}

/// The locus estimator: the chromaticity of the blackbody / daylight locus
/// at `temp` kelvin, for any temperature (clamped into [1000, 25000]).
pub fn estimate(temp: i64) -> (c: Chromaticity)
    ensures
        c.x == estimate_x(temp as int),
        c.y == estimate_y(temp as int),
        chromaticity_valid(c.x as int, c.y as int),
{
    proof {
        reveal(estimate_x);
        reveal(estimate_y);
        lemma_estimate_valid(temp as int);
    }
    let t: i64 = if temp < 1000 {
        1000
    } else if temp > 25000 {
        25000
    } else {
        temp
    };
    if t >= 4000 {
        illuminant_d(t)
    } else if t >= 2500 {
        let d = illuminant_d(t);
        let p = planckian_locus(t);
        proof {
            lemma_mul_div_bound((4000 - t) as int, SCALE as int, 1500, SCALE as int, 1500 as int);
            lemma_div_multiples_vanish(SCALE as int, 1500);
        }
        let f: i64 = (4000 - t) * SCALE / 1500;
        let cv = cos_pi_fixed(f);
        proof {
            lemma_div_pos_is_pos(cv + SCALE, 2);
            lemma_div_is_ordered(cv + SCALE, 2 * SCALE, 2);
        }
        let w: i64 = (cv + SCALE) / 2;
        proof {
            lemma_mul_div_bound(d.x as int, w as int, SCALE as int, SCALE as int, SCALE as int);
            lemma_mul_div_bound(p.x as int, (SCALE - w) as int, SCALE as int, SCALE as int, SCALE as int);
            lemma_mul_div_bound(d.y as int, w as int, SCALE as int, SCALE as int, SCALE as int);
            lemma_mul_div_bound(p.y as int, (SCALE - w) as int, SCALE as int, SCALE as int, SCALE as int);
            lemma_div_pos_is_pos(d.x * w + p.x * (SCALE - w), SCALE as int);
            lemma_div_pos_is_pos(d.y * w + p.y * (SCALE - w), SCALE as int);
        }
        let x: i64 = (d.x * w + p.x * (SCALE - w)) / SCALE;
        let y: i64 = (d.y * w + p.y * (SCALE - w)) / SCALE;
        Chromaticity { x, y }
    } else {
        let tc: i64 = if t < 1667 {
            1667
        } else {
            t
        };
        planckian_locus(tc)
    }
}

} // verus!
