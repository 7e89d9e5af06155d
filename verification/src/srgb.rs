//! Conversion from tristimulus coordinates to the sRGB whitepoint:
//! the fixed XYZ-to-linear-sRGB matrix, the display transfer function, and
//! whitepoint normalization.

use vstd::prelude::*;
use vstd::arithmetic::div_mod::*;
use vstd::arithmetic::mul::*;
use crate::fixed::{Rgb, Xyz, ColorError, SCALE};
use crate::pow::{pow_fixed, pow_fixed_exec};
use crate::ramp::ramp_exponent;

verus! {

// XYZ to linear sRGB matrix (Bruce Lindbloom coefficients), magnitudes in
// SCALE units; the signs are written out in the row formulas.
pub const RX: i64 = 212366;
pub const RY: i64 = 100738;
pub const RZ: i64 = 32672;
pub const GX: i64 = 63522;
pub const GY: i64 = 122946;
pub const GZ: i64 = 2723;
pub const BX: i64 = 3647;
pub const BY: i64 = 13371;
pub const BZ: i64 = 69286;

// Transfer function: v <= 0.0031308 -> 12.92 v, else (1.055 v)^(1/gamma) - 0.055
pub const SRGB_CUTOFF: i64 = 205;
pub const SRGB_LINEAR: i64 = 846725;
pub const SRGB_A: i64 = 69140;
pub const SRGB_OFFSET: i64 = 3604;

/// The display gamma 2.2 in `SCALE` units.
pub const GAMMA_22: i64 = 144179;

/// A value clamped into the displayable range `[0, SCALE]`.
pub open spec fn clamp_unit(v: int) -> int {
    if v > SCALE {
        SCALE as int
    } else if v < 0 {
        0
    } else {
        v
    }
}

/// Clamps a fixed-point value into `[0, SCALE]`.
pub fn clamp(value: i64) -> (r: i64)
    ensures
        r == clamp_unit(value as int),
{
    if value > SCALE {
        SCALE
    } else if value < 0 {
        0
    } else {
        value
    }
}

// The three linear matrix rows, as numerators in SCALE^2 units.
pub open spec fn linear_r_num(x: int, y: int, z: int) -> int {
    (RX as int) * x - (RY as int) * y - (RZ as int) * z
}

pub open spec fn linear_g_num(x: int, y: int, z: int) -> int {
    (GY as int) * y + (GZ as int) * z - (GX as int) * x
}

pub open spec fn linear_b_num(x: int, y: int, z: int) -> int {
    (BX as int) * x + (BZ as int) * z - (BY as int) * y
}

/// One linear channel: the row numerator scaled down and clamped into
/// `[0, SCALE]`.
pub open spec fn channel_lin(num: int) -> int {
    if num <= 0 {
        0
    } else {
        clamp_unit(num / (SCALE as int))
    }
}

/// The display transfer function in `SCALE` units: linear below the
/// cutoff, else `(1.055 v) ^ (1 / gamma) - 0.055`, held inside
/// `[0, SCALE]` against fixed-point round-off.
#[verifier::opaque]
pub open spec fn srgb_gamma_spec(v: int, gamma: int) -> int {
    if v <= SRGB_CUTOFF {
        (SRGB_LINEAR as int) * v / (SCALE as int)
    } else {
        let b = (SRGB_A as int) * v / (SCALE as int);
        let p = pow_fixed(b, ramp_exponent(gamma));
        if p <= SRGB_OFFSET {
            0
        } else if p - SRGB_OFFSET > SCALE {
            SCALE as int
        } else {
            p - SRGB_OFFSET
        }
    }
}

/// The sRGB whitepoint channels of a tristimulus triple, before
/// normalization.
#[verifier::opaque]
pub open spec fn srgb_r_of(x: int, y: int, z: int) -> int {
    srgb_gamma_spec(channel_lin(linear_r_num(x, y, z)), GAMMA_22 as int)
}

#[verifier::opaque]
pub open spec fn srgb_g_of(x: int, y: int, z: int) -> int {
    srgb_gamma_spec(channel_lin(linear_g_num(x, y, z)), GAMMA_22 as int)
}

#[verifier::opaque]
pub open spec fn srgb_b_of(x: int, y: int, z: int) -> int {
    srgb_gamma_spec(channel_lin(linear_b_num(x, y, z)), GAMMA_22 as int)
}

/// The display transfer function applied to one clamped linear channel.
///
/// The gamma is at least 1 (in `SCALE` units), so the exponent `1 / gamma`
/// stays at most 1 and the power of a base up to 1.055 stays displayable.
pub fn srgb_gamma(value: i64, gamma: i64) -> (r: i64)
    requires
        0 <= value <= SCALE,
        SCALE <= gamma <= SCALE * SCALE,
    ensures
        r == srgb_gamma_spec(value as int, gamma as int),
        0 <= r <= SCALE,
{
    proof {
        reveal(srgb_gamma_spec);
    }
    if value <= SRGB_CUTOFF {
        proof {
            lemma_mul_nonnegative(SRGB_LINEAR as int, value as int);
            lemma_mul_upper_bound(SRGB_LINEAR as int, SRGB_LINEAR as int, value as int, SRGB_CUTOFF as int);
            lemma_div_pos_is_pos(SRGB_LINEAR * value, SCALE as int);
            lemma_div_is_ordered(SRGB_LINEAR * value, SRGB_LINEAR * SRGB_CUTOFF, SCALE as int);
        }
        SRGB_LINEAR * value / SCALE
    } else {
        proof {
            lemma_div_is_ordered_by_denominator(SCALE * SCALE, SCALE as int, gamma as int);
            lemma_div_is_ordered_by_denominator(SCALE * SCALE, gamma as int, SCALE * SCALE);
            lemma_div_multiples_vanish(SCALE as int, SCALE as int);
            assert(SCALE * SCALE / (SCALE * SCALE) == 1) by (nonlinear_arith);
        }
        let e: i64 = SCALE * SCALE / gamma;
        proof {
            assert(e == ramp_exponent(gamma as int));
            lemma_mul_nonnegative(SRGB_A as int, value as int);
            lemma_mul_upper_bound(SRGB_A as int, SRGB_A as int, value as int, SCALE as int);
            lemma_div_pos_is_pos(SRGB_A * value, SCALE as int);
            lemma_div_is_ordered(SRGB_A * value, SRGB_A * SCALE, SCALE as int);
            lemma_div_multiples_vanish(SRGB_A as int, SCALE as int);
            assert((SRGB_A as int) * SCALE == (SCALE as int) * SRGB_A) by (nonlinear_arith);
        }
        let b: i64 = SRGB_A * value / SCALE;
        let p = pow_fixed_exec(b, e);
        if p <= SRGB_OFFSET {
            0
        } else if p - SRGB_OFFSET > SCALE {
            SCALE
        } else {
            p - SRGB_OFFSET
        }
    }
}

/// Maps a tristimulus triple to the sRGB whitepoint: the fixed linear
/// matrix, a clamp into the displayable range, and the transfer function
/// with gamma 2.2 on each channel.
pub fn xyz_to_srgb(xyz: &Xyz) -> (rgb: Rgb)
    requires
        0 <= xyz.x <= SCALE,
        0 <= xyz.y <= SCALE,
        0 <= xyz.z <= SCALE,
    ensures
        rgb.r == srgb_r_of(xyz.x as int, xyz.y as int, xyz.z as int),
        rgb.g == srgb_g_of(xyz.x as int, xyz.y as int, xyz.z as int),
        rgb.b == srgb_b_of(xyz.x as int, xyz.y as int, xyz.z as int),
        0 <= rgb.r <= SCALE,
        0 <= rgb.g <= SCALE,
        0 <= rgb.b <= SCALE,
{
    proof {
        reveal(srgb_r_of);
        reveal(srgb_g_of);
        reveal(srgb_b_of);
        lemma_row_bounds(xyz.x as int, xyz.y as int, xyz.z as int);
    }
    let num_r: i64 = RX * xyz.x - RY * xyz.y - RZ * xyz.z;
    let num_g: i64 = GY * xyz.y + GZ * xyz.z - GX * xyz.x;
    let num_b: i64 = BX * xyz.x + BZ * xyz.z - BY * xyz.y;
    let lin_r = channel_from(num_r);
    let lin_g = channel_from(num_g);
    let lin_b = channel_from(num_b);
    Rgb {
        r: srgb_gamma(lin_r, GAMMA_22),
        g: srgb_gamma(lin_g, GAMMA_22),
        b: srgb_gamma(lin_b, GAMMA_22),
    }
}

/// The matrix-row numerators stay well inside the i64 range.
proof fn lemma_row_bounds(x: int, y: int, z: int)
    requires
        0 <= x <= SCALE,
        0 <= y <= SCALE,
        0 <= z <= SCALE,
    ensures
        -(RY + RZ) * SCALE <= (RX as int) * x - (RY as int) * y - (RZ as int) * z <= RX * SCALE,
        -(GX as int) * SCALE <= (GY as int) * y + (GZ as int) * z - (GX as int) * x <= (GY + GZ)
            * SCALE,
        -(BY as int) * SCALE <= (BX as int) * x + (BZ as int) * z - (BY as int) * y <= (BX + BZ)
            * SCALE,
{
    lemma_mul_nonnegative(RX as int, x);
    lemma_mul_nonnegative(RY as int, y);
    lemma_mul_nonnegative(RZ as int, z);
    lemma_mul_upper_bound(RX as int, RX as int, x, SCALE as int);
    lemma_mul_upper_bound(RY as int, RY as int, y, SCALE as int);
    lemma_mul_upper_bound(RZ as int, RZ as int, z, SCALE as int);
    lemma_mul_nonnegative(GX as int, x);
    lemma_mul_nonnegative(GY as int, y);
    lemma_mul_nonnegative(GZ as int, z);
    lemma_mul_upper_bound(GX as int, GX as int, x, SCALE as int);
    lemma_mul_upper_bound(GY as int, GY as int, y, SCALE as int);
    lemma_mul_upper_bound(GZ as int, GZ as int, z, SCALE as int);
    lemma_mul_nonnegative(BX as int, x);
    lemma_mul_nonnegative(BY as int, y);
    lemma_mul_nonnegative(BZ as int, z);
    lemma_mul_upper_bound(BX as int, BX as int, x, SCALE as int);
    lemma_mul_upper_bound(BY as int, BY as int, y, SCALE as int);
    lemma_mul_upper_bound(BZ as int, BZ as int, z, SCALE as int);
    assert((RX as int) * SCALE == 212366 * 65536) by (nonlinear_arith);
    assert((RY as int) * SCALE == 100738 * 65536) by (nonlinear_arith);
    assert((RZ as int) * SCALE == 32672 * 65536) by (nonlinear_arith);
    assert((GX as int) * SCALE == 63522 * 65536) by (nonlinear_arith);
    assert((GY as int) * SCALE == 122946 * 65536) by (nonlinear_arith);
    assert((GZ as int) * SCALE == 2723 * 65536) by (nonlinear_arith);
    assert((BX as int) * SCALE == 3647 * 65536) by (nonlinear_arith);
    assert((BY as int) * SCALE == 13371 * 65536) by (nonlinear_arith);
    assert((BZ as int) * SCALE == 69286 * 65536) by (nonlinear_arith);
}

/// One linear channel from its row numerator: zero when negative, else
/// scaled down and clamped.
fn channel_from(num: i64) -> (v: i64)
    requires
        -100000000000000 <= num <= 100000000000000,
    ensures
        v == channel_lin(num as int),
        0 <= v <= SCALE,
{
    if num <= 0 {
        0
    } else {
        proof {
            lemma_div_pos_is_pos(num as int, SCALE as int);
        }
        clamp(num / SCALE)
    }
}

/// The larger of two fixed-point values.
pub open spec fn max2(a: int, b: int) -> int {
    if a >= b {
        a
    } else {
        b
    }
}

/// The largest of the three channels of an RGB triple.
pub open spec fn max3(r: int, g: int, b: int) -> int {
    max2(r, max2(g, b))
}

/// The largest channel of `rgb`, used to pick the normalization divisor.
pub fn channel_max(rgb: &Rgb) -> (m: i64)
    ensures
        m == max3(rgb.r as int, rgb.g as int, rgb.b as int),
{
    let gb: i64 = if rgb.g >= rgb.b { rgb.g } else { rgb.b };
    if rgb.r >= gb {
        rgb.r
    } else {
        gb
    }
}

/// Rescales an RGB triple so that its brightest channel becomes exactly
/// `SCALE` (full intensity); the remaining channels keep their ratio to the
/// maximum, up to the rounding of one fixed-point division each.
///
/// A triple whose maximum is zero cannot be rescaled: it is reported as a
/// degenerate whitepoint and left unchanged.
pub fn srgb_normalize(rgb: &mut Rgb) -> (res: Result<(), ColorError>)
    requires
        0 <= old(rgb).r <= SCALE,
        0 <= old(rgb).g <= SCALE,
        0 <= old(rgb).b <= SCALE,
    ensures
        ({
            let m = max3(old(rgb).r as int, old(rgb).g as int, old(rgb).b as int);
            &&& (m == 0 <==> res == Err::<(), ColorError>(ColorError::DegenerateWhitepoint))
            &&& (m != 0 ==> res == Ok::<(), ColorError>(()))
            &&& (m == 0 ==> *final(rgb) == *old(rgb))
            &&& (m > 0 ==> {
                &&& final(rgb).r == old(rgb).r * SCALE / m
                &&& final(rgb).g == old(rgb).g * SCALE / m
                &&& final(rgb).b == old(rgb).b * SCALE / m
                &&& 0 <= final(rgb).r <= SCALE
                &&& 0 <= final(rgb).g <= SCALE
                &&& 0 <= final(rgb).b <= SCALE
                &&& max3(final(rgb).r as int, final(rgb).g as int, final(rgb).b as int) == SCALE
            })
        }),
{
    let m = channel_max(rgb);
    if m == 0 {
        return Err(ColorError::DegenerateWhitepoint);
    }
    proof {
        lemma_normalize_bounds(rgb.r as int, m as int);
        lemma_normalize_bounds(rgb.g as int, m as int);
        lemma_normalize_bounds(rgb.b as int, m as int);
    }
    rgb.r = rgb.r * SCALE / m;
    rgb.g = rgb.g * SCALE / m;
    rgb.b = rgb.b * SCALE / m;
    Ok(())
}

/// A channel no larger than the maximum maps into [0, SCALE], and the
/// maximum itself maps to exactly SCALE.
proof fn lemma_normalize_bounds(c: int, m: int) by (nonlinear_arith)
    requires
        0 <= c,
        0 < m,
        c <= m,
    ensures
        0 <= c * SCALE / m <= SCALE,
        c == m ==> c * SCALE / m == SCALE,
{
}

} // verus!
