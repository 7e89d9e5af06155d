//! The full pipeline: temperature to normalized whitepoint, and
//! temperature plus ramp parameters to quantized gamma tables.

use vstd::prelude::*;
use vstd::arithmetic::power2::pow2;
use crate::fixed::{Rgb, Xyz, ColorError, SCALE};
use crate::locus::{estimate, estimate_x, estimate_y};
use crate::srgb::{
    xyz_to_srgb, srgb_normalize, srgb_r_of, srgb_g_of, srgb_b_of, max3,
};
use crate::ramp::{build_ramp, GammaRamp, ramp_exponent, ramp_value};

verus! {

/// The raw (pre-normalization) red channel of the whitepoint at `t`.
pub open spec fn whitepoint_raw_r(t: int) -> int {
    srgb_r_of(estimate_x(t), estimate_y(t), SCALE - estimate_x(t) - estimate_y(t))
}

/// The raw green channel of the whitepoint at `t`.
pub open spec fn whitepoint_raw_g(t: int) -> int {
    srgb_g_of(estimate_x(t), estimate_y(t), SCALE - estimate_x(t) - estimate_y(t))
}

/// The raw blue channel of the whitepoint at `t`.
pub open spec fn whitepoint_raw_b(t: int) -> int {
    srgb_b_of(estimate_x(t), estimate_y(t), SCALE - estimate_x(t) - estimate_y(t))
}

/// The brightest raw channel: the normalization divisor.
pub open spec fn whitepoint_max(t: int) -> int {
    max3(whitepoint_raw_r(t), whitepoint_raw_g(t), whitepoint_raw_b(t))
}

/// Whether the whitepoint at `t` is computable: the neutral fast path, or
/// a non-degenerate maximum.
pub open spec fn whitepoint_ok(t: int) -> bool {
    t == 6500 || whitepoint_max(t) > 0
}

/// The normalized red gain at `t` (meaningful when `whitepoint_ok(t)`).
pub open spec fn whitepoint_r(t: int) -> int {
    if t == 6500 {
        SCALE as int
    } else {
        whitepoint_raw_r(t) * SCALE / whitepoint_max(t)
    }
}

/// The normalized green gain at `t`.
pub open spec fn whitepoint_g(t: int) -> int {
    if t == 6500 {
        SCALE as int
    } else {
        whitepoint_raw_g(t) * SCALE / whitepoint_max(t)
    }
}

/// The normalized blue gain at `t`.
pub open spec fn whitepoint_b(t: int) -> int {
    if t == 6500 {
        SCALE as int
    } else {
        whitepoint_raw_b(t) * SCALE / whitepoint_max(t)
    }
}

/// Computes the normalized RGB whitepoint for a color temperature: locus
/// estimation, conversion to sRGB, and normalization of the brightest
/// channel to exactly `SCALE`.
///
/// A temperature of exactly 6500 K returns the neutral whitepoint without
/// running the approximations, so that the no-correction case stays exact.
/// A degenerate (all-zero) converted triple is reported as an error, never
/// divided.
#[verifier::rlimit(60)]
pub fn calc_whitepoint(temp: i64) -> (res: Result<Rgb, ColorError>)
    ensures
        res is Ok <==> whitepoint_ok(temp as int),
        res is Err ==> res == Err::<Rgb, ColorError>(ColorError::DegenerateWhitepoint),
        temp == 6500 ==> res == Ok::<Rgb, ColorError>(Rgb { r: SCALE, g: SCALE, b: SCALE }),
        res matches Ok(rgb) ==> {
            &&& rgb.r == whitepoint_r(temp as int)
            &&& rgb.g == whitepoint_g(temp as int)
            &&& rgb.b == whitepoint_b(temp as int)
            &&& 0 <= rgb.r <= SCALE
            &&& 0 <= rgb.g <= SCALE
            &&& 0 <= rgb.b <= SCALE
            &&& max3(rgb.r as int, rgb.g as int, rgb.b as int) == SCALE
        },
{
    if temp == 6500 {
        return Ok(Rgb { r: SCALE, g: SCALE, b: SCALE });
    }
    let ghost t = temp as int;
    let c = estimate(temp);
    let z: i64 = SCALE - c.x - c.y;
    let xyz = Xyz { x: c.x, y: c.y, z };
    let mut rgb = xyz_to_srgb(&xyz);
    proof {
        assert(rgb.r == whitepoint_raw_r(t));
        assert(rgb.g == whitepoint_raw_g(t));
        assert(rgb.b == whitepoint_raw_b(t));
        assert(max3(rgb.r as int, rgb.g as int, rgb.b as int) == whitepoint_max(t));
        assert(whitepoint_max(t) >= 0);
    }
    match srgb_normalize(&mut rgb) {
        Ok(()) => {
            proof {
                assert(rgb.r == whitepoint_r(t));
                assert(rgb.g == whitepoint_g(t));
                assert(rgb.b == whitepoint_b(t));
            }
            Ok(rgb)
        },
        Err(e) => Err(e),
    }
}

/// The request/response entry point of the pipeline: the caller supplies
/// temperature, display gamma and the table shape, and receives the
/// diagnostic whitepoint together with the three gamma tables, or the
/// first applicable error.
///
/// The shape and the gamma are validated before any computation:
/// `InvalidRampSize`, then `InvalidGamma`, then a possible
/// `DegenerateWhitepoint` from normalization.
pub fn compute_ramps(temp: i64, display_gamma: i64, ramp_size: u32, bit_depth: u8) -> (res: Result<
    (Rgb, GammaRamp),
    ColorError,
>)
    ensures
        (ramp_size < 2 || bit_depth > 16) <==> res == Err::<(Rgb, GammaRamp), ColorError>(
            ColorError::InvalidRampSize,
        ),
        (ramp_size >= 2 && bit_depth <= 16 && display_gamma <= 0) <==> res == Err::<
            (Rgb, GammaRamp),
            ColorError,
        >(ColorError::InvalidGamma),
        (ramp_size >= 2 && bit_depth <= 16 && display_gamma > 0 && !whitepoint_ok(temp as int))
            <==> res == Err::<(Rgb, GammaRamp), ColorError>(ColorError::DegenerateWhitepoint),
        res matches Ok((wp, ramp)) ==> {
            let t = temp as int;
            let e = ramp_exponent(display_gamma as int);
            let n = ramp_size as int;
            let m = pow2(bit_depth as nat) - 1;
            &&& wp.r == whitepoint_r(t)
            &&& wp.g == whitepoint_g(t)
            &&& wp.b == whitepoint_b(t)
            &&& ramp.red@.len() == n
            &&& ramp.green@.len() == n
            &&& ramp.blue@.len() == n
            &&& forall|i: int| 0 <= i < n ==> ramp.red@[i] == ramp_value(whitepoint_r(t), e, n, m, i)
            &&& forall|i: int|
                0 <= i < n ==> ramp.green@[i] == ramp_value(whitepoint_g(t), e, n, m, i)
            &&& forall|i: int|
                0 <= i < n ==> ramp.blue@[i] == ramp_value(whitepoint_b(t), e, n, m, i)
            &&& forall|i: int, j: int| 0 <= i <= j < n ==> ramp.red@[i] <= ramp.red@[j]
            &&& forall|i: int, j: int| 0 <= i <= j < n ==> ramp.green@[i] <= ramp.green@[j]
            &&& forall|i: int, j: int| 0 <= i <= j < n ==> ramp.blue@[i] <= ramp.blue@[j]
        },
{
    if ramp_size < 2 || bit_depth > 16 {
        return Err(ColorError::InvalidRampSize);
    }
    if display_gamma <= 0 {
        return Err(ColorError::InvalidGamma);
    }
    let wp = match calc_whitepoint(temp) {
        Ok(rgb) => rgb,
        Err(e) => {
            return Err(e);
        },
    };
    match build_ramp(wp, display_gamma, ramp_size, bit_depth) {
        Ok(ramp) => Ok((wp, ramp)),
        Err(e) => {
            proof {
                assert(false);
            }
            Err(e)
        },
    }
}

} // verus!
