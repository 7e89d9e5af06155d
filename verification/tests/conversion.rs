//! Tests for the XYZ-to-sRGB conversion, the transfer function, and
//! whitepoint normalization.

use colortemp::fixed::{ColorError, Rgb, Xyz, SCALE};
use colortemp::srgb::{clamp, srgb_gamma, srgb_normalize, xyz_to_srgb, GAMMA_22};

#[test]
fn clamp_pins_to_unit_range() {
    assert_eq!(clamp(-5), 0);
    assert_eq!(clamp(0), 0);
    assert_eq!(clamp(1234), 1234);
    assert_eq!(clamp(SCALE), SCALE);
    assert_eq!(clamp(SCALE + 1), SCALE);
}

#[test]
fn transfer_function_linear_branch() {
    // 12.92 * v below the cutoff
    assert_eq!(srgb_gamma(0, GAMMA_22), 0);
    assert_eq!(srgb_gamma(100, GAMMA_22), 1291);
    assert_eq!(srgb_gamma(205, GAMMA_22), 2648);
}

#[test]
fn transfer_function_power_branch() {
    // (1.055 v) ^ (1 / 2.2) - 0.055 above the cutoff; the formula is
    // reproduced as written, including its step at the cutoff.
    assert_eq!(srgb_gamma(206, GAMMA_22), 1284);
    assert_eq!(srgb_gamma(SCALE, GAMMA_22), 63546);
}

#[test]
fn converter_matches_matrix_and_transfer() {
    let xyz = Xyz { x: 21712, y: 23033, z: 20791 };
    let rgb = xyz_to_srgb(&xyz);
    assert_eq!(rgb.r, 39400);
    assert_eq!(rgb.g, 38139);
    assert_eq!(rgb.b, 34174);
}

#[test]
fn converter_output_is_displayable() {
    let xyz = Xyz { x: 0, y: 0, z: SCALE };
    let rgb = xyz_to_srgb(&xyz);
    assert!(0 <= rgb.r && rgb.r <= SCALE);
    assert!(0 <= rgb.g && rgb.g <= SCALE);
    assert!(0 <= rgb.b && rgb.b <= SCALE);
}

#[test]
fn normalize_scales_brightest_channel_to_one() {
    let mut rgb = Rgb { r: 32768, g: 16384, b: 8192 };
    assert_eq!(srgb_normalize(&mut rgb), Ok(()));
    assert_eq!(rgb.r, SCALE);
    assert_eq!(rgb.g, 32768);
    assert_eq!(rgb.b, 16384);
}

#[test]
fn normalize_keeps_channel_ratios() {
    let mut rgb = Rgb { r: 30000, g: 45000, b: 60000 };
    assert_eq!(srgb_normalize(&mut rgb), Ok(()));
    assert_eq!(rgb.b, SCALE);
    // exact fixed-point quotients against the maximum
    assert_eq!(rgb.r, 30000 * SCALE / 60000);
    assert_eq!(rgb.g, 45000 * SCALE / 60000);
    let max = rgb.r.max(rgb.g).max(rgb.b);
    assert_eq!(max, SCALE);
}

#[test]
fn normalize_of_black_is_degenerate() {
    let mut rgb = Rgb { r: 0, g: 0, b: 0 };
    assert_eq!(srgb_normalize(&mut rgb), Err(ColorError::DegenerateWhitepoint));
    // the triple is left untouched
    assert_eq!(rgb, Rgb { r: 0, g: 0, b: 0 });
}

#[test]
fn normalize_of_already_normalized_is_identity() {
    let mut rgb = Rgb { r: SCALE, g: 40000, b: 20000 };
    assert_eq!(srgb_normalize(&mut rgb), Ok(()));
    assert_eq!(rgb, Rgb { r: SCALE, g: 40000, b: 20000 });
}
