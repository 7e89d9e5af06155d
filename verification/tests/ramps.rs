//! Tests for the ramp synthesizer and the full request/response pipeline.

use colortemp::fixed::{ColorError, Rgb, SCALE};
use colortemp::pow::pow_fixed_exec;
use colortemp::ramp::build_ramp;
use colortemp::whitepoint::{calc_whitepoint, compute_ramps};

#[test]
fn power_function_fixed_points() {
    // b ^ 1 == b, 1 ^ e == 1, 0 ^ e == 0
    assert_eq!(pow_fixed_exec(32768, SCALE), 32768);
    assert_eq!(pow_fixed_exec(SCALE, 29789), SCALE);
    assert_eq!(pow_fixed_exec(0, 29789), 0);
    // 0.5 ^ 2 and 0.5 ^ (1 / 2.2), up to fixed-point rounding
    assert_eq!(pow_fixed_exec(32768, 2 * SCALE), 16383);
    assert_eq!(pow_fixed_exec(32768, 29789), 47825);
}

#[test]
fn neutral_whitepoint_fast_path() {
    // 6500 K yields RGB (1, 1, 1) exactly, without the approximations.
    assert_eq!(calc_whitepoint(6500), Ok(Rgb { r: SCALE, g: SCALE, b: SCALE }));
}

#[test]
fn warm_whitepoint_reduces_blue() {
    assert_eq!(calc_whitepoint(4200), Ok(Rgb { r: SCALE, g: 55294, b: 41784 }));
    assert_eq!(calc_whitepoint(3000), Ok(Rgb { r: SCALE, g: 45724, b: 25471 }));
}

#[test]
fn cool_whitepoint_reduces_red() {
    assert_eq!(calc_whitepoint(10000), Ok(Rgb { r: 50217, g: 55685, b: SCALE }));
    assert_eq!(calc_whitepoint(25000), Ok(Rgb { r: 38785, g: 47693, b: SCALE }));
}

#[test]
fn boundary_temperatures_produce_whitepoints() {
    // both locus boundaries go through the full pipeline
    assert_eq!(calc_whitepoint(1667), Ok(Rgb { r: SCALE, g: 30344, b: 0 }));
    assert!(calc_whitepoint(25000).is_ok());
}

#[test]
fn identity_ramp_is_the_linear_ramp() {
    // gains (1,1,1), gamma 1, 8-bit, 256 entries: ramp[i] == i exactly
    let gains = Rgb { r: SCALE, g: SCALE, b: SCALE };
    let ramp = build_ramp(gains, SCALE, 256, 8).unwrap();
    for i in 0..256usize {
        assert_eq!(ramp.red[i] as usize, i);
        assert_eq!(ramp.green[i] as usize, i);
        assert_eq!(ramp.blue[i] as usize, i);
    }
}

#[test]
fn ramp_endpoints_and_monotonicity() {
    let gains = Rgb { r: SCALE, g: 45724, b: 25471 };
    let ramp = build_ramp(gains, 144179, 64, 16).unwrap();
    assert_eq!(ramp.red.len(), 64);
    for ch in [&ramp.red, &ramp.green, &ramp.blue] {
        assert_eq!(ch[0], 0);
        for i in 1..64usize {
            assert!(ch[i - 1] <= ch[i]);
        }
    }
    // full gain with gamma 2.2 still ends at the maximum
    assert_eq!(ramp.red[63], 65535);
}

#[test]
fn ramp_values_match_the_formula() {
    // 8 entries, 16-bit, gamma 2.2, gains of the 3000 K whitepoint
    let gains = calc_whitepoint(3000).unwrap();
    let ramp = build_ramp(gains, 144179, 8, 16).unwrap();
    assert_eq!(ramp.red, vec![0, 27061, 37082, 44587, 50816, 56241, 61101, 65535]);
    assert_eq!(ramp.green, vec![0, 22975, 31485, 37856, 43145, 47751, 51878, 55644]);
    assert_eq!(ramp.blue, vec![0, 17609, 24133, 29016, 33069, 36600, 39763, 42649]);
}

#[test]
fn smallest_ramp_has_two_entries() {
    let gains = Rgb { r: SCALE, g: SCALE, b: SCALE };
    let ramp = build_ramp(gains, 144179, 2, 16).unwrap();
    assert_eq!(ramp.red, vec![0, 65535]);
}

#[test]
fn zero_gain_ramp_is_all_zero() {
    let gains = Rgb { r: 0, g: 0, b: 0 };
    let ramp = build_ramp(gains, 144179, 5, 16).unwrap();
    assert_eq!(ramp.red, vec![0, 0, 0, 0, 0]);
}

#[test]
fn ramp_size_below_two_is_rejected() {
    let gains = Rgb { r: SCALE, g: SCALE, b: SCALE };
    assert_eq!(build_ramp(gains, SCALE, 1, 8), Err(ColorError::InvalidRampSize));
    assert_eq!(build_ramp(gains, SCALE, 0, 8), Err(ColorError::InvalidRampSize));
}

#[test]
fn bit_depth_beyond_entry_width_is_rejected() {
    let gains = Rgb { r: SCALE, g: SCALE, b: SCALE };
    assert_eq!(build_ramp(gains, SCALE, 16, 17), Err(ColorError::InvalidRampSize));
}

#[test]
fn non_positive_gamma_is_rejected() {
    let gains = Rgb { r: SCALE, g: SCALE, b: SCALE };
    assert_eq!(build_ramp(gains, 0, 256, 8), Err(ColorError::InvalidGamma));
    assert_eq!(build_ramp(gains, -3, 256, 8), Err(ColorError::InvalidGamma));
}

#[test]
fn pipeline_end_to_end() {
    let (wp, ramp) = compute_ramps(6500, SCALE, 256, 8).unwrap();
    assert_eq!(wp, Rgb { r: SCALE, g: SCALE, b: SCALE });
    for i in 0..256usize {
        assert_eq!(ramp.green[i] as usize, i);
    }
}

#[test]
fn pipeline_validates_shape_before_gamma() {
    // both invalid: the ramp size is reported first
    assert_eq!(compute_ramps(6500, 0, 1, 8), Err(ColorError::InvalidRampSize));
    assert_eq!(compute_ramps(6500, 0, 256, 8), Err(ColorError::InvalidGamma));
}
