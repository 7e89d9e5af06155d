//! Tests for the locus estimator: branch values, boundary behavior,
//! clamping, and chromaticity validity.

use colortemp::fixed::SCALE;
use colortemp::locus::{cos_pi_fixed, estimate, illuminant_d, planckian_locus};

#[test]
fn neutral_range_midpoint_blend() {
    // 3000 K lies in the blended range between Planckian and daylight.
    let c = estimate(3000);
    assert_eq!(c.x, 28606);
    assert_eq!(c.y, 26520);
}

#[test]
fn lower_locus_boundary_is_exact() {
    // 1667 K is exactly on the Planckian boundary: the formula runs, the
    // fallback (holding at 1667) is not what produces the value.
    let c = estimate(1667);
    let p = planckian_locus(1667);
    assert_eq!(c.x, p.x);
    assert_eq!(c.y, p.y);
    assert_eq!(c.x, 37005);
    assert_eq!(c.y, 26405);
}

#[test]
fn upper_daylight_boundary_is_exact() {
    // 25000 K is exactly on the daylight boundary.
    let c = estimate(25000);
    let d = illuminant_d(25000);
    assert_eq!(c.x, d.x);
    assert_eq!(c.y, d.y);
    assert_eq!(c.x, 16374);
    assert_eq!(c.y, 16698);
}

#[test]
fn temperatures_below_range_clamp() {
    let low = estimate(500);
    let floor = estimate(1000);
    assert_eq!(low.x, floor.x);
    assert_eq!(low.y, floor.y);
    // held at the 1667 K locus point
    assert_eq!(low.x, 37005);
    assert_eq!(low.y, 26405);
}

#[test]
fn temperatures_above_range_clamp() {
    let high = estimate(30000);
    let ceil = estimate(25000);
    assert_eq!(high.x, ceil.x);
    assert_eq!(high.y, ceil.y);
}

#[test]
fn blend_endpoints_meet_pure_branches() {
    // At 2500 K the raised-cosine weight is zero: pure Planckian.
    let c = estimate(2500);
    let p = planckian_locus(2500);
    assert_eq!((c.x, c.y), (p.x, p.y));
    // At 4000 K the estimator switches to pure daylight.
    let c4 = estimate(4000);
    let d4 = illuminant_d(4000);
    assert_eq!((c4.x, c4.y), (d4.x, d4.y));
}

#[test]
fn cubic_coefficient_change_at_2222() {
    // The known approximation discontinuity at 2222 K is reproduced.
    let a = estimate(2222);
    let b = estimate(2223);
    assert_eq!((a.x, a.y), (32978, 27215));
    assert_eq!((b.x, b.y), (32972, 27216));
}

#[test]
fn chromaticity_valid_across_range() {
    // x, y in [0, 1] and x + y <= 1 for a sweep of the whole domain.
    let mut t: i64 = 1000;
    while t <= 25000 {
        let c = estimate(t);
        assert!(0 <= c.x && c.x <= SCALE, "x out of range at {} K", t);
        assert!(0 <= c.y && c.y <= SCALE, "y out of range at {} K", t);
        assert!(c.x + c.y <= SCALE, "x + y > 1 at {} K", t);
        t += 7;
    }
}

#[test]
fn cosine_fixed_points() {
    assert_eq!(cos_pi_fixed(0), SCALE);
    assert_eq!(cos_pi_fixed(SCALE), -SCALE);
    // cos(pi / 2) is zero up to the series truncation
    assert!(cos_pi_fixed(SCALE / 2).abs() <= 4);
}
