//! Ramp synthesis: turns per-channel whitepoint gains, a display gamma and a
//! requested table shape into three quantized gamma lookup tables.

use vstd::prelude::*;
use vstd::arithmetic::power2::*;
use vstd::arithmetic::div_mod::*;
use vstd::arithmetic::mul::*;
use crate::fixed::{Rgb, ColorError, SCALE, HALF_SCALE};
use crate::pow::{pow_fixed, pow_fixed_exec, lemma_pow_fixed_bounds, lemma_pow_fixed_mono, lemma_pow2_le};

verus! {

/// Three gamma lookup tables of equal length, one per channel; each entry
/// is bounded by the requested bit depth and each table is non-decreasing.
#[derive(Clone, Debug, PartialEq, Eq)]
pub struct GammaRamp {
    pub red: Vec<u16>,
    pub green: Vec<u16>,
    pub blue: Vec<u16>,
}

/// The fixed-point exponent `1 / display_gamma`, saturated below at the
/// smallest representable positive value.
pub open spec fn ramp_exponent(display_gamma: int) -> int {
    let e = SCALE * SCALE / display_gamma;
    if e < 1 {
        1
    } else {
        e
    }
}

/// The linear ramp position `i / (n - 1)` in `SCALE` units.
pub open spec fn ramp_position(i: int, n: int) -> int {
    i * SCALE / (n - 1)
}

/// One quantized ramp entry:
/// `round(max_value * ((i / (n - 1)) * gain) ^ (e / SCALE))`.
pub open spec fn ramp_value(gain: int, e: int, n: int, max_value: int, i: int) -> int {
    let base = ramp_position(i, n) * gain / (SCALE as int);
    (max_value * pow_fixed(base, e) + HALF_SCALE) / (SCALE as int)
}

/// The ramp position and the gained base stay within `[0, SCALE]`.
proof fn lemma_ramp_base_bounds(gain: int, n: int, i: int)
    requires
        0 <= gain <= SCALE,
        2 <= n,
        0 <= i < n,
    ensures
        0 <= ramp_position(i, n) <= SCALE,
        0 <= ramp_position(i, n) * gain / (SCALE as int) <= SCALE,
{
    let s = SCALE as int;
    lemma_mul_nonnegative(i, s);
    lemma_div_pos_is_pos(i * s, n - 1);
    lemma_mul_inequality(i, n - 1, s);
    lemma_div_is_ordered(i * s, (n - 1) * s, n - 1);
    lemma_div_multiples_vanish(s, n - 1);
    assert((n - 1) * s == s * (n - 1)) by (nonlinear_arith);
    let pos = ramp_position(i, n);
    lemma_mul_nonnegative(pos, gain);
    lemma_div_pos_is_pos(pos * gain, s);
    lemma_mul_upper_bound(pos, s, gain, s);
    lemma_div_is_ordered(pos * gain, s * s, s);
    lemma_div_multiples_vanish(s, s);
}

/// Successive ramp entries never decrease: the base grows with the index
/// and the power function is monotone in its base.
pub proof fn lemma_ramp_value_mono(gain: int, e: int, n: int, max_value: int, i: int, j: int)
    requires
        0 <= gain <= SCALE,
        1 <= e,
        2 <= n,
        0 <= max_value,
        0 <= i <= j < n,
    ensures
        ramp_value(gain, e, n, max_value, i) <= ramp_value(gain, e, n, max_value, j),
{
    let s = SCALE as int;
    lemma_ramp_base_bounds(gain, n, i);
    lemma_ramp_base_bounds(gain, n, j);
    lemma_mul_inequality(i, j, s);
    lemma_div_is_ordered(i * s, j * s, n - 1);
    let pi = ramp_position(i, n);
    let pj = ramp_position(j, n);
    lemma_mul_inequality(pi, pj, gain);
    lemma_div_is_ordered(pi * gain, pj * gain, s);
    let bi = pi * gain / s;
    let bj = pj * gain / s;
    lemma_pow_fixed_mono(bi, bj, e);
    lemma_pow_fixed_bounds(bi, e);
    assert(max_value * pow_fixed(bi, e) <= max_value * pow_fixed(bj, e)) by (nonlinear_arith)
        requires
            0 <= max_value,
            pow_fixed(bi, e) <= pow_fixed(bj, e),
    ;
    lemma_div_is_ordered(
        max_value * pow_fixed(bi, e) + HALF_SCALE,
        max_value * pow_fixed(bj, e) + HALF_SCALE,
        s,
    );
}

/// The first ramp entry is exactly zero.
pub proof fn lemma_ramp_value_zero(gain: int, e: int, n: int, max_value: int)
    requires
        0 <= gain <= SCALE,
        1 <= e,
        2 <= n,
        0 <= max_value,
    ensures
        ramp_value(gain, e, n, max_value, 0) == 0,
{
    let s = SCALE as int;
    assert(0 * s == 0) by (nonlinear_arith);
    lemma_div_of0(n - 1);
    assert(ramp_position(0, n) == 0);
    lemma_div_of0(s);
    assert(pow_fixed(0, e) == 0);
    assert(max_value * 0 == 0) by (nonlinear_arith);
}

/// The last ramp entry is exactly `round(max_value * gain ^ (e / SCALE))`.
pub proof fn lemma_ramp_value_last(gain: int, e: int, n: int, max_value: int)
    requires
        0 <= gain <= SCALE,
        1 <= e,
        2 <= n,
        0 <= max_value,
    ensures
        ramp_value(gain, e, n, max_value, n - 1)
            == (max_value * pow_fixed(gain, e) + HALF_SCALE) / (SCALE as int),
{
    let s = SCALE as int;
    lemma_div_multiples_vanish(s, n - 1);
    assert((n - 1) * s == s * (n - 1)) by (nonlinear_arith);
    assert(ramp_position(n - 1, n) == s);
    lemma_div_multiples_vanish(gain, s);
    assert(s * gain == gain * s) by (nonlinear_arith);
}

/// One channel's table: `n` entries of `ramp_value` for the given gain.
fn build_channel(gain: i64, e: i64, n: u32, max_value: u16) -> (v: Vec<u16>)
    requires
        0 <= gain <= SCALE,
        1 <= e <= SCALE * SCALE,
        2 <= n,
    ensures
        v@.len() == n,
        forall|i: int| 0 <= i < n ==> v@[i] == ramp_value(gain as int, e as int, n as int, max_value as int, i),
{
    let mut v: Vec<u16> = Vec::new();
    let mut i: u32 = 0;
    while i < n
        invariant
            0 <= i <= n,
            2 <= n,
            0 <= gain <= SCALE,
            1 <= e <= SCALE * SCALE,
            v@.len() == i,
            forall|j: int| 0 <= j < i ==> v@[j] == ramp_value(gain as int, e as int, n as int, max_value as int, j),
        decreases n - i,
    {
        proof {
            lemma_ramp_base_bounds(gain as int, n as int, i as int);
        }
        let pos: i64 = (i as i64) * SCALE / ((n - 1) as i64);
        let base: i64 = pos * gain / SCALE;
        let p = pow_fixed_exec(base, e);
        proof {
            lemma_mul_nonnegative(max_value as int, p as int);
            assert((max_value as int) * p <= (max_value as int) * SCALE) by (nonlinear_arith)
                requires
                    0 <= max_value as int,
                    p <= SCALE,
            ;
            lemma_div_pos_is_pos(max_value * p + HALF_SCALE, SCALE as int);
            lemma_div_is_ordered(
                max_value * p + HALF_SCALE,
                max_value * SCALE + HALF_SCALE,
                SCALE as int,
            );
            lemma_div_multiples_vanish_fancy(max_value as int, HALF_SCALE as int, SCALE as int);
            assert(SCALE * (max_value as int) == (max_value as int) * SCALE) by (nonlinear_arith);
        }
        let val: i64 = (max_value as i64) * p + HALF_SCALE;
        let entry: u16 = (val / SCALE) as u16;
        v.push(entry);
        i = i + 1;
    }
    v
}

/// Builds the three gamma tables from the whitepoint gains, the display
/// gamma, the table length and the bit depth of one entry.
///
/// A table length below two or a bit depth above the entry width is an
/// `InvalidRampSize`; a gamma that is not strictly positive is an
/// `InvalidGamma`; both are rejected before any computation. Each produced
/// table is non-decreasing, starts at zero, and ends at
/// `round(max_value * gain ^ (1 / display_gamma))`.
pub fn build_ramp(gains: Rgb, display_gamma: i64, ramp_size: u32, bit_depth: u8) -> (res: Result<
    GammaRamp,
    ColorError,
>)
    requires
        0 <= gains.r <= SCALE,
        0 <= gains.g <= SCALE,
        0 <= gains.b <= SCALE,
    ensures
        res is Err <==> (ramp_size < 2 || bit_depth > 16 || display_gamma <= 0),
        (ramp_size < 2 || bit_depth > 16) <==> res == Err::<GammaRamp, ColorError>(
            ColorError::InvalidRampSize,
        ),
        (ramp_size >= 2 && bit_depth <= 16 && display_gamma <= 0) <==> res == Err::<
            GammaRamp,
            ColorError,
        >(ColorError::InvalidGamma),
        res matches Ok(ramp) ==> {
            let e = ramp_exponent(display_gamma as int);
            let n = ramp_size as int;
            let m = pow2(bit_depth as nat) - 1;
            &&& ramp.red@.len() == n
            &&& ramp.green@.len() == n
            &&& ramp.blue@.len() == n
            &&& forall|i: int| 0 <= i < n ==> ramp.red@[i] == ramp_value(gains.r as int, e, n, m, i)
            &&& forall|i: int|
                0 <= i < n ==> ramp.green@[i] == ramp_value(gains.g as int, e, n, m, i)
            &&& forall|i: int| 0 <= i < n ==> ramp.blue@[i] == ramp_value(gains.b as int, e, n, m, i)
            &&& forall|i: int, j: int| 0 <= i <= j < n ==> ramp.red@[i] <= ramp.red@[j]
            &&& forall|i: int, j: int| 0 <= i <= j < n ==> ramp.green@[i] <= ramp.green@[j]
            &&& forall|i: int, j: int| 0 <= i <= j < n ==> ramp.blue@[i] <= ramp.blue@[j]
            &&& ramp.red@[0] == 0
            &&& ramp.green@[0] == 0
            &&& ramp.blue@[0] == 0
            &&& ramp.red@[n - 1] == (m * pow_fixed(gains.r as int, e) + HALF_SCALE) / (SCALE as int)
            &&& ramp.green@[n - 1] == (m * pow_fixed(gains.g as int, e) + HALF_SCALE) / (
            SCALE as int)
            &&& ramp.blue@[n - 1] == (m * pow_fixed(gains.b as int, e) + HALF_SCALE) / (SCALE as int)
        },
{
    if ramp_size < 2 || bit_depth > 16 {
        return Err(ColorError::InvalidRampSize);
    }
    if display_gamma <= 0 {
        return Err(ColorError::InvalidGamma);
    }
    let mut e: i64 = SCALE * SCALE / display_gamma;
    if e < 1 {
        e = 1;
    }
    proof {
        lemma_div_pos_is_pos(SCALE * SCALE, display_gamma as int);
        lemma_div_nonincreasing(SCALE * SCALE, display_gamma as int);
        assert(e == ramp_exponent(display_gamma as int));
    }
    // 2^bit_depth - 1, the largest value one entry may hold
    let mut mv: u32 = 1;
    let mut j: u8 = 0;
    proof {
        lemma2_to64();
    }
    while j < bit_depth
        invariant
            0 <= j <= bit_depth <= 16,
            mv == pow2(j as nat),
            mv <= 65536,
        decreases bit_depth - j,
    {
        proof {
            lemma_pow2_unfold((j + 1) as nat);
            lemma_pow2_le((j + 1) as nat, 16);
            assert(pow2(16) == 65536) by { lemma2_to64(); }
        }
        mv = mv * 2;
        j = j + 1;
    }
    let max_value: u16 = (mv - 1) as u16;
    let n = ramp_size;
    let red = build_channel(gains.r, e, n, max_value);
    let green = build_channel(gains.g, e, n, max_value);
    let blue = build_channel(gains.b, e, n, max_value);
    proof {
        let ee = e as int;
        let nn = n as int;
        let m = max_value as int;
        assert forall|i: int, j2: int| 0 <= i <= j2 < nn implies ramp_value(
            gains.r as int,
            ee,
            nn,
            m,
            i,
        ) <= ramp_value(gains.r as int, ee, nn, m, j2) by {
            lemma_ramp_value_mono(gains.r as int, ee, nn, m, i, j2);
        }
        assert forall|i: int, j2: int| 0 <= i <= j2 < nn implies ramp_value(
            gains.g as int,
            ee,
            nn,
            m,
            i,
        ) <= ramp_value(gains.g as int, ee, nn, m, j2) by {
            lemma_ramp_value_mono(gains.g as int, ee, nn, m, i, j2);
        }
        assert forall|i: int, j2: int| 0 <= i <= j2 < nn implies ramp_value(
            gains.b as int,
            ee,
            nn,
            m,
            i,
        ) <= ramp_value(gains.b as int, ee, nn, m, j2) by {
            lemma_ramp_value_mono(gains.b as int, ee, nn, m, i, j2);
        }
        lemma_ramp_value_zero(gains.r as int, ee, nn, m);
        lemma_ramp_value_zero(gains.g as int, ee, nn, m);
        lemma_ramp_value_zero(gains.b as int, ee, nn, m);
        lemma_ramp_value_last(gains.r as int, ee, nn, m);
        lemma_ramp_value_last(gains.g as int, ee, nn, m);
        lemma_ramp_value_last(gains.b as int, ee, nn, m);
    }
    Ok(GammaRamp { red, green, blue })
}

} // verus!
