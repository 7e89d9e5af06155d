//! Fixed-point binary logarithm, binary exponential, and the power function
//! `b ^ (e / SCALE)` built from them.
//!
//! The representation is the one of `crate::fixed`: `SCALE` stands for 1.0
//! and is a power of two, so a mantissa in `[SCALE, 2 * SCALE)` stands for a
//! real number in `[1, 2)`. `fraclog` extracts the fractional bits of the
//! binary logarithm of such a mantissa by repeated squaring; `exp2_frac` is
//! its exact inverse (the largest mantissa whose `fraclog` does not exceed
//! the argument), which makes both provably monotonic — the property the
//! ramp synthesizer's contract rests on.

use vstd::prelude::*;
use vstd::arithmetic::power2::*;
use vstd::arithmetic::div_mod::*;
use vstd::arithmetic::mul::*;
use crate::fixed::SCALE;

verus! {

/// The first `n` fractional bits of the binary logarithm of the mantissa
/// `m` in `[SCALE, 2 * SCALE)`, as an integer in `[0, 2^n)`: one squaring
/// step per bit.
pub open spec fn fraclog(m: int, n: nat) -> int
    decreases n,
{
    if n == 0 {
        0
    } else {
        let sq = m * m / (SCALE as int);
        if sq >= 2 * SCALE {
            pow2((n - 1) as nat) + fraclog(sq / 2, (n - 1) as nat)
        } else {
            fraclog(sq, (n - 1) as nat)
        }
    }
}

/// One squaring step keeps the mantissa in `[SCALE, 2 * SCALE)`.
proof fn lemma_fraclog_step(m: int)
    requires
        SCALE <= m < 2 * SCALE,
    ensures
        SCALE <= m * m / (SCALE as int) < 4 * SCALE,
        m * m / (SCALE as int) >= 2 * SCALE ==> SCALE <= m * m / (SCALE as int) / 2 < 2 * SCALE,
{
    assert(SCALE * SCALE <= m * m < (4 * SCALE) * SCALE) by (nonlinear_arith)
        requires SCALE <= m < 2 * SCALE;
    assert(m * m / (SCALE as int) >= SCALE) by {
        lemma_div_is_ordered(SCALE * SCALE, m * m, SCALE as int);
        lemma_div_multiples_vanish(SCALE as int, SCALE as int);
    }
    assert(m * m / (SCALE as int) < 4 * SCALE) by {
        lemma_div_is_strictly_smaller_converse(m * m, SCALE as int, 4 * SCALE);
    }
}

/// Helper: if `x < d * bound` then `x / d < bound` (for positive `d`).
proof fn lemma_div_is_strictly_smaller_converse(x: int, d: int, bound: int)
    requires
        0 <= x,
        0 < d,
        x < d * bound,
    ensures
        x / d < bound,
{
    lemma_fundamental_div_mod(x, d);
    lemma_remainder_lower(x, d);
    assert(x / d < bound) by (nonlinear_arith)
        requires 0 < d, d * (x / d) + x % d == x, 0 <= x % d, x < d * bound;
}

/// `fraclog` of `n` steps lies in `[0, 2^n)`.
pub proof fn lemma_fraclog_range(m: int, n: nat)
    requires
        SCALE <= m < 2 * SCALE,
    ensures
        0 <= fraclog(m, n) < pow2(n),
    decreases n,
{
    if n == 0 {
        assert(pow2(0) == 1) by { lemma2_to64(); }
    } else {
        lemma_fraclog_step(m);
        let sq = m * m / (SCALE as int);
        lemma_pow2_unfold(n);
        if sq >= 2 * SCALE {
            lemma_fraclog_range(sq / 2, (n - 1) as nat);
        } else {
            lemma_fraclog_range(sq, (n - 1) as nat);
        }
    }
}

/// `fraclog` is monotone in the mantissa.
pub proof fn lemma_fraclog_mono(m1: int, m2: int, n: nat)
    requires
        SCALE <= m1 <= m2 < 2 * SCALE,
    ensures
        fraclog(m1, n) <= fraclog(m2, n),
    decreases n,
{
    if n > 0 {
        lemma_fraclog_step(m1);
        lemma_fraclog_step(m2);
        let sq1 = m1 * m1 / (SCALE as int);
        let sq2 = m2 * m2 / (SCALE as int);
        assert(m1 * m1 <= m2 * m2) by (nonlinear_arith)
            requires 0 <= m1 <= m2;
        lemma_div_is_ordered(m1 * m1, m2 * m2, SCALE as int);
        if sq1 >= 2 * SCALE {
            lemma_div_is_ordered(sq1, sq2, 2);
            lemma_fraclog_mono(sq1 / 2, sq2 / 2, (n - 1) as nat);
        } else if sq2 >= 2 * SCALE {
            lemma_fraclog_range(sq1, (n - 1) as nat);
            lemma_fraclog_range(sq2 / 2, (n - 1) as nat);
        } else {
            lemma_fraclog_mono(sq1, sq2, (n - 1) as nat);
        }
    }
}

/// The mantissa `SCALE` (the real number 1) has a zero logarithm.
pub proof fn lemma_fraclog_one(n: nat)
    ensures
        fraclog(SCALE as int, n) == 0,
    decreases n,
{
    if n > 0 {
        lemma_div_multiples_vanish(SCALE as int, SCALE as int);
        assert(SCALE * SCALE / (SCALE as int) == SCALE);
        lemma_fraclog_one((n - 1) as nat);
    }
}

/// Computes `fraclog(m, 16)`: the 16 fractional bits of the binary
/// logarithm of the mantissa `m`.
pub fn log2_frac(m0: i64) -> (r: i64)
    requires
        SCALE <= m0 < 2 * SCALE,
    ensures
        r == fraclog(m0 as int, 16),
        0 <= r < SCALE,
{
    let mut m: i64 = m0;
    let mut acc: i64 = 0;
    let mut i: u64 = 0;
    proof {
        lemma2_to64();
    }
    while i < 16
        invariant
            0 <= i <= 16,
            SCALE <= m < 2 * SCALE,
            0 <= acc < pow2(i as nat),
            fraclog(m0 as int, 16) == acc * pow2((16 - i) as nat) + fraclog(m as int, (16 - i) as nat),
            pow2(16) == 65536,
        decreases 16 - i,
    {
        proof {
            lemma_fraclog_step(m as int);
            lemma_pow2_unfold((16 - i) as nat);
            lemma_pow2_strictly_increases(i as nat, 16);
            lemma_pow2_unfold((i + 1) as nat);
            assert(acc * pow2((16 - i) as nat)
                == (acc * 2) * pow2((16 - i - 1) as nat)) by (nonlinear_arith)
                requires pow2((16 - i) as nat) == 2 * pow2((16 - i - 1) as nat);
            assert((acc * 2 + 1) * pow2((16 - i - 1) as nat)
                == acc * 2 * pow2((16 - i - 1) as nat) + pow2((16 - i - 1) as nat)) by (nonlinear_arith);
        }
        let sq: i64 = m * m / SCALE;
        if sq >= 2 * SCALE {
            acc = acc * 2 + 1;
            m = sq / 2;
        } else {
            acc = acc * 2;
            m = sq;
        }
        i = i + 1;
    }
    proof {
        lemma2_to64();
        assert(fraclog(m as int, 0) == 0);
        assert(fraclog(m0 as int, 16) == acc * pow2(0) + fraclog(m as int, 0));
        lemma_fraclog_range(m0 as int, 16);
    }
    acc
}

/// Characterizes the fixed-point binary exponential of `y` in `[0, SCALE]`:
/// the largest mantissa in `[SCALE, 2 * SCALE)` whose `fraclog` does not
/// exceed `y`.
pub open spec fn is_exp2_frac(y: int, w: int) -> bool {
    &&& SCALE <= w < 2 * SCALE
    &&& fraclog(w, 16) <= y
    &&& (w == 2 * SCALE - 1 || fraclog(w + 1, 16) > y)
}

/// The fixed-point binary exponential `2 ^ (y / SCALE) * SCALE` for
/// `y` in `[0, SCALE)`, defined as the exact inverse of `fraclog`.
pub open spec fn exp2_frac(y: int) -> int {
    choose|w: int| is_exp2_frac(y, w)
}

/// At most one mantissa satisfies the exponential characterization.
proof fn lemma_exp2_unique(y: int, w1: int, w2: int)
    requires
        is_exp2_frac(y, w1),
        is_exp2_frac(y, w2),
    ensures
        w1 == w2,
{
    if w1 < w2 {
        lemma_fraclog_mono(w1 + 1, w2, 16);
    }
    if w2 < w1 {
        lemma_fraclog_mono(w2 + 1, w1, 16);
    }
}

/// Some mantissa at or above `w0` satisfies the characterization, provided
/// `w0` itself is within the logarithm bound.
proof fn lemma_exp2_exists_from(y: int, w0: int)
    requires
        SCALE <= w0 < 2 * SCALE,
        fraclog(w0, 16) <= y,
    ensures
        exists|w: int| is_exp2_frac(y, w),
    decreases 2 * SCALE - w0,
{
    if w0 == 2 * SCALE - 1 {
        assert(is_exp2_frac(y, w0));
    } else if fraclog(w0 + 1, 16) > y {
        assert(is_exp2_frac(y, w0));
    } else {
        lemma_exp2_exists_from(y, w0 + 1);
    }
}

/// For a non-negative argument the exponential exists, is unique, and so
/// `exp2_frac` satisfies its own characterization.
pub proof fn lemma_exp2_frac_props(y: int)
    requires
        0 <= y,
    ensures
        is_exp2_frac(y, exp2_frac(y)),
{
    lemma_fraclog_one(16);
    lemma_exp2_exists_from(y, SCALE as int);
}

/// The exponential is monotone in its argument.
pub proof fn lemma_exp2_frac_mono(y1: int, y2: int)
    requires
        0 <= y1 <= y2,
    ensures
        exp2_frac(y1) <= exp2_frac(y2),
{
    lemma_exp2_frac_props(y1);
    lemma_exp2_frac_props(y2);
    let w1 = exp2_frac(y1);
    let w2 = exp2_frac(y2);
    if w1 > w2 {
        lemma_fraclog_mono(w2 + 1, w1, 16);
    }
}

/// Computes `exp2_frac(y)` by binary search over the monotone `fraclog`.
pub fn exp2_frac_exec(y: i64) -> (r: i64)
    requires
        0 <= y,
    ensures
        r == exp2_frac(y as int),
        SCALE <= r < 2 * SCALE,
{
    let mut lo: i64 = SCALE;
    let mut hi: i64 = 2 * SCALE;
    proof {
        lemma_fraclog_one(16);
    }
    while hi - lo > 1
        invariant
            SCALE <= lo < hi <= 2 * SCALE,
            fraclog(lo as int, 16) <= y,
            hi < 2 * SCALE ==> fraclog(hi as int, 16) > y,
        decreases hi - lo,
    {
        let mid: i64 = lo + (hi - lo) / 2;
        let f = log2_frac(mid);
        if f <= y {
            lo = mid;
        } else {
            hi = mid;
        }
    }
    proof {
        assert(is_exp2_frac(y as int, lo as int));
        lemma_exp2_frac_props(y as int);
        lemma_exp2_unique(y as int, lo as int, exp2_frac(y as int));
    }
    lo
}

/// How many doublings bring `b` up into the mantissa range
/// `[SCALE, 2 * SCALE)`.
pub open spec fn norm_shift(b: int) -> nat
    recommends
        1 <= b < 2 * SCALE,
    decreases 2 * SCALE - b,
{
    if 1 <= b && b < SCALE {
        1 + norm_shift(2 * b)
    } else {
        0
    }
}

/// `pow2(e1) <= pow2(e2)` for `e1 <= e2`.
pub proof fn lemma_pow2_le(e1: nat, e2: nat)
    requires
        e1 <= e2,
    ensures
        pow2(e1) <= pow2(e2),
{
    if e1 < e2 {
        lemma_pow2_strictly_increases(e1, e2);
    }
}

/// The normalization shift lands the mantissa in range and is at most 16.
pub proof fn lemma_norm_shift(b: int)
    requires
        1 <= b < 2 * SCALE,
    ensures
        SCALE <= b * pow2(norm_shift(b)) < 2 * SCALE,
        norm_shift(b) <= 16,
        b < SCALE ==> norm_shift(b) >= 1,
    decreases 2 * SCALE - b,
{
    lemma2_to64();
    if 1 <= b && b < SCALE {
        lemma_norm_shift(2 * b);
        let k = norm_shift(2 * b);
        assert(norm_shift(b) == k + 1);
        lemma_pow2_unfold((k + 1) as nat);
        assert(b * pow2(k + 1) == (2 * b) * pow2(k)) by (nonlinear_arith)
            requires pow2(k + 1) == 2 * pow2(k);
        assert(b * pow2(norm_shift(b)) == (2 * b) * pow2(k));
        if norm_shift(b) > 16 {
            assert(k >= 16);
            lemma_pow2_le(16, k);
            assert((2 * b) * pow2(k) >= 2 * pow2(k)) by (nonlinear_arith)
                requires b >= 1, pow2(k) >= 0;
        }
    } else {
        assert(norm_shift(b) == 0);
        assert(pow2(0) == 1);
        assert(b * pow2(norm_shift(b)) == b) by (nonlinear_arith)
            requires pow2(norm_shift(b)) == 1;
    }
}

/// Larger inputs need no more doublings.
proof fn lemma_norm_shift_mono(b1: int, b2: int)
    requires
        1 <= b1 <= b2 < 2 * SCALE,
    ensures
        norm_shift(b1) >= norm_shift(b2),
    decreases 2 * SCALE - b1,
{
    if 1 <= b1 && b1 < SCALE {
        if b2 < SCALE {
            lemma_norm_shift_mono(2 * b1, 2 * b2);
        }
    }
}

/// The fixed-point power `b ^ (e / SCALE)` (both arguments in `SCALE`
/// units): the exponential of the exponent-scaled logarithm, with exact
/// short-cuts for a zero base, the base 1 and the exponent 1.
pub open spec fn pow_fixed(b: int, e: int) -> int {
    if b <= 0 {
        0
    } else if e == SCALE {
        b
    } else if b == SCALE {
        SCALE as int
    } else {
        let k = norm_shift(b);
        let l = fraclog(b * pow2(k), 16) - k * SCALE;
        if l >= 0 {
            exp2_frac(e * l / (SCALE as int))
        } else {
            let a = e * (-l) / (SCALE as int);
            let q = a / (SCALE as int);
            let r = a % (SCALE as int);
            exp2_frac(SCALE - r) / pow2((q + 1) as nat) as int
        }
    }
}

/// Range facts about `pow_fixed`: the result stays below 2.0, and a base
/// at most 1.0 gives a result at most 1.0.
pub proof fn lemma_pow_fixed_bounds(b: int, e: int)
    requires
        0 <= b < 2 * SCALE,
        1 <= e,
        b > SCALE ==> e <= SCALE,
    ensures
        0 <= pow_fixed(b, e) < 2 * SCALE,
        b <= SCALE ==> pow_fixed(b, e) <= SCALE,
        b > 0 && e == SCALE ==> pow_fixed(b, e) == b,
        b == SCALE ==> pow_fixed(b, e) == SCALE,
        0 < b < SCALE && e != SCALE ==> pow_fixed(b, e) < SCALE,
{
    lemma2_to64();
    if b <= 0 || e == SCALE || b == SCALE {
    } else {
        let k = norm_shift(b);
        lemma_norm_shift(b);
        let m = b * pow2(k);
        lemma_fraclog_range(m, 16);
        let l = fraclog(m, 16) - k * SCALE;
        if l >= 0 {
            lemma_mul_nonnegative(e, l);
            lemma_div_pos_is_pos(e * l, SCALE as int);
            lemma_exp2_frac_props(e * l / (SCALE as int));
        } else {
            lemma_mul_nonnegative(e, -l);
            let a = e * (-l) / (SCALE as int);
            lemma_div_pos_is_pos(e * (-l), SCALE as int);
            let q = a / (SCALE as int);
            let r = a % (SCALE as int);
            lemma_div_pos_is_pos(a, SCALE as int);
            lemma_mod_division_less_than_divisor(a, SCALE as int);
            lemma_exp2_frac_props(SCALE - r);
            let w = exp2_frac(SCALE - r);
            lemma_pow2_unfold((q + 1) as nat);
            lemma_pow2_le(1, (q + 1) as nat);
            assert(pow2((q + 1) as nat) >= 2);
            lemma_div_pos_is_pos(w, pow2((q + 1) as nat) as int);
            lemma_div_is_ordered(w, 2 * SCALE - 1, pow2((q + 1) as nat) as int);
            lemma_div_is_ordered_by_denominator(2 * SCALE - 1, 2, pow2((q + 1) as nat) as int);
            assert((2 * SCALE - 1) / 2 < SCALE);
        }
        if 0 < b && b < SCALE {
            assert(k >= 1);
            assert(l <= SCALE - 1 - SCALE);
        }
    }
}

/// The value `exp2_frac(SCALE - a % SCALE) / 2^(a / SCALE + 1)` — the
/// exponential of `-a` — shrinks as `a` grows.
proof fn lemma_exp2_div_mono(a1: int, a2: int)
    requires
        0 <= a2 <= a1,
    ensures
        exp2_frac(SCALE - a1 % (SCALE as int)) / pow2((a1 / (SCALE as int) + 1) as nat) as int
            <= exp2_frac(SCALE - a2 % (SCALE as int)) / pow2((a2 / (SCALE as int) + 1) as nat) as int,
{
    let s = SCALE as int;
    let q1 = a1 / s;
    let q2 = a2 / s;
    let r1 = a1 % s;
    let r2 = a2 % s;
    lemma_div_is_ordered(a2, a1, s);
    lemma_div_pos_is_pos(a2, s);
    lemma_mod_division_less_than_divisor(a1, s);
    lemma_mod_division_less_than_divisor(a2, s);
    lemma_exp2_frac_props(s - r1);
    lemma_exp2_frac_props(s - r2);
    let w1 = exp2_frac(s - r1);
    let w2 = exp2_frac(s - r2);
    lemma_pow2_pos((q1 + 1) as nat);
    lemma_pow2_pos((q2 + 1) as nat);
    if q1 == q2 {
        lemma_fundamental_div_mod(a1, s);
        lemma_fundamental_div_mod(a2, s);
        assert(r1 >= r2);
        lemma_exp2_frac_mono(s - r1, s - r2);
        lemma_div_is_ordered(w1, w2, pow2((q1 + 1) as nat) as int);
    } else {
        assert(q1 > q2);
        let p = pow2((q2 + 1) as nat) as int;
        lemma_pow2_unfold((q2 + 2) as nat);
        lemma_pow2_le((q2 + 2) as nat, (q1 + 1) as nat);
        lemma_div_is_ordered(w1, 2 * SCALE - 1, pow2((q1 + 1) as nat) as int);
        lemma_div_is_ordered_by_denominator(2 * SCALE - 1, 2 * p, pow2((q1 + 1) as nat) as int);
        lemma_div_is_ordered(2 * SCALE - 1, 2 * SCALE, 2 * p);
        lemma_div_denominator(2 * SCALE, 2, p);
        assert((2 * SCALE) / 2 == SCALE as int);
        lemma_div_is_ordered(SCALE as int, w2, p);
    }
}

/// The power function is monotone in the base, on bases up to 1.0.
pub proof fn lemma_pow_fixed_mono(b1: int, b2: int, e: int)
    requires
        0 <= b1 <= b2 <= SCALE,
        1 <= e,
    ensures
        pow_fixed(b1, e) <= pow_fixed(b2, e),
{
    lemma2_to64();
    lemma_pow_fixed_bounds(b1, e);
    lemma_pow_fixed_bounds(b2, e);
    if b1 <= 0 || e == SCALE || b2 == SCALE || b1 == b2 {
        // settled by the range facts and the exact short-cuts
    } else {
        let s = SCALE as int;
        let k1 = norm_shift(b1);
        let k2 = norm_shift(b2);
        lemma_norm_shift(b1);
        lemma_norm_shift(b2);
        lemma_norm_shift_mono(b1, b2);
        let m1 = b1 * pow2(k1);
        let m2 = b2 * pow2(k2);
        lemma_fraclog_range(m1, 16);
        lemma_fraclog_range(m2, 16);
        let l1 = fraclog(m1, 16) - k1 * s;
        let l2 = fraclog(m2, 16) - k2 * s;
        assert(k1 * s >= 1 * s) by (nonlinear_arith)
            requires k1 >= 1, s > 0;
        assert(k2 * s >= 1 * s) by (nonlinear_arith)
            requires k2 >= 1, s > 0;
        if k1 == k2 {
            lemma_mul_inequality(b1, b2, pow2(k1) as int);
            lemma_fraclog_mono(m1, m2, 16);
        } else {
            assert((k1 - k2) * s >= 1 * s) by (nonlinear_arith)
                requires k1 - k2 >= 1, s > 0;
            assert(k1 * s - k2 * s == (k1 - k2) * s) by (nonlinear_arith);
        }
        assert(l1 <= l2 < 0);
        lemma_mul_left_inequality(e, -l2, -l1);
        lemma_mul_nonnegative(e, -l2);
        lemma_div_is_ordered(e * (-l2), e * (-l1), s);
        lemma_div_pos_is_pos(e * (-l2), s);
        lemma_exp2_div_mono(e * (-l1) / s, e * (-l2) / s);
    }
}

/// Computes the fixed-point power `pow_fixed(b, e)`: normalize the base to
/// a mantissa, take its logarithm, scale by the exponent, and exponentiate
/// back.
pub fn pow_fixed_exec(b: i64, e: i64) -> (r: i64)
    requires
        0 <= b < 2 * SCALE,
        1 <= e <= SCALE * SCALE,
        b > SCALE ==> e <= SCALE,
    ensures
        r == pow_fixed(b as int, e as int),
        0 <= r < 2 * SCALE,
        b <= SCALE ==> r <= SCALE,
{
    proof {
        lemma2_to64();
        lemma_pow_fixed_bounds(b as int, e as int);
    }
    if b == 0 {
        return 0;
    }
    if e == SCALE {
        return b;
    }
    if b == SCALE {
        return SCALE;
    }
    // bring the base into the mantissa range [SCALE, 2 * SCALE)
    let mut m: i64 = b;
    let mut k: i64 = 0;
    proof {
        assert(b * pow2(0) == b) by (nonlinear_arith)
            requires pow2(0) == 1;
    }
    while m < SCALE
        invariant
            1 <= b < 2 * SCALE,
            1 <= m < 2 * SCALE,
            0 <= k <= 16,
            m == b * pow2(k as nat),
            norm_shift(b as int) == k + norm_shift(m as int),
            pow2(16) == 65536,
        decreases 2 * SCALE - m,
    {
        proof {
            assert(norm_shift(m as int) == 1 + norm_shift(2 * m as int));
            lemma_pow2_unfold((k + 1) as nat);
            assert(2 * m == b * pow2((k + 1) as nat)) by (nonlinear_arith)
                requires
                    m == b * pow2(k as nat),
                    pow2((k + 1) as nat) == 2 * pow2(k as nat);
            lemma_norm_shift(b as int);
            if k + 1 > 16 {
                assert(b * pow2(k as nat) >= pow2(k as nat)) by (nonlinear_arith)
                    requires b >= 1, pow2(k as nat) >= 0;
                lemma_pow2_le(16, k as nat);
            }
        }
        m = m * 2;
        k = k + 1;
    }
    proof {
        assert(norm_shift(m as int) == 0);
        assert(norm_shift(b as int) == k);
    }
    let f = log2_frac(m);
    let l: i64 = f - k * SCALE;
    if l >= 0 {
        proof {
            lemma_mul_nonnegative(e as int, l as int);
            lemma_div_pos_is_pos(e * l, SCALE as int);
            assert(e * l <= SCALE * SCALE * SCALE) by (nonlinear_arith)
                requires 1 <= e <= SCALE * SCALE, 0 <= l <= SCALE;
        }
        let t: i64 = e * l / SCALE;
        exp2_frac_exec(t)
    } else {
        let neg: i64 = -l;
        proof {
            lemma_mul_nonnegative(e as int, neg as int);
            assert(e * neg <= SCALE * SCALE * (17 * SCALE)) by (nonlinear_arith)
                requires 1 <= e <= SCALE * SCALE, 0 <= neg <= 17 * SCALE;
            lemma_div_pos_is_pos(e * neg, SCALE as int);
        }
        let a: i64 = e * neg / SCALE;
        let q: i64 = a / SCALE;
        let rm: i64 = a % SCALE;
        proof {
            lemma_div_pos_is_pos(a as int, SCALE as int);
            lemma_mod_division_less_than_divisor(a as int, SCALE as int);
            lemma_exp2_frac_props(SCALE - rm);
        }
        if q >= 17 {
            proof {
                lemma_pow2_le(18, (q + 1) as nat);
                assert(pow2(18) == 262144);
                lemma_basic_div(exp2_frac(SCALE - rm), pow2((q + 1) as nat) as int);
            }
            return 0;
        }
        let ee = exp2_frac_exec(SCALE - rm);
        // 2^(q + 1) as an integer divisor
        let mut d: i64 = 1;
        let mut j: i64 = 0;
        proof {
            assert(pow2(0) == 1);
        }
        while j < q + 1
            invariant
                0 <= j <= q + 1 <= 18,
                d == pow2(j as nat),
                d <= 262144,
            decreases q + 1 - j,
        {
            proof {
                lemma_pow2_unfold((j + 1) as nat);
                lemma_pow2_le((j + 1) as nat, 18);
                assert(pow2(18) == 262144) by { lemma2_to64(); }
            }
            d = d * 2;
            j = j + 1;
        }
        proof {
            lemma_pow2_pos((q + 1) as nat);
        }
        ee / d
    }
}

} // verus!
