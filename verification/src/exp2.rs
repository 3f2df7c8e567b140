//! The power of two of a binary32 value.
//!
//! The argument is taken in fixed point with thirty-two fraction bits and
//! split into a whole part and a fraction. The power of the fraction is a
//! polynomial in fixed point with sixty-two fraction bits; the whole part
//! moves the binary exponent. The result of that is rounded to binary32.

use vstd::prelude::*;
use vstd::arithmetic::div_mod::lemma_div_is_ordered;
use vstd::arithmetic::power2::{
    pow2, lemma2_to64, lemma_pow2_adds, lemma_pow2_pos, lemma_pow2_unfold,
    lemma_pow2_strictly_increases,
};
use crate::arith::CANONICAL_NAN;
use crate::arith_laws::lemma_units_bounds;
use crate::binary32::{
    INFINITY_MAG, magnitude, is_negative, is_nan, mag_units, units, magnitude_of, negative_of,
    lemma_mag_units_increasing, is_finite,
};
use crate::compare::lemma_mag_order;
use crate::convert::units_over_pow2;
use crate::numeric::{
    lemma_div_bracket, lemma_div_bracket_converse, lemma_div_upper, lemma_pow2_monotone,
};
use crate::rounding::{round_mag, round_pack, scale_up, scale_down, lemma_scale_split};
use crate::rounding_laws::{
    lemma_cut, lemma_round_mag_monotone, lemma_round_mag_multiple, lemma_round_mag_scale,
};

verus! {

/// The magnitude bits of 512: from here on the power overflows, and the
/// power of the negated argument is zero.
pub const EXP2_LIMIT_MAG: u32 = 0x4400_0000;

/// The index of the last coefficient of the polynomial.
pub const EXP2_DEGREE: u32 = 13;

/// The coefficients of the power series of `2^t` in `t`: `ln(2)^i / i!`, in
/// fixed point with sixty-two fraction bits, rounded down.
pub open spec fn exp2_coef(i: nat) -> nat {
    if i == 0 {
        0x4000_0000_0000_0000
    } else if i == 1 {
        0x2c5c_85fd_f473_de6a
    } else if i == 2 {
        0x0f5f_deff_c162_c754
    } else if i == 3 {
        0x038d_611a_e094_17f1
    } else if i == 4 {
        0x009d_955b_7dd2_73b9
    } else if i == 5 {
        0x0015_d87f_e78a_6731
    } else if i == 6 {
        0x0002_8612_25f0_d8f0
    } else if i == 7 {
        0x3ff9_7f8b_1161
    } else if i == 8 {
        0x058b_0088_e972
    } else if i == 9 {
        0x006d_494f_4e57
    } else if i == 10 {
        0x0007_933d_4562
    } else if i == 11 {
        0x7a32_b1cd
    } else if i == 12 {
        0x070e_f594
    } else if i == 13 {
        0x0060_5864
    } else {
        0
    }
}

/// The polynomial from coefficient `i` on, at the fraction `f / 2^32`, by
/// Horner's rule: each product is cut back to sixty-two fraction bits.
pub open spec fn exp2_poly(f: nat, i: nat) -> nat
    decreases 13 - i,
{
    if i >= 13 {
        exp2_coef(13)
    } else {
        exp2_coef(i) + exp2_poly(f, i + 1) * f / 0x1_0000_0000
    }
}

/// The sum of the coefficients from `i` on: what the polynomial stays below.
pub open spec fn exp2_tail(i: nat) -> nat
    decreases 13 - i,
{
    if i >= 13 {
        exp2_coef(13)
    } else {
        exp2_coef(i) + exp2_tail(i + 1)
    }
}

/// `2^(f / 2^32)` in fixed point with sixty-two fraction bits.
pub open spec fn exp2_mantissa(f: nat) -> nat {
    exp2_poly(f, 0)
}

/// The power of two of a pattern.
///
/// A NaN gives the canonical NaN. From 512 on the result is infinity, and
/// down from -512 it is zero. In between, with the argument cut to
/// thirty-two fraction bits and split into a whole part `n` and a fraction,
/// the result is [`exp2_mantissa`] of the fraction times `2^(n - 62)`,
/// rounded.
pub open spec fn exp2_bits(x: u32) -> u32 {
    if is_nan(x) {
        CANONICAL_NAN
    } else if magnitude(x) >= EXP2_LIMIT_MAG {
        if is_negative(x) {
            0
        } else {
            INFINITY_MAG
        }
    } else {
        let fixed = units(x) / (pow2(117) as int);
        let n = fixed / 0x1_0000_0000;
        let f = (fixed % 0x1_0000_0000) as nat;
        round_mag(exp2_mantissa(f) * scale_up(n + 87), scale_down(n + 87))
    }
}

/// The sum of all the coefficients is just short of two.
pub proof fn lemma_exp2_tail_total()
    ensures
        exp2_tail(0) == 0x7fff_ffff_ffff_ffff - 327717,
{
    reveal_with_fuel(exp2_tail, 15);
}

/// The coefficient tails shrink.
pub proof fn lemma_exp2_tail_decreasing(i: nat)
    requires
        i <= 13,
    ensures
        exp2_tail(i) <= exp2_tail(0),
    decreases i,
{
    if i > 0 {
        lemma_exp2_tail_decreasing((i - 1) as nat);
    }
}

/// The polynomial stays below the sum of its coefficients.
pub proof fn lemma_exp2_poly_bound(f: nat, i: nat)
    requires
        f < 0x1_0000_0000,
        i <= 13,
    ensures
        exp2_coef(i) <= exp2_poly(f, i) <= exp2_tail(i),
    decreases 13 - i,
{
    if i < 13 {
        lemma_exp2_poly_bound(f, i + 1);
        let p = exp2_poly(f, i + 1);
        assert(p * f <= p * 0x1_0000_0000) by (nonlinear_arith)
            requires
                f <= 0x1_0000_0000,
                p >= 0,
        ;
        assert(p * f >= 0) by (nonlinear_arith)
            requires
                f >= 0,
                p >= 0,
        ;
    }
}

/// The polynomial grows with the fraction.
pub proof fn lemma_exp2_poly_monotone(f1: nat, f2: nat, i: nat)
    requires
        f1 <= f2,
        i <= 13,
    ensures
        exp2_poly(f1, i) <= exp2_poly(f2, i),
    decreases 13 - i,
{
    if i < 13 {
        lemma_exp2_poly_monotone(f1, f2, i + 1);
        let v1 = exp2_poly(f1, i + 1);
        let v2 = exp2_poly(f2, i + 1);
        assert(v1 * f1 <= v2 * f2) by (nonlinear_arith)
            requires
                0 <= v1 <= v2,
                0 <= f1 <= f2,
        ;
    }
}

/// The coefficient at an index.
fn exp2_coefficient(i: u32) -> (r: u64)
    requires
        i <= 13,
    ensures
        r == exp2_coef(i as nat),
{
    if i == 0 {
        0x4000_0000_0000_0000
    } else if i == 1 {
        0x2c5c_85fd_f473_de6a
    } else if i == 2 {
        0x0f5f_deff_c162_c754
    } else if i == 3 {
        0x038d_611a_e094_17f1
    } else if i == 4 {
        0x009d_955b_7dd2_73b9
    } else if i == 5 {
        0x0015_d87f_e78a_6731
    } else if i == 6 {
        0x0002_8612_25f0_d8f0
    } else if i == 7 {
        0x3ff9_7f8b_1161
    } else if i == 8 {
        0x058b_0088_e972
    } else if i == 9 {
        0x006d_494f_4e57
    } else if i == 10 {
        0x0007_933d_4562
    } else if i == 11 {
        0x7a32_b1cd
    } else if i == 12 {
        0x070e_f594
    } else {
        0x0060_5864
    }
}

/// Evaluates the polynomial at a fraction.
pub fn exp2_fraction(f: u32) -> (r: u64)
    ensures
        r == exp2_mantissa(f as nat),
        0x4000_0000_0000_0000 <= r < 0x8000_0000_0000_0000,
{
    let mut i: u32 = 13;
    let mut p: u64 = exp2_coefficient(13);
    proof {
        lemma_exp2_tail_total();
    }
    while i > 0
        invariant
            i <= 13,
            p == exp2_poly(f as nat, i as nat),
        decreases i,
    {
        proof {
            lemma_exp2_poly_bound(f as nat, i as nat);
            lemma_exp2_poly_bound(f as nat, (i - 1) as nat);
            lemma_exp2_tail_decreasing(i as nat);
            lemma_exp2_tail_decreasing((i - 1) as nat);
            lemma_exp2_tail_total();
            assert(p * f <= 0x8000_0000_0000_0000 * 0x1_0000_0000) by (nonlinear_arith)
                requires
                    p <= 0x8000_0000_0000_0000,
                    f <= 0x1_0000_0000,
            ;
        }
        i = i - 1;
        let carried: u128 = (p as u128) * (f as u128) / 0x1_0000_0000;
        p = exp2_coefficient(i) + carried as u64;
    }
    proof {
        lemma_exp2_poly_bound(f as nat, 0);
        lemma_exp2_tail_total();
    }
    p
}

/// Computes the power of two of a pattern.
pub fn exp2(x: u32) -> (r: u32)
    ensures
        r == exp2_bits(x),
{
    let mag: u32 = magnitude_of(x);
    let negative: bool = negative_of(x);
    if mag > INFINITY_MAG {
        return CANONICAL_NAN;
    }
    if mag >= EXP2_LIMIT_MAG {
        if negative {
            return 0;
        }
        return INFINITY_MAG;
    }
    let (q, exact) = units_over_pow2(mag, 117);
    let ghost p = pow2(117);
    let ghost x_units = mag_units(mag);
    proof {
        // Below 512 the magnitude is under 2^158 units, so q is under 2^41.
        lemma2_to64();
        lemma_pow2_pos(117);
        lemma_mag_units_increasing(mag, EXP2_LIMIT_MAG);
        assert(mag_units(EXP2_LIMIT_MAG) == 0x80_0000 * pow2(135));
        lemma_pow2_adds(23, 135);
        lemma_pow2_adds(41, 117);
        assert(pow2(41) == 0x200_0000_0000) by {
            lemma_pow2_adds(32, 9);
        }
        lemma_div_upper(x_units as int, p as int, 0x200_0000_0000);
        lemma_div_bracket_converse(x_units as int, p as int);
    }
    let n: i32;
    let f: u32;
    if !negative {
        n = (q / 0x1_0000_0000) as i32;
        f = (q % 0x1_0000_0000) as u32;
    } else {
        let a: u128 = if exact {
            q
        } else {
            q + 1
        };
        let c: u128 = (a + 0xffff_ffff) / 0x1_0000_0000;
        n = -(c as i32);
        f = (c * 0x1_0000_0000 - a) as u32;
        proof {
            assert((-a) * p <= -x_units && -x_units < (-a + 1) * p) by (nonlinear_arith)
                requires
                    q * p <= x_units,
                    x_units < (q + 1) * p,
                    exact <==> x_units == q * p,
                    (exact && a == q) || (!exact && a == q + 1),
                    p > 0,
            ;
            lemma_div_bracket(-(x_units as int), p as int, -(a as int));
        }
    }
    let mant: u64 = exp2_fraction(f);
    let k: i32 = n + 87;
    let ghost num = exp2_mantissa(f as nat) * scale_up(k as int);
    let ghost den = scale_down(k as int);
    proof {
        lemma_scale_split(k as int);
        let u = scale_up(k as int);
        assert(mant * u * den == num * den) by (nonlinear_arith)
            requires
                num == mant * u,
        ;
        assert((mant + 1) * u * den > num * den) by (nonlinear_arith)
            requires
                num == mant * u,
                u > 0,
                den > 0,
        ;
    }
    round_pack(false, mant as u128, k, false, Ghost(num), Ghost(den))
}

/// Scaling by a larger exponent scales by at least twice as much, written
/// without fractions.
pub proof fn lemma_scale_order(k1: int, k2: int)
    requires
        k1 < k2,
    ensures
        2 * (scale_up(k1) * scale_down(k2)) <= scale_up(k2) * scale_down(k1),
{
    lemma_scale_split(k1);
    lemma_scale_split(k2);
    if k1 >= 0 {
        // 2^(k1 + 1) <= 2^k2
        lemma_pow2_monotone((k1 + 1) as nat, k2 as nat);
        lemma_pow2_unfold((k1 + 1) as nat);
        assert(2 * (scale_up(k1) * 1) <= scale_up(k2) * 1) by (nonlinear_arith)
            requires
                2 * scale_up(k1) <= scale_up(k2),
        ;
    } else if k2 >= 0 {
        // 2 <= 2^k2 * 2^-k1
        let u2 = scale_up(k2);
        let d1 = scale_down(k1);
        lemma_pow2_monotone(1, (-k1) as nat);
        lemma2_to64();
        assert(2 * (1 * 1) <= u2 * d1) by (nonlinear_arith)
            requires
                u2 >= 1,
                d1 >= 2,
        ;
    } else {
        // 2 * 2^-k2 <= 2^-k1
        lemma_pow2_monotone((-k2 + 1) as nat, (-k1) as nat);
        lemma_pow2_unfold((-k2 + 1) as nat);
        assert(2 * (1 * scale_down(k2)) <= 1 * scale_down(k1)) by (nonlinear_arith)
            requires
                2 * scale_down(k2) <= scale_down(k1),
        ;
    }
}

/// The power of two is never negative and never a NaN, but of a NaN.
pub proof fn lemma_exp2_sign(x: u32)
    requires
        !is_nan(x),
    ensures
        !is_nan(exp2_bits(x)),
        !is_negative(exp2_bits(x)),
        units(exp2_bits(x)) >= 0,
{
    let fixed = units(x) / (pow2(117) as int);
    let n = fixed / 0x1_0000_0000;
    let f = (fixed % 0x1_0000_0000) as nat;
    lemma_scale_split(n + 87);
    lemma_cut(exp2_mantissa(f) * scale_up(n + 87), scale_down(n + 87));
}

/// The power of two grows with its argument.
pub proof fn lemma_exp2_monotone(x1: u32, x2: u32)
    requires
        !is_nan(x1),
        !is_nan(x2),
        units(x1) <= units(x2),
    ensures
        !is_nan(exp2_bits(x1)),
        !is_nan(exp2_bits(x2)),
        units(exp2_bits(x1)) <= units(exp2_bits(x2)),
{
    lemma_exp2_sign(x1);
    lemma_exp2_sign(x2);
    lemma_mag_order(magnitude(x1), EXP2_LIMIT_MAG);
    lemma_mag_order(magnitude(x2), EXP2_LIMIT_MAG);
    lemma_units_bounds(exp2_bits(x1));
    lemma_units_bounds(exp2_bits(x2));
    if magnitude(x1) < EXP2_LIMIT_MAG && magnitude(x2) < EXP2_LIMIT_MAG {
        let p = pow2(117) as int;
        lemma_pow2_pos(117);
        let fixed1 = units(x1) / p;
        let fixed2 = units(x2) / p;
        lemma_div_is_ordered(units(x1), units(x2), p);
        let n1 = fixed1 / 0x1_0000_0000;
        let n2 = fixed2 / 0x1_0000_0000;
        let f1 = (fixed1 % 0x1_0000_0000) as nat;
        let f2 = (fixed2 % 0x1_0000_0000) as nat;
        let m1 = exp2_mantissa(f1);
        let m2 = exp2_mantissa(f2);
        let (u1, d1) = (scale_up(n1 + 87), scale_down(n1 + 87));
        let (u2, d2) = (scale_up(n2 + 87), scale_down(n2 + 87));
        lemma_scale_split(n1 + 87);
        lemma_scale_split(n2 + 87);
        lemma_exp2_poly_bound(f1, 0);
        lemma_exp2_poly_bound(f2, 0);
        lemma_exp2_tail_total();
        if n1 == n2 {
            lemma_exp2_poly_monotone(f1, f2, 0);
            assert((m1 * u1) * d2 <= (m2 * u2) * d1) by (nonlinear_arith)
                requires
                    m1 <= m2,
                    u1 == u2,
                    d1 == d2,
                    u1 > 0,
                    d1 > 0,
            ;
        } else {
            lemma_scale_order(n1 + 87, n2 + 87);
            assert((m1 * u1) * d2 <= (m2 * u2) * d1) by (nonlinear_arith)
                requires
                    m1 <= 0x8000_0000_0000_0000,
                    m2 >= 0x4000_0000_0000_0000,
                    2 * (u1 * d2) <= u2 * d1,
                    u1 > 0,
                    d2 > 0,
            ;
        }
        lemma_round_mag_monotone(m1 * u1, d1, m2 * u2, d2);
        lemma_mag_order(exp2_bits(x1), exp2_bits(x2));
    } else {
        // Beyond the limits the results are zero and infinity, and an
        // argument beyond a limit has the other argument on its far side.
        lemma_mag_order(0, magnitude(x1));
        lemma_mag_order(0, magnitude(x2));
        assert(mag_units(0) == 0);
    }
}

/// At the fraction zero the polynomial is its own coefficient.
pub proof fn lemma_exp2_poly_at_zero(i: nat)
    requires
        i <= 13,
    ensures
        exp2_poly(0, i) == exp2_coef(i),
    decreases 13 - i,
{
    if i < 13 {
        lemma_exp2_poly_at_zero(i + 1);
        assert(exp2_poly(0, i + 1) * 0 == 0) by (nonlinear_arith);
    }
}

/// The power of two of a whole number is exact: a pattern that stands for
/// the whole number `n`, from -149 to 127, has the power `2^n`, which is
/// `2^(n + 149)` units.
pub proof fn lemma_exp2_whole(x: u32, n: int)
    requires
        !is_nan(x),
        -149 <= n <= 127,
        units(x) == n * pow2(149),
    ensures
        is_finite(exp2_bits(x)),
        units(exp2_bits(x)) == pow2((n + 149) as nat),
{
    let p = pow2(149);
    let q = pow2(117);
    lemma2_to64();
    lemma_pow2_pos(117);
    lemma_pow2_adds(32, 117);
    lemma_pow2_adds(9, 149);
    lemma_pow2_adds(23, 135);
    // The argument lies within the limits.
    assert(mag_units(EXP2_LIMIT_MAG) == 0x80_0000 * pow2(135));
    lemma_mag_order(magnitude(x), EXP2_LIMIT_MAG);
    assert(mag_units(magnitude(x)) < pow2(158)) by (nonlinear_arith)
        requires
            units(x) == n * p,
            mag_units(magnitude(x)) == units(x) || mag_units(magnitude(x)) == -units(x),
            -149 <= n <= 127,
            pow2(158) == 512 * p,
            p > 0,
    ;
    // In fixed point it is the whole number itself, with no fraction.
    let fixed = units(x) / (q as int);
    assert((n * 0x1_0000_0000) * q == units(x) && (n * 0x1_0000_0000 + 1) * q > units(x))
        by (nonlinear_arith)
        requires
            units(x) == n * p,
            p == 0x1_0000_0000 * q,
            q > 0,
    ;
    lemma_div_bracket(units(x), q as int, n * 0x1_0000_0000);
    assert(fixed / 0x1_0000_0000 == n && fixed % 0x1_0000_0000 == 0);
    lemma_exp2_poly_at_zero(0);
    let k = n + 87;
    lemma_scale_split(k);
    assert(pow2(62) == 0x4000_0000_0000_0000) by {
        lemma_pow2_adds(32, 30);
    }
    let e = (n + 149) as nat;
    lemma_pow2_monotone(e, 276);
    lemma_pow2_strictly_increases(276, 277);
    assert(1 * pow2(e) == pow2(e)) by (nonlinear_arith);
    lemma_round_mag_multiple(1, e);
    if k >= 0 {
        lemma_pow2_adds(62, k as nat);
    } else {
        lemma_pow2_adds(e, (-k) as nat);
        lemma_round_mag_scale(pow2(e), 1, pow2((-k) as nat));
        assert(1 * pow2((-k) as nat) == pow2((-k) as nat)) by (nonlinear_arith);
    }
    assert(magnitude(x) < EXP2_LIMIT_MAG);
    assert(exp2_mantissa(0) == pow2(62));
    assert(exp2_bits(x) == round_mag(exp2_mantissa(0) * scale_up(k), scale_down(k)));
    if k >= 0 {
        assert(exp2_mantissa(0) * scale_up(k) == pow2(e));
    } else {
        assert(exp2_mantissa(0) * scale_up(k) == pow2(e) * pow2((-k) as nat));
        assert(scale_down(k) == 1 * pow2((-k) as nat));
    }
    assert(exp2_bits(x) == round_mag(pow2(e), 1));
}

/// The power of the fraction grows at least half as fast as the fraction:
/// by `2^29` for each step of the fraction.
pub proof fn lemma_exp2_poly_growth(f1: nat, f2: nat)
    requires
        f1 <= f2 < 0x1_0000_0000,
    ensures
        exp2_mantissa(f2) >= exp2_mantissa(f1) + 0x2000_0000 * (f2 - f1),
{
    let (a1, a2) = (exp2_poly(f1, 1), exp2_poly(f2, 1));
    lemma_exp2_poly_bound(f1, 1);
    lemma_exp2_poly_monotone(f1, f2, 1);
    let gap = (f2 - f1) as nat;
    assert(a2 * f2 >= a1 * f1 + 0x2000_0000_0000_0000 * gap) by (nonlinear_arith)
        requires
            a2 >= a1,
            a1 >= 0x2000_0000_0000_0000,
            f2 == f1 + gap,
            f1 >= 0,
            gap >= 0,
    ;
    assert(0x2000_0000_0000_0000 * gap == (0x2000_0000 * gap) * 0x1_0000_0000)
        by (nonlinear_arith);
}

/// The power of the fraction stays under the straight line from one to two:
/// `2^62 + 2^30 * f`.
pub proof fn lemma_exp2_poly_upper(f: nat)
    requires
        f < 0x1_0000_0000,
    ensures
        exp2_mantissa(f) <= 0x4000_0000_0000_0000 + 0x4000_0000 * f,
{
    let a = exp2_poly(f, 1);
    lemma_exp2_poly_bound(f, 1);
    lemma_exp2_tail_total();
    assert(exp2_tail(1) <= 0x4000_0000_0000_0000);
    assert(a * f <= (0x4000_0000 * f) * 0x1_0000_0000) by (nonlinear_arith)
        requires
            a <= 0x4000_0000_0000_0000,
            f >= 0,
    ;
}

} // verus!
