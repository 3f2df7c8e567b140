//! Between steps that are an eighth of a semitone apart, the frequency
//! rises, and strictly so.
//!
//! Between steps that lie closer together than binary32 can tell their
//! frequencies apart, the frequency can only stay. A sixteenth of a semitone
//! is far enough: between the arguments of the power of two there is room
//! for two neighbouring points of a grid of 1/512, between their powers for
//! two values of fifteen bits, and 440 times a value of fifteen bits is
//! exact.

use vstd::prelude::*;
use vstd::arithmetic::power2::{pow2, lemma2_to64, lemma_pow2_adds, lemma_pow2_pos};
use crate::arith::{sub_bits, mul_bits, div_bits, neg_bits};
use crate::arith_laws::{
    round_signed, lemma_add_units, lemma_div_units, lemma_mul_units, lemma_mul_monotone,
    lemma_neg_units, lemma_round_signed_exact, lemma_round_signed_monotone, lemma_units_bounds,
};
use crate::binary32::{is_finite, magnitude, mag_units, units};
use crate::calc::{TUNING_STEP, TUNING_HZ, OCTAVE_STEPS, step_hz};
use crate::calc_laws::{magnitude_of_int, lemma_pitch_constants, lemma_hz_monotone};
use crate::compare::{le_bits, lt_bits, lemma_mag_order};
use crate::convert::int_bits;
use crate::convert_laws::{lemma_int_bits_exact, lemma_small_held_exactly};
use crate::exp2::{
    EXP2_LIMIT_MAG, exp2_bits, exp2_mantissa, lemma_exp2_monotone, lemma_exp2_sign,
    lemma_exp2_poly_growth, lemma_exp2_poly_upper, lemma_exp2_poly_bound, lemma_exp2_tail_total,
    lemma_exp2_poly_at_zero,
};
use crate::numeric::{lemma_div_bracket, lemma_pow2_monotone};
use crate::rounding::{round_mag, scale_up, scale_down, lemma_scale_split, lemma_scale_shift};
use crate::rounding_laws::{lemma_round_mag_monotone, lemma_round_mag_multiple};

verus! {

/// The pattern of the whole number `v` times `2^e` units, for a whole number
/// of up to twenty-four bits.
pub open spec fn scaled_whole(v: int, e: nat) -> u32 {
    round_signed(v * pow2(e), 1)
}

/// The pattern of `v` sixteenths: a step on the grid of sixteenths of a
/// semitone.
pub open spec fn sixteenths(v: int) -> u32 {
    scaled_whole(v, 145)
}

/// The pattern of a whole number at a scale stands for just that.
proof fn lemma_scaled_whole(v: int, e: nat)
    requires
        -0x100_0000 <= v <= 0x100_0000,
        e <= 149,
    ensures
        is_finite(scaled_whole(v, e)),
        units(scaled_whole(v, e)) == v * pow2(e),
{
    let q = pow2(e);
    lemma_pow2_pos(e);
    let c = magnitude_of_int(v);
    let z = v * q;
    lemma2_to64();
    lemma_pow2_adds(25, e);
    lemma_pow2_monotone(25 + e, 277);
    assert(c * q < pow2(277) && (z == c * q * 1 || z == -(c * q * 1)) && (z < 0 <==> v < 0))
        by (nonlinear_arith)
        requires
            z == v * q,
            (v < 0 && c == -v) || (v >= 0 && c == v),
            c <= 0x100_0000,
            pow2(25 + e) == 0x200_0000 * q,
            pow2(25 + e) <= pow2(277),
            q > 0,
    ;
    lemma_round_signed_exact(z, 1, c, e);
    let g = scaled_whole(v, e);
    assert(units(g) == v * q) by (nonlinear_arith)
        requires
            units(g) == (if z < 0 {
                -((c * q) as int)
            } else {
                (c * q) as int
            }),
            (v < 0 && c == -v) || (v >= 0 && c == v),
            z < 0 <==> v < 0,
    ;
}

/// The power of two at a point of the grid of 1/512 is the power of the
/// fraction, moved by the whole part.
proof fn lemma_exp2_on_grid(j: int)
    requires
        -0x2_0000 < j < 0x2_0000,
    ensures
        exp2_bits(scaled_whole(j, 140)) == round_mag(
            exp2_mantissa(((j % 512) * 0x80_0000) as nat) * scale_up(j / 512 + 87),
            scale_down(j / 512 + 87),
        ),
{
    lemma_scaled_whole(j, 140);
    let g = scaled_whole(j, 140);
    let q = pow2(117);
    lemma_pow2_pos(117);
    lemma_pow2_adds(23, 117);
    lemma_pow2_adds(18, 140);
    lemma_pow2_adds(23, 135);
    lemma2_to64();
    // The point lies within the limits: 512 is 2^158 units.
    assert(mag_units(EXP2_LIMIT_MAG) == 0x80_0000 * pow2(135));
    lemma_mag_order(magnitude(g), EXP2_LIMIT_MAG);
    assert(mag_units(magnitude(g)) < pow2(158)) by (nonlinear_arith)
        requires
            units(g) == j * pow2(140),
            mag_units(magnitude(g)) == units(g) || mag_units(magnitude(g)) == -units(g),
            -0x2_0000 < j < 0x2_0000,
            pow2(158) == 0x4_0000 * pow2(140),
            pow2(140) > 0,
    ;
    assert((j * 0x80_0000) * q == units(g) && (j * 0x80_0000 + 1) * q > units(g))
        by (nonlinear_arith)
        requires
            units(g) == j * pow2(140),
            pow2(140) == 0x80_0000 * q,
            q > 0,
    ;
    lemma_div_bracket(units(g), q as int, j * 0x80_0000);
    let fixed = units(g) / (q as int);
    assert(fixed / 0x1_0000_0000 == j / 512);
    assert(fixed % 0x1_0000_0000 == (j % 512) * 0x80_0000);
}

/// Between the powers of two at neighbouring points of the grid lie two
/// values of fifteen bits, and 440 times the lower is less than 440 times
/// the upper: the tuning frequency times the power rises strictly from one
/// point of the grid to the next.
proof fn lemma_grid_rise(j: int)
    requires
        -67072 <= j <= 56831,
    ensures
        lt_bits(
            mul_bits(TUNING_HZ, exp2_bits(scaled_whole(j, 140))),
            mul_bits(TUNING_HZ, exp2_bits(scaled_whole(j + 1, 140))),
        ),
{
    let (g1, g2) = (scaled_whole(j, 140), scaled_whole(j + 1, 140));
    lemma_scaled_whole(j, 140);
    lemma_scaled_whole(j + 1, 140);
    lemma_exp2_on_grid(j);
    lemma_exp2_on_grid(j + 1);
    lemma_exp2_sign(g1);
    lemma_exp2_sign(g2);
    let (n1, n2) = (j / 512, (j + 1) / 512);
    let (f1, f2) = (((j % 512) * 0x80_0000) as nat, (((j + 1) % 512) * 0x80_0000) as nat);
    let (k1, k2) = (n1 + 87, n2 + 87);
    let (ma, mb) = (exp2_mantissa(f1), exp2_mantissa(f2));
    let (u1, d1, u2, d2) = (scale_up(k1), scale_down(k1), scale_up(k2), scale_down(k2));
    lemma_scale_split(k1);
    lemma_scale_split(k2);
    lemma_exp2_poly_bound(f1, 0);
    lemma_exp2_poly_bound(f2, 0);
    lemma_exp2_tail_total();
    // The scale of the fifteen-bit values: 2^48 times that of the lower
    // power.
    let t = (k1 + 48) as nat;
    let pt = pow2(t);
    lemma_pow2_pos(t);
    lemma_scale_shift(k1, 48);
    lemma2_to64();
    lemma_pow2_adds(32, 16);
    assert(pow2(48) == 0x1_0000_0000_0000);
    let a: nat = ma / 0x1_0000_0000_0000 + 1;
    let b: nat;
    if n1 == n2 {
        lemma_exp2_poly_growth(f1, f2);
        b = mb / 0x1_0000_0000_0000;
        assert(b * pt * d2 <= mb * u2 * 1) by (nonlinear_arith)
            requires
                b * 0x1_0000_0000_0000 <= mb,
                pt * d1 == 0x1_0000_0000_0000 * u1,
                u1 == u2,
                d1 == d2,
                u1 > 0,
        ;
    } else {
        lemma_exp2_poly_upper(f1);
        lemma_exp2_poly_at_zero(0);
        b = 0x8000;
        lemma_scale_shift(k2, 47);
        lemma_pow2_adds(32, 15);
        assert(b * pt * d2 <= mb * u2 * 1) by (nonlinear_arith)
            requires
                b == 0x8000,
                mb == 0x4000_0000_0000_0000,
                pt * d2 == 0x8000_0000_0000 * u2,
        ;
    }
    assert(a < b && b <= 0x8000);
    assert(ma * u1 * 1 <= a * pt * d1) by (nonlinear_arith)
        requires
            ma < a * 0x1_0000_0000_0000,
            pt * d1 == 0x1_0000_0000_0000 * u1,
            u1 > 0,
    ;
    // The two values are held exactly, and the powers lie outside them.
    lemma_pow2_adds(24, t);
    lemma_pow2_monotone(24 + t, 277);
    assert(a * pt < pow2(277) && b * pt < pow2(277)) by (nonlinear_arith)
        requires
            a < b,
            b <= 0x8000,
            pow2(24 + t) == 0x100_0000 * pt,
            pow2(24 + t) <= pow2(277),
            pt > 0,
    ;
    lemma_round_mag_multiple(a, t);
    lemma_round_mag_multiple(b, t);
    let (ya, yb) = (round_mag(a * pt, 1), round_mag(b * pt, 1));
    assert(ma * u1 * 1 == (ma * u1) * 1 && a * pt * d1 == (a * pt) * d1 && b * pt * d2 == (b
        * pt) * d2 && mb * u2 * 1 == (mb * u2) * 1) by (nonlinear_arith);
    lemma_round_mag_monotone(ma * u1, d1, a * pt, 1);
    lemma_round_mag_monotone(b * pt, 1, mb * u2, d2);
    let (e1, e2) = (exp2_bits(g1), exp2_bits(g2));
    lemma_mag_order(e1, ya);
    lemma_mag_order(yb, e2);
    assert(le_bits(e1, ya) && le_bits(yb, e2));
    // 440 times a value of fifteen bits is exact.
    lemma_pitch_constants();
    lemma_mul_monotone(TUNING_HZ, e1, ya);
    lemma_mul_monotone(TUNING_HZ, yb, e2);
    lemma_mul_units(TUNING_HZ, ya);
    lemma_mul_units(TUNING_HZ, yb);
    let p = pow2(149);
    lemma_pow2_pos(149);
    let (za, zb) = (mag_units(magnitude(TUNING_HZ)) * units(ya), mag_units(magnitude(TUNING_HZ))
        * units(yb));
    assert(za == (440 * a) * pt * p && zb == (440 * b) * pt * p && (440 * a) * pt < pow2(277)
        && (440 * b) * pt < pow2(277) && za >= 0 && zb >= 0 && (440 * a) * pt < (440 * b) * pt)
        by (nonlinear_arith)
        requires
            za == (440 * p) * (a * pt),
            zb == (440 * p) * (b * pt),
            a < b,
            b <= 0x8000,
            pow2(24 + t) == 0x100_0000 * pt,
            pow2(24 + t) <= pow2(277),
            pt > 0,
            p > 0,
    ;
    lemma_round_signed_exact(za, p, 440 * a, t);
    lemma_round_signed_exact(zb, p, 440 * b, t);
}

/// A step on the grid of sixteenths less 69, in binary32, is exact: `v`
/// sixteenths less 69 are `v - 1104` sixteenths.
proof fn lemma_offset_exact(v: int)
    requires
        -0x10_0000 <= v <= 0x10_0000,
    ensures
        is_finite(sub_bits(sixteenths(v), TUNING_STEP)),
        units(sub_bits(sixteenths(v), TUNING_STEP)) == (v - 1104) * pow2(145),
{
    let q = pow2(145);
    lemma_pow2_pos(145);
    lemma_pow2_adds(4, 145);
    lemma2_to64();
    lemma_pitch_constants();
    let s = sixteenths(v);
    lemma_scaled_whole(v, 145);
    lemma_scaled_whole(v - 1104, 145);
    let minus = neg_bits(TUNING_STEP);
    let d = sub_bits(s, TUNING_STEP);
    lemma_neg_units(TUNING_STEP);
    lemma_add_units(s, minus);
    let z = units(s) + units(minus);
    assert(z == (v - 1104) * q) by (nonlinear_arith)
        requires
            z == v * q - 69 * pow2(149),
            pow2(149) == 16 * q,
    ;
    lemma_units_bounds(d);
    lemma_units_bounds(scaled_whole(v - 1104, 145));
}

/// From one point of the grid of sixteenths of a semitone to the next the
/// frequency rises: `v + 1` sixteenths have a higher frequency than `v`
/// sixteenths, for the steps from -1500 to 1400, which reach from far below
/// to far above the frequencies of hearing.
pub proof fn lemma_hz_rises_by_sixteenth(v: int)
    requires
        -24000 <= v < 22400,
    ensures
        lt_bits(step_hz(sixteenths(v)), step_hz(sixteenths(v + 1))),
{
    let p = pow2(149);
    let q = pow2(140);
    lemma_pow2_pos(149);
    lemma_pow2_pos(140);
    lemma_pow2_adds(5, 140);
    lemma_pow2_adds(9, 140);
    lemma2_to64();
    lemma_pitch_constants();
    let d = v - 1104;
    // The points of the grid of 1/512 between d / 192 and (d + 1) / 192.
    let j = (8 * d + 2) / 3;
    assert(8 * d <= 3 * j && 3 * j <= 8 * d + 2);
    let (x1, x2) = (sub_bits(sixteenths(v), TUNING_STEP), sub_bits(sixteenths(v + 1), TUNING_STEP));
    lemma_offset_exact(v);
    lemma_offset_exact(v + 1);
    let (q1, q2) = (div_bits(x1, OCTAVE_STEPS), div_bits(x2, OCTAVE_STEPS));
    lemma_div_units(x1, OCTAVE_STEPS);
    lemma_div_units(x2, OCTAVE_STEPS);
    let m12 = mag_units(magnitude(OCTAVE_STEPS));
    let (g1, g2) = (scaled_whole(j, 140), scaled_whole(j + 1, 140));
    lemma_scaled_whole(j, 140);
    lemma_scaled_whole(j + 1, 140);
    let (z1, z2) = (units(x1) * p, units(x2) * p);
    assert(z1 * 1 <= (j * q) * m12 && ((j + 1) * q) * m12 <= z2 * 1) by (nonlinear_arith)
        requires
            z1 == (d * pow2(145)) * p,
            z2 == ((d + 1) * pow2(145)) * p,
            m12 == 12 * p,
            pow2(145) == 32 * q,
            8 * d <= 3 * j,
            3 * j <= 8 * d + 2,
            p > 0,
            q > 0,
    ;
    lemma_round_signed_monotone(z1, m12, j * q, 1);
    lemma_round_signed_monotone((j + 1) * q, 1, z2, m12);
    assert(units(q1) <= units(g1) && units(g2) <= units(q2));
    lemma_exp2_monotone(q1, g1);
    lemma_exp2_monotone(g2, q2);
    lemma_mul_monotone(TUNING_HZ, exp2_bits(q1), exp2_bits(g1));
    lemma_mul_monotone(TUNING_HZ, exp2_bits(g2), exp2_bits(q2));
    lemma_grid_rise(j);
}

/// Where two neighbouring points of the grid of sixteenths of a semitone lie
/// between two steps, the higher of the two steps has the higher frequency.
/// Two such points lie between any two steps that are an eighth of a
/// semitone apart.
pub proof fn lemma_hz_rises(s1: u32, s2: u32, v: int)
    requires
        -24000 <= v < 22400,
        le_bits(s1, sixteenths(v)),
        le_bits(sixteenths(v + 1), s2),
    ensures
        lt_bits(step_hz(s1), step_hz(s2)),
{
    lemma_hz_monotone(s1, sixteenths(v));
    lemma_hz_monotone(sixteenths(v + 1), s2);
    lemma_hz_rises_by_sixteenth(v);
}

/// From one whole step to the next the frequency rises: every MIDI note has
/// a higher frequency than the note below it.
pub proof fn lemma_hz_rises_by_step(v: int)
    requires
        -1500 <= v < 1400,
    ensures
        lt_bits(step_hz(int_bits(v)), step_hz(int_bits(v + 1))),
{
    lemma_small_held_exactly(v);
    lemma_small_held_exactly(v + 1);
    lemma_int_bits_exact(v, magnitude_of_int(v), 0);
    lemma_int_bits_exact(v + 1, magnitude_of_int(v + 1), 0);
    lemma_scaled_whole(16 * v, 145);
    lemma_scaled_whole(16 * v + 1, 145);
    lemma_pow2_adds(4, 145);
    lemma2_to64();
    lemma_pow2_pos(145);
    assert(v * pow2(149) == (16 * v) * pow2(145) && (16 * v + 1) * pow2(145) <= (v + 1) * pow2(
        149,
    )) by (nonlinear_arith)
        requires
            pow2(149) == 16 * pow2(145),
            pow2(145) > 0,
    ;
    lemma_hz_rises(int_bits(v), int_bits(v + 1), 16 * v);
}

} // verus!
