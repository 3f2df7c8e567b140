//! What holds of the conversions from a step: a higher step never has the
//! lower frequency, mel value or percentage; the tuning step has the tuning
//! frequency; the weight one leaves the percentage as it is; and a whole
//! step is its own semitone.

use vstd::prelude::*;
use vstd::arithmetic::power2::{
    pow2, lemma2_to64, lemma_pow2_adds, lemma_pow2_pos, lemma_pow2_strictly_increases,
};
use crate::arith::{add_bits, sub_bits, mul_bits, div_bits, neg_bits};
use crate::arith_laws::{
    lemma_add_monotone, lemma_sub_monotone, lemma_div_monotone, lemma_mul_monotone,
    lemma_mul_commutes, lemma_add_units, lemma_div_units, lemma_units_bounds, lemma_mul_units,
    lemma_neg_units, lemma_round_signed_exact,
};
use crate::binary32::{HIDDEN_BIT, is_nan, is_negative, is_finite, magnitude, mag_units, units};
use crate::calc::{
    DEFAULT_SCALE_WEIGHT, TUNING_STEP, TUNING_HZ, OCTAVE_STEPS, MIN_HZ, HZ_SPAN, HUNDRED, MEL_CORNER_HZ,
    MEL_PER_DOUBLING, step_hz, hz_share, step_perc, hz_mel, step_mel, step_scaled_perc,
    step_semitone, step_letter_octave, hz_step,
};
use crate::compare::{le_bits, eq_bits, lemma_mag_order};
use crate::convert::int_bits;
use crate::convert_laws::{
    held_exactly, lemma_int_nearest, lemma_int_bits_exact, lemma_small_held_exactly,
};
use crate::exp2::{
    exp2_bits, exp2_mantissa, lemma_exp2_monotone, lemma_exp2_sign, lemma_exp2_poly_at_zero,
    lemma_exp2_whole,
};
use crate::log2::{log2_bits, lemma_log2_monotone, lemma_log2_of_pow2};
use crate::numeric::{lemma_div_bracket, lemma_pow2_monotone};
use crate::power::ONE;
use crate::rounding::scale_up;
use crate::rounding_laws::{lemma_round_mag_exact, lemma_cut};
use crate::units::Letter;

verus! {

/// The frequency of a step that is no NaN is no NaN and not negative.
pub proof fn lemma_hz_not_negative(step: u32)
    requires
        !is_nan(step),
    ensures
        !is_nan(step_hz(step)),
        units(step_hz(step)) >= 0,
{
    lemma_hz_monotone(step, step);
    let e = exp2_bits(div_bits(sub_bits(step, TUNING_STEP), OCTAVE_STEPS));
    lemma_exp2_sign(div_bits(sub_bits(step, TUNING_STEP), OCTAVE_STEPS));
    // The product of two patterns without a sign bit has none.
    let h = step_hz(step);
    assert(!is_negative(TUNING_HZ));
    assert(!is_negative(e));
    if is_finite(e) {
        lemma_pow2_pos(149);
        lemma_cut(
            mag_units(magnitude(TUNING_HZ)) * mag_units(magnitude(e)),
            pow2(149),
        );
    }
    assert(!is_negative(h));
}

/// A higher step never has the lower frequency.
pub proof fn lemma_hz_monotone(s1: u32, s2: u32)
    requires
        le_bits(s1, s2),
    ensures
        le_bits(step_hz(s1), step_hz(s2)),
{
    lemma_sub_monotone(s1, s2, TUNING_STEP);
    let (d1, d2) = (sub_bits(s1, TUNING_STEP), sub_bits(s2, TUNING_STEP));
    lemma_div_monotone(d1, d2, OCTAVE_STEPS);
    let (q1, q2) = (div_bits(d1, OCTAVE_STEPS), div_bits(d2, OCTAVE_STEPS));
    lemma_exp2_monotone(q1, q2);
    lemma_mul_monotone(TUNING_HZ, exp2_bits(q1), exp2_bits(q2));
}

/// A higher frequency never has the lower share of the range of hearing.
pub proof fn lemma_share_monotone(h1: u32, h2: u32)
    requires
        le_bits(h1, h2),
    ensures
        le_bits(hz_share(h1), hz_share(h2)),
{
    lemma_sub_monotone(h1, h2, MIN_HZ);
    lemma_div_monotone(sub_bits(h1, MIN_HZ), sub_bits(h2, MIN_HZ), HZ_SPAN);
}

/// A higher step never has the lower percentage.
pub proof fn lemma_perc_monotone(s1: u32, s2: u32)
    requires
        le_bits(s1, s2),
    ensures
        le_bits(step_perc(s1), step_perc(s2)),
{
    lemma_hz_monotone(s1, s2);
    lemma_share_monotone(step_hz(s1), step_hz(s2));
    let (a1, a2) = (hz_share(step_hz(s1)), hz_share(step_hz(s2)));
    lemma_mul_commutes(a1, HUNDRED);
    lemma_mul_commutes(a2, HUNDRED);
    lemma_mul_monotone(HUNDRED, a1, a2);
}

/// One plus a frequency over the corner frequency is no NaN and not
/// negative, for a frequency that is neither.
pub proof fn lemma_mel_argument(hz: u32)
    requires
        !is_nan(hz),
        units(hz) >= 0,
    ensures
        !is_nan(add_bits(ONE, div_bits(hz, MEL_CORNER_HZ))),
        units(add_bits(ONE, div_bits(hz, MEL_CORNER_HZ))) >= 0,
{
    // Against the frequency zero, whose argument is one.
    assert(mag_units(0) == 0);
    lemma_div_monotone(0, hz, MEL_CORNER_HZ);
    lemma_div_units(0, MEL_CORNER_HZ);
    let q0 = div_bits(0, MEL_CORNER_HZ);
    lemma_round_mag_exact(0, mag_units(magnitude(MEL_CORNER_HZ)));
    assert(0 * pow2(149) == 0) by (nonlinear_arith);
    assert(mag_units(0) * mag_units(magnitude(MEL_CORNER_HZ)) == 0) by (nonlinear_arith)
        requires
            mag_units(0) == 0,
    ;
    assert(q0 == 0);
    lemma_add_monotone(ONE, q0, div_bits(hz, MEL_CORNER_HZ));
    lemma_add_units(ONE, 0);
    lemma_round_mag_exact(ONE, 1);
    assert(mag_units(ONE) * 1 == mag_units(ONE)) by (nonlinear_arith);
    assert(units(add_bits(ONE, 0)) >= 0);
}

/// A higher frequency never has the lower mel value, over the frequencies
/// that are not negative.
pub proof fn lemma_hz_mel_monotone(h1: u32, h2: u32)
    requires
        le_bits(h1, h2),
        units(h1) >= 0,
    ensures
        le_bits(hz_mel(h1), hz_mel(h2)),
{
    lemma_div_monotone(h1, h2, MEL_CORNER_HZ);
    let (q1, q2) = (div_bits(h1, MEL_CORNER_HZ), div_bits(h2, MEL_CORNER_HZ));
    lemma_add_monotone(ONE, q1, q2);
    lemma_mel_argument(h1);
    lemma_log2_monotone(add_bits(ONE, q1), add_bits(ONE, q2));
    lemma_mul_monotone(
        MEL_PER_DOUBLING,
        log2_bits(add_bits(ONE, q1)),
        log2_bits(add_bits(ONE, q2)),
    );
}

/// A higher step never has the lower mel value.
pub proof fn lemma_mel_monotone(s1: u32, s2: u32)
    requires
        le_bits(s1, s2),
    ensures
        le_bits(step_mel(s1), step_mel(s2)),
{
    lemma_hz_monotone(s1, s2);
    lemma_hz_not_negative(s1);
    lemma_hz_mel_monotone(step_hz(s1), step_hz(s2));
}

/// Two to the power zero is one.
pub proof fn lemma_exp2_of_zero()
    ensures
        exp2_bits(0) == ONE,
{
    lemma2_to64();
    lemma_pow2_pos(117);
    assert(mag_units(0) == 0);
    assert(0int / (pow2(117) as int) == 0) by {
        lemma_div_bracket(0, pow2(117) as int, 0);
        assert(0 * pow2(117) == 0 && (0 + 1) * pow2(117) == pow2(117)) by (nonlinear_arith);
    }
    lemma_exp2_poly_at_zero(0);
    assert(ONE / HIDDEN_BIT == 127 && ONE % HIDDEN_BIT == 0);
    lemma_pow2_adds(23, 126);
    lemma_pow2_adds(62, 87);
    assert(pow2(62) == 0x4000_0000_0000_0000) by {
        lemma_pow2_adds(32, 30);
    }
    assert(mag_units(ONE) == pow2(149));
    lemma_round_mag_exact(ONE, 1);
    assert(mag_units(ONE) * 1 == exp2_mantissa(0) * scale_up(87)) by (nonlinear_arith)
        requires
            mag_units(ONE) == pow2(149),
            exp2_mantissa(0) == pow2(62),
            scale_up(87) == pow2(87),
            pow2(149) == pow2(62) * pow2(87),
    ;
}

/// The tuning step has the tuning frequency: step 69 is 440 Hz.
pub proof fn lemma_tuning_pitch()
    ensures
        step_hz(TUNING_STEP) == TUNING_HZ,
{
    assert(sub_bits(TUNING_STEP, TUNING_STEP) == 0);
    let twelve = mag_units(magnitude(OCTAVE_STEPS));
    lemma_mag_order(0, OCTAVE_STEPS);
    assert(mag_units(0) == 0);
    lemma_round_mag_exact(0, twelve);
    assert(mag_units(0) * pow2(149) == 0 && mag_units(0) * twelve == 0) by (nonlinear_arith)
        requires
            mag_units(0) == 0,
    ;
    assert(div_bits(0, OCTAVE_STEPS) == 0);
    lemma_exp2_of_zero();
    assert(ONE / HIDDEN_BIT == 127 && ONE % HIDDEN_BIT == 0);
    lemma_pow2_adds(23, 126);
    lemma2_to64();
    assert(mag_units(ONE) == pow2(149));
    lemma_pow2_pos(149);
    lemma_round_mag_exact(TUNING_HZ, pow2(149));
}

/// One over one is one.
pub proof fn lemma_one_over_one()
    ensures
        div_bits(ONE, ONE) == ONE,
{
    assert(ONE / HIDDEN_BIT == 127 && ONE % HIDDEN_BIT == 0);
    lemma_pow2_adds(23, 126);
    lemma2_to64();
    assert(mag_units(ONE) == pow2(149));
    lemma_pow2_pos(149);
    lemma_round_mag_exact(ONE, pow2(149));
}

/// Under the weight one the weighted percentage is the percentage.
pub proof fn lemma_weight_one(step: u32)
    ensures
        step_scaled_perc(step, ONE) == step_perc(step),
{
    lemma_one_over_one();
}

/// A whole step that binary32 holds, within thirty-two bits, is its own
/// semitone: its pitch class is its remainder by twelve, and its octave one
/// less than its quotient by twelve.
pub proof fn lemma_whole_step(v: int, c: nat, t: nat)
    requires
        held_exactly(v, c, t),
        -0x8000_0000 <= v <= 0x7fff_ffff,
    ensures
        step_semitone(int_bits(v)) == v,
        step_letter_octave(int_bits(v)) == (Letter::at(v % 12), (v / 12 - 1) as i32),
{
    lemma_int_nearest(v, c, t, -0x8000_0000, 0x7fff_ffff);
}

/// The pitch classes come round every twelve steps: a whole step and the
/// whole step an octave above it have the same pitch class, in octaves one
/// apart.
pub proof fn lemma_letter_cycle(v: int, c: nat, t: nat, c12: nat, t12: nat)
    requires
        held_exactly(v, c, t),
        held_exactly(v + 12, c12, t12),
        -0x8000_0000 <= v,
        v + 12 <= 0x7fff_ffff,
    ensures
        step_letter_octave(int_bits(v + 12)).0 == step_letter_octave(int_bits(v)).0,
        step_letter_octave(int_bits(v + 12)).1 == step_letter_octave(int_bits(v)).1 + 1,
{
    lemma_whole_step(v, c, t);
    lemma_whole_step(v + 12, c12, t12);
}

/// The absolute value of an integer.
pub open spec fn magnitude_of_int(v: int) -> nat {
    if v < 0 {
        (-v) as nat
    } else {
        v as nat
    }
}

/// The constants of the pitch law stand for 69, 440, 12 and 1.
pub proof fn lemma_pitch_constants()
    ensures
        units(TUNING_STEP) == 69 * pow2(149),
        units(TUNING_HZ) == 440 * pow2(149),
        units(OCTAVE_STEPS) == 12 * pow2(149),
        units(ONE) == pow2(149),
{
    lemma2_to64();
    assert(TUNING_STEP / HIDDEN_BIT == 133 && TUNING_STEP % HIDDEN_BIT == 0x0a_0000);
    assert(TUNING_HZ / HIDDEN_BIT == 135 && TUNING_HZ % HIDDEN_BIT == 0x5c_0000);
    assert(OCTAVE_STEPS / HIDDEN_BIT == 130 && OCTAVE_STEPS % HIDDEN_BIT == 0x40_0000);
    assert(ONE / HIDDEN_BIT == 127 && ONE % HIDDEN_BIT == 0);
    lemma_pow2_adds(17, 132);
    lemma_pow2_adds(15, 134);
    lemma_pow2_adds(20, 129);
    lemma_pow2_adds(23, 126);
    assert(0x8a_0000 * pow2(132) == 69 * pow2(149)) by (nonlinear_arith)
        requires
            pow2(149) == 0x2_0000 * pow2(132),
    ;
    assert(0xdc_0000 * pow2(134) == 440 * pow2(149)) by (nonlinear_arith)
        requires
            pow2(149) == 0x8000 * pow2(134),
    ;
    assert(0xc0_0000 * pow2(129) == 12 * pow2(149)) by (nonlinear_arith)
        requires
            pow2(149) == 0x10_0000 * pow2(129),
    ;
}

/// The constants of the range of hearing, of the mel scale and of the
/// weight stand for 20, 19980, 100, 700, 4 and, for the mels to a doubling,
/// 12798736 / 2^14, which is 781.1728515625.
pub proof fn lemma_scale_constants()
    ensures
        units(MIN_HZ) == 20 * pow2(149),
        units(HZ_SPAN) == 19980 * pow2(149),
        units(HUNDRED) == 100 * pow2(149),
        units(MEL_CORNER_HZ) == 700 * pow2(149),
        units(DEFAULT_SCALE_WEIGHT) == 4 * pow2(149),
        units(MEL_PER_DOUBLING) == 12798736 * pow2(135),
{
    lemma2_to64();
    assert(MIN_HZ / HIDDEN_BIT == 131 && MIN_HZ % HIDDEN_BIT == 0x20_0000);
    assert(HZ_SPAN / HIDDEN_BIT == 141 && HZ_SPAN % HIDDEN_BIT == 0x1c_1800);
    assert(HUNDRED / HIDDEN_BIT == 133 && HUNDRED % HIDDEN_BIT == 0x48_0000);
    assert(MEL_CORNER_HZ / HIDDEN_BIT == 136 && MEL_CORNER_HZ % HIDDEN_BIT == 0x2f_0000);
    assert(DEFAULT_SCALE_WEIGHT / HIDDEN_BIT == 129 && DEFAULT_SCALE_WEIGHT % HIDDEN_BIT == 0);
    assert(MEL_PER_DOUBLING / HIDDEN_BIT == 136 && MEL_PER_DOUBLING % HIDDEN_BIT == 0x43_4b10);
    lemma_pow2_adds(19, 130);
    lemma_pow2_adds(9, 140);
    lemma_pow2_adds(17, 132);
    lemma_pow2_adds(14, 135);
    lemma_pow2_adds(21, 128);
    assert(0xa0_0000 * pow2(130) == 20 * pow2(149)) by (nonlinear_arith)
        requires
            pow2(149) == 0x8_0000 * pow2(130),
    ;
    assert(0x9c_1800 * pow2(140) == 19980 * pow2(149)) by (nonlinear_arith)
        requires
            pow2(149) == 0x200 * pow2(140),
    ;
    assert(0xc8_0000 * pow2(132) == 100 * pow2(149)) by (nonlinear_arith)
        requires
            pow2(149) == 0x2_0000 * pow2(132),
    ;
    assert(0xaf_0000 * pow2(135) == 700 * pow2(149)) by (nonlinear_arith)
        requires
            pow2(149) == 0x4000 * pow2(135),
    ;
    assert(0x80_0000 * pow2(128) == 4 * pow2(149)) by (nonlinear_arith)
        requires
            pow2(149) == 0x20_0000 * pow2(128),
    ;
}

/// A number of up to twenty-four bits times 2^149 units is below 2^277
/// units.
pub proof fn lemma_small_in_range(c: nat)
    requires
        c <= 0x100_0000,
    ensures
        c * pow2(149) < pow2(277),
{
    lemma2_to64();
    lemma_pow2_adds(25, 149);
    lemma_pow2_monotone(174, 277);
    lemma_pow2_pos(149);
    assert(c * pow2(149) < pow2(174)) by (nonlinear_arith)
        requires
            c <= 0x100_0000,
            pow2(174) == 0x200_0000 * pow2(149),
            pow2(149) > 0,
    ;
}

/// Every octave from the tuning pitch doubles or halves the frequency, and
/// exactly so: the step `69 + 12 * k` has the frequency `440 * 2^k` Hz, which
/// is `440 * 2^(k + 149)` units, as far as binary32 reaches down and up.
pub proof fn lemma_octaves(k: int)
    requires
        -149 <= k <= 119,
    ensures
        is_finite(step_hz(int_bits(69 + 12 * k))),
        units(step_hz(int_bits(69 + 12 * k))) == 440 * pow2((k + 149) as nat),
{
    let p = pow2(149);
    lemma_pow2_pos(149);
    lemma_pitch_constants();
    let v = 69 + 12 * k;
    let s = int_bits(v);
    lemma_small_held_exactly(v);
    lemma_int_bits_exact(v, magnitude_of_int(v), 0);
    // The step less 69 is 12 * k.
    let minus = neg_bits(TUNING_STEP);
    let d = sub_bits(s, TUNING_STEP);
    lemma_neg_units(TUNING_STEP);
    lemma_add_units(s, minus);
    let z1 = units(s) + units(minus);
    let c1 = magnitude_of_int(12 * k);
    lemma_small_in_range(c1);
    assert(z1 == (12 * k) * p && (z1 == c1 * p * 1 || z1 == -(c1 * p * 1)) && (z1 < 0 <==> 12 * k
        < 0)) by (nonlinear_arith)
        requires
            z1 == v * p - 69 * p,
            v == 69 + 12 * k,
            (12 * k < 0 && c1 == -(12 * k)) || (12 * k >= 0 && c1 == 12 * k),
            p > 0,
    ;
    lemma_round_signed_exact(z1, 1, c1, 149);
    assert(units(d) == (12 * k) * p) by (nonlinear_arith)
        requires
            units(d) == (if z1 < 0 {
                -((c1 * p) as int)
            } else {
                (c1 * p) as int
            }),
            (12 * k < 0 && c1 == -(12 * k)) || (12 * k >= 0 && c1 == 12 * k),
            z1 < 0 <==> 12 * k < 0,
    ;
    lemma_units_bounds(d);
    // A twelfth of that is k.
    let q = div_bits(d, OCTAVE_STEPS);
    lemma_div_units(d, OCTAVE_STEPS);
    let m12 = mag_units(magnitude(OCTAVE_STEPS));
    let z2 = units(d) * p;
    let c2 = magnitude_of_int(k);
    lemma_small_in_range(c2);
    assert((z2 == c2 * p * m12 || z2 == -(c2 * p * m12)) && (z2 < 0 <==> k < 0)) by (nonlinear_arith)
        requires
            z2 == ((12 * k) * p) * p,
            m12 == 12 * p,
            (k < 0 && c2 == -k) || (k >= 0 && c2 == k),
            p > 0,
    ;
    lemma_round_signed_exact(z2, m12, c2, 149);
    assert(units(q) == k * p) by (nonlinear_arith)
        requires
            units(q) == (if z2 < 0 {
                -((c2 * p) as int)
            } else {
                (c2 * p) as int
            }),
            (k < 0 && c2 == -k) || (k >= 0 && c2 == k),
            z2 < 0 <==> k < 0,
    ;
    // Two to that is 2^k,
    let e = exp2_bits(q);
    lemma_exp2_whole(q, k);
    lemma_exp2_sign(q);
    // and 440 times 2^k is 55 * 2^(k + 3).
    let t = (k + 149) as nat;
    let pe = pow2(t);
    lemma_pow2_pos(t);
    lemma_mul_units(TUNING_HZ, e);
    let z4 = mag_units(magnitude(TUNING_HZ)) * units(e);
    lemma_pow2_adds(3, t);
    lemma_pow2_adds(6, t + 3);
    lemma2_to64();
    lemma_pow2_monotone(t + 9, 277);
    let pe3 = pow2(t + 3);
    assert(55 * pe3 < pow2(277) && z4 == 55 * pe3 * p && z4 >= 0 && 55 * pe3 == 440 * pe)
        by (nonlinear_arith)
        requires
            z4 == (440 * p) * pe,
            pe3 == 8 * pe,
            pow2(t + 9) == 64 * pe3,
            pow2(t + 9) <= pow2(277),
            pe > 0,
            p > 0,
    ;
    lemma_round_signed_exact(z4, p, 55, t + 3);
    lemma_units_bounds(step_hz(s));
}

/// The way from a step to its frequency and back ends where it began, for
/// every octave from the tuning pitch: the step `69 + 12 * k`.
pub proof fn lemma_octave_round_trip(k: int)
    requires
        -149 <= k <= 119,
    ensures
        eq_bits(hz_step(step_hz(int_bits(69 + 12 * k))), int_bits(69 + 12 * k)),
{
    let p = pow2(149);
    lemma_pow2_pos(149);
    lemma_pitch_constants();
    let v = 69 + 12 * k;
    let s = int_bits(v);
    lemma_small_held_exactly(v);
    lemma_int_bits_exact(v, magnitude_of_int(v), 0);
    let h = step_hz(s);
    lemma_octaves(k);
    let t = (k + 149) as nat;
    let pe = pow2(t);
    lemma_pow2_pos(t);
    // The frequency over 440 is 2^k,
    let r1 = div_bits(h, TUNING_HZ);
    lemma_div_units(h, TUNING_HZ);
    let m440 = mag_units(magnitude(TUNING_HZ));
    let z1 = units(h) * p;
    lemma_pow2_monotone(t, 276);
    lemma_pow2_strictly_increases(276, 277);
    assert(z1 == 1 * pe * m440 && z1 >= 0 && 1 * pe == pe) by (nonlinear_arith)
        requires
            z1 == (440 * pe) * p,
            m440 == 440 * p,
            pe > 0,
            p > 0,
    ;
    lemma_round_signed_exact(z1, m440, 1, t);
    // whose logarithm is k;
    let r2 = log2_bits(r1);
    lemma_log2_of_pow2(r1, k);
    // twelve times that is 12 * k,
    let r3 = mul_bits(OCTAVE_STEPS, r2);
    lemma_mul_units(OCTAVE_STEPS, r2);
    let z3 = mag_units(magnitude(OCTAVE_STEPS)) * units(r2);
    let c3 = magnitude_of_int(12 * k);
    lemma_small_in_range(c3);
    assert((z3 == c3 * p * p || z3 == -(c3 * p * p)) && (z3 < 0 <==> 12 * k < 0))
        by (nonlinear_arith)
        requires
            z3 == (12 * p) * (k * p),
            (12 * k < 0 && c3 == -(12 * k)) || (12 * k >= 0 && c3 == 12 * k),
            p > 0,
    ;
    lemma_round_signed_exact(z3, p, c3, 149);
    assert(units(r3) == (12 * k) * p) by (nonlinear_arith)
        requires
            units(r3) == (if z3 < 0 {
                -((c3 * p) as int)
            } else {
                (c3 * p) as int
            }),
            (12 * k < 0 && c3 == -(12 * k)) || (12 * k >= 0 && c3 == 12 * k),
            z3 < 0 <==> 12 * k < 0,
    ;
    lemma_units_bounds(r3);
    // and 69 more is the step.
    let r4 = add_bits(TUNING_STEP, r3);
    lemma_add_units(TUNING_STEP, r3);
    let z4 = units(TUNING_STEP) + units(r3);
    let c4 = magnitude_of_int(v);
    lemma_small_in_range(c4);
    assert((z4 == c4 * p * 1 || z4 == -(c4 * p * 1)) && (z4 < 0 <==> v < 0) && z4 == v * p)
        by (nonlinear_arith)
        requires
            z4 == 69 * p + (12 * k) * p,
            v == 69 + 12 * k,
            (v < 0 && c4 == -v) || (v >= 0 && c4 == v),
            p > 0,
    ;
    lemma_round_signed_exact(z4, 1, c4, 149);
    assert(units(r4) == v * p) by (nonlinear_arith)
        requires
            units(r4) == (if z4 < 0 {
                -((c4 * p) as int)
            } else {
                (c4 * p) as int
            }),
            (v < 0 && c4 == -v) || (v >= 0 && c4 == v),
            z4 < 0 <==> v < 0,
    ;
}

/// A higher frequency never has the lower step, over the frequencies that
/// are not negative.
pub proof fn lemma_hz_step_monotone(h1: u32, h2: u32)
    requires
        le_bits(h1, h2),
        units(h1) >= 0,
    ensures
        le_bits(hz_step(h1), hz_step(h2)),
{
    lemma_div_monotone(h1, h2, TUNING_HZ);
    let (q1, q2) = (div_bits(h1, TUNING_HZ), div_bits(h2, TUNING_HZ));
    // Against the frequency zero, whose quotient is zero.
    assert(mag_units(0) == 0);
    lemma_div_monotone(0, h1, TUNING_HZ);
    lemma_mag_order(0, TUNING_HZ);
    lemma_round_mag_exact(0, mag_units(magnitude(TUNING_HZ)));
    assert(mag_units(0) * pow2(149) == 0 && mag_units(0) * mag_units(magnitude(TUNING_HZ)) == 0)
        by (nonlinear_arith)
        requires
            mag_units(0) == 0,
    ;
    assert(div_bits(0, TUNING_HZ) == 0);
    lemma_log2_monotone(q1, q2);
    lemma_mul_monotone(OCTAVE_STEPS, log2_bits(q1), log2_bits(q2));
    lemma_add_monotone(
        TUNING_STEP,
        mul_bits(OCTAVE_STEPS, log2_bits(q1)),
        mul_bits(OCTAVE_STEPS, log2_bits(q2)),
    );
}

/// The way from a step to its frequency and back stays within the octave:
/// a step between the tuning pitch moved by `k` octaves and by `k + 1` comes
/// back between the same two.
pub proof fn lemma_round_trip_within_octave(step: u32, k: int)
    requires
        -149 <= k < 119,
        le_bits(int_bits(69 + 12 * k), step),
        le_bits(step, int_bits(69 + 12 * (k + 1))),
    ensures
        le_bits(int_bits(69 + 12 * k), hz_step(step_hz(step))),
        le_bits(hz_step(step_hz(step)), int_bits(69 + 12 * (k + 1))),
{
    let (low, high) = (int_bits(69 + 12 * k), int_bits(69 + 12 * (k + 1)));
    lemma_hz_monotone(low, step);
    lemma_hz_monotone(step, high);
    lemma_hz_not_negative(low);
    lemma_hz_not_negative(step);
    lemma_hz_step_monotone(step_hz(low), step_hz(step));
    lemma_hz_step_monotone(step_hz(step), step_hz(high));
    lemma_octave_round_trip(k);
    lemma_octave_round_trip(k + 1);
}

} // verus!
