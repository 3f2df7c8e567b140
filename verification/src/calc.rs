//! The conversions from a step to the other units, on raw binary32 bit
//! patterns.
//!
//! Steps are semitones on the MIDI scale: step 69 is the A above middle C,
//! at 440 Hz, and twelve steps make an octave, which doubles the frequency.
//! Every formula is evaluated in binary32 arithmetic, one rounding for each
//! operation.

use vstd::prelude::*;
use crate::arith::{add_bits, sub_bits, mul_bits, div_bits, sum, difference, product, quotient};
use crate::convert::{rounded, round_half_up};
use crate::exp2::{exp2_bits, exp2};
use crate::log2::{log2_bits, log2};
use crate::power::{ONE, pow_bits, power};
use crate::units::{Letter, Octave, ScaleWeight};

verus! {

/// A step, as a binary32 bit pattern.
pub type Step = u32;

/// A frequency in Hz, as a binary32 bit pattern.
pub type Hz = u32;

/// A mel value, as a binary32 bit pattern.
pub type Mel = u32;

/// A percentage, as a binary32 bit pattern.
pub type Perc = u32;

/// The step of the tuning pitch: 69.
pub const TUNING_STEP: u32 = 0x428a_0000;

/// The frequency of the tuning pitch: 440 Hz.
pub const TUNING_HZ: u32 = 0x43dc_0000;

/// The number of steps in an octave: 12.
pub const OCTAVE_STEPS: u32 = 0x4140_0000;

/// The lower end of the range of human hearing: 20 Hz.
pub const MIN_HZ: u32 = 0x41a0_0000;

/// The width of the range of human hearing: 20000 Hz less 20 Hz.
pub const HZ_SPAN: u32 = 0x469c_1800;

/// One hundred.
pub const HUNDRED: u32 = 0x42c8_0000;

/// The frequency at which the mel scale turns from linear to logarithmic:
/// 700 Hz.
pub const MEL_CORNER_HZ: u32 = 0x442f_0000;

/// The mels to a doubling of one plus the frequency over the corner
/// frequency: 2595 times the decimal logarithm of two.
pub const MEL_PER_DOUBLING: u32 = 0x4443_4b10;

/// The weight of the scaled percentage where none is given: 4.
pub const DEFAULT_SCALE_WEIGHT: ScaleWeight = 0x4080_0000;

/// The frequency of a step: `440 * 2^((step - 69) / 12)`.
pub open spec fn step_hz(step: u32) -> u32 {
    mul_bits(TUNING_HZ, exp2_bits(div_bits(sub_bits(step, TUNING_STEP), OCTAVE_STEPS)))
}

/// The step of a frequency: `69 + 12 * log2(hz / 440)`, the way back from
/// [`step_hz`] up to rounding.
pub open spec fn hz_step(hz: u32) -> u32 {
    add_bits(TUNING_STEP, mul_bits(OCTAVE_STEPS, log2_bits(div_bits(hz, TUNING_HZ))))
}

/// The place of a frequency in the range of human hearing, as a share of the
/// range: `(hz - 20) / 19980`.
pub open spec fn hz_share(hz: u32) -> u32 {
    div_bits(sub_bits(hz, MIN_HZ), HZ_SPAN)
}

/// The place of a step's frequency in the range of human hearing, in
/// percent: nought at 20 Hz, one hundred at 20000 Hz.
pub open spec fn step_perc(step: u32) -> u32 {
    mul_bits(hz_share(step_hz(step)), HUNDRED)
}

/// The mel value of a frequency: `2595 * log10(1 + hz / 700)`, with the
/// decimal logarithm taken as a multiple of the binary one.
pub open spec fn hz_mel(hz: u32) -> u32 {
    mul_bits(MEL_PER_DOUBLING, log2_bits(add_bits(ONE, div_bits(hz, MEL_CORNER_HZ))))
}

/// The mel value of a step's frequency.
pub open spec fn step_mel(step: u32) -> u32 {
    hz_mel(step_hz(step))
}

/// The weighted percentage of a step: the share of the range of human
/// hearing below its frequency, raised to the power of one over the weight,
/// in percent. With a weight above one the low end of the range is spread
/// out and the high end drawn together; the weight one leaves the
/// percentage as it is.
pub open spec fn step_scaled_perc(step: u32, weight: ScaleWeight) -> u32 {
    mul_bits(pow_bits(hz_share(step_hz(step)), div_bits(ONE, weight)), HUNDRED)
}

/// The semitone nearest to a step, halves going up, saturated to thirty-two
/// bits; zero for a NaN.
pub open spec fn step_semitone(step: u32) -> int {
    rounded(step, -0x8000_0000, 0x7fff_ffff)
}

/// The pitch class and the octave of the semitone nearest to a step.
/// Semitone zero is C in octave -1, so that step 69 is A in octave 4.
pub open spec fn step_letter_octave(step: u32) -> (Letter, Octave) {
    (Letter::at(step_semitone(step) % 12), (step_semitone(step) / 12 - 1) as i32)
}

/// Computes the frequency of a step.
pub fn hz_from_step(step: Step) -> (r: Hz)
    ensures
        r == step_hz(step),
{
    product(TUNING_HZ, exp2(quotient(difference(step, TUNING_STEP), OCTAVE_STEPS)))
}

/// Computes the step of a frequency.
pub fn step_from_hz(hz: Hz) -> (r: Step)
    ensures
        r == hz_step(hz),
{
    sum(TUNING_STEP, product(OCTAVE_STEPS, log2(quotient(hz, TUNING_HZ))))
}

/// Computes the share of the range of human hearing below a frequency.
pub fn share_from_hz(hz: Hz) -> (r: u32)
    ensures
        r == hz_share(hz),
{
    quotient(difference(hz, MIN_HZ), HZ_SPAN)
}

/// Computes the percentage of the range of human hearing below a step.
pub fn perc_from_step(step: Step) -> (r: Perc)
    ensures
        r == step_perc(step),
{
    product(share_from_hz(hz_from_step(step)), HUNDRED)
}

/// Computes the mel value of a frequency.
pub fn mel_from_hz(hz: Hz) -> (r: Mel)
    ensures
        r == hz_mel(hz),
{
    product(MEL_PER_DOUBLING, log2(sum(ONE, quotient(hz, MEL_CORNER_HZ))))
}

/// Computes the mel value of a step.
pub fn mel_from_step(step: Step) -> (r: Mel)
    ensures
        r == step_mel(step),
{
    mel_from_hz(hz_from_step(step))
}

/// Computes the weighted percentage of a step.
pub fn scaled_perc_from_step(step: Step, weight: ScaleWeight) -> (r: Perc)
    ensures
        r == step_scaled_perc(step, weight),
{
    product(power(share_from_hz(hz_from_step(step)), quotient(ONE, weight)), HUNDRED)
}

/// Computes the pitch class and the octave nearest to a step.
pub fn letter_octave_from_step(step: Step) -> (r: (Letter, Octave))
    ensures
        r == step_letter_octave(step),
{
    let semitone: i128 = round_half_up(step, -0x8000_0000, 0x7fff_ffff);
    // Shifted up by a multiple of twelve, the semitone is not negative.
    let shifted: u64 = (semitone + 0xc000_0000) as u64;
    let index: u8 = (shifted % 12) as u8;
    let octave: i32 = ((shifted / 12) as i64 - 0x1000_0000 - 1) as i32;
    (Letter::from_index(index), octave)
}

} // verus!
