//! The step: the pitch unit that every conversion starts from.

use vstd::prelude::*;
use crate::calc::{
    DEFAULT_SCALE_WEIGHT, step_hz, step_mel, step_perc, step_scaled_perc, step_letter_octave,
    hz_from_step, mel_from_step, perc_from_step, scaled_perc_from_step, letter_octave_from_step,
};
use crate::units::{Hz, Mel, Perc, ScaledPerc, ScaleWeight, Letter, Octave, LetterOctave};

verus! {

/// A pitch as a MIDI-like step: a continuous count of semitones, held as a
/// binary32 bit pattern. No pattern is refused: a NaN or an infinity is a
/// step like any other, and the conversions say what they make of it.
#[derive(Debug, Copy, Clone)]
pub struct Step(pub crate::calc::Step);

impl Step {
    /// The value in steps.
    pub fn step(self) -> (r: crate::calc::Step)
        ensures
            r == self.0,
    {
        self.0
    }

    /// The frequency in Hz, as a raw value.
    pub fn hz(self) -> (r: crate::calc::Hz)
        ensures
            r == step_hz(self.0),
    {
        hz_from_step(self.0)
    }

    /// The frequency in Hz.
    pub fn to_hz(self) -> (r: Hz)
        ensures
            r.0 == step_hz(self.0),
    {
        Hz(self.hz())
    }

    /// The nearest pitch class and its octave.
    pub fn letter_octave(self) -> (r: (Letter, Octave))
        ensures
            r == step_letter_octave(self.0),
    {
        letter_octave_from_step(self.0)
    }

    /// The nearest pitch class.
    pub fn letter(self) -> (r: Letter)
        ensures
            r == step_letter_octave(self.0).0,
    {
        let (letter, _) = self.letter_octave();
        letter
    }

    /// The octave of the nearest pitch class.
    pub fn octave(self) -> (r: Octave)
        ensures
            r == step_letter_octave(self.0).1,
    {
        let (_, octave) = self.letter_octave();
        octave
    }

    /// The nearest pitch class with its octave.
    pub fn to_letter_octave(self) -> (r: LetterOctave)
        ensures
            (r.0, r.1) == step_letter_octave(self.0),
    {
        let (letter, octave) = self.letter_octave();
        LetterOctave(letter, octave)
    }

    /// The pitch on the mel scale, as a raw value.
    pub fn mel(self) -> (r: crate::calc::Mel)
        ensures
            r == step_mel(self.0),
    {
        mel_from_step(self.0)
    }

    /// The pitch on the mel scale.
    pub fn to_mel(self) -> (r: Mel)
        ensures
            r.0 == step_mel(self.0),
    {
        Mel(self.mel())
    }

    /// The percentage of the range of human hearing, as a raw value.
    pub fn perc(self) -> (r: crate::calc::Perc)
        ensures
            r == step_perc(self.0),
    {
        perc_from_step(self.0)
    }

    /// The percentage of the range of human hearing.
    pub fn to_perc(self) -> (r: Perc)
        ensures
            r.0 == step_perc(self.0),
    {
        Perc(self.perc())
    }

    /// The percentage of the range of human hearing under a weight, as a
    /// raw value.
    pub fn scaled_perc_with_weight(self, weight: ScaleWeight) -> (r: crate::calc::Perc)
        ensures
            r == step_scaled_perc(self.0, weight),
    {
        scaled_perc_from_step(self.0, weight)
    }

    /// The percentage of the range of human hearing under the default
    /// weight, as a raw value.
    pub fn scaled_perc(self) -> (r: crate::calc::Perc)
        ensures
            r == step_scaled_perc(self.0, DEFAULT_SCALE_WEIGHT),
    {
        self.scaled_perc_with_weight(DEFAULT_SCALE_WEIGHT)
    }

    /// The percentage of the range of human hearing under a weight, with
    /// the weight.
    pub fn to_scaled_perc_with_weight(self, weight: ScaleWeight) -> (r: ScaledPerc)
        ensures
            r.0 == step_scaled_perc(self.0, weight),
            r.1 == weight,
    {
        ScaledPerc(self.scaled_perc_with_weight(weight), weight)
    }

    /// The percentage of the range of human hearing under the default
    /// weight, with that weight.
    pub fn to_scaled_perc(self) -> (r: ScaledPerc)
        ensures
            r.0 == step_scaled_perc(self.0, DEFAULT_SCALE_WEIGHT),
            r.1 == DEFAULT_SCALE_WEIGHT,
    {
        self.to_scaled_perc_with_weight(DEFAULT_SCALE_WEIGHT)
    }
}

} // verus!
