//! The unit types that a [`crate::step::Step`] converts to. Each tags a raw
//! value with its unit and gives nothing but the value back.

use vstd::prelude::*;

verus! {

/// A weight for the scaled percentage, as a binary32 bit pattern.
pub type ScaleWeight = u32;

/// The number of an octave.
pub type Octave = i32;

/// A frequency in cycles per second, as a binary32 bit pattern.
#[derive(Debug, Copy, Clone)]
pub struct Hz(pub crate::calc::Hz);

/// A pitch on the mel scale, as a binary32 bit pattern.
#[derive(Debug, Copy, Clone)]
pub struct Mel(pub crate::calc::Mel);

/// A percentage of the range of human hearing, as a binary32 bit pattern.
#[derive(Debug, Copy, Clone)]
pub struct Perc(pub crate::calc::Perc);

/// A weighted percentage of the range of human hearing, together with the
/// weight that produced it; both are binary32 bit patterns.
#[derive(Debug, Copy, Clone)]
pub struct ScaledPerc(pub crate::calc::Perc, pub ScaleWeight);

/// The twelve pitch classes of an octave, from C upward in semitones.
#[derive(Debug, Copy, Clone, PartialEq, Eq, Structural)]
pub enum Letter {
    C,
    Csh,
    D,
    Dsh,
    E,
    F,
    Fsh,
    G,
    Gsh,
    A,
    Ash,
    B,
}

/// A pitch class in an octave, such as C in octave 4.
#[derive(Debug, Copy, Clone)]
pub struct LetterOctave(pub Letter, pub Octave);

impl Hz {
    /// The frequency.
    pub fn hz(self) -> (r: crate::calc::Hz)
        ensures
            r == self.0,
    {
        self.0
    }
}

impl Mel {
    /// The mel value.
    pub fn mel(self) -> (r: crate::calc::Mel)
        ensures
            r == self.0,
    {
        self.0
    }
}

impl Perc {
    /// The percentage.
    pub fn perc(self) -> (r: crate::calc::Perc)
        ensures
            r == self.0,
    {
        self.0
    }
}

impl ScaledPerc {
    /// The weighted percentage.
    pub fn scaled_perc(self) -> (r: crate::calc::Perc)
        ensures
            r == self.0,
    {
        self.0
    }

    /// The weight that produced the percentage.
    pub fn weight(self) -> (r: ScaleWeight)
        ensures
            r == self.1,
    {
        self.1
    }
}

impl Letter {
    /// The number of semitones from C up to this pitch class.
    pub open spec fn index(self) -> int {
        match self {
            Letter::C => 0,
            Letter::Csh => 1,
            Letter::D => 2,
            Letter::Dsh => 3,
            Letter::E => 4,
            Letter::F => 5,
            Letter::Fsh => 6,
            Letter::G => 7,
            Letter::Gsh => 8,
            Letter::A => 9,
            Letter::Ash => 10,
            Letter::B => 11,
        }
    }

    /// The pitch class `i` semitones above C, for `i` from 0 to 11.
    pub open spec fn at(i: int) -> Letter {
        if i == 0 {
            Letter::C
        } else if i == 1 {
            Letter::Csh
        } else if i == 2 {
            Letter::D
        } else if i == 3 {
            Letter::Dsh
        } else if i == 4 {
            Letter::E
        } else if i == 5 {
            Letter::F
        } else if i == 6 {
            Letter::Fsh
        } else if i == 7 {
            Letter::G
        } else if i == 8 {
            Letter::Gsh
        } else if i == 9 {
            Letter::A
        } else if i == 10 {
            Letter::Ash
        } else {
            Letter::B
        }
    }

    /// The pitch class that many semitones above C.
    pub fn from_index(i: u8) -> (r: Letter)
        requires
            i < 12,
        ensures
            r == Letter::at(i as int),
            r.index() == i,
    {
        if i == 0 {
            Letter::C
        } else if i == 1 {
            Letter::Csh
        } else if i == 2 {
            Letter::D
        } else if i == 3 {
            Letter::Dsh
        } else if i == 4 {
            Letter::E
        } else if i == 5 {
            Letter::F
        } else if i == 6 {
            Letter::Fsh
        } else if i == 7 {
            Letter::G
        } else if i == 8 {
            Letter::Gsh
        } else if i == 9 {
            Letter::A
        } else if i == 10 {
            Letter::Ash
        } else {
            Letter::B
        }
    }
}

impl LetterOctave {
    /// The pitch class.
    pub fn letter(self) -> (r: Letter)
        ensures
            r == self.0,
    {
        self.0
    }

    /// The octave.
    pub fn octave(self) -> (r: Octave)
        ensures
            r == self.1,
    {
        self.1
    }
}

} // verus!
