//! Pitch units and the conversions between them, on binary32 values held as
//! their bit patterns.
//!
//! A pitch is a [`Step`]: a continuous, MIDI-like semitone number. From a
//! step come its frequency in [`Hz`], its place on the [`Mel`] scale, its
//! place in the range of human hearing as a [`Perc`] or a [`ScaledPerc`],
//! and the nearest [`Letter`] with its [`Octave`].
//!
//! Every scalar in this crate is an IEEE 754 binary32 value carried as the
//! `u32` that encodes it, so that each operation is integer code with a
//! contract over the exact value the bits stand for:
//!
//! - [`binary32`] says what a pattern means, and [`compare`] orders patterns;
//! - [`rounding`] rounds an exact value to the nearest pattern, and
//!   [`rounding_laws`] says what holds of that;
//! - [`arith`] has the arithmetic, [`convert`] the integers, [`exp2`],
//!   [`log2`] and [`power`] the powers and logarithms, each with its laws
//!   beside it;
//! - [`calc`] has the conversions from a step on raw values, [`calc_laws`]
//!   and [`hz_rise`] what holds of them;
//! - [`step`], [`step_ops`], [`step_order`] and [`step_int`] make up the
//!   [`Step`] type, and [`units`] the types it converts to.

pub mod binary32;
pub mod numeric;
pub mod compare;
pub mod rounding;
pub mod rounding_laws;
pub mod arith;
pub mod arith_laws;
pub mod convert;
pub mod convert_laws;
pub mod exp2;
pub mod log2;
pub mod power;
pub mod units;
pub mod calc;
pub mod calc_laws;
pub mod hz_rise;
pub mod step;
pub mod step_ops;
pub mod step_order;
pub mod step_int;

pub use calc::DEFAULT_SCALE_WEIGHT;
pub use step::Step;
pub use units::{Hz, Mel, Perc, ScaledPerc, ScaleWeight, Letter, Octave, LetterOctave};
