//! Steps from and to the integer types, for MIDI note numbers.
//!
//! An integer becomes the nearest step. A step becomes an integer as a
//! numeric cast makes one: the fraction is dropped, a value beyond the
//! type's bounds becomes the nearest bound, and a NaN becomes zero.

use vstd::prelude::*;
use vstd::std_specs::convert::{FromSpec, FromSpecImpl};
use crate::convert_laws::{held_exactly, lemma_int_round_trip, lemma_small_int_round_trip};
use crate::convert::{int_bits, truncated, from_u64, from_i64, truncate};
use crate::step::Step;

verus! {

impl From<u8> for Step {
    /// The step nearest to an integer.
    fn from(val: u8) -> (r: Step) {
        Step(from_u64(val as u64))
    }
}

impl FromSpecImpl<u8> for Step {
    open spec fn obeys_from_spec() -> bool {
        true
    }

    open spec fn from_spec(val: u8) -> Step {
        Step(int_bits(val as int))
    }
}

impl From<Step> for u8 {
    /// The step cast to an integer.
    fn from(step: Step) -> (r: u8) {
        truncate(step.0, 0, 0xff) as u8
    }
}

impl FromSpecImpl<Step> for u8 {
    open spec fn obeys_from_spec() -> bool {
        true
    }

    open spec fn from_spec(step: Step) -> u8 {
        truncated(step.0, 0, 0xff) as u8
    }
}

impl From<u16> for Step {
    /// The step nearest to an integer.
    fn from(val: u16) -> (r: Step) {
        Step(from_u64(val as u64))
    }
}

impl FromSpecImpl<u16> for Step {
    open spec fn obeys_from_spec() -> bool {
        true
    }

    open spec fn from_spec(val: u16) -> Step {
        Step(int_bits(val as int))
    }
}

impl From<Step> for u16 {
    /// The step cast to an integer.
    fn from(step: Step) -> (r: u16) {
        truncate(step.0, 0, 0xffff) as u16
    }
}

impl FromSpecImpl<Step> for u16 {
    open spec fn obeys_from_spec() -> bool {
        true
    }

    open spec fn from_spec(step: Step) -> u16 {
        truncated(step.0, 0, 0xffff) as u16
    }
}

impl From<u32> for Step {
    /// The step nearest to an integer.
    fn from(val: u32) -> (r: Step) {
        Step(from_u64(val as u64))
    }
}

impl FromSpecImpl<u32> for Step {
    open spec fn obeys_from_spec() -> bool {
        true
    }

    open spec fn from_spec(val: u32) -> Step {
        Step(int_bits(val as int))
    }
}

impl From<Step> for u32 {
    /// The step cast to an integer.
    fn from(step: Step) -> (r: u32) {
        truncate(step.0, 0, 0xffff_ffff) as u32
    }
}

impl FromSpecImpl<Step> for u32 {
    open spec fn obeys_from_spec() -> bool {
        true
    }

    open spec fn from_spec(step: Step) -> u32 {
        truncated(step.0, 0, 0xffff_ffff) as u32
    }
}

impl From<u64> for Step {
    /// The step nearest to an integer.
    fn from(val: u64) -> (r: Step) {
        Step(from_u64(val))
    }
}

impl FromSpecImpl<u64> for Step {
    open spec fn obeys_from_spec() -> bool {
        true
    }

    open spec fn from_spec(val: u64) -> Step {
        Step(int_bits(val as int))
    }
}

impl From<Step> for u64 {
    /// The step cast to an integer.
    fn from(step: Step) -> (r: u64) {
        truncate(step.0, 0, 0xffff_ffff_ffff_ffff) as u64
    }
}

impl FromSpecImpl<Step> for u64 {
    open spec fn obeys_from_spec() -> bool {
        true
    }

    open spec fn from_spec(step: Step) -> u64 {
        truncated(step.0, 0, 0xffff_ffff_ffff_ffff) as u64
    }
}

impl From<i8> for Step {
    /// The step nearest to an integer.
    fn from(val: i8) -> (r: Step) {
        Step(from_i64(val as i64))
    }
}

impl FromSpecImpl<i8> for Step {
    open spec fn obeys_from_spec() -> bool {
        true
    }

    open spec fn from_spec(val: i8) -> Step {
        Step(int_bits(val as int))
    }
}

impl From<Step> for i8 {
    /// The step cast to an integer.
    fn from(step: Step) -> (r: i8) {
        truncate(step.0, -0x80, 0x7f) as i8
    }
}

impl FromSpecImpl<Step> for i8 {
    open spec fn obeys_from_spec() -> bool {
        true
    }

    open spec fn from_spec(step: Step) -> i8 {
        truncated(step.0, -0x80, 0x7f) as i8
    }
}

impl From<i16> for Step {
    /// The step nearest to an integer.
    fn from(val: i16) -> (r: Step) {
        Step(from_i64(val as i64))
    }
}

impl FromSpecImpl<i16> for Step {
    open spec fn obeys_from_spec() -> bool {
        true
    }

    open spec fn from_spec(val: i16) -> Step {
        Step(int_bits(val as int))
    }
}

impl From<Step> for i16 {
    /// The step cast to an integer.
    fn from(step: Step) -> (r: i16) {
        truncate(step.0, -0x8000, 0x7fff) as i16
    }
}

impl FromSpecImpl<Step> for i16 {
    open spec fn obeys_from_spec() -> bool {
        true
    }

    open spec fn from_spec(step: Step) -> i16 {
        truncated(step.0, -0x8000, 0x7fff) as i16
    }
}

impl From<i32> for Step {
    /// The step nearest to an integer.
    fn from(val: i32) -> (r: Step) {
        Step(from_i64(val as i64))
    }
}

impl FromSpecImpl<i32> for Step {
    open spec fn obeys_from_spec() -> bool {
        true
    }

    open spec fn from_spec(val: i32) -> Step {
        Step(int_bits(val as int))
    }
}

impl From<Step> for i32 {
    /// The step cast to an integer.
    fn from(step: Step) -> (r: i32) {
        truncate(step.0, -0x8000_0000, 0x7fff_ffff) as i32
    }
}

impl FromSpecImpl<Step> for i32 {
    open spec fn obeys_from_spec() -> bool {
        true
    }

    open spec fn from_spec(step: Step) -> i32 {
        truncated(step.0, -0x8000_0000, 0x7fff_ffff) as i32
    }
}

impl From<i64> for Step {
    /// The step nearest to an integer.
    fn from(val: i64) -> (r: Step) {
        Step(from_i64(val))
    }
}

impl FromSpecImpl<i64> for Step {
    open spec fn obeys_from_spec() -> bool {
        true
    }

    open spec fn from_spec(val: i64) -> Step {
        Step(int_bits(val as int))
    }
}

impl From<Step> for i64 {
    /// The step cast to an integer.
    fn from(step: Step) -> (r: i64) {
        truncate(step.0, -0x8000_0000_0000_0000, 0x7fff_ffff_ffff_ffff) as i64
    }
}

impl FromSpecImpl<Step> for i64 {
    open spec fn obeys_from_spec() -> bool {
        true
    }

    open spec fn from_spec(step: Step) -> i64 {
        truncated(step.0, -0x8000_0000_0000_0000, 0x7fff_ffff_ffff_ffff) as i64
    }
}

/// Every integer of eight unsigned bits comes back from its step unchanged.
pub proof fn lemma_u8_round_trip(n: u8)
    ensures
        <u8 as FromSpec<Step>>::from_spec(<Step as FromSpec<u8>>::from_spec(n)) == n,
{
    lemma_small_int_round_trip(n as int, 0, 0xff);
}

/// Every integer of sixteen unsigned bits comes back from its step unchanged.
pub proof fn lemma_u16_round_trip(n: u16)
    ensures
        <u16 as FromSpec<Step>>::from_spec(<Step as FromSpec<u16>>::from_spec(n)) == n,
{
    lemma_small_int_round_trip(n as int, 0, 0xffff);
}

/// Every integer of eight signed bits comes back from its step unchanged.
pub proof fn lemma_i8_round_trip(n: i8)
    ensures
        <i8 as FromSpec<Step>>::from_spec(<Step as FromSpec<i8>>::from_spec(n)) == n,
{
    lemma_small_int_round_trip(n as int, -0x80, 0x7f);
}

/// Every integer of sixteen signed bits comes back from its step unchanged.
pub proof fn lemma_i16_round_trip(n: i16)
    ensures
        <i16 as FromSpec<Step>>::from_spec(<Step as FromSpec<i16>>::from_spec(n)) == n,
{
    lemma_small_int_round_trip(n as int, -0x8000, 0x7fff);
}

/// An integer of thirty-two unsigned bits that binary32 holds exactly comes back from
/// its step unchanged.
pub proof fn lemma_u32_round_trip(n: u32, c: nat, t: nat)
    requires
        held_exactly(n as int, c, t),
    ensures
        <u32 as FromSpec<Step>>::from_spec(<Step as FromSpec<u32>>::from_spec(n)) == n,
{
    lemma_int_round_trip(n as int, c, t, 0, 0xffff_ffff);
}

/// An integer of sixty-four unsigned bits that binary32 holds exactly comes back from
/// its step unchanged.
pub proof fn lemma_u64_round_trip(n: u64, c: nat, t: nat)
    requires
        held_exactly(n as int, c, t),
    ensures
        <u64 as FromSpec<Step>>::from_spec(<Step as FromSpec<u64>>::from_spec(n)) == n,
{
    lemma_int_round_trip(n as int, c, t, 0, 0xffff_ffff_ffff_ffff);
}

/// An integer of thirty-two signed bits that binary32 holds exactly comes back from
/// its step unchanged.
pub proof fn lemma_i32_round_trip(n: i32, c: nat, t: nat)
    requires
        held_exactly(n as int, c, t),
    ensures
        <i32 as FromSpec<Step>>::from_spec(<Step as FromSpec<i32>>::from_spec(n)) == n,
{
    lemma_int_round_trip(n as int, c, t, -0x8000_0000, 0x7fff_ffff);
}

/// An integer of sixty-four signed bits that binary32 holds exactly comes back from
/// its step unchanged.
pub proof fn lemma_i64_round_trip(n: i64, c: nat, t: nat)
    requires
        held_exactly(n as int, c, t),
    ensures
        <i64 as FromSpec<Step>>::from_spec(<Step as FromSpec<i64>>::from_spec(n)) == n,
{
    lemma_int_round_trip(n as int, c, t, -0x8000_0000_0000_0000, 0x7fff_ffff_ffff_ffff);
}

} // verus!
