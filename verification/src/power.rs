//! Raising a binary32 value to a binary32 power.

use vstd::prelude::*;
use crate::arith::{mul_bits, product};
use crate::binary32::{is_zero, magnitude_of};
use crate::compare::{eq_bits, equal};
use crate::exp2::{exp2_bits, exp2};
use crate::log2::{log2_bits, log2};

verus! {

/// One.
pub const ONE: u32 = 0x3f80_0000;

/// A base raised to an exponent.
///
/// The first power of anything is the thing itself, and the power of
/// anything to zero, like every power of one, is one. Otherwise the power is
/// two to the exponent times the base's binary logarithm, so that a negative
/// base gives the canonical NaN.
pub open spec fn pow_bits(base: u32, exponent: u32) -> u32 {
    if eq_bits(exponent, ONE) {
        base
    } else if is_zero(exponent) || eq_bits(base, ONE) {
        ONE
    } else {
        exp2_bits(mul_bits(exponent, log2_bits(base)))
    }
}

/// Raises a base to an exponent.
pub fn power(base: u32, exponent: u32) -> (r: u32)
    ensures
        r == pow_bits(base, exponent),
{
    if equal(exponent, ONE) {
        base
    } else if magnitude_of(exponent) == 0 || equal(base, ONE) {
        ONE
    } else {
        exp2(product(exponent, log2(base)))
    }
}

} // verus!
