//! Equality and order of binary32 bit patterns, by the values they stand
//! for: the two zeros are equal, and a NaN is neither equal to, nor below,
//! nor above anything.

use vstd::prelude::*;
use crate::binary32::{
    INFINITY_MAG, magnitude, is_negative, is_nan, mag_units, units, magnitude_of, negative_of,
    lemma_mag_units_increasing,
};

verus! {

/// Whether two patterns stand for the same value.
pub open spec fn eq_bits(a: u32, b: u32) -> bool {
    !is_nan(a) && !is_nan(b) && units(a) == units(b)
}

/// Whether the first pattern's value is below the second's.
pub open spec fn lt_bits(a: u32, b: u32) -> bool {
    !is_nan(a) && !is_nan(b) && units(a) < units(b)
}

/// Whether the first pattern's value is at most the second's.
pub open spec fn le_bits(a: u32, b: u32) -> bool {
    !is_nan(a) && !is_nan(b) && units(a) <= units(b)
}

/// An integer that orders patterns as their values do: the magnitude bits,
/// negated under a sign bit.
pub open spec fn order_key(b: u32) -> int {
    if is_negative(b) {
        -(magnitude(b) as int)
    } else {
        magnitude(b) as int
    }
}

/// Magnitude bits and absolute values are ordered alike.
pub proof fn lemma_mag_order(m1: u32, m2: u32)
    ensures
        m1 < m2 <==> mag_units(m1) < mag_units(m2),
        m1 == m2 <==> mag_units(m1) == mag_units(m2),
{
    if m1 < m2 {
        lemma_mag_units_increasing(m1, m2);
    } else if m2 < m1 {
        lemma_mag_units_increasing(m2, m1);
    }
}

/// The order key and the value are ordered alike.
pub proof fn lemma_order_key(a: u32, b: u32)
    ensures
        order_key(a) < order_key(b) <==> units(a) < units(b),
        order_key(a) == order_key(b) <==> units(a) == units(b),
{
    lemma_mag_order(magnitude(a), magnitude(b));
    lemma_mag_order(0, magnitude(a));
    lemma_mag_order(0, magnitude(b));
    assert(mag_units(0) == 0);
}

/// The order key of a pattern.
fn key_of(b: u32) -> (r: i64)
    ensures
        r == order_key(b),
{
    let mag: u32 = magnitude_of(b);
    if negative_of(b) {
        -(mag as i64)
    } else {
        mag as i64
    }
}

/// Whether a pattern is a NaN.
pub fn nan(b: u32) -> (r: bool)
    ensures
        r == is_nan(b),
{
    magnitude_of(b) > INFINITY_MAG
}

/// Whether two patterns stand for the same value.
pub fn equal(a: u32, b: u32) -> (r: bool)
    ensures
        r == eq_bits(a, b),
{
    if nan(a) || nan(b) {
        return false;
    }
    proof {
        lemma_order_key(a, b);
    }
    key_of(a) == key_of(b)
}

/// Whether the first pattern's value is below the second's.
pub fn less(a: u32, b: u32) -> (r: bool)
    ensures
        r == lt_bits(a, b),
{
    if nan(a) || nan(b) {
        return false;
    }
    proof {
        lemma_order_key(a, b);
    }
    key_of(a) < key_of(b)
}

} // verus!
