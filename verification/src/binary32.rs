//! The meaning of a binary32 bit pattern.
//!
//! A pattern is a sign bit, eight exponent bits and twenty-three fraction
//! bits. Every finite value is a whole multiple of 2^-149, so the model
//! measures values in that unit and stays within the integers.

use vstd::prelude::*;
use vstd::arithmetic::power2::{
    pow2, lemma2_to64, lemma_pow2_pos, lemma_pow2_strictly_increases, lemma_pow2_unfold,
};

verus! {

/// The sign bit.
pub const SIGN_MASK: u32 = 0x8000_0000;

/// The magnitude bits of an infinity: exponent field all ones, fraction zero.
pub const INFINITY_MAG: u32 = 0x7f80_0000;

/// Two to the twenty-third: the weight of the exponent field's lowest bit,
/// and the implicit leading bit of a normal significand.
pub const HIDDEN_BIT: u32 = 0x0080_0000;

/// The pattern without its sign bit.
pub open spec fn magnitude(b: u32) -> u32 {
    if b >= SIGN_MASK {
        (b - SIGN_MASK) as u32
    } else {
        b
    }
}

/// Whether the sign bit is set.
pub open spec fn is_negative(b: u32) -> bool {
    b >= SIGN_MASK
}

/// Whether the pattern is a NaN.
pub open spec fn is_nan(b: u32) -> bool {
    magnitude(b) > INFINITY_MAG
}

/// Whether the pattern is an infinity.
pub open spec fn is_infinite(b: u32) -> bool {
    magnitude(b) == INFINITY_MAG
}

/// Whether the pattern is a zero, a subnormal or a normal number.
pub open spec fn is_finite(b: u32) -> bool {
    magnitude(b) < INFINITY_MAG
}

/// Whether the pattern is one of the two zeros.
pub open spec fn is_zero(b: u32) -> bool {
    magnitude(b) == 0
}

/// The pattern with the given sign and magnitude bits.
pub open spec fn with_sign(negative: bool, mag: u32) -> u32 {
    if negative {
        (mag + SIGN_MASK) as u32
    } else {
        mag
    }
}

/// The absolute value that magnitude bits stand for, in units of 2^-149.
///
/// With exponent field `e` and fraction `f` it is `f` where `e` is zero and
/// `(2^23 + f) * 2^(e - 1)` otherwise. The formula is kept for the infinite
/// magnitude too, where it gives 2^277: a stand-in above every finite value.
pub open spec fn mag_units(mag: u32) -> nat {
    let e = mag / HIDDEN_BIT;
    let f = mag % HIDDEN_BIT;
    if e == 0 {
        f as nat
    } else {
        ((HIDDEN_BIT + f) * pow2((e - 1) as nat)) as nat
    }
}

/// The signed value of a pattern that is no NaN, in units of 2^-149.
pub open spec fn units(b: u32) -> int {
    if is_negative(b) {
        -(mag_units(magnitude(b)) as int)
    } else {
        mag_units(magnitude(b)) as int
    }
}

/// Larger magnitude bits stand for a larger absolute value.
pub proof fn lemma_mag_units_increasing(m1: u32, m2: u32)
    requires
        m1 < m2,
    ensures
        mag_units(m1) < mag_units(m2),
{
    let e1 = m1 / HIDDEN_BIT;
    let f1 = m1 % HIDDEN_BIT;
    let e2 = m2 / HIDDEN_BIT;
    let f2 = m2 % HIDDEN_BIT;
    if e1 == e2 {
        if e1 != 0 {
            let p = pow2((e1 - 1) as nat);
            lemma_pow2_pos((e1 - 1) as nat);
            assert((HIDDEN_BIT + f1) * p < (HIDDEN_BIT + f2) * p) by (nonlinear_arith)
                requires
                    f1 < f2,
                    p > 0,
            ;
        }
    } else {
        assert(e1 < e2);
        let w2 = pow2((e2 - 1) as nat);
        lemma_pow2_pos((e2 - 1) as nat);
        if e1 == 0 {
            assert(f1 < (HIDDEN_BIT + f2) * w2) by (nonlinear_arith)
                requires
                    f1 < 0x0080_0000,
                    w2 >= 1,
                    f2 >= 0,
            ;
        } else {
            let w1 = pow2((e1 - 1) as nat);
            lemma_pow2_pos((e1 - 1) as nat);
            lemma_pow2_unfold(e1 as nat);
            if e1 < e2 - 1 {
                lemma_pow2_strictly_increases(e1 as nat, (e2 - 1) as nat);
            }
            assert(2 * w1 <= w2);
            assert((HIDDEN_BIT + f1) * w1 < (HIDDEN_BIT + f2) * w2) by (nonlinear_arith)
                requires
                    f1 < 0x0080_0000,
                    f2 >= 0,
                    w1 > 0,
                    2 * w1 <= w2,
            ;
        }
    }
}

/// The significand and the unit exponent of magnitude bits: the magnitude is
/// `significand * 2^exponent` units.
pub open spec fn significand(mag: u32) -> nat {
    if mag / HIDDEN_BIT == 0 {
        (mag % HIDDEN_BIT) as nat
    } else {
        (HIDDEN_BIT + mag % HIDDEN_BIT) as nat
    }
}

/// The exponent that goes with [`significand`].
pub open spec fn unit_exp(mag: u32) -> nat {
    if mag / HIDDEN_BIT == 0 {
        0
    } else {
        (mag / HIDDEN_BIT - 1) as nat
    }
}

/// Splits magnitude bits into significand and unit exponent.
pub fn decode_mag(mag: u32) -> (r: (u32, u32))
    requires
        mag <= INFINITY_MAG,
    ensures
        r.0 == significand(mag),
        r.1 == unit_exp(mag),
        mag_units(mag) == r.0 * pow2(r.1 as nat),
        r.0 < 0x100_0000,
        r.1 <= 254,
        mag < INFINITY_MAG ==> r.1 <= 253,
        r.1 >= 1 ==> r.0 >= 0x80_0000,
        mag != 0 ==> r.0 >= 1,
{
    let e: u32 = mag / HIDDEN_BIT;
    let f: u32 = mag % HIDDEN_BIT;
    proof {
        lemma2_to64();
    }
    if e == 0 {
        proof {
            assert(f * pow2(0) == f) by (nonlinear_arith)
                requires
                    pow2(0) == 1,
            ;
        }
        (f, 0)
    } else {
        (HIDDEN_BIT + f, e - 1)
    }
}

/// The magnitude bits of a pattern.
pub fn magnitude_of(b: u32) -> (r: u32)
    ensures
        r == magnitude(b),
{
    if b >= SIGN_MASK {
        b - SIGN_MASK
    } else {
        b
    }
}

/// Whether a pattern's sign bit is set.
pub fn negative_of(b: u32) -> (r: bool)
    ensures
        r == is_negative(b),
{
    b >= SIGN_MASK
}

/// Puts a sign on magnitude bits.
pub fn signed(negative: bool, mag: u32) -> (r: u32)
    requires
        mag < SIGN_MASK,
    ensures
        r == with_sign(negative, mag),
        magnitude(r) == mag,
        is_negative(r) == negative,
{
    if negative {
        mag + SIGN_MASK
    } else {
        mag
    }
}

} // verus!
