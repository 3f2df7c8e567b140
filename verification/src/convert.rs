//! Conversions between binary32 bit patterns and integers.
//!
//! An integer becomes the nearest binary32 value. A binary32 value becomes
//! an integer either by dropping its fraction, as a numeric cast does, or by
//! rounding to the nearest whole number; both saturate at the bounds of the
//! target and map a NaN to zero.

use vstd::prelude::*;
use vstd::arithmetic::power2::{
    pow2, lemma2_to64, lemma_pow2_adds, lemma_pow2_pos, lemma_pow2_unfold,
};
use crate::binary32::{
    decode_mag, INFINITY_MAG, magnitude, is_negative, is_nan, mag_units, units, with_sign,
    magnitude_of, negative_of,
};
use crate::numeric::{
    lemma_pow2_monotone, lemma_pow2_127, pow2_u128, lemma_div_bracket,
    lemma_div_bracket_converse,
};
use crate::rounding::{round_mag, round_pack, lemma_scale_split};

verus! {

/// The pattern of the binary32 value nearest to an integer.
pub open spec fn int_bits(v: int) -> u32 {
    if v < 0 {
        with_sign(true, round_mag(((-v) * pow2(149)) as nat, 1))
    } else {
        with_sign(false, round_mag((v * pow2(149)) as nat, 1))
    }
}

/// The nearest binary32 value to an unsigned integer.
pub fn from_u64(v: u64) -> (r: u32)
    ensures
        r == int_bits(v as int),
{
    let ghost n = (v * pow2(149)) as nat;
    proof {
        lemma_scale_split(149);
        lemma_pow2_pos(149);
        assert(v * pow2(149) * 1 == n * 1) by (nonlinear_arith)
            requires
                n == v * pow2(149),
        ;
        assert((v + 1) * pow2(149) * 1 > n * 1) by (nonlinear_arith)
            requires
                n == v * pow2(149),
                pow2(149) > 0,
        ;
    }
    round_pack(false, v as u128, 149, false, Ghost(n), Ghost(1))
}

/// The nearest binary32 value to a signed integer.
pub fn from_i64(v: i64) -> (r: u32)
    ensures
        r == int_bits(v as int),
{
    if v >= 0 {
        from_u64(v as u64)
    } else {
        let a: u128 = (-(v as i128)) as u128;
        let ghost n = (a * pow2(149)) as nat;
        proof {
            lemma_scale_split(149);
            lemma_pow2_pos(149);
            assert(a * pow2(149) * 1 == n * 1) by (nonlinear_arith)
                requires
                    n == a * pow2(149),
            ;
            assert((a + 1) * pow2(149) * 1 > n * 1) by (nonlinear_arith)
                requires
                    n == a * pow2(149),
                    pow2(149) > 0,
            ;
        }
        round_pack(true, a, 149, false, Ghost(n), Ghost(1))
    }
}

/// The smaller of a natural number and 2^64.
pub open spec fn capped(x: nat) -> nat {
    if x >= 0x1_0000_0000_0000_0000 {
        0x1_0000_0000_0000_0000
    } else {
        x
    }
}

/// Divides a magnitude, in units, by `2^j`: the quotient capped at 2^64, and
/// whether the division leaves no remainder.
pub fn units_over_pow2(mag: u32, j: u32) -> (r: (u128, bool))
    requires
        mag <= INFINITY_MAG,
        1 <= j <= 149,
    ensures
        r.0 == capped(mag_units(mag) / pow2(j as nat)),
        r.1 == (mag_units(mag) % pow2(j as nat) == 0),
{
    let (sig, e) = decode_mag(mag);
    let ghost pj = pow2(j as nat);
    let ghost pe = pow2(e as nat);
    proof {
        lemma2_to64();
        lemma_pow2_127();
        lemma_pow2_pos(j as nat);
        lemma_pow2_pos(e as nat);
    }
    if e >= j {
        // A whole multiple of 2^j.
        let c: u32 = e - j;
        proof {
            lemma_pow2_adds(c as nat, j as nat);
            lemma_pow2_pos(c as nat);
            let pc = pow2(c as nat);
            assert(sig * pe == (sig * pc) * pj) by (nonlinear_arith)
                requires
                    pe == pc * pj,
            ;
            assert(((sig * pc) + 1) * pj == (sig * pc) * pj + pj) by (nonlinear_arith);
            lemma_div_bracket((sig * pe) as int, pj as int, (sig * pc) as int);
            assert(sig * pc >= 0) by (nonlinear_arith)
                requires
                    sig >= 0,
                    pc >= 0,
            ;
        }
        if c >= 64 {
            proof {
                lemma_pow2_monotone(64, c as nat);
                assert(sig * pow2(c as nat) >= 0x1_0000_0000_0000_0000) by (nonlinear_arith)
                    requires
                        sig >= 1,
                        pow2(c as nat) >= 0x1_0000_0000_0000_0000,
                ;
            }
            (0x1_0000_0000_0000_0000, true)
        } else {
            proof {
                lemma_pow2_monotone(c as nat, 64);
            }
            let pc: u128 = pow2_u128(c);
            proof {
                assert(sig * pc < 0x100_0000 * 0x1_0000_0000_0000_0000) by (nonlinear_arith)
                    requires
                        sig < 0x100_0000,
                        pc <= 0x1_0000_0000_0000_0000,
                ;
            }
            let q: u128 = (sig as u128) * pc;
            if q >= 0x1_0000_0000_0000_0000 {
                (0x1_0000_0000_0000_0000, true)
            } else {
                (q, true)
            }
        }
    } else {
        let c: u32 = j - e;
        proof {
            lemma_pow2_adds(c as nat, e as nat);
            lemma_pow2_pos(c as nat);
        }
        if c >= 24 {
            proof {
                lemma_pow2_monotone(24, c as nat);
                let pc = pow2(c as nat);
                assert(sig * pe < pj) by (nonlinear_arith)
                    requires
                        sig < 0x100_0000,
                        pc >= 0x100_0000,
                        pj == pc * pe,
                        pe > 0,
                ;
                assert(0 * pj == 0) by (nonlinear_arith);
                assert((0 + 1) * pj == pj) by (nonlinear_arith);
                assert(sig * pe >= 0) by (nonlinear_arith)
                    requires
                        sig >= 0,
                        pe >= 0,
                ;
                lemma_div_bracket((sig * pe) as int, pj as int, 0);
                if sig > 0 {
                    assert(sig * pe > 0) by (nonlinear_arith)
                        requires
                            sig > 0,
                            pe > 0,
                    ;
                } else {
                    assert(sig * pe == 0) by (nonlinear_arith)
                        requires
                            sig == 0,
                    ;
                }
            }
            (0, sig == 0)
        } else {
            let pc: u128 = pow2_u128(c);
            let q: u128 = (sig as u128) / pc;
            let rest: u128 = (sig as u128) % pc;
            proof {
                lemma_div_bracket_converse(sig as int, pc as int);
                assert(q * pj <= sig * pe && sig * pe < (q + 1) * pj && sig * pe - q * pj == rest
                    * pe) by (nonlinear_arith)
                    requires
                        pj == pc * pe,
                        sig == q * pc + rest,
                        0 <= rest < pc,
                        pe > 0,
                ;
                lemma_div_bracket((sig * pe) as int, pj as int, q as int);
                if rest > 0 {
                    assert(rest * pe > 0) by (nonlinear_arith)
                        requires
                            rest > 0,
                            pe > 0,
                    ;
                } else {
                    assert(rest * pe == 0) by (nonlinear_arith)
                        requires
                            rest == 0,
                    ;
                }
            }
            (q, rest == 0)
        }
    }
}

/// The value between the bounds that is nearest to `v`.
pub open spec fn clamp(v: int, lo: int, hi: int) -> int {
    if v < lo {
        lo
    } else if v > hi {
        hi
    } else {
        v
    }
}

/// The value of a pattern with its fraction dropped: rounded toward zero.
/// The infinities count as values beyond every bound.
pub open spec fn whole_part(b: u32) -> int {
    if is_negative(b) {
        -((mag_units(magnitude(b)) / pow2(149)) as int)
    } else {
        (mag_units(magnitude(b)) / pow2(149)) as int
    }
}

/// What a saturating numeric cast of a pattern to an integer type with the
/// bounds `lo` and `hi` gives: zero for a NaN, and otherwise the whole part
/// held between the bounds.
pub open spec fn truncated(b: u32, lo: int, hi: int) -> int {
    if is_nan(b) {
        0
    } else {
        clamp(whole_part(b), lo, hi)
    }
}

/// Casts a pattern to an integer between `lo` and `hi`.
pub fn truncate(b: u32, lo: i128, hi: i128) -> (r: i128)
    requires
        -0x8000_0000_0000_0000 <= lo <= 0,
        0 <= hi <= 0xffff_ffff_ffff_ffff,
    ensures
        r == truncated(b, lo as int, hi as int),
        lo <= r <= hi,
{
    let mag: u32 = magnitude_of(b);
    if mag > INFINITY_MAG {
        return 0;
    }
    let (q, _exact) = units_over_pow2(mag, 149);
    if negative_of(b) {
        let v: i128 = -(q as i128);
        if v < lo {
            lo
        } else {
            v
        }
    } else {
        let v: i128 = q as i128;
        if v > hi {
            hi
        } else {
            v
        }
    }
}

/// The whole number nearest to the value of a pattern, a value halfway
/// between two whole numbers going to the upper one: the floor of the value
/// plus one half.
pub open spec fn nearest_whole(b: u32) -> int {
    (2 * units(b) + pow2(149)) / (pow2(150) as int)
}

/// What rounding a pattern to an integer between `lo` and `hi` gives: zero
/// for a NaN, and otherwise the nearest whole number held between the
/// bounds.
pub open spec fn rounded(b: u32, lo: int, hi: int) -> int {
    if is_nan(b) {
        0
    } else {
        clamp(nearest_whole(b), lo, hi)
    }
}

/// Rounds a pattern to the nearest integer between `lo` and `hi`, halves
/// going up.
pub fn round_half_up(b: u32, lo: i128, hi: i128) -> (r: i128)
    requires
        -0x8000_0000_0000_0000 <= lo <= 0,
        0 <= hi <= 0x7fff_ffff_ffff_ffff,
    ensures
        r == rounded(b, lo as int, hi as int),
        lo <= r <= hi,
{
    let mag: u32 = magnitude_of(b);
    if mag > INFINITY_MAG {
        return 0;
    }
    // The magnitude in halves, and whether it is a whole number of halves.
    let (h, exact) = units_over_pow2(mag, 148);
    let ghost p = pow2(148);
    let ghost x = mag_units(mag);
    let ghost ht = x / p;
    proof {
        lemma_pow2_pos(148);
        lemma_pow2_unfold(149);
        lemma_pow2_unfold(150);
        lemma_div_bracket_converse(x as int, p as int);
    }
    if negative_of(b) {
        let q: i128 = if exact {
            (h / 2) as i128
        } else {
            ((h + 1) / 2) as i128
        };
        proof {
            let qt: int = if exact {
                (ht / 2) as int
            } else {
                ((ht + 1) / 2) as int
            };
            assert((-qt) * (4 * p) <= 2 * p - 2 * x && 2 * p - 2 * x < (-qt + 1) * (4 * p))
                by (nonlinear_arith)
                requires
                    ht * p <= x,
                    x < (ht + 1) * p,
                    exact <==> x == ht * p,
                    (exact && (ht == 2 * qt || ht == 2 * qt + 1)) || (!exact && (ht + 1 == 2 * qt
                        || ht + 1 == 2 * qt + 1)),
                    p > 0,
            ;
            lemma_div_bracket(2 * units(b) + pow2(149), pow2(150) as int, -qt);
            assert(nearest_whole(b) == -qt);
            assert(qt >= 0x7fff_ffff_ffff_ffff ==> q >= 0x7fff_ffff_ffff_ffff);
            assert(qt < 0x7fff_ffff_ffff_ffff ==> q == qt);
        }
        let v: i128 = -q;
        if v < lo {
            lo
        } else {
            v
        }
    } else {
        let q: i128 = ((h + 1) / 2) as i128;
        proof {
            let qt: int = ((ht + 1) / 2) as int;
            assert(qt * (4 * p) <= 2 * x + 2 * p && 2 * x + 2 * p < (qt + 1) * (4 * p))
                by (nonlinear_arith)
                requires
                    ht * p <= x,
                    x < (ht + 1) * p,
                    ht + 1 == 2 * qt || ht + 1 == 2 * qt + 1,
                    p > 0,
            ;
            lemma_div_bracket(2 * units(b) + pow2(149), pow2(150) as int, qt);
            assert(nearest_whole(b) == qt);
            assert(qt >= 0x7fff_ffff_ffff_ffff ==> q >= 0x7fff_ffff_ffff_ffff);
            assert(qt < 0x7fff_ffff_ffff_ffff ==> q == qt);
        }
        if q > hi {
            hi
        } else {
            q
        }
    }
}

} // verus!
