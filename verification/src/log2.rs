//! The binary logarithm of a binary32 value.
//!
//! The whole part of the logarithm is the position of the leading bit. The
//! fraction comes bit by bit: squaring a number between one and two doubles
//! its logarithm, whose next bit says whether the square reached two.

use vstd::prelude::*;
use vstd::arithmetic::power2::{
    pow2, lemma2_to64, lemma_pow2_adds, lemma_pow2_pos, lemma_pow2_unfold,
    lemma_pow2_strictly_increases,
};
use crate::arith::CANONICAL_NAN;
use crate::arith_laws::{
    lemma_round_signed_exact, lemma_round_signed_monotone, lemma_units_bounds,
    lemma_units_with_sign, round_signed,
};
use crate::binary32::{
    significand, unit_exp, decode_mag, INFINITY_MAG, magnitude, is_negative, is_nan, is_zero,
    is_infinite, with_sign, magnitude_of, negative_of, is_finite, mag_units, units,
};
use crate::compare::lemma_mag_order;
use crate::numeric::{floor_log2, pow2_u128, lemma_pow2_monotone, lemma_pow2_127};
use crate::rounding::{round_mag, round_pack, lemma_scale_split};
use crate::rounding_laws::lemma_cut;

verus! {

/// The position of the highest set bit of a number: the whole part of its
/// binary logarithm. Zero for zero.
pub open spec fn top_bit(x: nat) -> nat
    decreases x,
{
    if x < 2 {
        0
    } else {
        1 + top_bit(x / 2)
    }
}

/// The first `bits` fraction bits of the binary logarithm of `g / 2^62`, for
/// `g` from 2^62 up to 2^63, as a whole number. Each square is cut back to
/// sixty-two fraction bits.
pub open spec fn log2_frac(g: nat, bits: nat) -> nat
    decreases bits,
{
    if bits == 0 {
        0
    } else {
        let sq = g * g / 0x4000_0000_0000_0000;
        if sq >= 0x8000_0000_0000_0000 {
            pow2((bits - 1) as nat) + log2_frac(sq / 2, (bits - 1) as nat)
        } else {
            log2_frac(sq, (bits - 1) as nat)
        }
    }
}

/// The binary logarithm of the value of positive finite magnitude bits, in
/// fixed point with forty-eight fraction bits.
pub open spec fn log2_fixed(mag: u32) -> int {
    let sig = significand(mag);
    let l = top_bit(sig);
    (l + unit_exp(mag) - 149) * 0x1_0000_0000_0000 + log2_frac(
        sig * pow2((62 - l) as nat),
        48,
    )
}

/// The binary logarithm of a pattern.
///
/// A NaN, and a negative value other than zero, give the canonical NaN.
/// Either zero gives negative infinity, and infinity gives infinity.
/// Otherwise the result is [`log2_fixed`], rounded.
pub open spec fn log2_bits(x: u32) -> u32 {
    if is_nan(x) {
        CANONICAL_NAN
    } else if is_zero(x) {
        with_sign(true, INFINITY_MAG)
    } else if is_negative(x) {
        CANONICAL_NAN
    } else if is_infinite(x) {
        INFINITY_MAG
    } else {
        let v = log2_fixed(magnitude(x));
        if v < 0 {
            with_sign(true, round_mag(((-v) * pow2(101)) as nat, 1))
        } else {
            with_sign(false, round_mag((v * pow2(101)) as nat, 1))
        }
    }
}

/// A number between two neighbouring powers of two has the lower exponent as
/// its top bit.
pub proof fn lemma_top_bit_unique(x: nat, l: nat)
    requires
        pow2(l) <= x < pow2(l + 1),
    ensures
        top_bit(x) == l,
    decreases l,
{
    lemma2_to64();
    if l == 0 {
        assert(pow2(1) == 2);
    } else {
        lemma_pow2_unfold(l);
        lemma_pow2_unfold(l + 1);
        lemma_pow2_pos((l - 1) as nat);
        lemma_top_bit_unique(x / 2, (l - 1) as nat);
    }
}

/// The fraction bits stay below `2^bits`.
pub proof fn lemma_log2_frac_bound(g: nat, bits: nat)
    ensures
        log2_frac(g, bits) < pow2(bits),
    decreases bits,
{
    lemma2_to64();
    if bits > 0 {
        let sq = g * g / 0x4000_0000_0000_0000;
        lemma_pow2_unfold(bits);
        lemma_log2_frac_bound(sq, (bits - 1) as nat);
        lemma_log2_frac_bound(sq / 2, (bits - 1) as nat);
    }
}

/// The fraction bits grow with the number.
pub proof fn lemma_log2_frac_monotone(g1: nat, g2: nat, bits: nat)
    requires
        g1 <= g2,
    ensures
        log2_frac(g1, bits) <= log2_frac(g2, bits),
    decreases bits,
{
    if bits > 0 {
        let sq1 = g1 * g1 / 0x4000_0000_0000_0000;
        let sq2 = g2 * g2 / 0x4000_0000_0000_0000;
        assert(g1 * g1 <= g2 * g2) by (nonlinear_arith)
            requires
                0 <= g1 <= g2,
        ;
        assert(sq1 <= sq2);
        if sq1 >= 0x8000_0000_0000_0000 {
            lemma_log2_frac_monotone(sq1 / 2, sq2 / 2, (bits - 1) as nat);
        } else if sq2 >= 0x8000_0000_0000_0000 {
            lemma_log2_frac_bound(sq1, (bits - 1) as nat);
        } else {
            lemma_log2_frac_monotone(sq1, sq2, (bits - 1) as nat);
        }
    }
}

/// Computes forty-eight fraction bits of the logarithm of `g / 2^62`.
fn log2_fraction(g0: u64) -> (r: u64)
    requires
        0x4000_0000_0000_0000 <= g0 < 0x8000_0000_0000_0000,
    ensures
        r == log2_frac(g0 as nat, 48),
        r < 0x1_0000_0000_0000,
{
    let mut g: u64 = g0;
    let mut acc: u64 = 0;
    let mut i: u32 = 0;
    proof {
        lemma2_to64();
        lemma_pow2_adds(32, 16);
        assert(0 * pow2(48) == 0) by (nonlinear_arith);
    }
    while i < 48
        invariant
            i <= 48,
            0x4000_0000_0000_0000 <= g < 0x8000_0000_0000_0000,
            acc < pow2(i as nat),
            pow2(48) == 0x1_0000_0000_0000,
            acc * pow2((48 - i) as nat) + log2_frac(g as nat, (48 - i) as nat) == log2_frac(
                g0 as nat,
                48,
            ),
        decreases 48 - i,
    {
        proof {
            assert(g * g < 0x8000_0000_0000_0000 * 0x8000_0000_0000_0000) by (nonlinear_arith)
                requires
                    g < 0x8000_0000_0000_0000,
            ;
            assert(g * g >= 0x4000_0000_0000_0000 * 0x4000_0000_0000_0000) by (nonlinear_arith)
                requires
                    g >= 0x4000_0000_0000_0000,
            ;
            lemma_pow2_unfold((48 - i) as nat);
            lemma_pow2_unfold((i + 1) as nat);
            lemma_pow2_monotone((i + 1) as nat, 48);
            let rest = pow2((47 - i) as nat);
            assert((2 * acc) * rest == acc * (2 * rest)) by (nonlinear_arith);
            assert((2 * acc + 1) * rest == acc * (2 * rest) + rest) by (nonlinear_arith);
        }
        let sq: u128 = (g as u128) * (g as u128) / 0x4000_0000_0000_0000;
        if sq >= 0x8000_0000_0000_0000 {
            acc = 2 * acc + 1;
            g = (sq / 2) as u64;
        } else {
            acc = 2 * acc;
            g = sq as u64;
        }
        i = i + 1;
    }
    proof {
        assert(acc * pow2(0) == acc) by (nonlinear_arith)
            requires
                pow2(0) == 1,
        ;
    }
    acc
}

/// Computes the binary logarithm of a pattern.
pub fn log2(x: u32) -> (r: u32)
    ensures
        r == log2_bits(x),
{
    let mag: u32 = magnitude_of(x);
    if mag > INFINITY_MAG {
        return CANONICAL_NAN;
    }
    if mag == 0 {
        return 0xff80_0000;
    }
    if negative_of(x) {
        return CANONICAL_NAN;
    }
    if mag == INFINITY_MAG {
        return INFINITY_MAG;
    }
    let (sig, e) = decode_mag(mag);
    let l: u32 = floor_log2(sig as u128);
    proof {
        lemma2_to64();
        lemma_pow2_127();
        lemma_top_bit_unique(sig as nat, l as nat);
        if l >= 24 {
            lemma_pow2_monotone(24, l as nat);
        }
        lemma_pow2_adds(l as nat, (62 - l) as nat);
        lemma_pow2_adds((l + 1) as nat, (62 - l) as nat);
        lemma_pow2_monotone((62 - l) as nat, 62);
        lemma_pow2_unfold(63);
        lemma_pow2_unfold(62);
        assert(pow2(61) == 0x2000_0000_0000_0000) by {
            lemma_pow2_adds(32, 29);
        }
        let ps = pow2((62 - l) as nat);
        assert(sig * ps >= 0x4000_0000_0000_0000 && sig * ps < 0x8000_0000_0000_0000)
            by (nonlinear_arith)
            requires
                pow2(l as nat) <= sig < pow2((l + 1) as nat),
                pow2(l as nat) * ps == 0x4000_0000_0000_0000,
                pow2((l + 1) as nat) * ps == 0x8000_0000_0000_0000,
                ps > 0,
        ;
    }
    let g: u64 = ((sig as u128) * pow2_u128(62 - l)) as u64;
    let frac: u64 = log2_fraction(g);
    let whole: i64 = l as i64 + e as i64 - 149;
    let v: i64 = whole * 0x1_0000_0000_0000 + frac as i64;
    let negative: bool = v < 0;
    let a: u128 = if negative {
        (-v) as u128
    } else {
        v as u128
    };
    let ghost n = (a * pow2(101)) as nat;
    proof {
        lemma_scale_split(101);
        lemma_pow2_pos(101);
        assert(a * pow2(101) * 1 == n * 1) by (nonlinear_arith)
            requires
                n == a * pow2(101),
        ;
        assert((a + 1) * pow2(101) * 1 > n * 1) by (nonlinear_arith)
            requires
                n == a * pow2(101),
                pow2(101) > 0,
        ;
    }
    round_pack(negative, a, 101, false, Ghost(n), Ghost(1))
}

/// A positive number lies between the power of two at its top bit and the
/// next.
pub proof fn lemma_top_bit_bounds(x: nat)
    requires
        x >= 1,
    ensures
        pow2(top_bit(x)) <= x < pow2(top_bit(x) + 1),
    decreases x,
{
    lemma2_to64();
    if x >= 2 {
        lemma_top_bit_bounds(x / 2);
        lemma_pow2_unfold(top_bit(x));
        lemma_pow2_unfold(top_bit(x) + 1);
    }
}

/// The fixed-point logarithm grows with the magnitude.
pub proof fn lemma_log2_fixed_monotone(mag1: u32, mag2: u32)
    requires
        0 < mag1 <= mag2 < INFINITY_MAG,
    ensures
        log2_fixed(mag1) <= log2_fixed(mag2),
{
    let (s1, e1, s2, e2) = (significand(mag1), unit_exp(mag1), significand(mag2), unit_exp(mag2));
    let (l1, l2) = (top_bit(s1), top_bit(s2));
    lemma2_to64();
    lemma_top_bit_bounds(s1);
    lemma_top_bit_bounds(s2);
    if l1 >= 24 {
        lemma_pow2_monotone(24, l1);
    }
    if l2 >= 24 {
        lemma_pow2_monotone(24, l2);
    }
    let (a, b) = ((62 - l1) as nat, (62 - l2) as nat);
    let (g1, g2) = (s1 * pow2(a), s2 * pow2(b));
    lemma_log2_frac_bound(g1, 48);
    lemma_log2_frac_bound(g2, 48);
    lemma_pow2_adds(32, 16);
    let (t1, t2) = (l1 + e1, l2 + e2);
    // The magnitudes in units: s1 * 2^e1 <= s2 * 2^e2.
    lemma_mag_order(mag1, mag2);
    let (x1, x2) = (mag_units(mag1), mag_units(mag2));
    let (w1, w2) = (pow2(e1), pow2(e2));
    lemma_pow2_pos(e1);
    lemma_pow2_pos(e2);
    assert(x1 == s1 * w1 && x2 == s2 * w2) by {
        assert(s1 * pow2(0) == s1 && s2 * pow2(0) == s2) by (nonlinear_arith)
            requires
                pow2(0) == 1,
        ;
    }
    if t1 > t2 {
        // 2^t1 <= x1 <= x2 < 2^(t2 + 1) <= 2^t1
        lemma_pow2_adds(l1, e1);
        lemma_pow2_adds(l2 + 1, e2);
        lemma_pow2_monotone(t2 + 1, t1);
        assert(pow2(t1) <= x1) by (nonlinear_arith)
            requires
                pow2(t1) == pow2(l1) * w1,
                pow2(l1) <= s1,
                x1 == s1 * w1,
                w1 > 0,
        ;
        assert(x2 < pow2(t2 + 1)) by (nonlinear_arith)
            requires
                pow2(t2 + 1) == pow2(l2 + 1) * w2,
                s2 < pow2(l2 + 1),
                x2 == s2 * w2,
                w2 > 0,
        ;
        assert(false);
    } else if t1 == t2 {
        // e1 + b == e2 + a, so the two scaled significands compare as the
        // magnitudes do.
        lemma_pow2_adds(e1, b);
        lemma_pow2_adds(e2, a);
        let pc = pow2(e1 + b);
        lemma_pow2_pos(e1 + b);
        lemma_pow2_pos(a);
        lemma_pow2_pos(b);
        assert(g1 <= g2) by (nonlinear_arith)
            requires
                s1 * w1 <= s2 * w2,
                pc == w1 * pow2(b),
                pc == w2 * pow2(a),
                g1 == s1 * pow2(a),
                g2 == s2 * pow2(b),
                pow2(a) > 0,
                pow2(b) > 0,
                w1 > 0,
                w2 > 0,
        ;
        lemma_log2_frac_monotone(g1, g2, 48);
    } else {
        assert((t1 - 149) * 0x1_0000_0000_0000 + 0x1_0000_0000_0000 <= (t2 - 149)
            * 0x1_0000_0000_0000) by (nonlinear_arith)
            requires
                t1 + 1 <= t2,
        ;
    }
}

/// The binary logarithm grows with its argument, over the values that are
/// not negative.
pub proof fn lemma_log2_monotone(x1: u32, x2: u32)
    requires
        !is_nan(x1),
        !is_nan(x2),
        0 <= units(x1) <= units(x2),
    ensures
        !is_nan(log2_bits(x1)),
        !is_nan(log2_bits(x2)),
        units(log2_bits(x1)) <= units(log2_bits(x2)),
{
    let (m1, m2) = (magnitude(x1), magnitude(x2));
    lemma_mag_order(0, m1);
    lemma_mag_order(0, m2);
    lemma_mag_order(m1, m2);
    assert(mag_units(0) == 0);
    let p = pow2(101);
    lemma_pow2_pos(101);
    lemma_units_with_sign(true, INFINITY_MAG);
    lemma_units_with_sign(false, INFINITY_MAG);
    lemma_units_bounds(with_sign(true, INFINITY_MAG));
    lemma_units_bounds(INFINITY_MAG);
    if m1 != 0 && m1 < INFINITY_MAG {
        lemma_log2_rounded(x1);
        lemma_units_bounds(log2_bits(x1));
    }
    if m2 != 0 && m2 < INFINITY_MAG {
        lemma_log2_rounded(x2);
        lemma_units_bounds(log2_bits(x2));
    }
    if m1 != 0 && m2 < INFINITY_MAG {
        lemma_log2_fixed_monotone(m1, m2);
        let (v1, v2) = (log2_fixed(m1), log2_fixed(m2));
        assert((v1 * p) * 1 <= (v2 * p) * 1) by (nonlinear_arith)
            requires
                v1 <= v2,
                p > 0,
        ;
        lemma_round_signed_monotone(v1 * p, 1, v2 * p, 1);
    }
}

/// The logarithm of a positive finite pattern is the rounded fixed-point
/// logarithm.
pub proof fn lemma_log2_rounded(x: u32)
    requires
        !is_negative(x),
        0 < magnitude(x) < INFINITY_MAG,
    ensures
        log2_bits(x) == round_signed(
            log2_fixed(magnitude(x)) * pow2(101),
            1,
        ),
        !is_nan(log2_bits(x)),
{
    let v = log2_fixed(magnitude(x));
    let p = pow2(101);
    lemma_pow2_pos(101);
    if v < 0 {
        assert((-v) * p == -(v * p) && v * p < 0) by (nonlinear_arith)
            requires
                v < 0,
                p > 0,
        ;
        lemma_cut(((-v) * p) as nat, 1);
    } else {
        assert(v * p >= 0) by (nonlinear_arith)
            requires
                v >= 0,
                p > 0,
        ;
        lemma_cut((v * p) as nat, 1);
    }
}

/// The logarithm of one has no fraction bits.
pub proof fn lemma_log2_frac_of_one(bits: nat)
    ensures
        log2_frac(0x4000_0000_0000_0000, bits) == 0,
    decreases bits,
{
    if bits > 0 {
        assert(0x4000_0000_0000_0000nat * 0x4000_0000_0000_0000nat / 0x4000_0000_0000_0000
            == 0x4000_0000_0000_0000nat) by (nonlinear_arith);
        lemma_log2_frac_of_one((bits - 1) as nat);
    }
}

/// The logarithm of a power of two is exact: a pattern that stands for
/// `2^n`, which is `2^(n + 149)` units, has the logarithm `n`.
pub proof fn lemma_log2_of_pow2(x: u32, n: int)
    requires
        !is_nan(x),
        -149 <= n <= 127,
        units(x) == pow2((n + 149) as nat),
    ensures
        is_finite(log2_bits(x)),
        units(log2_bits(x)) == n * pow2(149),
{
    let mag = magnitude(x);
    let e = (n + 149) as nat;
    lemma_pow2_pos(e);
    lemma2_to64();
    lemma_units_bounds(x);
    lemma_pow2_monotone(e, 276);
    lemma_pow2_strictly_increases(276, 277);
    assert(!is_negative(x) && 0 < mag < INFINITY_MAG) by {
        lemma_mag_order(0, mag);
        assert(mag_units(0) == 0);
    }
    let (sig, ue) = (significand(mag), unit_exp(mag));
    let l = top_bit(sig);
    let pu = pow2(ue);
    lemma_pow2_pos(ue);
    assert(mag_units(mag) == sig * pu) by {
        assert(sig * pow2(0) == sig) by (nonlinear_arith)
            requires
                pow2(0) == 1,
        ;
    }
    lemma_top_bit_bounds(sig);
    if l >= 24 {
        lemma_pow2_monotone(24, l);
    }
    // 2^(l + ue) <= 2^e < 2^(l + ue + 1) pins the exponent, and with it the
    // significand, which is the power of two at its own top bit.
    lemma_pow2_adds(l, ue);
    lemma_pow2_adds(l + 1, ue);
    assert(pow2(l + ue) <= pow2(e) && pow2(e) < pow2(l + ue + 1)) by (nonlinear_arith)
        requires
            pow2(e) == sig * pu,
            pow2(l) <= sig < pow2(l + 1),
            pow2(l + ue) == pow2(l) * pu,
            pow2(l + ue + 1) == pow2(l + 1) * pu,
            pu > 0,
    ;
    if l + ue < e {
        lemma_pow2_monotone(l + ue + 1, e);
    }
    if l + ue > e {
        lemma_pow2_monotone(e + 1, l + ue);
        lemma_pow2_strictly_increases(e, e + 1);
    }
    assert(l + ue == e);
    assert(sig == pow2(l)) by (nonlinear_arith)
        requires
            pow2(e) == sig * pu,
            pow2(e) == pow2(l) * pu,
            pu > 0,
    ;
    lemma_pow2_adds(l, (62 - l) as nat);
    assert(pow2(62) == 0x4000_0000_0000_0000) by {
        lemma_pow2_adds(32, 30);
    }
    lemma_log2_frac_of_one(48);
    let v = log2_fixed(mag);
    assert(v == n * 0x1_0000_0000_0000);
    lemma_log2_rounded(x);
    // n is a number of eight bits: n * 2^48 * 2^101 is |n| * 2^149.
    let a: nat = if n < 0 { (-n) as nat } else { n as nat };
    let p = pow2(101);
    lemma_pow2_adds(48, 101);
    lemma_pow2_adds(32, 16);
    lemma_pow2_adds(128, 149);
    lemma_pow2_pos(149);
    lemma_pow2_monotone(8, 128);
    assert(a * pow2(149) < pow2(277)) by (nonlinear_arith)
        requires
            a < 256,
            pow2(8) == 256,
            pow2(8) <= pow2(128),
            pow2(277) == pow2(128) * pow2(149),
            pow2(149) > 0,
    ;
    let z = v * p;
    assert(z == a * pow2(149) * 1 || z == -(a * pow2(149) * 1)) by (nonlinear_arith)
        requires
            z == (n * 0x1_0000_0000_0000) * p,
            pow2(149) == 0x1_0000_0000_0000 * p,
            a == n || a == -n,
    ;
    lemma_round_signed_exact(z, 1, a, 149);
    assert((n < 0 ==> n * pow2(149) == -(a * pow2(149))) && (n >= 0 ==> n * pow2(149) == a
        * pow2(149)) && (z < 0 <==> n < 0)) by (nonlinear_arith)
        requires
            (n < 0 && a == -n) || (n >= 0 && a == n),
            z == (n * 0x1_0000_0000_0000) * p,
            p > 0,
    ;
}

} // verus!
