//! What holds of the conversions between patterns and integers: an integer
//! that binary32 holds comes back from its pattern unchanged.

use vstd::prelude::*;
use vstd::arithmetic::power2::{
    pow2, lemma2_to64, lemma_pow2_adds, lemma_pow2_pos, lemma_pow2_unfold,
};
use crate::arith::{add_bits, sub_bits, mul_bits, neg_bits};
use crate::arith_laws::{round_signed, lemma_units_with_sign, lemma_add_units, lemma_neg_units};
use crate::binary32::{is_nan, is_finite, is_negative, magnitude, mag_units, units};
use crate::compare::eq_bits;
use crate::convert::{int_bits, whole_part, truncated, rounded};
use crate::numeric::{lemma_div_bracket, lemma_pow2_monotone};
use crate::rounding::round_mag;
use crate::rounding_laws::{
    lemma_cut, lemma_round_mag_exact, lemma_round_mag_multiple, lemma_round_mag_scale,
};

verus! {

/// Whether binary32 holds an integer exactly: its absolute value is a
/// number `c` of at most twenty-four bits times `2^t`, and it is below 2^128.
pub open spec fn held_exactly(v: int, c: nat, t: nat) -> bool {
    &&& c <= 0x100_0000
    &&& c * pow2(t) < pow2(128)
    &&& (v == c * pow2(t) || v == -(c * pow2(t)))
}

/// Every integer of up to twenty-four bits is held exactly.
pub proof fn lemma_small_held_exactly(v: int)
    requires
        -0x100_0000 <= v <= 0x100_0000,
    ensures
        held_exactly(
            v,
            if v < 0 {
                (-v) as nat
            } else {
                v as nat
            },
            0,
        ),
{
    lemma2_to64();
    lemma_pow2_monotone(25, 128);
    let c: nat = if v < 0 {
        (-v) as nat
    } else {
        v as nat
    };
    assert(c * pow2(0) == c) by (nonlinear_arith)
        requires
            pow2(0) == 1,
    ;
}

/// The pattern of an integer that binary32 holds stands for that integer.
pub proof fn lemma_int_bits_exact(v: int, c: nat, t: nat)
    requires
        held_exactly(v, c, t),
    ensures
        is_finite(int_bits(v)),
        units(int_bits(v)) == v * pow2(149),
{
    let a = c * pow2(t);
    let p = pow2(149);
    lemma_pow2_adds(t, 149);
    lemma_pow2_adds(128, 149);
    lemma_pow2_pos(149);
    assert(a * p == c * pow2(t + 149)) by (nonlinear_arith)
        requires
            a == c * pow2(t),
            pow2(t + 149) == pow2(t) * p,
    ;
    assert(a * p < pow2(277)) by (nonlinear_arith)
        requires
            a < pow2(128),
            pow2(277) == pow2(128) * p,
            p > 0,
    ;
    lemma_round_mag_multiple(c, t + 149);
    lemma_units_with_sign(v < 0, round_mag(a * p, 1));
    if v < 0 {
        assert((-v) * p == a * p && v * p == -(a * p)) by (nonlinear_arith)
            requires
                v == -a,
        ;
    } else {
        assert(v * p == a * p) by (nonlinear_arith)
            requires
                v == a,
        ;
    }
}

/// An integer that binary32 holds comes back from a cast of its pattern, as
/// long as it lies between the bounds of the cast.
pub proof fn lemma_int_round_trip(v: int, c: nat, t: nat, lo: int, hi: int)
    requires
        held_exactly(v, c, t),
        lo <= v <= hi,
    ensures
        truncated(int_bits(v), lo, hi) == v,
{
    lemma_int_bits_exact(v, c, t);
    let b = int_bits(v);
    let p = pow2(149);
    let a = c * pow2(t);
    lemma_pow2_pos(149);
    assert(a * p <= a * p && a * p < (a + 1) * p) by (nonlinear_arith)
        requires
            p > 0,
    ;
    lemma_div_bracket((a * p) as int, p as int, a as int);
    if v < 0 {
        assert(v * p == -(a * p)) by (nonlinear_arith)
            requires
                v == -a,
        ;
    } else {
        assert(v * p == a * p) by (nonlinear_arith)
            requires
                v == a,
        ;
    }
    if a == 0 {
        assert(0 * p == 0) by (nonlinear_arith);
    } else {
        assert(a * p > 0) by (nonlinear_arith)
            requires
                a > 0,
                p > 0,
        ;
    }
    assert(whole_part(b) == v);
}

/// Every integer of up to twenty-four bits comes back from a cast of its
/// pattern: every MIDI note number, and every value of the integer types of
/// eight and of sixteen bits.
pub proof fn lemma_small_int_round_trip(v: int, lo: int, hi: int)
    requires
        -0x100_0000 <= v <= 0x100_0000,
        lo <= v <= hi,
    ensures
        truncated(int_bits(v), lo, hi) == v,
{
    lemma_small_held_exactly(v);
    let c: nat = if v < 0 {
        (-v) as nat
    } else {
        v as nat
    };
    lemma_int_round_trip(v, c, 0, lo, hi);
}

/// An integer that binary32 holds is the whole number nearest to its own
/// pattern.
pub proof fn lemma_int_nearest(v: int, c: nat, t: nat, lo: int, hi: int)
    requires
        held_exactly(v, c, t),
        lo <= v <= hi,
    ensures
        rounded(int_bits(v), lo, hi) == v,
{
    lemma_int_bits_exact(v, c, t);
    let p = pow2(149);
    lemma_pow2_pos(149);
    lemma_pow2_unfold(150);
    assert(v * (2 * p) <= 2 * (v * p) + p && 2 * (v * p) + p < (v + 1) * (2 * p))
        by (nonlinear_arith)
        requires
            p > 0,
    ;
    lemma_div_bracket(2 * (v * p) + p, (2 * p) as int, v);
}

/// The sum of the patterns of two integers that binary32 holds is the
/// pattern of the integers' sum: whole numbers add as integers do, and the
/// sum is rounded once.
pub proof fn lemma_add_ints(a: int, ca: nat, ta: nat, b: int, cb: nat, tb: nat)
    requires
        held_exactly(a, ca, ta),
        held_exactly(b, cb, tb),
    ensures
        eq_bits(add_bits(int_bits(a), int_bits(b)), int_bits(a + b)),
{
    lemma_int_bits_exact(a, ca, ta);
    lemma_int_bits_exact(b, cb, tb);
    let p = pow2(149);
    lemma_pow2_pos(149);
    let (x, y) = (int_bits(a), int_bits(b));
    let z = units(x) + units(y);
    lemma_add_units(x, y);
    assert(z == (a + b) * p) by (nonlinear_arith)
        requires
            z == a * p + b * p,
    ;
    lemma_signed_int(a + b);
}

/// The difference of the patterns of two integers that binary32 holds is the
/// pattern of the integers' difference.
pub proof fn lemma_sub_ints(a: int, ca: nat, ta: nat, b: int, cb: nat, tb: nat)
    requires
        held_exactly(a, ca, ta),
        held_exactly(b, cb, tb),
    ensures
        eq_bits(sub_bits(int_bits(a), int_bits(b)), int_bits(a - b)),
{
    lemma_int_bits_exact(a, ca, ta);
    lemma_int_bits_exact(b, cb, tb);
    let p = pow2(149);
    lemma_pow2_pos(149);
    let (x, y) = (int_bits(a), neg_bits(int_bits(b)));
    lemma_neg_units(int_bits(b));
    let z = units(x) + units(y);
    lemma_add_units(x, y);
    assert(z == (a - b) * p) by (nonlinear_arith)
        requires
            z == a * p - b * p,
    ;
    lemma_signed_int(a - b);
}

/// The product of the patterns of two integers that binary32 holds is the
/// pattern of the integers' product.
pub proof fn lemma_mul_ints(a: int, ca: nat, ta: nat, b: int, cb: nat, tb: nat)
    requires
        held_exactly(a, ca, ta),
        held_exactly(b, cb, tb),
    ensures
        eq_bits(mul_bits(int_bits(a), int_bits(b)), int_bits(a * b)),
{
    lemma_int_bits_exact(a, ca, ta);
    lemma_int_bits_exact(b, cb, tb);
    let p = pow2(149);
    lemma_pow2_pos(149);
    let (x, y) = (int_bits(a), int_bits(b));
    let (mx, my) = (mag_units(magnitude(x)), mag_units(magnitude(y)));
    let aa: nat = if a < 0 { (-a) as nat } else { a as nat };
    let ab: nat = if b < 0 { (-b) as nat } else { b as nat };
    assert(mx == aa * p && my == ab * p) by (nonlinear_arith)
        requires
            units(x) == a * p,
            units(y) == b * p,
            units(x) == mx || units(x) == -mx,
            units(y) == my || units(y) == -my,
            mx >= 0,
            my >= 0,
            aa == a || aa == -a,
            ab == b || ab == -b,
            aa >= 0,
            ab >= 0,
            p > 0,
    ;
    let n = aa * ab * p;
    assert(mx * my == n * p) by (nonlinear_arith)
        requires
            mx == aa * p,
            my == ab * p,
            n == aa * ab * p,
    ;
    assert(n >= 0) by (nonlinear_arith)
        requires
            n == aa * ab * p,
            aa >= 0,
            ab >= 0,
            p >= 0,
    ;
    lemma_round_mag_scale(n as nat, 1, p);
    assert(1 * p == p);
    lemma_cut(n as nat, 1);
    let r = round_mag(n as nat, 1);
    lemma_units_with_sign(is_negative(x) != is_negative(y), r);
    lemma_units_with_sign(a * b < 0, r);
    let c = a * b;
    assert((c < 0 ==> (-c) * p == n) && (c >= 0 ==> c * p == n) && (c == 0 <==> (a == 0 || b
        == 0))) by (nonlinear_arith)
        requires
            c == a * b,
            n == aa * ab * p,
            aa == a || aa == -a,
            ab == b || ab == -b,
            aa >= 0,
            ab >= 0,
    ;
    if c == 0 {
        assert(n == 0) by (nonlinear_arith)
            requires
                n == aa * ab * p,
                aa == 0 || ab == 0,
        ;
        lemma_round_mag_exact(0, 1);
        assert(mag_units(0) * 1 == 0);
    } else {
        // Neither factor is zero: the signs of the patterns are the signs
        // of the integers.
        assert((a < 0) == is_negative(x) && (b < 0) == is_negative(y)) by (nonlinear_arith)
            requires
                units(x) == a * p,
                units(y) == b * p,
                is_negative(x) ==> units(x) <= 0,
                !is_negative(x) ==> units(x) >= 0,
                is_negative(y) ==> units(y) <= 0,
                !is_negative(y) ==> units(y) >= 0,
                a != 0,
                b != 0,
                p > 0,
        ;
        assert((c < 0) == ((a < 0) != (b < 0))) by (nonlinear_arith)
            requires
                c == a * b,
                a != 0,
                b != 0,
        ;
    }
}

/// The pattern of an integer is the signed rounding of the integer in
/// units, up to the sign of zero.
proof fn lemma_signed_int(v: int)
    ensures
        !is_nan(int_bits(v)),
        !is_nan(round_signed(v * pow2(149), 1)),
        units(int_bits(v)) == units(round_signed(v * pow2(149), 1)),
{
    let p = pow2(149);
    lemma_pow2_pos(149);
    if v < 0 {
        assert((-v) * p == -(v * p) && v * p < 0) by (nonlinear_arith)
            requires
                v < 0,
                p > 0,
        ;
        lemma_cut(((-v) * p) as nat, 1);
        lemma_units_with_sign(true, round_mag(((-v) * p) as nat, 1));
    } else {
        assert(v * p >= 0) by (nonlinear_arith)
            requires
                v >= 0,
                p > 0,
        ;
        lemma_cut((v * p) as nat, 1);
        lemma_units_with_sign(false, round_mag((v * p) as nat, 1));
    }
}

} // verus!
