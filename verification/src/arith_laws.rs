//! What holds of the arithmetic on patterns: each operation against a fixed
//! finite operand keeps the order of the other operand.

use vstd::prelude::*;
use vstd::arithmetic::power2::{pow2, lemma2_to64, lemma_pow2_adds, lemma_pow2_pos};
use crate::arith::{add_bits, sub_bits, mul_bits, div_bits, rem_bits, neg_bits};
use crate::binary32::{
    significand, unit_exp, INFINITY_MAG, HIDDEN_BIT, magnitude, is_negative, is_nan, is_zero,
    is_infinite, is_finite, mag_units, units, with_sign, lemma_mag_units_increasing,
};
use crate::compare::{le_bits, lemma_mag_order};
use crate::numeric::{lemma_div_bracket, lemma_div_bracket_converse, lemma_pow2_monotone};
use crate::rounding::round_mag;
use crate::rounding_laws::{
    lemma_round_mag_monotone, lemma_round_mag_exact, lemma_cut, lemma_round_mag_multiple,
    lemma_round_mag_scale,
};

verus! {

/// The pattern that the signed value `z / d` units rounds to; positive zero
/// for zero.
pub open spec fn round_signed(z: int, d: nat) -> u32 {
    if z < 0 {
        with_sign(true, round_mag((-z) as nat, d))
    } else {
        with_sign(false, round_mag(z as nat, d))
    }
}

/// Magnitude bits up to infinity under a sign make a pattern that is no NaN
/// and stands for the signed magnitude.
pub proof fn lemma_units_with_sign(negative: bool, mag: u32)
    requires
        mag <= INFINITY_MAG,
    ensures
        !is_nan(with_sign(negative, mag)),
        magnitude(with_sign(negative, mag)) == mag,
        is_negative(with_sign(negative, mag)) == negative,
        units(with_sign(negative, mag)) == (if negative {
            -(mag_units(mag) as int)
        } else {
            mag_units(mag) as int
        }),
{
}

/// The values of patterns that are no NaN lie between the two infinities,
/// which stand at 2^277 units, and only the infinities reach that far.
pub proof fn lemma_units_bounds(b: u32)
    requires
        !is_nan(b),
    ensures
        -pow2(277) <= units(b) <= pow2(277),
        is_finite(b) ==> -pow2(277) < units(b) < pow2(277),
        is_infinite(b) ==> units(b) == (if is_negative(b) {
            -(pow2(277) as int)
        } else {
            pow2(277) as int
        }),
{
    assert(INFINITY_MAG / HIDDEN_BIT == 255 && INFINITY_MAG % HIDDEN_BIT == 0);
    lemma_pow2_adds(23, 254);
    lemma2_to64();
    assert(mag_units(INFINITY_MAG) == pow2(277));
    lemma_mag_order(magnitude(b), INFINITY_MAG);
}

/// A larger signed value never rounds to a pattern of smaller value. The two
/// values `z1 / d1` and `z2 / d2` are compared by cross-multiplying.
pub proof fn lemma_round_signed_monotone(z1: int, d1: nat, z2: int, d2: nat)
    requires
        d1 > 0,
        d2 > 0,
        z1 * d2 <= z2 * d1,
    ensures
        le_bits(round_signed(z1, d1), round_signed(z2, d2)),
{
    let r1 = round_signed(z1, d1);
    let r2 = round_signed(z2, d2);
    let a1: nat = if z1 < 0 { (-z1) as nat } else { z1 as nat };
    let a2: nat = if z2 < 0 { (-z2) as nat } else { z2 as nat };
    lemma_cut(a1, d1);
    lemma_cut(a2, d2);
    lemma_units_with_sign(z1 < 0, round_mag(a1, d1));
    lemma_units_with_sign(z2 < 0, round_mag(a2, d2));
    if z1 >= 0 {
        assert(z2 >= 0) by (nonlinear_arith)
            requires
                z1 * d2 <= z2 * d1,
                z1 >= 0,
                d1 > 0,
                d2 > 0,
        ;
        lemma_round_mag_monotone(a1, d1, a2, d2);
        lemma_mag_order(round_mag(a1, d1), round_mag(a2, d2));
    } else if z2 < 0 {
        assert(a2 * d1 <= a1 * d2) by (nonlinear_arith)
            requires
                z1 * d2 <= z2 * d1,
                a1 == -z1,
                a2 == -z2,
        ;
        lemma_round_mag_monotone(a2, d2, a1, d1);
        lemma_mag_order(round_mag(a2, d2), round_mag(a1, d1));
    }
}

/// The value of a sum of finite patterns is that of the rounded exact sum.
pub proof fn lemma_add_units(a: u32, b: u32)
    requires
        is_finite(a),
        is_finite(b),
    ensures
        !is_nan(add_bits(a, b)),
        units(add_bits(a, b)) == units(round_signed(units(a) + units(b), 1)),
{
    let z = units(a) + units(b);
    lemma_round_mag_exact(0, 1);
    assert(mag_units(0) * 1 == 0);
    let n: nat = if z < 0 { (-z) as nat } else { z as nat };
    lemma_cut(n, 1);
    lemma_units_with_sign(z < 0, round_mag(n, 1));
    lemma_units_with_sign(is_negative(a) && is_negative(b), 0);
}

/// Negation turns the value over.
pub proof fn lemma_neg_units(a: u32)
    requires
        !is_nan(a),
    ensures
        !is_nan(neg_bits(a)),
        units(neg_bits(a)) == -units(a),
        is_finite(neg_bits(a)) == is_finite(a),
{
}

/// Adding to a fixed finite pattern keeps the order of what is added.
pub proof fn lemma_add_monotone(c: u32, a1: u32, a2: u32)
    requires
        is_finite(c),
        le_bits(a1, a2),
    ensures
        le_bits(add_bits(c, a1), add_bits(c, a2)),
{
    lemma_units_bounds(a1);
    lemma_units_bounds(a2);
    if is_finite(a1) {
        lemma_add_units(c, a1);
        lemma_units_bounds(add_bits(c, a1));
    }
    if is_finite(a2) {
        lemma_add_units(c, a2);
        lemma_units_bounds(add_bits(c, a2));
    }
    if is_finite(a1) && is_finite(a2) {
        let z1 = units(c) + units(a1);
        let z2 = units(c) + units(a2);
        assert(z1 * 1 <= z2 * 1);
        lemma_round_signed_monotone(z1, 1, z2, 1);
    }
}

/// Subtracting a fixed finite pattern keeps the order of what it is
/// subtracted from.
pub proof fn lemma_sub_monotone(a1: u32, a2: u32, c: u32)
    requires
        is_finite(c),
        le_bits(a1, a2),
    ensures
        le_bits(sub_bits(a1, c), sub_bits(a2, c)),
{
    let nc = neg_bits(c);
    lemma_neg_units(c);
    lemma_units_bounds(a1);
    lemma_units_bounds(a2);
    if is_finite(a1) {
        lemma_add_units(a1, nc);
        lemma_units_bounds(add_bits(a1, nc));
    }
    if is_finite(a2) {
        lemma_add_units(a2, nc);
        lemma_units_bounds(add_bits(a2, nc));
    }
    if is_finite(a1) && is_finite(a2) {
        let z1 = units(a1) + units(nc);
        let z2 = units(a2) + units(nc);
        assert(z1 * 1 <= z2 * 1);
        lemma_round_signed_monotone(z1, 1, z2, 1);
    }
}

/// The value of a quotient of a finite pattern by a positive finite one is
/// that of the rounded exact quotient.
pub proof fn lemma_div_units(a: u32, c: u32)
    requires
        is_finite(a),
        is_finite(c),
        !is_zero(c),
        !is_negative(c),
    ensures
        !is_nan(div_bits(a, c)),
        mag_units(magnitude(c)) > 0,
        units(div_bits(a, c)) == units(
            round_signed(units(a) * pow2(149), mag_units(magnitude(c))),
        ),
{
    let ma = mag_units(magnitude(a));
    let mc = mag_units(magnitude(c));
    lemma_mag_units_increasing(0, magnitude(c));
    lemma_pow2_pos(149);
    let p = pow2(149);
    let z = units(a) * p;
    lemma_cut(ma * p, mc);
    lemma_units_with_sign(is_negative(a), round_mag(ma * p, mc));
    lemma_units_with_sign(false, round_mag(ma * p, mc));
    if is_negative(a) {
        assert(z == -(ma * p)) by (nonlinear_arith)
            requires
                z == (-ma) * p,
        ;
        assert(ma * p >= 0) by (nonlinear_arith)
            requires
                ma >= 0,
                p >= 0,
        ;
        if ma == 0 {
            assert(ma * p == 0) by (nonlinear_arith)
                requires
                    ma == 0,
            ;
            lemma_round_mag_exact(0, mc);
            assert(mag_units(0) * mc == 0) by (nonlinear_arith)
                requires
                    mag_units(0) == 0,
            ;
        } else {
            assert(ma * p > 0) by (nonlinear_arith)
                requires
                    ma > 0,
                    p > 0,
            ;
        }
    } else {
        assert(z >= 0) by (nonlinear_arith)
            requires
                z == ma * p,
                ma >= 0,
                p >= 0,
        ;
    }
}

/// Dividing by a fixed positive finite pattern keeps the order of what is
/// divided.
pub proof fn lemma_div_monotone(a1: u32, a2: u32, c: u32)
    requires
        is_finite(c),
        !is_zero(c),
        !is_negative(c),
        le_bits(a1, a2),
    ensures
        le_bits(div_bits(a1, c), div_bits(a2, c)),
{
    lemma_units_bounds(a1);
    lemma_units_bounds(a2);
    let mc = mag_units(magnitude(c));
    let p = pow2(149);
    lemma_pow2_pos(149);
    lemma_units_with_sign(is_negative(a1), INFINITY_MAG);
    lemma_units_with_sign(is_negative(a2), INFINITY_MAG);
    lemma_units_bounds(with_sign(true, INFINITY_MAG));
    lemma_units_bounds(with_sign(false, INFINITY_MAG));
    if is_finite(a1) {
        lemma_div_units(a1, c);
        lemma_units_bounds(div_bits(a1, c));
    }
    if is_finite(a2) {
        lemma_div_units(a2, c);
        lemma_units_bounds(div_bits(a2, c));
    }
    if is_finite(a1) && is_finite(a2) {
        lemma_mag_units_increasing(0, magnitude(c));
        let z1 = units(a1) * p;
        let z2 = units(a2) * p;
        assert(z1 * mc <= z2 * mc) by (nonlinear_arith)
            requires
                z1 == units(a1) * p,
                z2 == units(a2) * p,
                units(a1) <= units(a2),
                p > 0,
                mc > 0,
        ;
        lemma_round_signed_monotone(z1, mc, z2, mc);
    }
}

/// The value of the product of a positive finite pattern and a finite one
/// is that of the rounded exact product.
pub proof fn lemma_mul_units(c: u32, a: u32)
    requires
        is_finite(a),
        is_finite(c),
        !is_negative(c),
    ensures
        !is_nan(mul_bits(c, a)),
        units(mul_bits(c, a)) == units(
            round_signed(mag_units(magnitude(c)) * units(a), pow2(149)),
        ),
{
    let ma = mag_units(magnitude(a));
    let mc = mag_units(magnitude(c));
    lemma_pow2_pos(149);
    let p = pow2(149);
    let z = mc * units(a);
    lemma_cut(mc * ma, p);
    lemma_units_with_sign(is_negative(a), round_mag(mc * ma, p));
    lemma_units_with_sign(false, round_mag(mc * ma, p));
    if is_negative(a) {
        assert(z == -(mc * ma)) by (nonlinear_arith)
            requires
                z == mc * (-ma),
        ;
        assert(mc * ma >= 0) by (nonlinear_arith)
            requires
                ma >= 0,
                mc >= 0,
        ;
        if mc * ma == 0 {
            lemma_round_mag_exact(0, p);
            assert(mag_units(0) * p == 0) by (nonlinear_arith)
                requires
                    mag_units(0) == 0,
            ;
        }
    } else {
        assert(z >= 0) by (nonlinear_arith)
            requires
                z == mc * ma,
                ma >= 0,
                mc >= 0,
        ;
    }
}

/// Multiplying a fixed positive finite pattern, zero aside, keeps the order
/// of what it is multiplied by.
pub proof fn lemma_mul_monotone(c: u32, a1: u32, a2: u32)
    requires
        is_finite(c),
        !is_zero(c),
        !is_negative(c),
        le_bits(a1, a2),
    ensures
        le_bits(mul_bits(c, a1), mul_bits(c, a2)),
{
    lemma_units_bounds(a1);
    lemma_units_bounds(a2);
    let mc = mag_units(magnitude(c));
    let p = pow2(149);
    lemma_pow2_pos(149);
    lemma_units_with_sign(is_negative(a1), INFINITY_MAG);
    lemma_units_with_sign(is_negative(a2), INFINITY_MAG);
    lemma_units_bounds(with_sign(true, INFINITY_MAG));
    lemma_units_bounds(with_sign(false, INFINITY_MAG));
    if is_finite(a1) {
        lemma_mul_units(c, a1);
        lemma_units_bounds(mul_bits(c, a1));
    }
    if is_finite(a2) {
        lemma_mul_units(c, a2);
        lemma_units_bounds(mul_bits(c, a2));
    }
    if is_finite(a1) && is_finite(a2) {
        let z1 = mc * units(a1);
        let z2 = mc * units(a2);
        assert(z1 * p <= z2 * p) by (nonlinear_arith)
            requires
                z1 == mc * units(a1),
                z2 == mc * units(a2),
                units(a1) <= units(a2),
                p > 0,
                mc >= 0,
        ;
        lemma_round_signed_monotone(z1, p, z2, p);
    }
}

/// The order of the operands of a product does not matter.
pub proof fn lemma_mul_commutes(a: u32, b: u32)
    ensures
        mul_bits(a, b) == mul_bits(b, a),
{
    let ma = mag_units(magnitude(a));
    let mb = mag_units(magnitude(b));
    assert(ma * mb == mb * ma) by (nonlinear_arith);
}

/// The remainder is exact: its value is the remainder of the dividend's
/// magnitude by the divisor's, under the dividend's sign.
pub proof fn lemma_rem_exact(a: u32, b: u32)
    requires
        is_finite(a),
        is_finite(b),
        !is_zero(b),
    ensures
        is_finite(rem_bits(a, b)),
        units(rem_bits(a, b)) == (if is_negative(a) {
            -((mag_units(magnitude(a)) % mag_units(magnitude(b))) as int)
        } else {
            (mag_units(magnitude(a)) % mag_units(magnitude(b))) as int
        }),
{
    let (ma, mb) = (magnitude(a), magnitude(b));
    let (x, y) = (mag_units(ma), mag_units(mb));
    let (sa, ea, sb, eb) = (significand(ma), unit_exp(ma), significand(mb), unit_exp(mb));
    let (pa, pb) = (pow2(ea), pow2(eb));
    lemma2_to64();
    lemma_pow2_pos(ea);
    lemma_pow2_pos(eb);
    assert(x == sa * pa && y == sb * pb) by {
        assert(sa * pow2(0) == sa && sb * pow2(0) == sb) by (nonlinear_arith)
            requires
                pow2(0) == 1,
        ;
    }
    lemma_mag_units_increasing(0, mb);
    lemma_units_bounds(a);
    lemma_div_bracket_converse(x as int, y as int);
    let r = x % y;
    // The remainder is a number of at most twenty-four bits at the smaller
    // of the two scales.
    let c: nat;
    let t: nat;
    if ea < eb {
        lemma_pow2_adds((eb - ea) as nat, ea);
        lemma_pow2_monotone(1, (eb - ea) as nat);
        let pd = pow2((eb - ea) as nat);
        assert(x < y) by (nonlinear_arith)
            requires
                x == sa * pa,
                y == sb * (pd * pa),
                sa < 0x100_0000,
                sb >= 0x80_0000,
                pd >= 2,
                pa > 0,
        ;
        assert(0 * y == 0 && (0 + 1) * y == y) by (nonlinear_arith);
        lemma_div_bracket(x as int, y as int, 0);
        c = sa;
        t = ea;
    } else {
        lemma_pow2_adds((ea - eb) as nat, eb);
        let pd = pow2((ea - eb) as nat);
        let big = sa * pd;
        lemma_div_bracket_converse(big as int, sb as int);
        let (q, rest) = (big / sb, big % sb);
        assert(q * y <= x && x < (q + 1) * y && x - q * y == rest * pb) by (nonlinear_arith)
            requires
                x == sa * (pd * pb),
                y == sb * pb,
                big == sa * pd,
                big == q * sb + rest,
                rest < sb,
                pb > 0,
        ;
        lemma_div_bracket(x as int, y as int, q as int);
        c = rest;
        t = eb;
    }
    assert(r == c * pow2(t));
    lemma_round_mag_multiple(c, t);
    lemma_units_with_sign(is_negative(a), round_mag(r, 1));
}

/// A signed quotient whose value binary32 holds is rounded to a pattern of
/// just that value: `c * 2^t` units under the sign of the numerator, for `c`
/// of at most twenty-four bits.
pub proof fn lemma_round_signed_exact(z: int, d: nat, c: nat, t: nat)
    requires
        d > 0,
        c <= 0x100_0000,
        c * pow2(t) < pow2(277),
        z == c * pow2(t) * d || z == -(c * pow2(t) * d),
    ensures
        is_finite(round_signed(z, d)),
        units(round_signed(z, d)) == (if z < 0 {
            -((c * pow2(t)) as int)
        } else {
            (c * pow2(t)) as int
        }),
{
    let v = c * pow2(t);
    lemma_round_mag_multiple(c, t);
    lemma_round_mag_scale(v, 1, d);
    assert(1 * d == d);
    assert(v * d >= 0) by (nonlinear_arith)
        requires
            v >= 0,
            d >= 0,
    ;
    lemma_units_with_sign(z < 0, round_mag(v, 1));
    if v == 0 {
        assert(v * d == 0) by (nonlinear_arith)
            requires
                v == 0,
        ;
    }
}

} // verus!
