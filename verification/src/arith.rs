//! The five arithmetic operations and negation on binary32 bit patterns.
//!
//! Each result is the exact result of the operation on the values the
//! patterns stand for, rounded to the nearest binary32 value with ties to
//! even. Operations without a defined result give [`CANONICAL_NAN`].

use vstd::prelude::*;
use vstd::arithmetic::power2::{
    pow2, lemma2_to64, lemma_pow2_adds, lemma_pow2_pos, lemma_pow2_unfold,
};
use crate::binary32::{
    INFINITY_MAG, magnitude, is_negative, is_nan, is_zero, is_infinite, is_finite, mag_units,
    units, with_sign, magnitude_of, negative_of, signed, lemma_mag_units_increasing, decode_mag,
};
use crate::numeric::{
    lemma_pow2_monotone, lemma_pow2_127, pow2_u128, lemma_div_bracket,
    lemma_div_bracket_converse,
};
use crate::rounding::{
    round_mag, round_pack, scale_up, scale_down, lemma_scale_split, lemma_round_mag_bracket,
};

verus! {

/// The quiet NaN that every operation without a defined result returns.
pub const CANONICAL_NAN: u32 = 0x7fc0_0000;

/// The pattern with the sign bit flipped.
pub open spec fn neg_bits(a: u32) -> u32 {
    with_sign(!is_negative(a), magnitude(a))
}

/// Negation: flips the sign bit, of a NaN too.
pub fn negation(a: u32) -> (r: u32)
    ensures
        r == neg_bits(a),
        !is_nan(a) ==> units(r) == -units(a),
        is_nan(r) == is_nan(a),
{
    let mag: u32 = magnitude_of(a);
    signed(!negative_of(a), mag)
}

/// The product of two patterns.
///
/// A NaN operand, or zero times infinity, gives the canonical NaN. The sign
/// is negative exactly where the operands' signs differ. An infinite operand
/// gives infinity. Otherwise the exact product of the two magnitudes, which
/// is `mag_units(a) * mag_units(b) / 2^149` units, is rounded.
pub open spec fn mul_bits(a: u32, b: u32) -> u32 {
    let negative = is_negative(a) != is_negative(b);
    if is_nan(a) || is_nan(b) {
        CANONICAL_NAN
    } else if is_infinite(a) || is_infinite(b) {
        if is_zero(a) || is_zero(b) {
            CANONICAL_NAN
        } else {
            with_sign(negative, INFINITY_MAG)
        }
    } else {
        with_sign(
            negative,
            round_mag(mag_units(magnitude(a)) * mag_units(magnitude(b)), pow2(149)),
        )
    }
}

/// Multiplies two patterns.
pub fn product(a: u32, b: u32) -> (r: u32)
    ensures
        r == mul_bits(a, b),
{
    let ma: u32 = magnitude_of(a);
    let mb: u32 = magnitude_of(b);
    let negative: bool = negative_of(a) != negative_of(b);
    if ma > INFINITY_MAG || mb > INFINITY_MAG {
        return CANONICAL_NAN;
    }
    if ma == INFINITY_MAG || mb == INFINITY_MAG {
        if ma == 0 || mb == 0 {
            return CANONICAL_NAN;
        }
        return signed(negative, INFINITY_MAG);
    }
    let (sa, ea) = decode_mag(ma);
    let (sb, eb) = decode_mag(mb);
    proof {
        assert(sa * sb < 0x100_0000 * 0x100_0000) by (nonlinear_arith)
            requires
                sa < 0x100_0000,
                sb < 0x100_0000,
        ;
    }
    let sig: u128 = (sa as u128) * (sb as u128);
    let k: i32 = ea as i32 + eb as i32 - 149;
    let ghost n = mag_units(ma) * mag_units(mb);
    let ghost d = pow2(149);
    proof {
        let pa = pow2(ea as nat);
        let pb = pow2(eb as nat);
        lemma_pow2_pos(149);
        lemma_pow2_adds(ea as nat, eb as nat);
        lemma_scale_split(k as int);
        let u = scale_up(k as int);
        let dn = scale_down(k as int);
        let pab = pow2((ea + eb) as nat);
        if k >= 0 {
            lemma_pow2_adds(k as nat, 149);
            assert(u * d == pab);
        } else {
            lemma_pow2_adds((ea + eb) as nat, (-k) as nat);
            assert(d == pab * dn);
        }
        assert(u * d == pa * pb * dn) by (nonlinear_arith)
            requires
                pab == pa * pb,
                (dn == 1 && u * d == pab) || (u == 1 && d == pab * dn),
        ;
        assert(sig * u * d == n * dn) by (nonlinear_arith)
            requires
                sig == sa * sb,
                n == (sa * pa) * (sb * pb),
                u * d == pa * pb * dn,
        ;
        assert((sig + 1) * u * d > sig * u * d) by (nonlinear_arith)
            requires
                u > 0,
                d > 0,
        ;
    }
    round_pack(negative, sig, k, false, Ghost(n), Ghost(d))
}

/// The quotient of two patterns.
///
/// A NaN operand, infinity by infinity and zero by zero give the canonical
/// NaN. The sign is negative exactly where the operands' signs differ. An
/// infinite dividend, or a zero divisor under a dividend that is not zero,
/// gives infinity; an infinite divisor gives zero. Otherwise the exact
/// quotient of the two magnitudes is rounded.
pub open spec fn div_bits(a: u32, b: u32) -> u32 {
    let negative = is_negative(a) != is_negative(b);
    if is_nan(a) || is_nan(b) {
        CANONICAL_NAN
    } else if is_infinite(a) {
        if is_infinite(b) {
            CANONICAL_NAN
        } else {
            with_sign(negative, INFINITY_MAG)
        }
    } else if is_infinite(b) {
        with_sign(negative, 0)
    } else if is_zero(b) {
        if is_zero(a) {
            CANONICAL_NAN
        } else {
            with_sign(negative, INFINITY_MAG)
        }
    } else {
        with_sign(
            negative,
            round_mag(mag_units(magnitude(a)) * pow2(149), mag_units(magnitude(b))),
        )
    }
}

/// Divides one pattern by another.
pub fn quotient(a: u32, b: u32) -> (r: u32)
    ensures
        r == div_bits(a, b),
{
    let ma: u32 = magnitude_of(a);
    let mb: u32 = magnitude_of(b);
    let negative: bool = negative_of(a) != negative_of(b);
    if ma > INFINITY_MAG || mb > INFINITY_MAG {
        return CANONICAL_NAN;
    }
    if ma == INFINITY_MAG {
        if mb == INFINITY_MAG {
            return CANONICAL_NAN;
        }
        return signed(negative, INFINITY_MAG);
    }
    if mb == INFINITY_MAG {
        return signed(negative, 0);
    }
    if mb == 0 {
        if ma == 0 {
            return CANONICAL_NAN;
        }
        return signed(negative, INFINITY_MAG);
    }
    let (sa, ea) = decode_mag(ma);
    let (sb, eb) = decode_mag(mb);
    // Sixty-four extra bits under the dividend leave a quotient of more than
    // forty bits, and a remainder that only says whether anything was cut.
    let num: u128 = (sa as u128) * 0x1_0000_0000_0000_0000;
    let sig: u128 = num / (sb as u128);
    let rest: u128 = num % (sb as u128);
    let sticky: bool = rest != 0;
    let k: i32 = ea as i32 - eb as i32 + 85;
    let ghost n = mag_units(ma) * pow2(149);
    let ghost d = mag_units(mb);
    proof {
        let pa = pow2(ea as nat);
        let pb = pow2(eb as nat);
        lemma2_to64();
        lemma_pow2_127();
        lemma_pow2_pos(ea as nat);
        lemma_pow2_pos(eb as nat);
        lemma_pow2_pos(149);
        lemma_scale_split(k as int);
        let u = scale_up(k as int);
        let dn = scale_down(k as int);
        lemma_div_bracket_converse(num as int, sb as int);
        assert(d > 0) by (nonlinear_arith)
            requires
                d == sb * pb,
                sb >= 1,
                pb > 0,
        ;
        if sa > 0 {
            assert(sig >= 0x100_0000_0000) by (nonlinear_arith)
                requires
                    num >= 0x1_0000_0000_0000_0000,
                    num < (sig + 1) * sb,
                    sb < 0x100_0000,
                    sb >= 1,
            ;
        }
        // u * 2^eb * 2^64 == dn * 2^ea * 2^149
        let lhs_e = (if k >= 0 { k as nat } else { 0nat }) + eb as nat + 64;
        let rhs_e = (if k < 0 { (-k) as nat } else { 0nat }) + ea as nat + 149;
        assert(lhs_e == rhs_e);
        if k >= 0 {
            lemma_pow2_adds(k as nat, eb as nat);
            lemma_pow2_adds((k + eb) as nat, 64);
            lemma_pow2_adds(ea as nat, 149);
        } else {
            lemma_pow2_adds(eb as nat, 64);
            lemma_pow2_adds((-k) as nat, ea as nat);
            lemma_pow2_adds((-k + ea) as nat, 149);
        }
        let e = u * pb;
        let f = dn * pa * pow2(149);
        assert(e * 0x1_0000_0000_0000_0000 == f) by (nonlinear_arith)
            requires
                e == u * pb,
                f == dn * pa * pow2(149),
                pow2(64) == 0x1_0000_0000_0000_0000,
                (dn == 1 && pow2(lhs_e) == u * pb * pow2(64) && pow2(rhs_e) == pa * pow2(149))
                    || (u == 1 && pow2(lhs_e) == pb * pow2(64) && pow2(rhs_e) == dn * pa * pow2(
                    149,
                )),
                lhs_e == rhs_e,
        ;
        assert(e > 0) by (nonlinear_arith)
            requires
                e == u * pb,
                u > 0,
                pb > 0,
        ;
        assert(sig * u * d == (sig * sb) * e) by (nonlinear_arith)
            requires
                d == sb * pb,
                e == u * pb,
        ;
        assert((sig + 1) * u * d == ((sig + 1) * sb) * e) by (nonlinear_arith)
            requires
                d == sb * pb,
                e == u * pb,
        ;
        assert(n * dn == num * e) by (nonlinear_arith)
            requires
                n == (sa * pa) * pow2(149),
                f == dn * pa * pow2(149),
                e * 0x1_0000_0000_0000_0000 == f,
                num == sa * 0x1_0000_0000_0000_0000,
        ;
        assert((sig * sb) * e <= num * e) by (nonlinear_arith)
            requires
                sig * sb <= num,
                e > 0,
        ;
        assert(num * e < ((sig + 1) * sb) * e) by (nonlinear_arith)
            requires
                num < (sig + 1) * sb,
                e > 0,
        ;
        assert(((sig * sb) * e != num * e) <==> rest != 0) by (nonlinear_arith)
            requires
                rest == num - sig * sb,
                e > 0,
        ;
    }
    round_pack(negative, sig, k, sticky, Ghost(n), Ghost(d))
}

/// The sum of two patterns.
///
/// A NaN operand, or two infinities of opposite sign, give the canonical
/// NaN; otherwise an infinite operand is the result. Of two finite values
/// the exact sum is rounded. A sum of exactly zero is negative zero where
/// both operands are negative, and positive zero otherwise.
pub open spec fn add_bits(a: u32, b: u32) -> u32 {
    if is_nan(a) || is_nan(b) {
        CANONICAL_NAN
    } else if is_infinite(a) {
        if is_infinite(b) && is_negative(a) != is_negative(b) {
            CANONICAL_NAN
        } else {
            a
        }
    } else if is_infinite(b) {
        b
    } else {
        let z = units(a) + units(b);
        if z == 0 {
            with_sign(is_negative(a) && is_negative(b), 0)
        } else if z < 0 {
            with_sign(true, round_mag((-z) as nat, 1))
        } else {
            with_sign(false, round_mag(z as nat, 1))
        }
    }
}

/// The difference of two patterns: the sum of the first and the negated
/// second.
pub open spec fn sub_bits(a: u32, b: u32) -> u32 {
    add_bits(a, neg_bits(b))
}

/// The rounded sum or difference of two finite magnitudes, the first at
/// least the second, under the sign of the first. Nothing is left of two equal
/// magnitudes of opposite sign, and that is positive zero.
pub open spec fn add_ordered(nh: bool, mh: u32, nl: bool, ml: u32) -> u32 {
    if nh == nl {
        with_sign(nh, round_mag(mag_units(mh) + mag_units(ml), 1))
    } else if mh == ml {
        0
    } else {
        with_sign(nh, round_mag((mag_units(mh) - mag_units(ml)) as nat, 1))
    }
}

/// The sum of two finite patterns is [`add_ordered`] of their signs and
/// magnitudes, the larger magnitude first.
pub proof fn lemma_add_bits_ordered(a: u32, b: u32)
    requires
        is_finite(a),
        is_finite(b),
    ensures
        magnitude(a) >= magnitude(b) ==> add_bits(a, b) == add_ordered(
            is_negative(a),
            magnitude(a),
            is_negative(b),
            magnitude(b),
        ),
        magnitude(a) < magnitude(b) ==> add_bits(a, b) == add_ordered(
            is_negative(b),
            magnitude(b),
            is_negative(a),
            magnitude(a),
        ),
{
    let ma = magnitude(a);
    let mb = magnitude(b);
    if ma < mb {
        lemma_mag_units_increasing(ma, mb);
    } else if mb < ma {
        lemma_mag_units_increasing(mb, ma);
    }
    if 0 < ma {
        lemma_mag_units_increasing(0, ma);
    }
    if 0 < mb {
        lemma_mag_units_increasing(0, mb);
    }
    assert(mag_units(0) == 0);
    lemma2_to64();
    assert(0 * (pow2(0) * 1) == 0 && (0 + 1) * (pow2(0) * 1) == 1) by (nonlinear_arith)
        requires
            pow2(0) == 1,
    ;
    lemma_round_mag_bracket(0, 1, 0, 0);
    assert(round_mag(0, 1) == 0);
}

/// Adds two finite magnitudes under their signs, the first magnitude at
/// least the second.
fn sum_ordered(nh: bool, mh: u32, nl: bool, ml: u32) -> (r: u32)
    requires
        ml <= mh < INFINITY_MAG,
    ensures
        r == add_ordered(nh, mh, nl, ml),
{
    if nh != nl && mh == ml {
        return 0;
    }
    proof {
        if ml < mh {
            lemma_mag_units_increasing(ml, mh);
        }
        lemma2_to64();
        lemma_pow2_127();
    }
    let (sh, eh) = decode_mag(mh);
    let (sl, el) = decode_mag(ml);
    let dlt: u32 = eh - el;
    let ghost ph = pow2(eh as nat);
    let ghost pl = pow2(el as nat);
    let ghost n: nat = if nh == nl {
        mag_units(mh) + mag_units(ml)
    } else {
        (mag_units(mh) - mag_units(ml)) as nat
    };
    proof {
        lemma_pow2_pos(eh as nat);
        lemma_pow2_pos(el as nat);
        lemma_pow2_adds(dlt as nat, el as nat);
        lemma_pow2_pos(dlt as nat);
    }
    if dlt <= 64 {
        // Both operands fit one word at the smaller operand's scale.
        proof {
            lemma_pow2_monotone(dlt as nat, 64);
        }
        let pd: u128 = pow2_u128(dlt);
        proof {
            lemma_aligned(sh as nat, sl as nat, pd as nat, pl, ph, nh == nl, n);
        }
        let high: u128 = (sh as u128) * pd;
        let sig: u128 = if nh == nl {
            high + sl as u128
        } else {
            high - sl as u128
        };
        proof {
            lemma_scale_split(el as int);
        }
        round_pack(nh, sig, el as i32, false, Ghost(n), Ghost(1))
    } else {
        // The smaller operand lies wholly below the thirty bits kept under
        // the larger one: it only nudges the value off the larger operand.
        let high: u128 = (sh as u128) * 0x4000_0000;
        let sticky: bool = ml != 0;
        let sig: u128 = if nh == nl || ml == 0 {
            high
        } else {
            (high - 1) as u128
        };
        proof {
            lemma_scale_split(eh - 30);
            lemma_pow2_adds(30, (eh - 30) as nat);
            lemma_pow2_adds(24, el as nat);
            lemma_pow2_monotone((24 + el) as nat, (eh - 30) as nat);
            lemma_pow2_pos((eh - 30) as nat);
            lemma_nudged(
                sh as nat,
                sl as nat,
                pl,
                ph,
                pow2((eh - 30) as nat),
                nh == nl,
                n,
                sig as nat,
            );
        }
        round_pack(nh, sig, eh as i32 - 30, sticky, Ghost(n), Ghost(1))
    }
}

/// Two significands brought to the smaller operand's scale: their sum or
/// difference there, times that scale, is the sum or difference of the
/// magnitudes.
proof fn lemma_aligned(sh: nat, sl: nat, pd: nat, pl: nat, ph: nat, same: bool, n: nat)
    requires
        ph == pd * pl,
        pl > 0,
        sh < 0x100_0000,
        pd <= 0x1_0000_0000_0000_0000,
        same ==> n == sh * ph + sl * pl,
        !same ==> n == sh * ph - sl * pl && sh * ph > sl * pl,
    ensures
        sh * pd < 0x100_0000_0000_0000_0000_0000,
        !same ==> sh * pd > sl,
        same ==> ((sh * pd + sl) * pl * 1 == n * 1) && ((sh * pd + sl + 1) * pl * 1 > n * 1),
        !same ==> ((sh * pd - sl) * pl * 1 == n * 1) && ((sh * pd - sl + 1) * pl * 1 > n * 1),
{
    assert(sh * pd < 0x100_0000 * 0x1_0000_0000_0000_0000) by (nonlinear_arith)
        requires
            sh < 0x100_0000,
            pd <= 0x1_0000_0000_0000_0000,
    ;
    assert((sh * pd) * pl == sh * ph) by (nonlinear_arith)
        requires
            ph == pd * pl,
    ;
    if same {
        assert((sh * pd + sl) * pl * 1 == n * 1) by (nonlinear_arith)
            requires
                (sh * pd) * pl == sh * ph,
                n == sh * ph + sl * pl,
        ;
        assert((sh * pd + sl + 1) * pl * 1 > n * 1) by (nonlinear_arith)
            requires
                (sh * pd + sl) * pl * 1 == n * 1,
                pl > 0,
        ;
    } else {
        assert(sh * pd > sl) by (nonlinear_arith)
            requires
                (sh * pd) * pl == sh * ph,
                sh * ph > sl * pl,
                pl > 0,
        ;
        assert((sh * pd - sl) * pl * 1 == n * 1) by (nonlinear_arith)
            requires
                (sh * pd) * pl == sh * ph,
                n == sh * ph - sl * pl,
        ;
        assert((sh * pd - sl + 1) * pl * 1 > n * 1) by (nonlinear_arith)
            requires
                (sh * pd - sl) * pl * 1 == n * 1,
                pl > 0,
        ;
    }
}

/// A larger operand with thirty bits kept under it, and a smaller operand
/// wholly below those: the sum or difference lies within one step of the
/// larger operand at that scale.
proof fn lemma_nudged(sh: nat, sl: nat, pl: nat, ph: nat, u: nat, same: bool, n: nat, sig: nat)
    requires
        ph == 0x4000_0000 * u,
        0x100_0000 * pl <= u,
        pl > 0,
        sh >= 1,
        sl < 0x100_0000,
        same ==> n == sh * ph + sl * pl,
        !same ==> n == sh * ph - sl * pl,
        sig == (if same || sl == 0 {
            sh * 0x4000_0000
        } else {
            (sh * 0x4000_0000 - 1) as nat
        }),
    ensures
        sig * u * 1 <= n * 1,
        n * 1 < (sig + 1) * u * 1,
        (sl != 0) <==> sig * u * 1 != n * 1,
{
    let high = sh * 0x4000_0000;
    let low = sl * pl;
    assert(high * u == sh * ph) by (nonlinear_arith)
        requires
            high == sh * 0x4000_0000,
            ph == 0x4000_0000 * u,
    ;
    assert(low < u) by (nonlinear_arith)
        requires
            low == sl * pl,
            sl < 0x100_0000,
            0x100_0000 * pl <= u,
            pl > 0,
    ;
    assert((sl == 0 ==> low == 0) && (sl != 0 ==> low > 0)) by (nonlinear_arith)
        requires
            low == sl * pl,
            sl >= 0,
            pl > 0,
    ;
    assert(sig * u * 1 <= n * 1 && n * 1 < (sig + 1) * u * 1 && ((sl != 0) <==> sig * u * 1 != n
        * 1)) by (nonlinear_arith)
        requires
            high * u == sh * ph,
            0 <= low < u,
            (sl != 0) <==> low != 0,
            (sig == high && (same || low == 0) && n == sh * ph + low) || (sig == high && low == 0
                && n == sh * ph - low) || (sig == high - 1 && low > 0 && n == sh * ph - low),
    ;
}

/// Adds two patterns.
pub fn sum(a: u32, b: u32) -> (r: u32)
    ensures
        r == add_bits(a, b),
{
    let ma: u32 = magnitude_of(a);
    let mb: u32 = magnitude_of(b);
    let na: bool = negative_of(a);
    let nb: bool = negative_of(b);
    if ma > INFINITY_MAG || mb > INFINITY_MAG {
        return CANONICAL_NAN;
    }
    if ma == INFINITY_MAG {
        if mb == INFINITY_MAG && na != nb {
            return CANONICAL_NAN;
        }
        return a;
    }
    if mb == INFINITY_MAG {
        return b;
    }
    proof {
        lemma_add_bits_ordered(a, b);
    }
    if ma >= mb {
        sum_ordered(na, ma, nb, mb)
    } else {
        sum_ordered(nb, mb, na, ma)
    }
}

/// Subtracts the second pattern from the first.
pub fn difference(a: u32, b: u32) -> (r: u32)
    ensures
        r == sub_bits(a, b),
{
    sum(a, negation(b))
}

/// The remainder of dividing one pattern by another, with the quotient cut
/// to a whole number toward zero.
///
/// A NaN operand, an infinite dividend and a zero divisor give the canonical
/// NaN. Under an infinite divisor the dividend is the result. Otherwise the
/// result has the dividend's sign, and its magnitude is the remainder of the
/// dividend's magnitude by the divisor's, which is a binary32 value itself.
pub open spec fn rem_bits(a: u32, b: u32) -> u32 {
    if is_nan(a) || is_nan(b) || is_infinite(a) || is_zero(b) {
        CANONICAL_NAN
    } else if is_infinite(b) {
        a
    } else {
        with_sign(
            is_negative(a),
            round_mag(mag_units(magnitude(a)) % mag_units(magnitude(b)), 1),
        )
    }
}

/// Takes the remainder of dividing one pattern by another.
pub fn remainder(a: u32, b: u32) -> (r: u32)
    ensures
        r == rem_bits(a, b),
{
    let ma: u32 = magnitude_of(a);
    let mb: u32 = magnitude_of(b);
    let negative: bool = negative_of(a);
    if ma > INFINITY_MAG || mb > INFINITY_MAG || ma == INFINITY_MAG || mb == 0 {
        return CANONICAL_NAN;
    }
    if mb == INFINITY_MAG {
        return a;
    }
    let (sa, ea) = decode_mag(ma);
    let (sb, eb) = decode_mag(mb);
    let ghost pa = pow2(ea as nat);
    let ghost pb = pow2(eb as nat);
    let ghost x = mag_units(ma);
    let ghost y = mag_units(mb);
    proof {
        lemma2_to64();
        lemma_pow2_pos(ea as nat);
        lemma_pow2_pos(eb as nat);
        assert(y > 0) by (nonlinear_arith)
            requires
                y == sb * pb,
                sb >= 1,
                pb > 0,
        ;
    }
    if ea < eb {
        // The dividend is the smaller of the two, and is the remainder.
        proof {
            lemma_pow2_adds((eb - ea) as nat, ea as nat);
            lemma_pow2_monotone(1, (eb - ea) as nat);
            let pd = pow2((eb - ea) as nat);
            assert(x < y) by (nonlinear_arith)
                requires
                    x == sa * pa,
                    y == sb * (pd * pa),
                    sa < 0x100_0000,
                    sb >= 0x80_0000,
                    pd >= 2,
                    pa > 0,
            ;
            assert(0 * y == 0 && (0 + 1) * y == y) by (nonlinear_arith);
            lemma_div_bracket(x as int, y as int, 0);
            lemma_scale_split(ea as int);
            assert(sa * pa * 1 == x * 1) by (nonlinear_arith)
                requires
                    x == sa * pa,
            ;
            assert((sa + 1) * pa * 1 > x * 1) by (nonlinear_arith)
                requires
                    x == sa * pa,
                    pa > 0,
            ;
        }
        return round_pack(negative, sa as u128, ea as i32, false, Ghost(x), Ghost(1));
    }
    // Long division at the divisor's scale, one bit of the dividend's extra
    // exponent at a time.
    let dlt: u32 = ea - eb;
    let mut rest: u32 = sa % sb;
    let mut i: u32 = 0;
    let ghost mut q: nat = (sa / sb) as nat;
    proof {
        lemma_div_bracket_converse(sa as int, sb as int);
        assert(sa * pow2(0) == q * sb + rest) by (nonlinear_arith)
            requires
                sa == q * sb + rest,
                pow2(0) == 1,
        ;
    }
    while i < dlt
        invariant
            i <= dlt,
            rest < sb,
            sb < 0x100_0000,
            sa * pow2(i as nat) == q * sb + rest,
        decreases dlt - i,
    {
        let doubled: u32 = 2 * rest;
        proof {
            lemma_pow2_unfold((i + 1) as nat);
            lemma_div_bracket_converse(doubled as int, sb as int);
            let q2 = (doubled / sb) as nat;
            let r2 = (doubled % sb) as nat;
            let old_q = q;
            q = 2 * old_q + q2;
            assert(sa * (2 * pow2(i as nat)) == q * sb + r2) by (nonlinear_arith)
                requires
                    sa * pow2(i as nat) == old_q * sb + rest,
                    2 * rest == q2 * sb + r2,
                    q == 2 * old_q + q2,
            ;
        }
        rest = doubled % sb;
        i = i + 1;
    }
    proof {
        lemma_pow2_adds(dlt as nat, eb as nat);
        let pd = pow2(dlt as nat);
        let n = rest * pb;
        assert(q * y <= x && x < (q + 1) * y && x - q * y == n) by (nonlinear_arith)
            requires
                x == sa * (pd * pb),
                y == sb * pb,
                sa * pd == q * sb + rest,
                rest < sb,
                n == rest * pb,
                pb > 0,
        ;
        lemma_div_bracket(x as int, y as int, q as int);
        lemma_scale_split(eb as int);
        assert(rest * pb * 1 == n * 1) by (nonlinear_arith)
            requires
                n == rest * pb,
        ;
        assert((rest + 1) * pb * 1 > n * 1) by (nonlinear_arith)
            requires
                n == rest * pb,
                pb > 0,
        ;
    }
    round_pack(negative, rest as u128, eb as i32, false, Ghost((x % y) as nat), Ghost(1))
}

} // verus!
