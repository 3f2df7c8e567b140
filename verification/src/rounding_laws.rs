//! What holds of rounding: a value that binary32 holds is left as it is,
//! and a larger value never rounds to a smaller one.

use vstd::prelude::*;
use vstd::arithmetic::power2::{
    pow2, lemma2_to64, lemma_pow2_adds, lemma_pow2_pos, lemma_pow2_unfold,
    lemma_pow2_strictly_increases,
};
use crate::binary32::{
    significand, unit_exp, INFINITY_MAG, HIDDEN_BIT, mag_units, lemma_mag_units_increasing,
};
use crate::numeric::{
    lemma_div_bracket, lemma_div_bracket_converse, lemma_div_lower, lemma_div_upper,
    lemma_pow2_monotone,
};
use crate::rounding::{
    ulp_exp, round_up, clamp_mag, round_mag, lemma_ulp_exp_bounds, lemma_round_mag_bracket,
    lemma_round_mag_overflow,
};

verus! {

/// The spacing exponent, the multiplier, the remainder and the spacing that
/// the definition of [`round_mag`] goes through.
pub struct Cut {
    pub s: nat,
    pub w: nat,
    pub m: nat,
    pub r: nat,
}

/// The cut of `n / d` at its own spacing.
pub open spec fn cut_of(n: nat, d: nat) -> Cut {
    let s = ulp_exp(n / d);
    let w = d * pow2(s);
    Cut { s, w, m: n / w, r: n % w }
}

/// The parts of a rounding fit together: the spacing is positive, the
/// multiplier and the remainder make up the value, the multiplier has at
/// most twenty-four bits, and exactly twenty-four above the first spacing.
pub proof fn lemma_cut(n: nat, d: nat)
    requires
        d > 0,
    ensures
        ({
            let c = cut_of(n, d);
            &&& c.w > 0
            &&& c.w == pow2(c.s) * d
            &&& n == c.m * c.w + c.r
            &&& c.r < c.w
            &&& c.m < 0x100_0000
            &&& c.s >= 1 ==> c.m >= 0x80_0000
            &&& round_mag(n, d) == clamp_mag(c.s * HIDDEN_BIT + c.m + round_up(c.r, c.w, c.m))
        }),
{
    let c = cut_of(n, d);
    let q = n / d;
    lemma_div_bracket_converse(n as int, d as int);
    lemma_ulp_exp_bounds(q);
    lemma_pow2_pos(c.s);
    let p = pow2(c.s);
    assert(c.w == p * d && c.w > 0) by (nonlinear_arith)
        requires
            c.w == d * p,
            d > 0,
            p > 0,
    ;
    lemma_div_bracket_converse(n as int, c.w as int);
    if c.s >= 1 {
        let lo = pow2(23 + c.s);
        let hi = pow2(24 + c.s);
        assert(lo * d <= n && n < hi * d) by (nonlinear_arith)
            requires
                lo <= q,
                q + 1 <= hi,
                q * d <= n,
                n < (q + 1) * d,
                d > 0,
        ;
    } else {
        assert(n < 0x100_0000 * d) by (nonlinear_arith)
            requires
                q + 1 <= 0x100_0000,
                n < (q + 1) * d,
                d > 0,
        ;
    }
    lemma_round_mag_bracket(n, d, c.s, c.m);
}

/// The spacing exponent grows with its argument.
pub proof fn lemma_ulp_exp_monotone(q1: nat, q2: nat)
    requires
        q1 <= q2,
    ensures
        ulp_exp(q1) <= ulp_exp(q2),
    decreases q2,
{
    if q1 >= 0x100_0000 {
        lemma_ulp_exp_monotone(q1 / 2, q2 / 2);
    }
}

/// Of two quotients in order, compared by cross-multiplying, the whole parts
/// are in order too.
pub proof fn lemma_quotients_ordered(n1: nat, d1: nat, n2: nat, d2: nat)
    requires
        d1 > 0,
        d2 > 0,
        n1 * d2 <= n2 * d1,
    ensures
        n1 / d1 <= n2 / d2,
{
    let q1 = n1 / d1;
    lemma_div_bracket_converse(n1 as int, d1 as int);
    assert(q1 * d2 <= n2) by (nonlinear_arith)
        requires
            q1 * d1 <= n1,
            n1 * d2 <= n2 * d1,
            d1 > 0,
            d2 > 0,
            q1 >= 0,
    ;
    lemma_div_lower(n2 as int, d2 as int, q1 as int);
}

/// A larger value never rounds to smaller magnitude bits. The two values
/// `n1 / d1` and `n2 / d2` are compared by cross-multiplying.
pub proof fn lemma_round_mag_monotone(n1: nat, d1: nat, n2: nat, d2: nat)
    requires
        d1 > 0,
        d2 > 0,
        n1 * d2 <= n2 * d1,
    ensures
        round_mag(n1, d1) <= round_mag(n2, d2),
{
    let c1 = cut_of(n1, d1);
    let c2 = cut_of(n2, d2);
    lemma_cut(n1, d1);
    lemma_cut(n2, d2);
    lemma_quotients_ordered(n1, d1, n2, d2);
    lemma_ulp_exp_monotone(n1 / d1, n2 / d2);
    let raw1 = c1.s * HIDDEN_BIT + c1.m + round_up(c1.r, c1.w, c1.m);
    let raw2 = c2.s * HIDDEN_BIT + c2.m + round_up(c2.r, c2.w, c2.m);
    if c1.s == c2.s {
        let p = pow2(c1.s);
        lemma_pow2_pos(c1.s);
        // At one spacing the multipliers are in order,
        assert(n1 * c2.w <= n2 * c1.w) by (nonlinear_arith)
            requires
                n1 * d2 <= n2 * d1,
                c1.w == p * d1,
                c2.w == p * d2,
                p > 0,
        ;
        lemma_quotients_ordered(n1, c1.w, n2, c2.w);
        if c1.m == c2.m {
            // and under one multiplier the remainders are, as shares of the
            // spacing.
            let m = c1.m;
            let (r1, w1, r2, w2) = (c1.r, c1.w, c2.r, c2.w);
            assert(r1 * w2 <= r2 * w1) by (nonlinear_arith)
                requires
                    n1 * w2 <= n2 * w1,
                    n1 == m * w1 + r1,
                    n2 == m * w2 + r2,
            ;
            if 2 * r1 > w1 {
                assert(2 * r2 > w2) by (nonlinear_arith)
                    requires
                        r1 * w2 <= r2 * w1,
                        2 * r1 > w1,
                        w1 > 0,
                        w2 > 0,
                ;
            } else if 2 * r1 == w1 {
                assert(2 * r2 >= w2) by (nonlinear_arith)
                    requires
                        r1 * w2 <= r2 * w1,
                        2 * r1 == w1,
                        w1 > 0,
                        w2 > 0,
                ;
            }
            assert(raw1 <= raw2);
        } else {
            assert(raw1 <= raw2);
        }
    } else {
        assert(c1.s * HIDDEN_BIT + 0x100_0000 <= c2.s * HIDDEN_BIT + 0x80_0000) by (nonlinear_arith)
            requires
                c1.s + 1 <= c2.s,
        ;
        assert(raw1 <= raw2);
    }
}

/// The pattern `s * 2^23 + m` stands for `m * 2^s` units, for a multiplier of
/// up to twenty-four bits that has all twenty-four where `s` is positive.
pub proof fn lemma_mag_units_of_parts(s: nat, m: nat)
    requires
        s <= 253,
        m < 0x100_0000,
        s >= 1 ==> m >= 0x80_0000,
    ensures
        s * HIDDEN_BIT + m < INFINITY_MAG,
        mag_units((s * HIDDEN_BIT + m) as u32) == m * pow2(s),
{
    assert(s * HIDDEN_BIT <= 253 * 0x80_0000) by (nonlinear_arith)
        requires
            s <= 253,
    ;
    let raw = (s * HIDDEN_BIT + m) as u32;
    lemma2_to64();
    if s == 0 {
        assert(m * pow2(0) == m) by (nonlinear_arith)
            requires
                pow2(0) == 1,
        ;
        if m >= 0x80_0000 {
            assert(raw / HIDDEN_BIT == 1);
            assert(raw % HIDDEN_BIT == m - 0x80_0000);
        } else {
            assert(raw / HIDDEN_BIT == 0);
        }
    } else {
        assert(raw / HIDDEN_BIT == s + 1 && raw % HIDDEN_BIT == m - 0x80_0000) by {
            lemma_div_bracket(raw as int, HIDDEN_BIT as int, (s + 1) as int);
        }
    }
}

/// A value that binary32 holds rounds to its own pattern, whatever the
/// denominator it is written over.
pub proof fn lemma_round_mag_exact(mag: u32, d: nat)
    requires
        mag < INFINITY_MAG,
        d > 0,
    ensures
        round_mag(mag_units(mag) * d, d) == mag,
{
    let s = unit_exp(mag);
    let m = significand(mag);
    let p = pow2(s);
    let n = mag_units(mag) * d;
    lemma_pow2_pos(s);
    lemma2_to64();
    if s == 0 {
        assert(m * pow2(0) == m) by (nonlinear_arith)
            requires
                pow2(0) == 1,
        ;
    }
    assert(mag_units(mag) == m * p);
    lemma_pow2_adds(23, s);
    lemma_pow2_adds(24, s);
    assert(n == m * (p * d) && (m + 1) * (p * d) > n) by (nonlinear_arith)
        requires
            n == (m * p) * d,
            p > 0,
            d > 0,
    ;
    if s >= 1 {
        assert(pow2(23 + s) * d <= n && n < pow2(24 + s) * d) by (nonlinear_arith)
            requires
                n == (m * p) * d,
                0x80_0000 <= m < 0x100_0000,
                pow2(23 + s) == 0x80_0000 * p,
                pow2(24 + s) == 0x100_0000 * p,
                p > 0,
                d > 0,
        ;
    } else {
        assert(n < 0x100_0000 * d) by (nonlinear_arith)
            requires
                n == (m * p) * d,
                p == 1,
                m < 0x100_0000,
                d > 0,
        ;
    }
    lemma_round_mag_bracket(n, d, s, m);
    assert(p * d > 0) by (nonlinear_arith)
        requires
            p > 0,
            d > 0,
    ;
    assert(round_up((n - m * (p * d)) as nat, p * d, m) == 0);
    assert(s * HIDDEN_BIT + m == mag) by {
        if s >= 1 {
            assert(mag == (mag / HIDDEN_BIT) * HIDDEN_BIT + mag % HIDDEN_BIT);
        }
    }
}

/// The absolute value that a rounding below 2^277 units stands for: the
/// multiplier, moved up by one where the remainder rounds up, times the
/// spacing.
pub proof fn lemma_round_mag_value(n: nat, d: nat)
    requires
        d > 0,
        n < pow2(277) * d,
    ensures
        ({
            let c = cut_of(n, d);
            &&& c.s <= 253
            &&& mag_units(round_mag(n, d)) == (c.m + round_up(c.r, c.w, c.m)) * pow2(c.s)
        }),
{
    let c = cut_of(n, d);
    let up = round_up(c.r, c.w, c.m);
    lemma_cut(n, d);
    lemma_div_upper(n as int, d as int, pow2(277) as int);
    lemma_ulp_exp_bounds(n / d);
    if c.s >= 254 {
        lemma_pow2_monotone(277, 23 + c.s);
    }
    lemma2_to64();
    let p = pow2(c.s);
    if c.m + up < 0x100_0000 {
        lemma_mag_units_of_parts(c.s, c.m + up);
    } else {
        lemma_pow2_unfold(c.s + 1);
        assert(0x80_0000 * (2 * p) == 0x100_0000 * p) by (nonlinear_arith);
        assert(c.s * HIDDEN_BIT + 0x100_0000 == (c.s + 1) * HIDDEN_BIT + 0x80_0000)
            by (nonlinear_arith);
        if c.s < 253 {
            lemma_mag_units_of_parts(c.s + 1, 0x80_0000);
        } else {
            assert(INFINITY_MAG / HIDDEN_BIT == 255 && INFINITY_MAG % HIDDEN_BIT == 0);
            assert(mag_units(INFINITY_MAG) == 0x80_0000 * pow2(254));
        }
    }
}

/// The distance between two integers.
pub open spec fn distance(a: nat, b: nat) -> nat {
    if a >= b {
        (a - b) as nat
    } else {
        (b - a) as nat
    }
}

/// Rounding goes to a nearest value: no magnitude that binary32 has, with
/// infinity counted as 2^277 units, lies closer to `n / d` than the one that
/// `n / d` rounds to. Distances are compared after multiplying by `d`.
pub proof fn lemma_round_mag_nearest(n: nat, d: nat, other: u32)
    requires
        d > 0,
        other <= INFINITY_MAG,
    ensures
        distance(n, mag_units(round_mag(n, d)) * d) <= distance(n, mag_units(other) * d),
{
    let top = mag_units(INFINITY_MAG);
    assert(INFINITY_MAG / HIDDEN_BIT == 255 && INFINITY_MAG % HIDDEN_BIT == 0);
    lemma_pow2_adds(23, 254);
    lemma2_to64();
    assert(top == pow2(277));
    if other < INFINITY_MAG {
        lemma_mag_units_increasing(other, INFINITY_MAG);
    }
    let mo = mag_units(other);
    if n >= pow2(277) * d {
        lemma_round_mag_overflow(n, d);
        assert(mo * d <= top * d) by (nonlinear_arith)
            requires
                mo <= top,
                d > 0,
        ;
    } else {
        let c = cut_of(n, d);
        let up = round_up(c.r, c.w, c.m);
        let p = pow2(c.s);
        lemma_cut(n, d);
        lemma_round_mag_value(n, d);
        lemma_mag_units_of_parts(c.s, c.m);
        let below = (c.s * HIDDEN_BIT + c.m) as u32;
        // The pattern after `below` stands for one spacing more.
        let above = (below + 1) as u32;
        assert(mag_units(above) == (c.m + 1) * p) by {
            if c.m + 1 < 0x100_0000 {
                lemma_mag_units_of_parts(c.s, c.m + 1);
            } else {
                lemma_pow2_unfold(c.s + 1);
                assert(0x80_0000 * (2 * p) == 0x100_0000 * p) by (nonlinear_arith);
                assert(c.s * HIDDEN_BIT + 0x100_0000 == (c.s + 1) * HIDDEN_BIT + 0x80_0000)
                    by (nonlinear_arith);
                if c.s < 253 {
                    lemma_mag_units_of_parts(c.s + 1, 0x80_0000);
                } else {
                    assert(above == INFINITY_MAG);
                    assert(mag_units(INFINITY_MAG) == 0x80_0000 * pow2(254));
                }
            }
        }
        let got = mag_units(round_mag(n, d));
        assert(got * d == (c.m + up) * c.w && (c.m * p) * d == c.m * c.w && ((c.m + 1) * p) * d
            == c.m * c.w + c.w) by (nonlinear_arith)
            requires
                got == (c.m + up) * p,
                c.w == p * d,
        ;
        if other <= below {
            if other < below {
                lemma_mag_units_increasing(other, below);
            }
            assert(mo * d <= (c.m * p) * d) by (nonlinear_arith)
                requires
                    mo <= c.m * p,
                    d > 0,
            ;
        } else {
            if above < other {
                lemma_mag_units_increasing(above, other);
            }
            assert(mo * d >= ((c.m + 1) * p) * d) by (nonlinear_arith)
                requires
                    mo >= (c.m + 1) * p,
                    d > 0,
            ;
        }
    }
}

/// A number of at most twenty-four bits times a power of two, below 2^277
/// units, is a value that binary32 holds: rounding leaves it as it is.
pub proof fn lemma_round_mag_multiple(c: nat, t: nat)
    requires
        c <= 0x100_0000,
        c * pow2(t) < pow2(277),
    ensures
        round_mag(c * pow2(t), 1) < INFINITY_MAG,
        mag_units(round_mag(c * pow2(t), 1)) == c * pow2(t),
{
    let n = c * pow2(t);
    let pt = pow2(t);
    let cut = cut_of(n, 1);
    let (s, w) = (cut.s, cut.w);
    lemma_cut(n, 1);
    assert(n < pow2(277) * 1) by (nonlinear_arith)
        requires
            n < pow2(277),
    ;
    lemma_round_mag_value(n, 1);
    lemma_ulp_exp_bounds(n / 1);
    lemma_pow2_pos(t);
    lemma_pow2_pos(s);
    lemma2_to64();
    assert(w == pow2(s)) by (nonlinear_arith)
        requires
            w == pow2(s) * 1,
    ;
    // The value is a whole number `k` of spacings.
    let k: nat;
    if s <= t {
        lemma_pow2_adds((t - s) as nat, s);
        k = c * pow2((t - s) as nat);
        assert(k * w == n) by (nonlinear_arith)
            requires
                k == c * pow2((t - s) as nat),
                pt == pow2((t - s) as nat) * w,
                n == c * pt,
        ;
    } else {
        // 2^(23 + s) <= n <= 2^(24 + t) leaves s == t + 1 and c == 2^24.
        lemma_pow2_adds(24, t);
        assert(n <= pow2(24 + t)) by (nonlinear_arith)
            requires
                n == c * pt,
                c <= 0x100_0000,
                pow2(24 + t) == 0x100_0000 * pt,
                pt > 0,
        ;
        if s > t + 1 {
            lemma_pow2_monotone(24 + t + 1, 23 + s);
            lemma_pow2_strictly_increases(24 + t, 24 + t + 1);
        }
        assert(s == t + 1);
        lemma_pow2_adds(23, s);
        k = 0x80_0000;
        assert(k * w == n);
    }
    assert((k + 1) * w == k * w + w) by (nonlinear_arith);
    lemma_div_bracket(n as int, w as int, k as int);
    assert(cut.r == 0 && cut.m == k);
    assert(round_up(0, w, k) == 0);
    assert((k + 0) * pow2(s) == n);
    // Below 2^277 the pattern is finite.
    if round_mag(n, 1) >= INFINITY_MAG {
        assert(INFINITY_MAG / HIDDEN_BIT == 255 && INFINITY_MAG % HIDDEN_BIT == 0);
        lemma_pow2_adds(23, 254);
        assert(mag_units(INFINITY_MAG) == pow2(277));
    }
}

/// Rounding looks at the value alone: a common factor of numerator and
/// denominator changes nothing.
pub proof fn lemma_round_mag_scale(n: nat, d: nat, c: nat)
    requires
        d > 0,
        c > 0,
    ensures
        round_mag(n * c, d * c) == round_mag(n, d),
{
    let cut = cut_of(n, d);
    let (s, m, r, w) = (cut.s, cut.m, cut.r, cut.w);
    lemma_cut(n, d);
    lemma_ulp_exp_bounds(n / d);
    lemma_div_bracket_converse(n as int, d as int);
    let q = n / d;
    let p = pow2(s);
    lemma_pow2_pos(s);
    let (n2, d2) = (n * c, d * c);
    assert(d2 > 0) by (nonlinear_arith)
        requires
            d2 == d * c,
            d > 0,
            c > 0,
    ;
    if s >= 1 {
        let (lo, hi) = (pow2(23 + s), pow2(24 + s));
        assert(lo * d2 <= n2 && n2 < hi * d2) by (nonlinear_arith)
            requires
                lo <= q,
                q + 1 <= hi,
                q * d <= n,
                n < (q + 1) * d,
                n2 == n * c,
                d2 == d * c,
                c > 0,
                d > 0,
        ;
    } else {
        assert(n2 < 0x100_0000 * d2) by (nonlinear_arith)
            requires
                q + 1 <= 0x100_0000,
                n < (q + 1) * d,
                n2 == n * c,
                d2 == d * c,
                c > 0,
                d > 0,
        ;
    }
    let w2 = p * d2;
    assert(w2 == w * c && m * w2 <= n2 && n2 < (m + 1) * w2 && n2 - m * w2 == r * c)
        by (nonlinear_arith)
        requires
            w == p * d,
            w2 == p * d2,
            d2 == d * c,
            n2 == n * c,
            n == m * w + r,
            r < w,
            c > 0,
    ;
    lemma_round_mag_bracket(n2, d2, s, m);
    // The remainder and the spacing have both grown by the factor.
    assert((2 * (r * c) > w * c) == (2 * r > w) && (2 * (r * c) == w * c) == (2 * r == w))
        by (nonlinear_arith)
        requires
            c > 0,
    ;
}

} // verus!
