//! Rounding an exact value to the nearest binary32 value, ties to even.
//!
//! The exact value is a quotient `n / d` of naturals, counted in units of
//! 2^-149. [`round_mag`] says which magnitude bits it rounds to;
//! [`round_pack`] computes them from a significand and an exponent.

use vstd::prelude::*;
use vstd::arithmetic::power2::{
    pow2, lemma2_to64, lemma_pow2_adds, lemma_pow2_pos, lemma_pow2_unfold,
};
use crate::binary32::{INFINITY_MAG, HIDDEN_BIT, with_sign, signed};
use crate::numeric::{
    lemma_div_bracket, lemma_div_bracket_converse, lemma_div_lower, lemma_div_upper,
    lemma_pow2_monotone, lemma_pow2_127, pow2_u128, floor_log2,
};

verus! {

/// The exponent of the spacing between neighbouring binary32 values around
/// `q` units: the spacing is `2^ulp_exp(q)` units. Below 2^24 units the
/// spacing is one unit; from there on it doubles with every doubling of `q`.
pub open spec fn ulp_exp(q: nat) -> nat
    decreases q,
{
    if q < 0x100_0000 {
        0
    } else {
        1 + ulp_exp(q / 2)
    }
}

/// One where the remainder `r` of a division by `step` rounds the quotient
/// `m` up: above the half, or at the half with `m` odd.
pub open spec fn round_up(r: nat, step: nat, m: nat) -> nat {
    if 2 * r > step || (2 * r == step && m % 2 == 1) {
        1
    } else {
        0
    }
}

/// The magnitude bits at `raw`, or those of infinity where `raw` is beyond
/// the finite patterns.
pub open spec fn clamp_mag(raw: int) -> u32 {
    if raw >= INFINITY_MAG {
        INFINITY_MAG
    } else {
        raw as u32
    }
}

/// The magnitude bits of the binary32 value nearest to `n / d` units, with
/// ties going to the even significand and values from 2^128 - 2^103 on
/// going to infinity.
///
/// With `s` the spacing exponent at the value, the value is cut into a whole
/// number `m` of spacings and a remainder. The bits are `s * 2^23 + m`, plus
/// one where the remainder rounds up: this sum is the pattern of `m * 2^s`
/// units for a subnormal and a normal `m` alike, and its successor is the
/// pattern of the next value up.
pub open spec fn round_mag(n: nat, d: nat) -> u32
    recommends
        d > 0,
{
    let s = ulp_exp(n / d);
    let step = d * pow2(s);
    let m = n / step;
    let r = n % step;
    clamp_mag(s * HIDDEN_BIT + m + round_up(r, step, m))
}

/// The spacing exponent brackets its argument between two powers of two.
pub proof fn lemma_ulp_exp_bounds(q: nat)
    ensures
        ulp_exp(q) == 0 ==> q < 0x100_0000,
        ulp_exp(q) >= 1 ==> pow2(23 + ulp_exp(q)) <= q < pow2(24 + ulp_exp(q)),
    decreases q,
{
    lemma2_to64();
    if q >= 0x100_0000 {
        lemma_ulp_exp_bounds(q / 2);
        let s = ulp_exp(q / 2);
        lemma_pow2_unfold(23 + s + 1);
        lemma_pow2_unfold(24 + s + 1);
        if s == 0 {
            assert(pow2(24) == 0x100_0000);
            assert(pow2(25) == 0x200_0000);
        }
    }
}

/// A number between the two powers of two that belong to `s` has `s` as its
/// spacing exponent.
pub proof fn lemma_ulp_exp_unique(q: nat, s: nat)
    requires
        s == 0 ==> q < 0x100_0000,
        s >= 1 ==> pow2(23 + s) <= q < pow2(24 + s),
    ensures
        ulp_exp(q) == s,
    decreases s,
{
    lemma2_to64();
    if s >= 1 {
        lemma_pow2_monotone(24, 23 + s);
        lemma_pow2_unfold(23 + s);
        lemma_pow2_unfold(24 + s);
        if s == 1 {
            assert(pow2(24) == 0x100_0000);
        }
        lemma_ulp_exp_unique(q / 2, (s - 1) as nat);
    }
}

/// The rounding of `n / d`, read off from a spacing exponent `s` and a
/// multiplier `m` that bracket the value by products alone.
pub proof fn lemma_round_mag_bracket(n: nat, d: nat, s: nat, m: nat)
    requires
        d > 0,
        s == 0 ==> n < 0x100_0000 * d,
        s >= 1 ==> pow2(23 + s) * d <= n < pow2(24 + s) * d,
        m * (pow2(s) * d) <= n < (m + 1) * (pow2(s) * d),
    ensures
        round_mag(n, d) == clamp_mag(
            s * HIDDEN_BIT + m + round_up((n - m * (pow2(s) * d)) as nat, pow2(s) * d, m),
        ),
        s >= 1 ==> 0x80_0000 <= m < 0x100_0000,
        s == 0 ==> m < 0x100_0000,
{
    let q = n / d;
    if s == 0 {
        lemma_div_upper(n as int, d as int, 0x100_0000);
    } else {
        lemma_div_lower(n as int, d as int, pow2(23 + s) as int);
        lemma_div_upper(n as int, d as int, pow2(24 + s) as int);
    }
    lemma_ulp_exp_unique(q, s);
    let w = pow2(s);
    lemma_pow2_pos(s);
    let step = d * w;
    assert(step == w * d) by (nonlinear_arith)
        requires
            step == d * w,
    ;
    assert(step > 0) by (nonlinear_arith)
        requires
            step == d * w,
            d > 0,
            w > 0,
    ;
    lemma_div_bracket(n as int, step as int, m as int);
    if s >= 1 {
        lemma_pow2_adds(23, s);
        lemma_pow2_adds(24, s);
        lemma2_to64();
        assert(m >= 0x80_0000) by (nonlinear_arith)
            requires
                0x80_0000 * w * d <= n,
                n < (m + 1) * (w * d),
                w > 0,
                d > 0,
        ;
        assert(m < 0x100_0000) by (nonlinear_arith)
            requires
                n < 0x100_0000 * w * d,
                m * (w * d) <= n,
                w > 0,
                d > 0,
        ;
    } else {
        lemma2_to64();
        assert(m < 0x100_0000) by (nonlinear_arith)
            requires
                n < 0x100_0000 * d,
                m * (w * d) <= n,
                w == 1,
                d > 0,
        ;
    }
}

/// From 2^277 units on, every value rounds to infinity.
pub proof fn lemma_round_mag_overflow(n: nat, d: nat)
    requires
        d > 0,
        pow2(277) * d <= n,
    ensures
        round_mag(n, d) == INFINITY_MAG,
{
    let q = n / d;
    lemma_div_lower(n as int, d as int, pow2(277) as int);
    lemma_ulp_exp_bounds(q);
    let s = ulp_exp(q);
    lemma2_to64();
    lemma_pow2_monotone(24, 277);
    if s < 254 {
        lemma_pow2_monotone(24 + s, 277);
    }
    assert(s >= 254);
    let w = pow2(s);
    lemma_pow2_pos(s);
    let step = d * w;
    assert(step > 0) by (nonlinear_arith)
        requires
            step == d * w,
            d > 0,
            w > 0,
    ;
    lemma_div_bracket_converse(n as int, step as int);
    assert(s * HIDDEN_BIT >= 254 * 0x80_0000) by (nonlinear_arith)
        requires
            s >= 254,
    ;
    let m = n / step;
    lemma_div_bracket_converse(n as int, d as int);
    lemma_pow2_adds(23, s);
    assert(m >= 0x80_0000) by (nonlinear_arith)
        requires
            0x80_0000 * w <= q,
            q * d <= n,
            n < (m + 1) * step,
            step == d * w,
            w > 0,
            d > 0,
    ;
}

/// The factor by which a binary exponent `k` scales up: `2^k` where `k` is
/// positive, one otherwise.
pub open spec fn scale_up(k: int) -> nat {
    if k >= 0 {
        pow2(k as nat)
    } else {
        1
    }
}

/// The factor by which a binary exponent `k` scales down: `2^-k` where `k`
/// is negative, one otherwise.
pub open spec fn scale_down(k: int) -> nat {
    if k < 0 {
        pow2((-k) as nat)
    } else {
        1
    }
}

/// Whether a significand, a binary exponent and a sticky flag describe the
/// exact value `n / d`: the value is at least `sig * 2^k` and less than
/// `(sig + 1) * 2^k`, and the flag is set where it is not `sig * 2^k` itself.
pub open spec fn describes(sig: nat, k: int, sticky: bool, n: nat, d: nat) -> bool {
    &&& sig * scale_up(k) * d <= n * scale_down(k)
    &&& n * scale_down(k) < (sig + 1) * scale_up(k) * d
    &&& sticky <==> sig * scale_up(k) * d != n * scale_down(k)
}

/// Cutting a described value into spacings of `w` units, where the spacing is
/// `p` times the significand's own unit: the quotient and the remainder of
/// the significand by `p` decide the multiplier and the rounding.
proof fn lemma_cut_described(
    sig: nat,
    sticky: bool,
    n: nat,
    d: nat,
    u: nat,
    dn: nat,
    w: nat,
    p: nat,
    m: nat,
    rr: nat,
    half: nat,
)
    requires
        d > 0,
        u > 0,
        dn > 0,
        w > 0,
        w * dn == u * p,
        p == 2 * half,
        sig == m * p + rr,
        rr < p,
        sig * u * d <= n * dn,
        n * dn < (sig + 1) * u * d,
        sticky <==> sig * u * d != n * dn,
    ensures
        m * (w * d) <= n < (m + 1) * (w * d),
        round_up((n - m * (w * d)) as nat, w * d, m) == (if rr > half || (rr == half && (sticky
            || m % 2 == 1)) {
            1nat
        } else {
            0nat
        }),
{
    let ud = u * d;
    let lo = sig * ud;
    let x = n * dn;
    assert(ud > 0) by (nonlinear_arith)
        requires
            ud == u * d,
            u > 0,
            d > 0,
    ;
    assert(sig * u * d == sig * ud) by (nonlinear_arith)
        requires
            ud == u * d,
    ;
    assert((sig + 1) * u * d == sig * ud + ud) by (nonlinear_arith)
        requires
            ud == u * d,
    ;
    // One spacing, in the significand's scale, is `p * ud`.
    assert((w * d) * dn == p * ud) by (nonlinear_arith)
        requires
            w * dn == u * p,
            ud == u * d,
    ;
    let wd = w * d;
    assert(m * wd <= n) by (nonlinear_arith)
        requires
            wd * dn == p * ud,
            sig == m * p + rr,
            sig * ud <= n * dn,
            dn > 0,
            ud > 0,
            rr >= 0,
    ;
    assert(n < (m + 1) * wd) by (nonlinear_arith)
        requires
            wd * dn == p * ud,
            sig == m * p + rr,
            rr < p,
            n * dn < sig * ud + ud,
            dn > 0,
            ud > 0,
    ;
    let r = (n - m * wd) as nat;
    // Twice the remainder against one spacing, in the significand's scale.
    assert((2 * r - wd) * dn == 2 * (x - (sig + half - rr) * ud)) by (nonlinear_arith)
        requires
            r == n - m * wd,
            x == n * dn,
            wd * dn == p * ud,
            p == 2 * half,
            sig == m * p + rr,
    ;
    if rr > half {
        assert(x - (sig + half - rr) * ud > 0) by (nonlinear_arith)
            requires
                rr > half,
                sig * ud <= x,
                ud > 0,
        ;
        assert(2 * r > wd) by (nonlinear_arith)
            requires
                (2 * r - wd) * dn > 0,
                dn > 0,
        ;
    } else if rr < half {
        assert(x - (sig + half - rr) * ud < 0) by (nonlinear_arith)
            requires
                rr < half,
                x < sig * ud + ud,
                ud > 0,
        ;
        assert(2 * r < wd) by (nonlinear_arith)
            requires
                (2 * r - wd) * dn < 0,
                dn > 0,
        ;
    } else {
        assert((sig + half - rr) * ud == sig * ud) by (nonlinear_arith)
            requires
                rr == half,
        ;
        if sticky {
            assert(2 * r > wd) by (nonlinear_arith)
                requires
                    (2 * r - wd) * dn > 0,
                    dn > 0,
            ;
        } else {
            assert(2 * r == wd) by (nonlinear_arith)
                requires
                    (2 * r - wd) * dn == 0,
                    dn > 0,
            ;
        }
    }
}

/// The two scale factors of a sum of exponents: scaling by `a + b` is scaling
/// by `a` and then by `b`, written without fractions.
pub proof fn lemma_scale_split(k: int)
    ensures
        scale_up(k) > 0,
        scale_down(k) > 0,
        k >= 0 ==> scale_down(k) == 1,
        k < 0 ==> scale_up(k) == 1,
{
    lemma2_to64();
    if k >= 0 {
        lemma_pow2_pos(k as nat);
    } else {
        lemma_pow2_pos((-k) as nat);
    }
}

/// A power of two at `c` above the exponent `k`, written with the two scale
/// factors of `k`.
pub proof fn lemma_scale_shift(k: int, c: nat)
    requires
        k + c >= 0,
    ensures
        pow2((k + c) as nat) * scale_down(k) == pow2(c) * scale_up(k),
{
    lemma_scale_split(k);
    if k >= 0 {
        lemma_pow2_adds(c, k as nat);
        assert(pow2((k + c) as nat) * 1 == pow2(c) * pow2(k as nat)) by (nonlinear_arith)
            requires
                pow2((k + c) as nat) == pow2(c) * pow2(k as nat),
        ;
    } else {
        lemma_pow2_adds((k + c) as nat, (-k) as nat);
        assert(pow2(c) * 1 == pow2(c)) by (nonlinear_arith);
    }
}

/// Rounds a described value to binary32 and puts the sign on it.
///
/// The significand, the exponent and the sticky flag stand for an exact
/// value `n / d` as [`describes`] says. A value that is cut short (sticky)
/// must come with at least twenty-six significant bits, so that what was cut
/// lies below the rounding position.
pub fn round_pack(
    negative: bool,
    sig: u128,
    k: i32,
    sticky: bool,
    Ghost(n): Ghost<nat>,
    Ghost(d): Ghost<nat>,
) -> (r: u32)
    requires
        d > 0,
        sig < 0x8000_0000_0000_0000_0000_0000_0000_0000,
        describes(sig as nat, k as int, sticky, n, d),
        sticky ==> sig >= 0x200_0000,
    ensures
        r == with_sign(negative, round_mag(n, d)),
{
    let ghost u = scale_up(k as int);
    let ghost dn = scale_down(k as int);
    proof {
        lemma_scale_split(k as int);
        lemma2_to64();
        lemma_pow2_127();
    }
    if sig == 0 {
        proof {
            assert(0 * u * d == 0) by (nonlinear_arith);
            assert((0 + 1) * u * d == u * d) by (nonlinear_arith);
            assert(n == 0) by (nonlinear_arith)
                requires
                    n * dn == 0,
                    dn > 0,
            ;
            assert(0 * (pow2(0) * d) == 0) by (nonlinear_arith);
            assert((0 + 1) * (pow2(0) * d) == d) by (nonlinear_arith)
                requires
                    pow2(0) == 1,
            ;
            assert(0x100_0000 * d > 0) by (nonlinear_arith)
                requires
                    d > 0,
            ;
            lemma_round_mag_bracket(n, d, 0, 0);
        }
        return signed(negative, 0);
    }
    let l: u32 = floor_log2(sig);
    let ghost pl = pow2(l as nat);
    let ghost pl1 = pow2((l + 1) as nat);
    proof {
        if l >= 127 {
            lemma_pow2_monotone(127, l as nat);
        }
        lemma_pow2_unfold((l + 1) as nat);
    }
    let t: i64 = l as i64 + k as i64;
    let s: i64 = if t >= 24 {
        t - 23
    } else {
        0
    };
    // The value lies between 2^t and 2^(t + 1) units.
    proof {
        if k >= 0 {
            lemma_pow2_adds(l as nat, k as nat);
            lemma_pow2_adds((l + 1) as nat, k as nat);
        }
    }
    if s >= 254 {
        proof {
            // 2^277 <= 2^t <= sig * 2^k <= n / d
            assert(k > 0);
            lemma_pow2_monotone(277, t as nat);
            assert(pow2(277) * d <= n) by (nonlinear_arith)
                requires
                    pow2(277) <= pl * u,
                    pl <= sig,
                    sig * u * d <= n * dn,
                    dn == 1,
                    d > 0,
                    u > 0,
            ;
            lemma_round_mag_overflow(n, d);
        }
        return signed(negative, INFINITY_MAG);
    }
    let ghost w = pow2(s as nat);
    proof {
        lemma_pow2_pos(s as nat);
        // The spacing exponent belongs to the value.
        if s == 0 {
            // l + 1 + k <= 24, so (sig + 1) * u <= 2^24 * dn
            if k >= 0 {
                lemma_pow2_monotone((l + 1 + k) as nat, 24);
            } else {
                lemma_pow2_monotone((l + 1) as nat, (24 - k) as nat);
                lemma_pow2_adds(24, (-k) as nat);
            }
            assert(pl1 * u <= 0x100_0000 * dn);
            assert(n < 0x100_0000 * d) by (nonlinear_arith)
                requires
                    n * dn < (sig + 1) * u * d,
                    sig + 1 <= pl1,
                    pl1 * u <= 0x100_0000 * dn,
                    dn > 0,
                    u > 0,
                    d > 0,
            ;
        } else {
            // 23 + s == t == l + k
            let pt = pow2(t as nat);
            let pt1 = pow2((t + 1) as nat);
            if k >= 0 {
                assert(pt == pl * u);
                assert(pt1 == pl1 * u);
            } else {
                lemma_pow2_adds(t as nat, (-k) as nat);
                lemma_pow2_adds((t + 1) as nat, (-k) as nat);
                assert(pt * dn == pl);
                assert(pt1 * dn == pl1);
            }
            assert(pt * dn == pl * u) by (nonlinear_arith)
                requires
                    (dn == 1 && pt == pl * u) || (u == 1 && pt * dn == pl),
            ;
            assert(pt1 * dn == pl1 * u) by (nonlinear_arith)
                requires
                    (dn == 1 && pt1 == pl1 * u) || (u == 1 && pt1 * dn == pl1),
            ;
            assert(pt * d <= n) by (nonlinear_arith)
                requires
                    pt * dn == pl * u,
                    pl <= sig,
                    sig * u * d <= n * dn,
                    dn > 0,
                    u > 0,
                    d > 0,
            ;
            assert(n < pt1 * d) by (nonlinear_arith)
                requires
                    pt1 * dn == pl1 * u,
                    sig + 1 <= pl1,
                    n * dn < (sig + 1) * u * d,
                    dn > 0,
                    u > 0,
                    d > 0,
            ;
        }
    }
    let sh: i64 = s - k as i64;
    let m: u128;
    let up: u128;
    if sh <= 0 {
        // The significand's unit is a whole number of spacings: nothing is cut.
        let c: i64 = -sh;
        proof {
            assert(k >= 0 && dn == 1);
            lemma_pow2_adds(c as nat, s as nat);
            let pc = pow2(c as nat);
            lemma_pow2_pos(c as nat);
            assert(u == pc * w);
            // sig * pc * w < 2^(t + 1) <= 2^24 * w
            if s == 0 {
                lemma_pow2_monotone((l + 1 + k) as nat, 24);
            } else {
                lemma_pow2_adds(24, s as nat);
            }
            assert(pl1 * u <= 0x100_0000 * w);
            assert(sig * pc < 0x100_0000) by (nonlinear_arith)
                requires
                    sig < pl1,
                    pl1 * u <= 0x100_0000 * w,
                    u == pc * w,
                    w > 0,
                    pc > 0,
            ;
            assert(pc < 0x100_0000) by (nonlinear_arith)
                requires
                    sig * pc < 0x100_0000,
                    sig >= 1,
                    pc > 0,
            ;
            if c >= 24 {
                lemma_pow2_monotone(24, c as nat);
            }
        }
        let pc: u128 = pow2_u128(c as u32);
        m = sig * pc;
        up = 0;
        proof {
            assert(!sticky);
            let wd = w * d;
            assert(n == m * wd) by (nonlinear_arith)
                requires
                    sig * u * d == n * dn,
                    dn == 1,
                    u == pc * w,
                    m == sig * pc,
                    wd == w * d,
            ;
            assert((m + 1) * wd == m * wd + wd) by (nonlinear_arith);
            assert(wd > 0) by (nonlinear_arith)
                requires
                    wd == w * d,
                    w > 0,
                    d > 0,
            ;
            lemma_round_mag_bracket(n, d, s as nat, m as nat);
        }
    } else if sh >= 128 {
        m = 0;
        up = 0;
        proof {
            assert(s == 0);
            assert(k < 0 && u == 1);
            lemma_pow2_monotone(128, (-k) as nat);
            lemma_pow2_unfold(128);
            assert(2 * n < d) by (nonlinear_arith)
                requires
                    n * dn < (sig + 1) * u * d,
                    u == 1,
                    sig + 1 <= 0x8000_0000_0000_0000_0000_0000_0000_0000,
                    dn >= 2 * 0x8000_0000_0000_0000_0000_0000_0000_0000,
                    d > 0,
            ;
            assert(0 * (w * d) == 0) by (nonlinear_arith);
            assert((0 + 1) * (w * d) == d) by (nonlinear_arith)
                requires
                    w == 1,
            ;
            assert(w * d == d) by (nonlinear_arith)
                requires
                    w == 1,
            ;
            assert(0x100_0000 * d > 0) by (nonlinear_arith)
                requires
                    d > 0,
            ;
            lemma_round_mag_bracket(n, d, 0, 0);
        }
    } else {
        let p: u128 = pow2_u128(sh as u32);
        let half: u128 = p / 2;
        m = sig / p;
        let rr: u128 = sig % p;
        up = if rr > half || (rr == half && (sticky || m % 2 == 1)) {
            1
        } else {
            0
        };
        proof {
            lemma_pow2_unfold(sh as nat);
            lemma_div_bracket_converse(sig as int, p as int);
            assert(sig == m * p + rr);
            // s + max(-k, 0) == max(k, 0) + sh
            if k >= 0 {
                lemma_pow2_adds(k as nat, sh as nat);
            } else {
                lemma_pow2_adds(s as nat, (-k) as nat);
            }
            assert(w * dn == u * p) by (nonlinear_arith)
                requires
                    (dn == 1 && w == u * p) || (u == 1 && w * dn == p),
            ;
            lemma_cut_described(
                sig as nat,
                sticky,
                n,
                d,
                u,
                dn,
                w,
                p as nat,
                m as nat,
                rr as nat,
                half as nat,
            );
            lemma_round_mag_bracket(n, d, s as nat, m as nat);
        }
    }
    proof {
        assert(s * HIDDEN_BIT <= 253 * 0x80_0000) by (nonlinear_arith)
            requires
                0 <= s <= 253,
        ;
    }
    let raw: u128 = (s as u128) * 0x80_0000 + m + up;
    if raw >= INFINITY_MAG as u128 {
        signed(negative, INFINITY_MAG)
    } else {
        signed(negative, raw as u32)
    }
}

} // verus!
