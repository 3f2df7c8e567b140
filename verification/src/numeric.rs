//! Integer facts and small integer routines that the rest of the crate
//! builds on: powers of two, quotients bracketed by products, and the
//! position of a word's highest set bit.

use vstd::prelude::*;
use vstd::arithmetic::div_mod::{lemma_fundamental_div_mod, lemma_fundamental_div_mod_converse};
use vstd::arithmetic::power2::{
    pow2, lemma2_to64, lemma_pow2_adds, lemma_pow2_pos, lemma_pow2_strictly_increases,
    lemma_pow2_unfold,
};

verus! {

/// Powers of two grow with the exponent.
pub proof fn lemma_pow2_monotone(a: nat, b: nat)
    requires
        a <= b,
    ensures
        pow2(a) <= pow2(b),
        pow2(a) > 0,
{
    lemma_pow2_pos(a);
    if a < b {
        lemma_pow2_strictly_increases(a, b);
    }
}

/// The power of two at one hundred and twenty-seven, the highest that a
/// `u128` holds.
pub proof fn lemma_pow2_127()
    ensures
        pow2(127) == 0x8000_0000_0000_0000_0000_0000_0000_0000,
        pow2(64) == 0x1_0000_0000_0000_0000,
{
    lemma2_to64();
    lemma_pow2_adds(63, 64);
    assert(pow2(63) == 0x8000_0000_0000_0000) by {
        lemma_pow2_unfold(64);
    }
    assert(0x8000_0000_0000_0000 * 0x1_0000_0000_0000_0000
        == 0x8000_0000_0000_0000_0000_0000_0000_0000) by (nonlinear_arith);
}

/// A number between two consecutive multiples of `d` has the lower
/// multiplier as its quotient.
pub proof fn lemma_div_bracket(n: int, d: int, q: int)
    requires
        d > 0,
        q * d <= n < (q + 1) * d,
    ensures
        n / d == q,
        n % d == n - q * d,
{
    assert((q + 1) * d == q * d + d) by (nonlinear_arith);
    assert(q * d == d * q) by (nonlinear_arith);
    lemma_fundamental_div_mod_converse(n, d, q, n - q * d);
}

/// The quotient and the remainder put the number between two consecutive
/// multiples of the divisor.
pub proof fn lemma_div_bracket_converse(n: int, d: int)
    requires
        d > 0,
    ensures
        (n / d) * d <= n < (n / d + 1) * d,
        n % d == n - (n / d) * d,
        0 <= n % d < d,
{
    lemma_fundamental_div_mod(n, d);
    assert((n / d + 1) * d == (n / d) * d + d) by (nonlinear_arith);
    assert((n / d) * d == d * (n / d)) by (nonlinear_arith);
}

/// A product below the number bounds the quotient from below.
pub proof fn lemma_div_lower(n: int, d: int, a: int)
    requires
        d > 0,
        a * d <= n,
    ensures
        a <= n / d,
{
    lemma_div_bracket_converse(n, d);
    let q = n / d;
    assert(a <= q) by (nonlinear_arith)
        requires
            d > 0,
            a * d <= n,
            n < (q + 1) * d,
    ;
}

/// A product above the number bounds the quotient from above.
pub proof fn lemma_div_upper(n: int, d: int, b: int)
    requires
        d > 0,
        n < b * d,
    ensures
        n / d < b,
{
    lemma_div_bracket_converse(n, d);
    let q = n / d;
    assert(q < b) by (nonlinear_arith)
        requires
            d > 0,
            n < b * d,
            q * d <= n,
    ;
}

/// Two to the `k`, for an exponent that a `u128` can hold.
pub fn pow2_u128(k: u32) -> (r: u128)
    requires
        k <= 127,
    ensures
        r == pow2(k as nat),
        r >= 1,
{
    let mut r: u128 = 1;
    let mut i: u32 = 0;
    proof {
        lemma2_to64();
    }
    while i < k
        invariant
            i <= k <= 127,
            r == pow2(i as nat),
            r >= 1,
        decreases k - i,
    {
        proof {
            lemma_pow2_unfold((i + 1) as nat);
            lemma_pow2_monotone((i + 1) as nat, 127);
            lemma_pow2_127();
        }
        r = r * 2;
        i = i + 1;
    }
    r
}

/// The position of the highest set bit of a positive word: the `l` with
/// `2^l <= x < 2^(l + 1)`.
pub fn floor_log2(x: u128) -> (l: u32)
    requires
        x > 0,
    ensures
        l <= 127,
        pow2(l as nat) <= x,
        x < pow2((l + 1) as nat),
{
    let mut l: u32 = 0;
    let mut rest: u128 = x;
    proof {
        lemma2_to64();
    }
    while rest >= 2
        invariant
            rest >= 1,
            l <= 127,
            rest * pow2(l as nat) <= x,
            x < (rest + 1) * pow2(l as nat),
        decreases rest,
    {
        proof {
            let p = pow2(l as nat);
            let half = (rest / 2) as int;
            lemma_pow2_unfold((l + 1) as nat);
            lemma_pow2_pos(l as nat);
            assert(half * (2 * p) <= rest * p) by (nonlinear_arith)
                requires
                    2 * half <= rest,
                    p > 0,
            ;
            assert((rest + 1) * p <= (half + 1) * (2 * p)) by (nonlinear_arith)
                requires
                    rest + 1 <= 2 * half + 2,
                    p > 0,
            ;
            if l >= 127 {
                lemma_pow2_127();
                assert(2 * p <= rest * p) by (nonlinear_arith)
                    requires
                        rest >= 2,
                        p > 0,
                ;
                lemma_pow2_monotone(127, l as nat);
            }
        }
        rest = rest / 2;
        l = l + 1;
    }
    proof {
        lemma_pow2_unfold((l + 1) as nat);
        assert(1 * pow2(l as nat) == pow2(l as nat)) by (nonlinear_arith);
        assert((1 + 1) * pow2(l as nat) == 2 * pow2(l as nat)) by (nonlinear_arith);
    }
    l
}

} // verus!
