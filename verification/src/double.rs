//! Sums of step costs, rounded as double precision rounds them.
//!
//! A number is held as a multiple of 2 to the -52, so that 1 is `UNIT`.
//! A number of up to 53 significant bits is held exactly; a longer one is
//! rounded to 53 bits, to the nearest such number and, between two that are
//! as near, to the one whose last bit is 0.

use vstd::arithmetic::div_mod::{lemma_div_denominator, lemma_fundamental_div_mod};
use vstd::prelude::*;

verus! {

/// The number 1.
pub const UNIT: u128 = 0x10_0000_0000_0000;

/// The number 2: the least that takes 54 bits to hold.
pub const LIMIT: u128 = 0x20_0000_0000_0000;

/// The cost of a diagonal step: the number of 53 bits nearest to seven
/// fifths.
pub const DIAGONAL: u128 = 0x16_6666_6666_6666;

/// The most that `round` takes.
pub const ROUND_MAX: u128 = 0x4000_0000_0000_0000_0000_0000_0000_0000;

/// The power of two by which `s` has to be divided to have at most 53 bits.
pub open spec fn scale(s: nat) -> nat
    decreases s,
{
    if s < LIMIT {
        1
    } else {
        2 * scale(s / 2)
    }
}

/// `s` rounded to 53 significant bits.
pub open spec fn rounded(s: nat) -> nat {
    let p = scale(s);
    let q = s / p;
    let r = s % p;
    if 2 * r > p || (2 * r == p && q % 2 == 1) {
        (q + 1) * p
    } else {
        q * p
    }
}

/// The sum of two numbers, rounded.
pub open spec fn sum(a: u128, b: u128) -> u128 {
    rounded((a + b) as nat) as u128
}

/// Ten times a number, rounded.
pub open spec fn tenfold(a: u128) -> u128 {
    rounded((10 * a) as nat) as u128
}

/// The whole part of a number.
pub open spec fn whole(a: u128) -> u128 {
    a / UNIT
}

/// The scale is positive, and `s` divided by it is below `LIMIT`; at least
/// half of `LIMIT` where `s` is not below `LIMIT`.
pub proof fn lemma_scale(s: nat)
    ensures
        scale(s) >= 1,
        s / scale(s) < LIMIT,
        s >= LIMIT ==> s / scale(s) >= LIMIT / 2,
        s < LIMIT ==> scale(s) == 1,
    decreases s,
{
    if s >= LIMIT {
        let h = s / 2;
        lemma_scale(h);
        let p = scale(h);
        lemma_div_denominator(s as int, 2, p as int);
        assert(2 * p == scale(s));
        assert((s / 2) / p == s / (2 * p));
        if h < LIMIT {
            assert(p == 1);
        }
    }
}

/// Rounding moves a number by at most half the scale, and at most doubles
/// it.
pub proof fn lemma_rounded(s: nat)
    ensures
        2 * rounded(s) <= 2 * s + scale(s),
        2 * rounded(s) + scale(s) >= 2 * s,
        rounded(s) <= 2 * s,
        s < LIMIT ==> rounded(s) == s,
{
    lemma_scale(s);
    let p = scale(s);
    let q = s / p;
    let r = s % p;
    lemma_fundamental_div_mod(s as int, p as int);
    assert(s == p * q + r);
    assert((q + 1) * p == p * q + p) by (nonlinear_arith);
    assert(q * p == p * q) by (nonlinear_arith);
    if s >= LIMIT {
        assert(p * q >= p) by (nonlinear_arith)
            requires
                q >= 1,
                p >= 1,
        ;
    } else {
        assert(q * p == s) by (nonlinear_arith)
            requires
                p == 1,
                s == p * q + r,
                r == 0,
        ;
    }
}

/// Below 2 to the 104, rounding moves a number by less than half of 1.
pub proof fn lemma_rounded_close(s: nat)
    requires
        s < 0x100_0000_0000_0000_0000_0000_0000,
    ensures
        s < rounded(s) + UNIT / 2,
        rounded(s) < s + UNIT / 2,
{
    lemma_scale(s);
    lemma_rounded(s);
    let p = scale(s);
    let q = s / p;
    if s >= LIMIT {
        lemma_fundamental_div_mod(s as int, p as int);
        assert(p * q <= s);
        assert(p < UNIT) by (nonlinear_arith)
            requires
                p * q <= s,
                q >= 0x10_0000_0000_0000,
                s < 0x100_0000_0000_0000_0000_0000_0000,
                p >= 1,
        ;
    }
}

/// Rounds `s` to 53 significant bits.
pub fn round(s: u128) -> (r: u128)
    requires
        s < ROUND_MAX,
    ensures
        r == rounded(s as nat),
{
    let mut q: u128 = s;
    let mut p: u128 = 1;
    while q >= LIMIT
        invariant
            p >= 1,
            q == s / p,
            p * q <= s,
            s < ROUND_MAX,
            p == 1 || q >= LIMIT / 2,
            scale(s as nat) == p * scale(q as nat),
        decreases q,
    {
        proof {
            lemma_div_denominator(s as int, p as int, 2);
            assert(p * (2 * scale((q / 2) as nat)) == (p * 2) * scale((q / 2) as nat)) by (nonlinear_arith);
            assert(p * 2 <= s) by (nonlinear_arith)
                requires
                    p * q <= s,
                    q >= 2,
                    p >= 1,
            ;
            assert((p * 2) * (q / 2) <= p * q) by (nonlinear_arith)
                requires
                    2 * (q / 2) <= q,
                    p >= 1,
            ;
        }
        q = q / 2;
        p = p * 2;
    }
    proof {
        assert(p * scale(q as nat) == p) by (nonlinear_arith)
            requires
                scale(q as nat) == 1,
        ;
        lemma_fundamental_div_mod(s as int, p as int);
        if p > 1 {
            assert(p * (q + 1) <= 2 * s) by (nonlinear_arith)
                requires
                    p * q <= s,
                    p >= 1,
                    q >= 1,
            ;
        }
        assert(p * q == q * p) by (nonlinear_arith);
        assert(p * (q + 1) == (q + 1) * p) by (nonlinear_arith);
    }
    let rest = s - q * p;
    let up = 2 * rest > p || (2 * rest == p && q % 2 == 1);
    if up {
        (q + 1) * p
    } else {
        q * p
    }
}

/// The sum of two numbers, rounded.
pub fn add_rounded(a: u128, b: u128) -> (r: u128)
    requires
        a + b < ROUND_MAX,
    ensures
        r == sum(a, b),
{
    proof {
        lemma_rounded((a + b) as nat);
    }
    round(a + b)
}

/// The whole part of ten times a number, rounded.
pub fn whole_tenfold(a: u128) -> (r: u128)
    requires
        10 * a < ROUND_MAX,
    ensures
        r == whole(tenfold(a)),
        r <= (20 * a) / (UNIT as int),
{
    proof {
        lemma_rounded((10 * a) as nat);
        vstd::arithmetic::div_mod::lemma_div_is_ordered(
            rounded((10 * a) as nat) as int,
            20 * a,
            UNIT as int,
        );
    }
    round(10 * a) / UNIT
}

} // verus!
