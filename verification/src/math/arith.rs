//! Integer helpers shared by the geometry: rounded division and square roots.

use vstd::prelude::*;

verus! {

/// The quotient `n / d` rounded to the nearest integer, halves rounded up.
/// Meaningful for a positive divisor only.
pub open spec fn div_round(n: int, d: int) -> int {
    (2 * n + d) / (2 * d)
}

/// The rounded quotient lies within half a unit of the exact one.
pub proof fn lemma_div_round_is_nearest(n: int, d: int)
    requires
        d > 0,
    ensures
        2 * n - d < 2 * d * div_round(n, d) <= 2 * n + d,
{
    let q = div_round(n, d);
    let m = 2 * n + d;
    let e = 2 * d;
    vstd::arithmetic::div_mod::lemma_fundamental_div_mod(m, e);
    vstd::arithmetic::div_mod::lemma_mod_bound(m, e);
    assert(m == e * (m / e) + m % e);
    assert(0 <= m % e < e);
}

/// Rounding keeps a quotient between the bounds that enclose the exact one.
pub proof fn lemma_div_round_between(n: int, d: int, lo: int, hi: int)
    requires
        d > 0,
        lo * d <= n <= hi * d,
    ensures
        lo <= div_round(n, d) <= hi,
{
    let q = div_round(n, d);
    lemma_div_round_is_nearest(n, d);
    if q < lo {
        assert(2 * d * q <= 2 * d * (lo - 1)) by (nonlinear_arith)
            requires
                q <= lo - 1,
                d > 0,
        ;
        assert(2 * d * (lo - 1) == 2 * (lo * d) - 2 * d) by (nonlinear_arith);
    }
    if q > hi {
        assert(2 * d * q >= 2 * d * (hi + 1)) by (nonlinear_arith)
            requires
                q >= hi + 1,
                d > 0,
        ;
        assert(2 * d * (hi + 1) == 2 * (hi * d) + 2 * d) by (nonlinear_arith);
    }
}

/// Computes the rounded quotient of `n` by a positive `d`.
pub fn div_round_exec(n: i128, d: i128) -> (q: i128)
    requires
        d > 0,
        -0x2000_0000_0000_0000_0000_0000_0000_0000 <= n <= 0x2000_0000_0000_0000_0000_0000_0000_0000,
        d <= 0x2000_0000_0000_0000_0000_0000_0000_0000,
    ensures
        q == div_round(n as int, d as int),
{
    let m: i128 = 2 * n + d;
    let e: i128 = 2 * d;
    proof {
        vstd::arithmetic::div_mod::lemma_fundamental_div_mod(m as int, e as int);
        vstd::arithmetic::div_mod::lemma_mod_bound(m as int, e as int);
    }
    if m >= 0 {
        m / e
    } else {
        // floor of a negative quotient, from a division of magnitudes
        let a: i128 = -m;
        let t: i128 = (a + e - 1) / e;
        proof {
            let qq = -(t as int);
            let r = (m as int) - (e as int) * qq;
            vstd::arithmetic::div_mod::lemma_fundamental_div_mod(a + e - 1, e as int);
            vstd::arithmetic::div_mod::lemma_mod_bound(a + e - 1, e as int);
            assert((e as int) * qq == -((e as int) * (t as int))) by (nonlinear_arith)
                requires
                    qq == -(t as int),
            ;
            assert(0 <= r < e);
            vstd::arithmetic::div_mod::lemma_fundamental_div_mod_converse(m as int, e as int, qq, r);
        }
        -t
    }
}

/// The integer square root: the largest `r` with `r * r <= n`.
pub open spec fn is_sqrt_floor(n: int, r: int) -> bool {
    0 <= r && r * r <= n < (r + 1) * (r + 1)
}

/// A number has at most one integer square root.
pub proof fn lemma_sqrt_floor_unique(n: int, r1: int, r2: int)
    requires
        is_sqrt_floor(n, r1),
        is_sqrt_floor(n, r2),
    ensures
        r1 == r2,
{
    if r1 < r2 {
        assert((r1 + 1) * (r1 + 1) <= r2 * r2) by (nonlinear_arith)
            requires
                0 <= r1,
                r1 + 1 <= r2,
        ;
    }
    if r2 < r1 {
        assert((r2 + 1) * (r2 + 1) <= r1 * r1) by (nonlinear_arith)
            requires
                0 <= r2,
                r2 + 1 <= r1,
        ;
    }
}

/// The integer square root of a non-negative number.
pub open spec fn int_sqrt(n: int) -> int {
    choose|r: int| is_sqrt_floor(n, r)
}

/// Every non-negative number has an integer square root.
pub proof fn lemma_int_sqrt(n: int)
    requires
        n >= 0,
    ensures
        is_sqrt_floor(n, int_sqrt(n)),
    decreases n,
{
    if n == 0 {
        assert(is_sqrt_floor(0, 0));
    } else {
        lemma_int_sqrt(n - 1);
        let r = int_sqrt(n - 1);
        if (r + 1) * (r + 1) <= n {
            assert((r + 2) * (r + 2) > (r + 1) * (r + 1)) by (nonlinear_arith)
                requires
                    r >= 0,
            ;
            assert(is_sqrt_floor(n, r + 1));
        } else {
            assert(is_sqrt_floor(n, r));
        }
    }
}

/// Computes the integer square root by bisection.
pub fn sqrt_floor(n: u128) -> (r: u64)
    ensures
        is_sqrt_floor(n as int, r as int),
        r == int_sqrt(n as int),
{
    let mut lo: u128 = 0;
    let mut hi: u128 = 0x1_0000_0000_0000_0000;
    assert(hi * hi > n) by (nonlinear_arith)
        requires
            hi == 0x1_0000_0000_0000_0000,
            n <= u128::MAX,
    ;
    while hi - lo > 1
        invariant
            lo < hi <= 0x1_0000_0000_0000_0000,
            lo * lo <= n < hi * hi,
        decreases hi - lo,
    {
        let mid: u128 = lo + (hi - lo) / 2;
        assert(mid * mid < 0x1_0000_0000_0000_0000_0000_0000_0000_0000) by (nonlinear_arith)
            requires
                mid < 0x1_0000_0000_0000_0000,
        ;
        if mid * mid <= n {
            lo = mid;
        } else {
            hi = mid;
        }
    }
    assert(hi == lo + 1);
    proof {
        assert(is_sqrt_floor(n as int, lo as int));
        lemma_sqrt_floor_unique(n as int, lo as int, int_sqrt(n as int));
    }
    lo as u64
}

} // verus!
