//! Fixed-point scalars and the integer helpers that the geometry needs:
//! division rounded towards negative infinity and the integer square root.
use vstd::arithmetic::div_mod::{lemma_fundamental_div_mod, lemma_fundamental_div_mod_converse};
use vstd::prelude::*;

verus! {

/// The fixed-point unit: a scalar `s` stands for the real number `s / ONE`.
pub const ONE: i64 = 10_000;

/// Quotient rounded towards negative infinity.
pub open spec fn floor_div(n: int, d: int) -> int
    recommends
        d != 0,
{
    if d > 0 {
        n / d
    } else {
        (-n) / (-d)
    }
}

/// `s` is the integer square root of `n`: the largest `s` with `s * s <= n`.
pub open spec fn is_isqrt(n: int, s: int) -> bool {
    0 <= s && s * s <= n && n < (s + 1) * (s + 1)
}

/// The integer square root, `floor(sqrt(n))`, for `n >= 0` (and 0 below).
pub open spec fn isqrt(n: int) -> int
    decreases n,
{
    if n <= 0 {
        0
    } else {
        let s = isqrt(n - 1);
        if (s + 1) * (s + 1) <= n {
            s + 1
        } else {
            s
        }
    }
}

pub proof fn lemma_isqrt_is_root(n: int)
    requires
        n >= 0,
    ensures
        is_isqrt(n, isqrt(n)),
    decreases n,
{
    if n > 0 {
        lemma_isqrt_is_root(n - 1);
        let s = isqrt(n - 1);
        assert((s + 2) * (s + 2) == (s + 1) * (s + 1) + 2 * s + 3) by (nonlinear_arith);
    }
}

pub proof fn lemma_isqrt_unique(n: int, s: int, t: int)
    requires
        is_isqrt(n, s),
        is_isqrt(n, t),
    ensures
        s == t,
{
    if s < t {
        assert((s + 1) * (s + 1) <= t * t) by (nonlinear_arith)
            requires
                0 <= s,
                s + 1 <= t,
        ;
    } else if t < s {
        assert((t + 1) * (t + 1) <= s * s) by (nonlinear_arith)
            requires
                0 <= t,
                t + 1 <= s,
        ;
    }
}

/// Division of `n` by a positive `d`, rounded towards negative infinity.
pub fn floor_div_i128(n: i128, d: i128) -> (q: i128)
    requires
        d > 0,
        n > i128::MIN,
    ensures
        q == floor_div(n as int, d as int),
        q == n as int / d as int,
{
    if n >= 0 {
        n / d
    } else {
        let m: i128 = -n;
        let q: i128 = m / d;
        let r: i128 = m % d;
        proof {
            lemma_fundamental_div_mod(m as int, d as int);
            assert(n == (-q) * d - r) by (nonlinear_arith)
                requires
                    m == d * q + r,
                    n == -m,
            ;
            assert((-q) * d - r == (-q - 1) * d + (d - r)) by (nonlinear_arith);
        }
        if r == 0 {
            proof {
                lemma_fundamental_div_mod_converse(n as int, d as int, -q, 0);
            }
            -q
        } else {
            proof {
                lemma_fundamental_div_mod_converse(n as int, d as int, -q - 1, d - r);
            }
            -q - 1
        }
    }
}

/// The integer square root of `n`, found by bisection.
pub fn isqrt_u128(n: u128) -> (s: u128)
    requires
        n < 0x400_0000_0000_0000_0000_0000_0000_0000,
    ensures
        s == isqrt(n as int),
        is_isqrt(n as int, s as int),
        s < 0x2000_0000_0000_0000,
{
    let mut lo: u128 = 0;
    let mut hi: u128 = 0x2000_0000_0000_0000;
    assert(hi * hi == 0x400_0000_0000_0000_0000_0000_0000_0000) by (nonlinear_arith)
        requires
            hi == 0x2000_0000_0000_0000u128,
    ;
    while hi - lo > 1
        invariant
            lo < hi <= 0x2000_0000_0000_0000,
            lo * lo <= n,
            n < hi * hi,
        decreases hi - lo,
    {
        let mid: u128 = lo + (hi - lo) / 2;
        assert(mid * mid <= 0x400_0000_0000_0000_0000_0000_0000_0000) by (nonlinear_arith)
            requires
                mid <= 0x2000_0000_0000_0000,
        ;
        if mid * mid <= n {
            lo = mid;
        } else {
            hi = mid;
        }
    }
    proof {
        lemma_isqrt_is_root(n as int);
        lemma_isqrt_unique(n as int, lo as int, isqrt(n as int));
    }
    lo
}

/// `n` lies in the range of `i64`.
pub open spec fn fits_i64(n: int) -> bool {
    i64::MIN <= n <= i64::MAX
}

/// Division rounded towards negative infinity, for a divisor of either sign.
pub fn floor_div_wide(n: i128, d: i128) -> (q: i128)
    requires
        d != 0,
        n > i128::MIN,
        d > i128::MIN,
    ensures
        q == floor_div(n as int, d as int),
{
    if d > 0 {
        floor_div_i128(n, d)
    } else {
        floor_div_i128(-n, -d)
    }
}

} // verus!
