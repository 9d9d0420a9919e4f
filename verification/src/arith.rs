//! Exact integer arithmetic behind the aggregate queries: floor division
//! for the mean and the floor of the square root for the standard
//! deviation.

use vstd::prelude::*;
use vstd::arithmetic::div_mod::lemma_fundamental_div_mod;
use vstd::arithmetic::div_mod::lemma_fundamental_div_mod_converse;

verus! {

/// `r` is the floor of the square root of `n`.
pub open spec fn is_sqrt_floor(n: int, r: int) -> bool {
    &&& 0 <= r
    &&& r * r <= n
    &&& n < (r + 1) * (r + 1)
}

/// Floor of the square root, by binary search on the root.
pub fn isqrt_u128(n: u128) -> (r: u128)
    ensures
        is_sqrt_floor(n as int, r as int),
        r < 0x1_0000_0000_0000_0000,
{
    if n == 0 {
        return 0;
    }
    let mut lo: u128 = 0;
    let mut hi: u128 = 0x1_0000_0000_0000_0000;
    proof {
        assert((hi as int) * (hi as int) > n as int) by (nonlinear_arith)
            requires
                hi == 0x1_0000_0000_0000_0000,
                n <= u128::MAX,
        ;
    }
    while lo + 1 < hi
        invariant
            0 <= lo < hi <= 0x1_0000_0000_0000_0000,
            (lo as int) * (lo as int) <= n as int,
            (n as int) < (hi as int) * (hi as int),
        decreases hi - lo,
    {
        let mid: u128 = lo + (hi - lo) / 2;
        proof {
            assert((mid as int) * (mid as int) <= (0xffff_ffff_ffff_ffff as int) * (0xffff_ffff_ffff_ffff as int)) by (nonlinear_arith)
                requires
                    0 <= mid as int <= 0xffff_ffff_ffff_ffff as int,
            ;
        }
        if mid * mid <= n {
            lo = mid;
        } else {
            hi = mid;
        }
    }
    lo
}

/// Floor division of a (possibly negative) sum by a positive count. Rust's
/// signed division truncates toward zero, so the negative side goes through
/// an explicit ceiling on magnitudes instead.
pub fn floor_div_i128(a: i128, b: usize) -> (q: i128)
    requires
        b > 0,
    ensures
        q as int == a as int / b as int,
{
    let bb: u128 = b as u128;
    if a >= 0 {
        let qu: u128 = (a as u128) / bb;
        proof {
            lemma_div_nonneg_fits(a as int, b as int);
        }
        qu as i128
    } else {
        // magnitude of `a`, avoiding overflow at i128::MIN
        let n: u128 = ((-1 - a) as u128) + 1;
        let c: u128 = (n - 1) / bb + 1;
        proof {
            lemma_ceil_div(n as int, b as int, c as int);
            lemma_neg_div(n as int, b as int, c as int);
        }
        -1 - ((c - 1) as i128)
    }
}

/// For a nonnegative dividend the quotient is nonnegative and no larger
/// than the dividend.
proof fn lemma_div_nonneg_fits(a: int, b: int)
    requires
        0 <= a,
        1 <= b,
    ensures
        0 <= a / b <= a,
{
    lemma_fundamental_div_mod(a, b);
    let q = a / b;
    let r = a % b;
    assert(0 <= q && b * q <= a) by (nonlinear_arith)
        requires
            a == b * q + r,
            0 <= r < b,
            1 <= b,
            0 <= a,
    ;
    assert(q <= b * q) by (nonlinear_arith)
        requires
            0 <= q,
            1 <= b,
    ;
}

/// `(n - 1) / b + 1` is the ceiling of `n / b` for positive `n`.
proof fn lemma_ceil_div(n: int, b: int, c: int)
    requires
        1 <= n,
        1 <= b,
        c == (n - 1) / b + 1,
    ensures
        (c - 1) * b < n <= c * b,
        1 <= c <= n,
{
    lemma_fundamental_div_mod(n - 1, b);
    let q = (n - 1) / b;
    let r = (n - 1) % b;
    assert(0 <= q) by (nonlinear_arith)
        requires
            n - 1 == b * q + r,
            0 <= r < b,
            1 <= b,
            0 <= n - 1,
    ;
    assert(q * b < n <= (q + 1) * b) by (nonlinear_arith)
        requires
            n - 1 == b * q + r,
            0 <= r < b,
    ;
    assert(q + 1 <= n) by (nonlinear_arith)
        requires
            q * b < n,
            1 <= b,
            0 <= q,
    ;
}

/// Euclidean division of `-n` by `b` yields `-c`, the negated ceiling.
proof fn lemma_neg_div(n: int, b: int, c: int)
    requires
        1 <= n,
        1 <= b,
        (c - 1) * b < n <= c * b,
    ensures
        (-n) / b == -c,
{
    let r = c * b - n;
    assert(0 <= r < b) by (nonlinear_arith)
        requires
            r == c * b - n,
            (c - 1) * b < n <= c * b,
    ;
    assert(-n == (-c) * b + r) by (nonlinear_arith)
        requires
            r == c * b - n,
    ;
    lemma_fundamental_div_mod_converse(-n, b, -c, r);
}

} // verus!
