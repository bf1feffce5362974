//! Integer helpers shared by the simulation.

use vstd::prelude::*;

verus! {

/// The nearest `i64` to `v`.
pub open spec fn clamp_i64(v: int) -> i64 {
    if v > i64::MAX {
        i64::MAX
    } else if v < i64::MIN {
        i64::MIN
    } else {
        v as i64
    }
}

/// The nearest `i32` to `v`.
pub open spec fn clamp_i32(v: int) -> i32 {
    if v > i32::MAX {
        i32::MAX
    } else if v < i32::MIN {
        i32::MIN
    } else {
        v as i32
    }
}

/// Adds `d` to `x`, stopping at the ends of the `i64` range.
pub fn clamped_add(x: i64, d: i64) -> (r: i64)
    ensures
        r == clamp_i64(x + d),
{
    let wide: i128 = x as i128 + d as i128;
    if wide > i64::MAX as i128 {
        i64::MAX
    } else if wide < i64::MIN as i128 {
        i64::MIN
    } else {
        wide as i64
    }
}

/// The quotient of `a` by `b`, rounded towards negative infinity.
pub open spec fn floor_div(a: int, b: int) -> int
    recommends
        b > 0,
{
    a / b
}

/// Divides `a` by `b`, rounding towards negative infinity.
pub fn div_floor(a: i64, b: u32) -> (q: i64)
    requires
        b > 0,
    ensures
        q == floor_div(a as int, b as int),
        q * b <= a < (q + 1) * b,
{
    let d: i128 = b as i128;
    if a >= 0 {
        let n: i128 = a as i128;
        let q: i128 = n / d;
        proof {
            lemma_quotient_bounds(n as int, d as int);
        }
        assert(q * b <= a < (q + 1) * b);
        q as i64
    } else {
        // -a - 1 >= 0; floor(a / b) == -((-a - 1) / b) - 1
        let n: i128 = -(a as i128) - 1;
        let q: i128 = n / d;
        proof {
            lemma_quotient_bounds(n as int, d as int);
            lemma_floor_of_negative(a as int, d as int);
        }
        (-q - 1) as i64
    }
}

/// For a non-negative `n` the quotient by a positive `d` lies between 0 and `n`
/// and brackets `n`.
pub proof fn lemma_quotient_bounds(n: int, d: int)
    requires
        n >= 0,
        d > 0,
    ensures
        0 <= n / d <= n,
        (n / d) * d <= n < (n / d + 1) * d,
{
    vstd::arithmetic::div_mod::lemma_fundamental_div_mod(n, d);
    vstd::arithmetic::div_mod::lemma_mod_bound(n, d);
    vstd::arithmetic::div_mod::lemma_div_pos_is_pos(n, d);
    vstd::arithmetic::div_mod::lemma_div_is_ordered_by_denominator(n, 1, d);
    assert(n / 1 == n);
    assert((n / d) * d == d * (n / d)) by (nonlinear_arith);
    assert((n / d + 1) * d == d * (n / d) + d) by (nonlinear_arith);
}

/// A quotient is fixed by the multiple of the divisor just below the dividend.
pub proof fn lemma_quotient_unique(a: int, d: int, q: int)
    requires
        d > 0,
        q * d <= a < (q + 1) * d,
    ensures
        a / d == q,
{
    let r = a - q * d;
    assert(0 <= r < d) by (nonlinear_arith)
        requires
            q * d <= a < (q + 1) * d,
            r == a - q * d,
    ;
    vstd::arithmetic::div_mod::lemma_fundamental_div_mod_converse(a, d, q, r);
}

/// Rounding a negative dividend down is rounding its mirror image up.
pub proof fn lemma_floor_of_negative(a: int, d: int)
    requires
        a < 0,
        d > 0,
    ensures
        a / d == -((-a - 1) / d) - 1,
        (a / d) * d <= a < (a / d + 1) * d,
{
    let n = -a - 1;
    let q = n / d;
    lemma_quotient_bounds(n, d);
    assert((-q - 1) * d <= a < (-q - 1 + 1) * d) by (nonlinear_arith)
        requires
            q * d <= n < (q + 1) * d,
            n == -a - 1,
    ;
    lemma_quotient_unique(a, d, -q - 1);
}

/// Whether `r` is the integer square root of `n`.
pub open spec fn is_isqrt(n: int, r: int) -> bool {
    r >= 0 && r * r <= n < (r + 1) * (r + 1)
}

/// The integer square root: the largest `r` with `r * r <= n`.
pub fn isqrt(n: u64) -> (r: u64)
    ensures
        is_isqrt(n as int, r as int),
        r <= 0xffff_ffff,
{
    let mut lo: u64 = 0;
    let mut hi: u64 = 0x1_0000_0000;
    assert(n < 0x1_0000_0000 * 0x1_0000_0000);
    while hi - lo > 1
        invariant
            lo < hi <= 0x1_0000_0000,
            lo * lo <= n < hi * hi,
        decreases hi - lo,
    {
        let mid: u64 = lo + (hi - lo) / 2;
        assert(mid * mid <= 0xffff_ffff * 0xffff_ffff) by (nonlinear_arith)
            requires
                0 <= mid <= 0xffff_ffff,
        ;
        if mid * mid <= n {
            lo = mid;
        } else {
            hi = mid;
        }
    }
    lo
}

} // verus!
