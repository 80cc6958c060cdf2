//! Fixed-point scalars: an `i64` holding a real number scaled by `ONE`.
//! Every operation saturates into `[-LIMIT, LIMIT]`, so all of them are total.
//! Scalars are meant to lie in that range: `i64::MIN`, one step below it, is
//! read as `-LIMIT` by any operation that saturates its result.
use vstd::prelude::*;

verus! {

/// The raw value of the real number 1.
pub const ONE: i64 = 65536;

/// The largest magnitude a scalar takes; results beyond it saturate.
pub const LIMIT: i64 = 0x7fff_ffff_ffff_ffff;

/// Saturation into the range of scalars.
pub open spec fn clamp(v: int) -> int {
    if v > LIMIT {
        LIMIT as int
    } else if v < -LIMIT {
        -LIMIT
    } else {
        v
    }
}

pub open spec fn add_spec(a: int, b: int) -> int {
    clamp(a + b)
}

pub open spec fn sub_spec(a: int, b: int) -> int {
    clamp(a - b)
}

pub open spec fn neg_spec(a: int) -> int {
    clamp(-a)
}

/// Product, rounded down to the scalar grid.
pub open spec fn mul_spec(a: int, b: int) -> int {
    clamp((a * b) / (ONE as int))
}

/// Quotient, rounded down to the scalar grid (a zero divisor leaves `a`).
pub open spec fn div_spec(a: int, b: int) -> int {
    if b > 0 {
        clamp((a * ONE) / b)
    } else if b < 0 {
        clamp((-a * ONE) / (-b))
    } else {
        a
    }
}

pub open spec fn is_isqrt(n: int, r: int) -> bool {
    0 <= r && r * r <= n && n < (r + 1) * (r + 1)
}

/// The integer square root of a non-negative integer.
pub open spec fn isqrt(n: int) -> int {
    choose|r: int| is_isqrt(n, r)
}

/// Square root of a scalar; a negative input gives 0.
pub open spec fn sqrt_spec(a: int) -> int {
    if a <= 0 {
        0
    } else {
        isqrt(a * ONE)
    }
}

pub proof fn lemma_isqrt_unique(n: int, r1: int, r2: int)
    requires
        is_isqrt(n, r1),
        is_isqrt(n, r2),
    ensures
        r1 == r2,
{
    if r1 < r2 {
        assert((r1 + 1) * (r1 + 1) <= r2 * r2) by (nonlinear_arith)
            requires 0 <= r1, r1 + 1 <= r2;
    } else if r2 < r1 {
        assert((r2 + 1) * (r2 + 1) <= r1 * r1) by (nonlinear_arith)
            requires 0 <= r2, r2 + 1 <= r1;
    }
}

/// Every non-negative integer has an integer square root.
pub proof fn lemma_isqrt_exists(n: int)
    requires
        n >= 0,
    ensures
        is_isqrt(n, isqrt(n)),
    decreases n,
{
    if n == 0 {
        assert(is_isqrt(0, 0));
    } else {
        lemma_isqrt_exists(n - 1);
        let r = isqrt(n - 1);
        if (r + 1) * (r + 1) <= n {
            assert((r + 1) * (r + 1) == n);
            assert(n < (r + 2) * (r + 2)) by (nonlinear_arith)
                requires (r + 1) * (r + 1) == n, r >= 0;
            assert(is_isqrt(n, r + 1));
        } else {
            assert(is_isqrt(n, r));
        }
    }
}

pub proof fn lemma_isqrt_of(n: int, r: int)
    requires
        is_isqrt(n, r),
    ensures
        isqrt(n) == r,
{
    assert(is_isqrt(n, isqrt(n)));
    lemma_isqrt_unique(n, r, isqrt(n));
}

pub(crate) fn clamp_exec(v: i128) -> (r: i64)
    ensures
        r as int == clamp(v as int),
{
    if v > LIMIT as i128 {
        LIMIT
    } else if v < -(LIMIT as i128) {
        -LIMIT
    } else {
        v as i64
    }
}

/// Floor division of `a` by a positive `d`.
pub(crate) fn floor_div(a: i128, d: i128) -> (q: i128)
    requires
        d > 0,
    ensures
        q as int == (a as int) / (d as int),
{
    if a >= 0 {
        let q = a / d;
        q
    } else {
        let m = -(a + 1);
        let q0 = m / d;
        proof {
            let ai = a as int;
            let di = d as int;
            let mi = m as int;
            let qi = q0 as int;
            assert(mi == -ai - 1);
            assert(mi == qi * di + mi % di) by {
                vstd::arithmetic::div_mod::lemma_fundamental_div_mod(mi, di);
            }
            assert(0 <= mi % di < di) by {
                vstd::arithmetic::div_mod::lemma_mod_bound(mi, di);
            }
            assert(ai == (-qi - 1) * di + (di - 1 - mi % di)) by (nonlinear_arith)
                requires mi == -ai - 1, mi == qi * di + mi % di;
            vstd::arithmetic::div_mod::lemma_fundamental_div_mod_converse(
                ai, di, -qi - 1, di - 1 - mi % di);
        }
        -q0 - 1
    }
}

pub fn fx_add(a: i64, b: i64) -> (r: i64)
    ensures
        r as int == add_spec(a as int, b as int),
{
    clamp_exec(a as i128 + b as i128)
}

pub fn fx_sub(a: i64, b: i64) -> (r: i64)
    ensures
        r as int == sub_spec(a as int, b as int),
{
    clamp_exec(a as i128 - b as i128)
}

pub fn fx_neg(a: i64) -> (r: i64)
    ensures
        r as int == neg_spec(a as int),
{
    clamp_exec(-(a as i128))
}

pub fn fx_mul(a: i64, b: i64) -> (r: i64)
    ensures
        r as int == mul_spec(a as int, b as int),
{
    let ai = a as i128;
    let bi = b as i128;
    assert(ai * bi <= 0x4000_0000_0000_0000_0000_0000_0000_0000) by (nonlinear_arith)
        requires -0x8000_0000_0000_0000 <= ai <= 0x7fff_ffff_ffff_ffff,
            -0x8000_0000_0000_0000 <= bi <= 0x7fff_ffff_ffff_ffff;
    assert(ai * bi >= -0x4000_0000_0000_0000_0000_0000_0000_0000) by (nonlinear_arith)
        requires -0x8000_0000_0000_0000 <= ai <= 0x7fff_ffff_ffff_ffff,
            -0x8000_0000_0000_0000 <= bi <= 0x7fff_ffff_ffff_ffff;
    clamp_exec(floor_div(ai * bi, ONE as i128))
}

/// Quotient of two scalars; a zero divisor leaves `a` unchanged.
pub fn fx_div(a: i64, b: i64) -> (r: i64)
    ensures
        r as int == div_spec(a as int, b as int),
{
    let ai = a as i128;
    assert(-0x8000_0000_0000_0000_0000 <= ai * 65536 <= 0x8000_0000_0000_0000_0000) by (nonlinear_arith)
        requires -0x8000_0000_0000_0000 <= ai <= 0x7fff_ffff_ffff_ffff;
    let num = ai * ONE as i128;
    if b > 0 {
        clamp_exec(floor_div(num, b as i128))
    } else if b < 0 {
        clamp_exec(floor_div(-num, -(b as i128)))
    } else {
        a
    }
}

/// Integer square root by bisection.
pub fn isqrt_exec(n: u128) -> (r: u128)
    ensures
        is_isqrt(n as int, r as int),
        r as int == isqrt(n as int),
        r <= 0x1_0000_0000_0000_0000,
{
    let mut lo: u128 = 0;
    let mut hi: u128 = 0x1_0000_0000_0000_0000;
    assert(n < (hi as int) * (hi as int)) by (nonlinear_arith)
        requires n <= 0xffff_ffff_ffff_ffff_ffff_ffff_ffff_ffffu128, hi == 0x1_0000_0000_0000_0000u128;
    while hi - lo > 1
        invariant
            lo < hi <= 0x1_0000_0000_0000_0000,
            lo * lo <= n,
            n < (hi as int) * (hi as int),
        decreases hi - lo,
    {
        let mid = lo + (hi - lo) / 2;
        assert(mid * mid <= 0xffff_ffff_ffff_fffe_0000_0000_0000_0001) by (nonlinear_arith)
            requires mid <= 0xffff_ffff_ffff_ffffu128;
        if mid * mid <= n {
            lo = mid;
        } else {
            hi = mid;
        }
    }
    assert(hi == lo + 1);
    proof {
        lemma_isqrt_of(n as int, lo as int);
    }
    lo
}

/// Square root of a scalar; a negative input gives 0.
pub fn fx_sqrt(a: i64) -> (r: i64)
    ensures
        r as int == sqrt_spec(a as int),
        r >= 0,
{
    if a <= 0 {
        0
    } else {
        let au = a as u128;
        assert(au * 65536 <= 0x8000_0000_0000_0000_0000u128) by (nonlinear_arith)
            requires au <= 0x7fff_ffff_ffff_ffffu128;
        let n = au * ONE as u128;
        let s = isqrt_exec(n);
        assert(s <= 0x1_0000_0000_0000) by (nonlinear_arith)
            requires s * s <= n, n <= 0x8000_0000_0000_0000_0000u128;
        s as i64
    }
}

} // verus!
