//! Fixed-point scalar arithmetic.
//!
//! World coordinates are stored as `i64` values counting units of
//! `1 / SCALE`.  Division rounds toward zero, as the hardware division of the
//! corresponding magnitudes does, and the spec functions here state that
//! rounding exactly.

use vstd::prelude::*;
use vstd::arithmetic::div_mod::lemma_fundamental_div_mod;

verus! {

/// Number of fixed-point units in one world unit.
pub const SCALE: i64 = 65536;

/// Largest accepted time step (about a thirtieth of a second).
pub const DT_MAX: i64 = 2184;

/// Bound on the magnitude of any stored position coordinate.
pub const POS_LIMIT: i64 = 16777216;

/// Bound on a body radius.
pub const RADIUS_LIMIT: i64 = 1048576;

/// Bound on a gravity component.
pub const GRAVITY_LIMIT: i64 = 1048576;

/// Bound on the boundary radius and on a boundary centre coordinate.
pub const BOUNDARY_LIMIT: i64 = 4194304;

/// Magnitude of an integer.
pub open spec fn iabs(n: int) -> int {
    if n >= 0 { n } else { -n }
}

/// Division rounding toward zero, for a positive divisor.
pub open spec fn tdiv(n: int, d: int) -> int {
    if n >= 0 { n / d } else { -((-n) / d) }
}

/// Product of two fixed-point values.
pub open spec fn fmul_s(a: int, b: int) -> int {
    tdiv(a * b, SCALE as int)
}

/// Basic facts about Euclidean division by a positive divisor,
/// for a non-negative dividend.
pub proof fn lemma_div_nonneg(n: int, d: int)
    requires
        n >= 0,
        d > 0,
    ensures
        0 <= n / d,
        (n / d) * d <= n,
        n / d <= n,
{
    lemma_fundamental_div_mod(n, d);
    assert(n == d * (n / d) + n % d);
    assert(0 <= n % d < d);
    assert(d * (n / d) <= n);
    if n / d < 0 {
        assert(d * (n / d) <= -d) by (nonlinear_arith)
            requires d > 0, n / d <= -1,
        {}
        assert(false);
    }
    assert((n / d) * d <= n) by (nonlinear_arith)
        requires d * (n / d) <= n,
    {}
    assert(n / d <= n) by (nonlinear_arith)
        requires (n / d) * d <= n, d > 0, n / d >= 0, n >= 0,
    {}
}

/// The truncating quotient keeps the magnitude of the dividend in check:
/// `|tdiv(n, d)| * d <= |n|` and `|tdiv(n, d)| <= |n|`.
pub proof fn lemma_tdiv_abs(n: int, d: int)
    requires
        d > 0,
    ensures
        iabs(tdiv(n, d)) * d <= iabs(n),
        iabs(tdiv(n, d)) <= iabs(n),
        iabs(tdiv(n, d)) <= iabs(n) / d,
        n >= 0 ==> tdiv(n, d) >= 0,
        n <= 0 ==> tdiv(n, d) <= 0,
        tdiv(0, d) == 0,
{
    if n >= 0 {
        lemma_div_nonneg(n, d);
    } else {
        lemma_div_nonneg(-n, d);
    }
}

/// The truncating quotient also loses less than one divisor's worth of the
/// dividend.
pub proof fn lemma_tdiv_lower(n: int, d: int)
    requires
        d >= 1,
    ensures
        iabs(tdiv(n, d)) * d >= iabs(n) - d + 1,
{
    let m = iabs(n);
    lemma_fundamental_div_mod(m, d);
    vstd::arithmetic::div_mod::lemma_mod_bound(m, d);
    lemma_div_nonneg(m, d);
    assert((m / d) * d == d * (m / d)) by (nonlinear_arith) {}
    if n >= 0 {
        assert(iabs(tdiv(n, d)) == m / d);
    } else {
        assert(iabs(tdiv(n, d)) == m / d);
    }
}

/// Truncating division of a signed value by a positive divisor.
pub fn div_trunc(n: i64, d: i64) -> (q: i64)
    requires
        d > 0,
        n > i64::MIN,
    ensures
        q as int == tdiv(n as int, d as int),
{
    proof {
        lemma_tdiv_abs(n as int, d as int);
    }
    if n >= 0 {
        let un: u64 = n as u64;
        let ud: u64 = d as u64;
        let uq: u64 = un / ud;
        proof {
            lemma_div_nonneg(un as int, ud as int);
        }
        uq as i64
    } else {
        let un: u64 = (-n) as u64;
        let ud: u64 = d as u64;
        let uq: u64 = un / ud;
        proof {
            lemma_div_nonneg(un as int, ud as int);
        }
        -(uq as i64)
    }
}

/// Fixed-point product with truncation toward zero.
pub fn fmul(a: i64, b: i64) -> (r: i64)
    requires
        iabs(a as int) <= 0x7fff_ffff,
        iabs(b as int) <= 0x7fff_ffff,
    ensures
        r as int == fmul_s(a as int, b as int),
        iabs(r as int) * (SCALE as int) <= iabs((a as int) * (b as int)),
{
    proof {
        assert(iabs((a as int) * (b as int)) <= 0x7fff_ffff * 0x7fff_ffff) by (nonlinear_arith)
            requires
                iabs(a as int) <= 0x7fff_ffff,
                iabs(b as int) <= 0x7fff_ffff,
        {}
        lemma_tdiv_abs((a as int) * (b as int), SCALE as int);
    }
    let p: i64 = a * b;
    div_trunc(p, SCALE)
}

/// Flooring division of a signed value by a positive divisor, as the
/// mathematical `/` of the specification language computes it.
pub fn div_floor(n: i64, d: i64) -> (q: i64)
    requires
        d > 0,
        iabs(n as int) <= 0x4000_0000_0000_0000,
    ensures
        q as int == (n as int) / (d as int),
{
    if n >= 0 {
        let uq: u64 = (n as u64) / (d as u64);
        proof {
            lemma_div_nonneg(n as int, d as int);
        }
        uq as i64
    } else {
        let m: u64 = (-n) as u64;
        let q0: u64 = m / d as u64;
        let r0: u64 = m % d as u64;
        proof {
            lemma_div_nonneg(m as int, d as int);
            lemma_fundamental_div_mod(m as int, d as int);
            vstd::arithmetic::div_mod::lemma_mod_pos_bound(m as int, d as int);
            if r0 == 0 {
                assert((-(q0 as int)) * (d as int) + 0 == n as int) by (nonlinear_arith)
                    requires
                        m as int == (d as int) * (q0 as int) + r0 as int,
                        r0 as int == 0,
                        n as int == -(m as int),
                {}
                vstd::arithmetic::div_mod::lemma_fundamental_div_mod_converse(
                    n as int, d as int, -(q0 as int), 0);
            } else {
                assert((-(q0 as int) - 1) * (d as int) + ((d as int) - (r0 as int))
                    == n as int) by (nonlinear_arith)
                    requires
                        m as int == (d as int) * (q0 as int) + r0 as int,
                        n as int == -(m as int),
                {}
                vstd::arithmetic::div_mod::lemma_fundamental_div_mod_converse(
                    n as int, d as int, -(q0 as int) - 1, (d as int) - (r0 as int));
            }
        }
        if r0 == 0 {
            -(q0 as i64)
        } else {
            -(q0 as i64) - 1
        }
    }
}

/// The flooring quotient of a bounded value by a positive divisor stays
/// within the magnitude of the dividend, plus one.
pub proof fn lemma_floor_div_bound(n: int, d: int)
    requires
        d >= 1,
    ensures
        -(iabs(n)) - 1 <= n / d <= iabs(n),
{
    if n >= 0 {
        lemma_div_nonneg(n, d);
    } else {
        lemma_fundamental_div_mod(n, d);
        assert(0 <= n % d < d);
        let q = n / d;
        assert(n == d * q + n % d);
        assert(q <= 0) by (nonlinear_arith)
            requires d * q <= n, n < 0, d >= 1,
        {}
        assert(q >= n - d + 1) by (nonlinear_arith)
            requires n == d * q + n % d, 0 <= n % d < d, d >= 1, q <= 0,
        {}
        assert(q >= n) by (nonlinear_arith)
            requires n == d * q + n % d, 0 <= n % d < d, d >= 1, q <= 0, n < 0,
        {}
    }
}

/// `r` is the integer square root of `n` when `r^2 <= n < (r+1)^2`.
pub open spec fn is_sqrt(n: int, r: int) -> bool {
    0 <= r && r * r <= n && n < (r + 1) * (r + 1)
}

/// The integer square root of a non-negative integer.
pub open spec fn sqrt_s(n: int) -> int {
    choose|r: int| is_sqrt(n, r)
}

/// Every non-negative integer has an integer square root.
pub proof fn lemma_sqrt_exists(n: int)
    requires
        n >= 0,
    ensures
        is_sqrt(n, sqrt_s(n)),
    decreases n,
{
    if n == 0 {
        assert(is_sqrt(0, 0));
    } else {
        lemma_sqrt_exists(n - 1);
        let r = sqrt_s(n - 1);
        assert(is_sqrt(n - 1, r));
        if n < (r + 1) * (r + 1) {
            assert(is_sqrt(n, r));
        } else {
            assert(n == (r + 1) * (r + 1));
            assert((r + 1) * (r + 1) < (r + 2) * (r + 2)) by (nonlinear_arith)
                requires r >= 0,
            {}
            assert(is_sqrt(n, r + 1));
        }
        assert(exists|s: int| is_sqrt(n, s));
    }
}

/// The integer square root is unique.
pub proof fn lemma_sqrt_unique(n: int, r: int)
    requires
        n >= 0,
        is_sqrt(n, r),
    ensures
        r == sqrt_s(n),
{
    lemma_sqrt_exists(n);
    let s = sqrt_s(n);
    if r < s {
        assert((r + 1) * (r + 1) <= s * s) by (nonlinear_arith)
            requires 0 <= r, r < s,
        {}
        assert(false);
    }
    if s < r {
        assert((s + 1) * (s + 1) <= r * r) by (nonlinear_arith)
            requires 0 <= s, s < r,
        {}
        assert(false);
    }
}

/// Integer square root by bisection.
pub fn isqrt(n: u64) -> (r: u64)
    ensures
        r as int == sqrt_s(n as int),
        is_sqrt(n as int, r as int),
{
    let mut lo: u64 = 0;
    let mut hi: u64 = if n < 0xffff_ffff { n + 1 } else { 0x1_0000_0000 };
    proof {
        assert((n as int) < (hi as int) * (hi as int)) by (nonlinear_arith)
            requires
                hi as int == if (n as int) < 0xffff_ffff { n as int + 1 } else { 0x1_0000_0000int },
                0 <= n as int <= 0xffff_ffff_ffff_ffff,
        {}
    }
    while lo + 1 < hi
        invariant
            0 <= lo < hi,
            hi <= 0x1_0000_0000,
            (lo as int) * (lo as int) <= n as int,
            (n as int) < (hi as int) * (hi as int),
        decreases hi - lo,
    {
        let mid: u64 = lo + (hi - lo) / 2;
        proof {
            assert((mid as int) * (mid as int) <= 0xffff_ffff * 0xffff_ffff) by (nonlinear_arith)
                requires 0 <= mid as int <= 0xffff_ffff,
            {}
        }
        if mid * mid <= n {
            lo = mid;
        } else {
            hi = mid;
        }
    }
    proof {
        assert(is_sqrt(n as int, lo as int));
        lemma_sqrt_unique(n as int, lo as int);
    }
    lo
}

} // verus!
