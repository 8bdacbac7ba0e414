//! Integer helpers shared by the geometry code: saturation and square roots.

use vstd::prelude::*;

verus! {

/// `v` limited to the range of a canvas coordinate.
pub open spec fn clamp_coord(v: int) -> int {
    if v < i32::MIN as int {
        i32::MIN as int
    } else if v > i32::MAX as int {
        i32::MAX as int
    } else {
        v
    }
}

/// `v` limited to the range of a score.
pub open spec fn saturate_score(v: int) -> int {
    if v > u64::MAX as int {
        u64::MAX as int
    } else if v < 0 {
        0
    } else {
        v
    }
}

/// `r` is the integer square root of `v`, rounded down.
pub open spec fn is_floor_sqrt(v: int, r: int) -> bool {
    0 <= r && r * r <= v && v < (r + 1) * (r + 1)
}

/// The integer square root of `v`, rounded down (0 for negative `v`).
pub open spec fn floor_sqrt(v: int) -> int {
    if v < 0 {
        0
    } else {
        choose|r: int| is_floor_sqrt(v, r)
    }
}

/// Squaring is strictly monotone on the natural numbers.
pub proof fn lemma_square_monotone(a: int, b: int)
    requires
        0 <= a < b,
    ensures
        a * a < b * b,
        (a + 1) * (a + 1) <= b * b,
{
    assert(a * a < b * b) by (nonlinear_arith)
        requires
            0 <= a < b,
    ;
    assert((a + 1) * (a + 1) <= b * b) by (nonlinear_arith)
        requires
            0 <= a,
            a + 1 <= b,
    ;
}

/// A number has at most one floor square root.
pub proof fn lemma_floor_sqrt_unique(v: int, r1: int, r2: int)
    requires
        is_floor_sqrt(v, r1),
        is_floor_sqrt(v, r2),
    ensures
        r1 == r2,
{
    if r1 < r2 {
        lemma_square_monotone(r1, r2);
    } else if r2 < r1 {
        lemma_square_monotone(r2, r1);
    }
}

/// Whatever satisfies `is_floor_sqrt` is the value of `floor_sqrt`.
pub proof fn lemma_floor_sqrt_is(v: int, r: int)
    requires
        is_floor_sqrt(v, r),
    ensures
        floor_sqrt(v) == r,
{
    assert(v >= 0) by (nonlinear_arith)
        requires
            r * r <= v,
    ;
    let c = choose|c: int| is_floor_sqrt(v, c);
    lemma_floor_sqrt_unique(v, r, c);
}

/// The floor square root is monotone.
pub proof fn lemma_floor_sqrt_monotone(v: int, w: int, rv: int, rw: int)
    requires
        v <= w,
        is_floor_sqrt(v, rv),
        is_floor_sqrt(w, rw),
    ensures
        rv <= rw,
{
    if rw < rv {
        lemma_square_monotone(rw, rv);
    }
}

/// A quotient by a positive number is at least any bound that the dividend
/// respects after scaling.
pub proof fn lemma_div_lower(a: int, n: int, lo: int)
    requires
        n > 0,
        lo * n <= a,
    ensures
        lo <= a / n,
{
    vstd::arithmetic::div_mod::lemma_fundamental_div_mod(a, n);
    vstd::arithmetic::div_mod::lemma_mod_bound(a, n);
    let q = a / n;
    let r = a % n;
    assert(lo <= q) by (nonlinear_arith)
        requires
            n > 0,
            a == n * q + r,
            0 <= r < n,
            lo * n <= a,
    ;
}

/// A quotient by a positive number is at most any bound that the dividend
/// respects after scaling.
pub proof fn lemma_div_upper(a: int, n: int, hi: int)
    requires
        n > 0,
        a <= hi * n,
    ensures
        a / n <= hi,
{
    vstd::arithmetic::div_mod::lemma_fundamental_div_mod(a, n);
    vstd::arithmetic::div_mod::lemma_mod_bound(a, n);
    let q = a / n;
    let r = a % n;
    assert(q <= hi) by (nonlinear_arith)
        requires
            n > 0,
            a == n * q + r,
            0 <= r < n,
            a <= hi * n,
    ;
}

/// A quotient by a positive number lies between any bounds that the
/// dividend respects after scaling.
pub proof fn lemma_div_bounds(a: int, n: int, lo: int, hi: int)
    requires
        n > 0,
        lo * n <= a <= hi * n,
    ensures
        lo <= a / n <= hi,
{
    lemma_div_lower(a, n, lo);
    lemma_div_upper(a, n, hi);
}

/// The quotient of a natural number by a positive one is a natural number.
pub proof fn lemma_div_nonneg(a: int, n: int)
    requires
        n > 0,
        a >= 0,
    ensures
        0 <= a / n,
{
    lemma_div_lower(a, n, 0);
}

/// Limits a wide intermediate result to the coordinate range.
pub fn clamp_to_coord(v: i128) -> (r: i32)
    ensures
        r as int == clamp_coord(v as int),
{
    if v < -2147483648 {
        -2147483648
    } else if v > 2147483647 {
        2147483647
    } else {
        v as i32
    }
}

/// Limits a wide intermediate result to the score range.
pub fn saturate_to_score(v: u128) -> (r: u64)
    ensures
        r as int == saturate_score(v as int),
{
    if v > 0xffff_ffff_ffff_ffff {
        0xffff_ffff_ffff_ffff
    } else {
        v as u64
    }
}

/// Integer square root, rounded down, by bisection.
pub fn isqrt(v: u128) -> (r: u128)
    ensures
        r as int == floor_sqrt(v as int),
        is_floor_sqrt(v as int, r as int),
        r <= 0xffff_ffff_ffff_ffff,
{
    let mut lo: u128 = 0;
    let mut hi: u128 = 0x1_0000_0000_0000_0000;
    assert(0x1_0000_0000_0000_0000int * 0x1_0000_0000_0000_0000int > u128::MAX as int)
        by (nonlinear_arith);
    while hi - lo > 1
        invariant
            lo < hi <= 0x1_0000_0000_0000_0000,
            lo * lo <= v,
            (v as int) < hi * hi,
        decreases hi - lo,
    {
        let mid: u128 = lo + (hi - lo) / 2;
        assert(mid * mid <= 0xffff_ffff_ffff_ffffint * 0xffff_ffff_ffff_ffffint)
            by (nonlinear_arith)
            requires
                0 <= mid <= 0xffff_ffff_ffff_ffff,
        ;
        assert(0xffff_ffff_ffff_ffffint * 0xffff_ffff_ffff_ffffint <= u128::MAX as int)
            by (nonlinear_arith);
        if mid * mid <= v {
            lo = mid;
        } else {
            hi = mid;
        }
    }
    proof {
        assert(hi == lo + 1);
        lemma_floor_sqrt_is(v as int, lo as int);
    }
    lo
}

} // verus!
