//! Exact fixed-point arithmetic for search scores.
//!
//! The search orders its frontier by `f = g + h`, where `g` counts whole
//! steps and `h` is a Euclidean distance, so `h` is irrational in general.
//! To keep every score computation exact, scores carry `SCALE` units per
//! grid step: a cell's heuristic is `⌊SCALE · √(dx² + dy²)⌋`, computed with
//! an integer square root, and `f = SCALE · g + h`.

use vstd::prelude::*;

use crate::grid::MAX_DIM;

verus! {

/// Number of fixed-point units per grid step.
pub const SCALE: u64 = 1024;

/// Squared Euclidean distance between the coordinates `(x1, y1)` and
/// `(x2, y2)`.
pub open spec fn dist_sq(x1: int, y1: int, x2: int, y2: int) -> int {
    (x1 - x2) * (x1 - x2) + (y1 - y2) * (y1 - y2)
}

/// `r` is the integer square root of `n`: the largest integer whose square
/// does not exceed `n`.
pub open spec fn is_isqrt(n: int, r: int) -> bool {
    &&& r * r <= n
    &&& n < (r + 1) * (r + 1)
}

/// Integer square root by bisection.
pub fn isqrt(n: u128) -> (r: u128)
    ensures
        is_isqrt(n as int, r as int),
{
    let mut lo: u128 = 0;
    let mut hi: u128 = 0x1_0000_0000_0000_0000;
    proof {
        assert((0x1_0000_0000_0000_0000 as int) * (0x1_0000_0000_0000_0000 as int)
            > u128::MAX as int) by (nonlinear_arith);
    }
    while lo + 1 < hi
        invariant
            lo < hi <= 0x1_0000_0000_0000_0000,
            (lo as int) * (lo as int) <= n as int,
            (n as int) < (hi as int) * (hi as int),
        decreases hi - lo,
    {
        let mid = lo + (hi - lo) / 2;
        assert((mid as int) * (mid as int) < u128::MAX as int) by (nonlinear_arith)
            requires mid < 0x1_0000_0000_0000_0000,
        ;
        if mid * mid <= n {
            lo = mid;
        } else {
            hi = mid;
        }
    }
    lo
}

/// Euclidean distance between `(x1, y1)` and `(x2, y2)` in fixed point:
/// the result is `⌊SCALE · √((x1 − x2)² + (y1 − y2)²)⌋`.
///
/// The distance is zero exactly when the two coordinates coincide.
pub fn euclidean(x1: usize, y1: usize, x2: usize, y2: usize) -> (r: u64)
    requires
        x1 <= MAX_DIM,
        y1 <= MAX_DIM,
        x2 <= MAX_DIM,
        y2 <= MAX_DIM,
    ensures
        is_isqrt(dist_sq(x1 as int, y1 as int, x2 as int, y2 as int) * (SCALE as int) * (
        SCALE as int), r as int),
        r == 0 <==> (x1 == x2 && y1 == y2),
{
    let dx: usize = if x1 >= x2 { x1 - x2 } else { x2 - x1 };
    let dy: usize = if y1 >= y2 { y1 - y2 } else { y2 - y1 };
    assert((dx as int) * (dx as int) + (dy as int) * (dy as int) == dist_sq(
        x1 as int, y1 as int, x2 as int, y2 as int)) by (nonlinear_arith)
        requires
            dx == if x1 >= x2 { x1 - x2 } else { x2 - x1 },
            dy == if y1 >= y2 { y1 - y2 } else { y2 - y1 },
    ;
    assert(MAX_DIM == 0x8000 && SCALE == 1024);
    assert((dx as int) * (dx as int) <= 0x4000_0000 && (dy as int) * (dy as int) <= 0x4000_0000)
        by (nonlinear_arith)
        requires
            dx <= 0x8000,
            dy <= 0x8000,
    ;
    let d: u128 = (dx as u128) * (dx as u128) + (dy as u128) * (dy as u128);
    assert((d as int) * 0x10_0000 <= 0x8000_0000 * 0x10_0000) by (nonlinear_arith)
        requires d <= 0x8000_0000,
    ;
    let n: u128 = d * 0x10_0000;
    let r = isqrt(n);
    proof {
        assert(r <= 0xffff_ffff) by (nonlinear_arith)
            requires
                is_isqrt(n as int, r as int),
                n <= 0x8000_0000 * 0x10_0000,
        ;
        assert(n as int == dist_sq(x1 as int, y1 as int, x2 as int, y2 as int) * (SCALE as int) * (
        SCALE as int)) by (nonlinear_arith)
            requires
                n == (d as int) * 0x10_0000,
                d as int == dist_sq(x1 as int, y1 as int, x2 as int, y2 as int),
                SCALE == 1024,
        ;
        lemma_euclidean_zero(d as int, n as int, r as int);
        assert(d == 0 <==> (dx == 0 && dy == 0)) by (nonlinear_arith)
            requires d as int == (dx as int) * (dx as int) + (dy as int) * (dy as int),
        ;
    }
    r as u64
}

/// The fixed-point distance is zero exactly when the squared distance is.
proof fn lemma_euclidean_zero(d: int, n: int, r: int)
    requires
        0 <= d,
        n == d * ((SCALE as int) * (SCALE as int)),
        is_isqrt(n, r),
    ensures
        r == 0 <==> d == 0,
{
    if d == 0 {
        assert(n == 0) by (nonlinear_arith)
            requires n == d * ((SCALE as int) * (SCALE as int)), d == 0,
        ;
        assert(r == 0) by (nonlinear_arith)
            requires is_isqrt(0, r),
        ;
    } else {
        assert(n >= (SCALE as int) * (SCALE as int)) by (nonlinear_arith)
            requires n == d * ((SCALE as int) * (SCALE as int)), d >= 1,
        ;
        if r == 0 {
            assert(n < (r + 1) * (r + 1));
            assert((r + 1) * (r + 1) == 1) by (nonlinear_arith)
                requires r == 0,
            ;
            assert(false);
        }
    }
}

} // verus!
