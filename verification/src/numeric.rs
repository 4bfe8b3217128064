//! Exact integer helpers: square roots, perfect squares, divisors and the
//! reduction of a random word to a bounded offset.

use vstd::prelude::*;

verus! {

/// `r` is the integer square root of `n` rounded down; non-positive `n` have
/// root 0.
pub open spec fn is_floor_sqrt(n: int, r: int) -> bool {
    if n <= 0 {
        r == 0
    } else {
        r >= 1 && r * r <= n && n < (r + 1) * (r + 1)
    }
}

/// `r` is the integer square root of `n` rounded up; non-positive `n` have
/// root 0.
pub open spec fn is_ceil_sqrt(n: int, r: int) -> bool {
    if n <= 0 {
        r == 0
    } else {
        r >= 1 && (r - 1) * (r - 1) < n && n <= r * r
    }
}

/// `n` is the square of a non-negative integer.
pub open spec fn perfect_square(n: int) -> bool {
    exists|r: int| 0 <= r && #[trigger] (r * r) == n
}

/// The square of a small non-negative number, computed without overflow.
fn square(x: i32) -> (s: i64)
    requires
        0 <= x <= 46341,
    ensures
        s == x * x,
{
    assert(0 <= x * x <= 46341 * 46341) by (nonlinear_arith)
        requires
            0 <= x <= 46341,
    ;
    (x as i64) * (x as i64)
}

/// The square root of `n`, rounded down.
pub fn floor_sqrt(n: i32) -> (r: i32)
    ensures
        is_floor_sqrt(n as int, r as int),
        0 <= r <= 46340,
{
    if n <= 0 {
        return 0;
    }
    let mut r: i32 = 1;
    while square(r + 1) <= n as i64
        invariant
            1 <= r <= 46340,
            r * r <= n,
        decreases 46341 - r,
    {
        assert(r + 1 <= 46340) by (nonlinear_arith)
            requires
                (r + 1) * (r + 1) <= 2147483647,
                r >= 1,
        ;
        r = r + 1;
    }
    r
}

/// The square root of `n`, rounded up.
pub fn ceil_sqrt(n: i32) -> (r: i32)
    ensures
        is_ceil_sqrt(n as int, r as int),
        0 <= r <= 46341,
{
    let low: i32 = floor_sqrt(n);
    if n <= 0 {
        return 0;
    }
    if square(low) == n as i64 {
        assert((low - 1) * (low - 1) < low * low) by (nonlinear_arith)
            requires
                low >= 1,
        ;
        low
    } else {
        low + 1
    }
}

/// Whether `n` is the square of an integer.
pub fn is_perfect_square(n: i32) -> (b: bool)
    ensures
        b == perfect_square(n as int),
{
    let low: i32 = floor_sqrt(n);
    let b = n >= 0 && square(low) == n as i64;
    proof {
        if b {
            assert((low as int) * (low as int) == n as int);
        } else if perfect_square(n as int) {
            let w = choose|w: int| 0 <= w && #[trigger] (w * w) == n as int;
            if n > 0 {
                lemma_square_between(low as int, w);
            } else {
                assert(w == 0) by (nonlinear_arith)
                    requires
                        0 <= w,
                        w * w <= 0,
                ;
                assert(false);
            }
        }
    }
    b
}

/// No square lies strictly between two consecutive squares.
pub proof fn lemma_square_between(r: int, w: int)
    requires
        0 <= r,
        0 <= w,
        r * r <= w * w < (r + 1) * (r + 1),
    ensures
        w == r,
{
    if w < r {
        assert(w * w < r * r) by (nonlinear_arith)
            requires
                0 <= w < r,
        ;
    } else if w > r {
        assert(w * w >= (r + 1) * (r + 1)) by (nonlinear_arith)
            requires
                w >= r + 1,
                r >= 0,
        ;
    }
}

} // verus!
