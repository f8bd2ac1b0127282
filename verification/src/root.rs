//! Square roots of whole numbers, rounded to whole numbers.

use vstd::prelude::*;

verus! {

/// The largest root that is computed, and one more.
pub const ROOT_LIMIT: i128 = 3_000_000_000_000_000;

/// The square of `ROOT_LIMIT`: a number below it has its root computed.
pub const RADICAND_LIMIT: i128 = 9_000_000_000_000_000_000_000_000_000_000;

/// `r` is the square root of `n`, rounded down.
pub open spec fn is_sqrt_floor(n: int, r: int) -> bool {
    0 <= r && r * r <= n < (r + 1) * (r + 1)
}

/// The square root of `n`, rounded down.
pub open spec fn sqrt_floor(n: int) -> int {
    choose|r: int| is_sqrt_floor(n, r)
}

/// Of two numbers that are not negative, the one with the lesser square is
/// the lesser.
pub proof fn lemma_square_order(x: int, y: int)
    requires
        0 <= x,
        0 <= y,
    ensures
        x * x < y * y ==> x < y,
        x <= y ==> x * x <= y * y,
{
    assert((x * x < y * y ==> x < y) && (x <= y ==> x * x <= y * y)) by (nonlinear_arith)
        requires
            0 <= x,
            0 <= y,
    ;
}

/// No number has two square roots rounded down.
pub proof fn lemma_sqrt_floor_unique(n: int, r: int, s: int)
    requires
        is_sqrt_floor(n, r),
        is_sqrt_floor(n, s),
    ensures
        r == s,
{
    lemma_square_order(r, s + 1);
    lemma_square_order(s, r + 1);
}

/// Every number that is not negative has a square root rounded down.
pub proof fn lemma_sqrt_floor_exists(n: int)
    requires
        n >= 0,
    ensures
        is_sqrt_floor(n, sqrt_floor(n)),
    decreases n,
{
    if n == 0 {
        assert(is_sqrt_floor(0, 0));
    } else {
        lemma_sqrt_floor_exists(n - 1);
        let r = sqrt_floor(n - 1);
        if n < (r + 1) * (r + 1) {
            assert(is_sqrt_floor(n, r));
        } else {
            assert((r + 2) * (r + 2) > (r + 1) * (r + 1)) by (nonlinear_arith)
                requires
                    r >= 0,
            ;
            assert(is_sqrt_floor(n, r + 1));
        }
    }
}

/// The root of a square is the number squared.
pub proof fn lemma_sqrt_of_square(r: int)
    requires
        r >= 0,
    ensures
        sqrt_floor(r * r) == r,
{
    assert(r * r >= 0 && r * r < (r + 1) * (r + 1)) by (nonlinear_arith)
        requires
            r >= 0,
    ;
    lemma_sqrt_floor_unique(r * r, r, sqrt_floor(r * r));
}

/// The root rounded down is the greatest number whose square is at most `n`.
pub proof fn lemma_sqrt_bounds(n: int)
    requires
        n >= 0,
    ensures
        0 <= sqrt_floor(n),
        sqrt_floor(n) * sqrt_floor(n) <= n < (sqrt_floor(n) + 1) * (sqrt_floor(n) + 1),
{
    lemma_sqrt_floor_exists(n);
}

/// A number below the square of `bound` has its root below `bound`.
pub proof fn lemma_root_below(n: int, bound: int)
    requires
        0 <= n < bound * bound,
        0 <= bound,
    ensures
        sqrt_floor(n) < bound,
{
    lemma_sqrt_bounds(n);
    lemma_square_order(sqrt_floor(n), bound);
}

/// The square root of `n`, rounded down.
pub fn isqrt(n: i128) -> (r: i128)
    requires
        0 <= n < RADICAND_LIMIT,
    ensures
        r == sqrt_floor(n as int),
        0 <= r < ROOT_LIMIT,
{
    let mut lo: i128 = 0;
    let mut hi: i128 = ROOT_LIMIT;
    assert(ROOT_LIMIT * ROOT_LIMIT == RADICAND_LIMIT) by (nonlinear_arith);
    while hi - lo > 1
        invariant
            0 <= lo < hi <= ROOT_LIMIT,
            lo * lo <= n < hi * hi,
        decreases hi - lo,
    {
        let mid: i128 = lo + (hi - lo) / 2;
        assert(0 <= mid * mid <= ROOT_LIMIT * ROOT_LIMIT) by (nonlinear_arith)
            requires
                0 <= mid <= ROOT_LIMIT,
        ;
        assert(ROOT_LIMIT * ROOT_LIMIT == RADICAND_LIMIT) by (nonlinear_arith);
        if mid * mid <= n {
            lo = mid;
        } else {
            hi = mid;
        }
    }
    proof {
        lemma_sqrt_floor_unique(n as int, lo as int, sqrt_floor(n as int));
    }
    lo
}

} // verus!
