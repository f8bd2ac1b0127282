//! The tolerance on the length of an edge: how far its squared length may
//! depart from the original one, in parts per million of the original.

use vstd::prelude::*;
use crate::point::lemma_product_bound;

verus! {

/// Parts per million in a whole.
pub const MILLION: i128 = 1_000_000;

/// Absolute value.
pub open spec fn abs_int(v: int) -> int {
    if v < 0 {
        -v
    } else {
        v
    }
}

/// By how much the change of the squared length, taken a million times,
/// exceeds `epsilon` times the original squared length. It is positive where
/// the tolerance is broken.
pub open spec fn stretch_gap(original: int, new: int, epsilon: int) -> int {
    abs_int(1_000_000 * (new - original)) - epsilon * original
}

/// The squared length `new` is within `epsilon` parts per million of
/// `original`: `|new / original - 1| <= epsilon / 1_000_000`, cross-multiplied
/// so that no division takes place.
pub open spec fn stretch_within(original: int, new: int, epsilon: int) -> bool {
    abs_int(1_000_000 * (new - original)) <= epsilon * original
}

/// The magnitude by which the tolerance is broken; zero where it holds.
pub open spec fn stretch_excess(original: int, new: int, epsilon: int) -> int {
    if stretch_gap(original, new, epsilon) > 0 {
        stretch_gap(original, new, epsilon)
    } else {
        0
    }
}

/// `stretch_gap` in machine arithmetic.
fn gap_of(original_sq_len: i64, new_sq_len: i64, epsilon: i64) -> (r: i128)
    ensures
        r == stretch_gap(original_sq_len as int, new_sq_len as int, epsilon as int),
{
    let change: i128 = MILLION * (new_sq_len as i128 - original_sq_len as i128);
    let size: i128 = if change < 0 {
        -change
    } else {
        change
    };
    proof {
        lemma_product_bound(epsilon as int, original_sq_len as int, 0x8000_0000_0000_0000);
    }
    let allowed: i128 = epsilon as i128 * original_sq_len as i128;
    size - allowed
}

/// Tells whether an edge of squared length `new_sq_len` keeps to the
/// tolerance `epsilon` around its original squared length.
pub fn stretch_ok(original_sq_len: i64, new_sq_len: i64, epsilon: i64) -> (r: bool)
    ensures
        r == stretch_within(original_sq_len as int, new_sq_len as int, epsilon as int),
{
    gap_of(original_sq_len, new_sq_len, epsilon) <= 0
}

/// The magnitude by which an edge breaks the tolerance, zero where it keeps
/// to it.
pub fn stretch_violation(original_sq_len: i64, new_sq_len: i64, epsilon: i64) -> (r: i128)
    ensures
        r == stretch_excess(original_sq_len as int, new_sq_len as int, epsilon as int),
        r >= 0,
        r == 0 <==> stretch_within(original_sq_len as int, new_sq_len as int, epsilon as int),
{
    let gap: i128 = gap_of(original_sq_len, new_sq_len, epsilon);
    if gap > 0 {
        gap
    } else {
        0
    }
}

/// The tolerance holds exactly where nothing exceeds it.
pub proof fn lemma_excess_zero_iff_within(original: int, new: int, epsilon: int)
    ensures
        stretch_excess(original, new, epsilon) >= 0,
        stretch_excess(original, new, epsilon) == 0 <==> stretch_within(original, new, epsilon),
{
}

/// With a tolerance of zero an edge must keep its squared length exactly.
pub proof fn lemma_zero_tolerance_is_equality(original: int, new: int)
    ensures
        stretch_within(original, new, 0) <==> new == original,
{
    assert(0 * original == 0) by (nonlinear_arith);
}

/// Swapping the original and the new length keeps the verdict where the
/// tolerance is adjusted with them: where `epsilon` times the one length
/// equals `other_epsilon` times the other.
pub proof fn lemma_swap_with_adjusted_tolerance(
    original: int,
    new: int,
    epsilon: int,
    other_epsilon: int,
)
    requires
        epsilon * original == other_epsilon * new,
    ensures
        stretch_within(original, new, epsilon) <==> stretch_within(new, original, other_epsilon),
{
}

} // verus!
