//! Grid points and the squared distances between them.

use vstd::prelude::*;

verus! {

/// Largest absolute value that a coordinate may have.
pub const COORD_LIMIT: i64 = 1_000_000_000;

/// A point of the integer grid.
#[derive(Clone, Copy, Debug, PartialEq, Eq, Structural)]
pub struct Point {
    pub x: i64,
    pub y: i64,
}

/// Squared Euclidean length of the vector `(dx, dy)`.
pub open spec fn sq_norm(dx: int, dy: int) -> int {
    dx * dx + dy * dy
}

/// Squared Euclidean distance between `p` and `q`.
pub open spec fn sq_dist(p: Point, q: Point) -> int {
    sq_norm(p.x - q.x, p.y - q.y)
}

/// Largest squared distance between two points in range.
pub const SQ_DIST_LIMIT: i64 = 8_000_000_000_000_000_000;

impl Point {
    /// Both coordinates are at most `bound` in absolute value.
    pub open spec fn within(self, bound: int) -> bool {
        &&& -bound <= self.x <= bound
        &&& -bound <= self.y <= bound
    }

    /// The point lies in the coordinate range that the library computes on.
    pub open spec fn in_range(self) -> bool {
        self.within(COORD_LIMIT as int)
    }

    /// The point moved by the vector `d`.
    pub open spec fn moved_by(self, d: Point) -> Point {
        Point { x: (self.x + d.x) as i64, y: (self.y + d.y) as i64 }
    }

    /// The point with the coordinates `x` and `y`.
    pub fn new(x: i64, y: i64) -> (p: Point)
        ensures
            p.x == x,
            p.y == y,
    {
        Point { x, y }
    }

    /// Tells whether the point lies in the coordinate range.
    pub fn is_in_range(self) -> (r: bool)
        ensures
            r == self.in_range(),
    {
        -COORD_LIMIT <= self.x && self.x <= COORD_LIMIT && -COORD_LIMIT <= self.y && self.y
            <= COORD_LIMIT
    }

    /// Vector sum.
    pub fn plus(self, d: Point) -> (p: Point)
        requires
            i64::MIN <= self.x + d.x <= i64::MAX,
            i64::MIN <= self.y + d.y <= i64::MAX,
        ensures
            p.x == self.x + d.x,
            p.y == self.y + d.y,
            p == self.moved_by(d),
    {
        Point { x: self.x + d.x, y: self.y + d.y }
    }

    /// Vector difference.
    pub fn minus(self, d: Point) -> (p: Point)
        requires
            i64::MIN <= self.x - d.x <= i64::MAX,
            i64::MIN <= self.y - d.y <= i64::MAX,
        ensures
            p.x == self.x - d.x,
            p.y == self.y - d.y,
    {
        Point { x: self.x - d.x, y: self.y - d.y }
    }

    /// Squared magnitude of the point taken as a vector.
    pub fn abs2(self) -> (r: i64)
        requires
            self.within(2 * COORD_LIMIT),
        ensures
            r == sq_norm(self.x as int, self.y as int),
            0 <= r <= SQ_DIST_LIMIT,
    {
        proof {
            lemma_sq_norm_bound(self.x as int, self.y as int, 2_000_000_000);
        }
        let xx: i64 = self.x * self.x;
        let yy: i64 = self.y * self.y;
        xx + yy
    }
}

/// A vector whose components are bounded has a bounded squared length.
pub proof fn lemma_sq_norm_bound(dx: int, dy: int, bound: int)
    requires
        -bound <= dx <= bound,
        -bound <= dy <= bound,
    ensures
        0 <= dx * dx <= bound * bound,
        0 <= dy * dy <= bound * bound,
        0 <= sq_norm(dx, dy) <= 2 * bound * bound,
{
    assert(0 <= dx * dx <= bound * bound) by (nonlinear_arith)
        requires
            -bound <= dx <= bound,
    ;
    assert(0 <= dy * dy <= bound * bound) by (nonlinear_arith)
        requires
            -bound <= dy <= bound,
    ;
    assert(2 * bound * bound == 2 * (bound * bound)) by (nonlinear_arith);
}

/// The product of two bounded numbers is bounded.
pub proof fn lemma_product_bound(a: int, b: int, bound: int)
    requires
        -bound <= a <= bound,
        -bound <= b <= bound,
    ensures
        -(bound * bound) <= a * b <= bound * bound,
{
    assert(-(bound * bound) <= a * b <= bound * bound) by (nonlinear_arith)
        requires
            -bound <= a <= bound,
            -bound <= b <= bound,
    ;
}

/// The step in direction `d`: the four steps along the axes come first, the
/// four diagonal steps after them.
pub open spec fn step_vector(d: int) -> Point {
    if d == 0 {
        Point { x: 1, y: 0 }
    } else if d == 1 {
        Point { x: 0, y: 1 }
    } else if d == 2 {
        Point { x: -1i64, y: 0 }
    } else if d == 3 {
        Point { x: 0, y: -1i64 }
    } else if d == 4 {
        Point { x: 1, y: 1 }
    } else if d == 5 {
        Point { x: 1, y: -1i64 }
    } else if d == 6 {
        Point { x: -1i64, y: -1i64 }
    } else {
        Point { x: -1i64, y: 1 }
    }
}

/// The step in direction `d`.
pub fn direction(d: usize) -> (r: Point)
    requires
        d < 8,
    ensures
        r == step_vector(d as int),
        r.within(1),
{
    if d == 0 {
        Point { x: 1, y: 0 }
    } else if d == 1 {
        Point { x: 0, y: 1 }
    } else if d == 2 {
        Point { x: -1, y: 0 }
    } else if d == 3 {
        Point { x: 0, y: -1 }
    } else if d == 4 {
        Point { x: 1, y: 1 }
    } else if d == 5 {
        Point { x: 1, y: -1 }
    } else if d == 6 {
        Point { x: -1, y: -1 }
    } else {
        Point { x: -1, y: 1 }
    }
}

/// Squared distance between two points in range.
pub fn squared_distance(p: Point, q: Point) -> (r: i64)
    requires
        p.in_range(),
        q.in_range(),
    ensures
        r == sq_dist(p, q),
        0 <= r <= SQ_DIST_LIMIT,
{
    p.minus(q).abs2()
}

} // verus!
