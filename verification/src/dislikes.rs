//! The cost of a pose: for every corner of the hole the squared distance to
//! the nearest vertex of the pose, summed, less one for every corner at which
//! the pose claims a bonus.

use vstd::prelude::*;
use crate::model::{ClaimedBonus, Pose, Problem};
use crate::point::{lemma_sq_norm_bound, sq_dist, squared_distance, Point, SQ_DIST_LIMIT};
use crate::polygon::all_in_range;

verus! {

/// The least squared distance from `h` to a point of `vs`; zero where `vs` is
/// empty.
pub open spec fn min_sq_dist(h: Point, vs: Seq<Point>) -> int
    decreases vs.len(),
{
    if vs.len() == 0 {
        0
    } else if vs.len() == 1 {
        sq_dist(h, vs[0])
    } else {
        let rest = min_sq_dist(h, vs.drop_last());
        if sq_dist(h, vs.last()) < rest {
            sq_dist(h, vs.last())
        } else {
            rest
        }
    }
}

/// The sum, over the first `upto` corners of the hole, of the least squared
/// distance to a vertex.
pub open spec fn coverage(hole: Seq<Point>, vs: Seq<Point>, upto: int) -> int
    decreases upto,
{
    if upto <= 0 {
        0
    } else {
        coverage(hole, vs, upto - 1) + min_sq_dist(hole[upto - 1], vs)
    }
}

/// Some claimed bonus lies at `h`.
pub open spec fn claimed_at(bonuses: Seq<ClaimedBonus>, h: Point) -> bool {
    exists|i: int| 0 <= i < bonuses.len() && (#[trigger] bonuses[i]).position == h
}

/// The number of corners among the first `upto` at which a bonus is claimed.
pub open spec fn discount(hole: Seq<Point>, bonuses: Seq<ClaimedBonus>, upto: int) -> int
    decreases upto,
{
    if upto <= 0 {
        0
    } else {
        discount(hole, bonuses, upto - 1) + if claimed_at(bonuses, hole[upto - 1]) {
            1int
        } else {
            0int
        }
    }
}

/// The cost of placing the vertices at `vs` in the hole, with the bonuses
/// claimed.
pub open spec fn dislikes(hole: Seq<Point>, vs: Seq<Point>, bonuses: Seq<ClaimedBonus>) -> int {
    coverage(hole, vs, hole.len() as int) - discount(hole, bonuses, hole.len() as int)
}

/// The least squared distance is at most the distance to any vertex, and is
/// the distance to one of them.
pub proof fn lemma_min_sq_dist_is_least(h: Point, vs: Seq<Point>)
    requires
        vs.len() > 0,
    ensures
        forall|i: int| 0 <= i < vs.len() ==> min_sq_dist(h, vs) <= sq_dist(h, #[trigger] vs[i]),
        exists|i: int| 0 <= i < vs.len() && min_sq_dist(h, vs) == sq_dist(h, #[trigger] vs[i]),
    decreases vs.len(),
{
    if vs.len() == 1 {
        assert(min_sq_dist(h, vs) == sq_dist(h, vs[0]));
    } else {
        let front = vs.drop_last();
        lemma_min_sq_dist_is_least(h, front);
        assert forall|i: int| 0 <= i < vs.len() implies min_sq_dist(h, vs) <= sq_dist(
            h,
            #[trigger] vs[i],
        ) by {
            if i < front.len() {
                assert(front[i] == vs[i]);
            }
        }
    }
}

/// A squared distance is never negative.
pub proof fn lemma_sq_dist_nonnegative(p: Point, q: Point)
    ensures
        sq_dist(p, q) >= 0,
{
    let dx = p.x - q.x;
    let dy = p.y - q.y;
    assert(dx * dx >= 0 && dy * dy >= 0) by (nonlinear_arith);
}

/// The least squared distance lies between zero and the largest distance
/// between two points in range.
pub proof fn lemma_min_sq_dist_bounds(h: Point, vs: Seq<Point>)
    requires
        h.in_range(),
        all_in_range(vs),
    ensures
        0 <= min_sq_dist(h, vs) <= SQ_DIST_LIMIT,
{
    if vs.len() > 0 {
        lemma_min_sq_dist_is_least(h, vs);
        let w = choose|i: int| 0 <= i < vs.len() && min_sq_dist(h, vs) == sq_dist(
            h,
            #[trigger] vs[i],
        );
        lemma_sq_norm_bound(h.x - vs[w].x, h.y - vs[w].y, 2_000_000_000);
    }
}

/// The coverage of a prefix lies between zero and the largest distance for
/// each of its corners.
pub proof fn lemma_coverage_bounds(hole: Seq<Point>, vs: Seq<Point>, upto: int)
    requires
        0 <= upto <= hole.len(),
        all_in_range(hole),
        all_in_range(vs),
    ensures
        0 <= coverage(hole, vs, upto) <= upto * SQ_DIST_LIMIT,
    decreases upto,
{
    if upto > 0 {
        lemma_coverage_bounds(hole, vs, upto - 1);
        lemma_min_sq_dist_bounds(hole[upto - 1], vs);
        assert(upto * SQ_DIST_LIMIT == (upto - 1) * SQ_DIST_LIMIT + SQ_DIST_LIMIT)
            by (nonlinear_arith);
    }
}

/// The discount of a prefix is at most the number of its corners.
pub proof fn lemma_discount_bounds(hole: Seq<Point>, bonuses: Seq<ClaimedBonus>, upto: int)
    requires
        0 <= upto,
    ensures
        0 <= discount(hole, bonuses, upto) <= upto,
        bonuses.len() == 0 ==> discount(hole, bonuses, upto) == 0,
    decreases upto,
{
    if upto > 0 {
        lemma_discount_bounds(hole, bonuses, upto - 1);
    }
}

/// The least squared distance is never negative.
pub proof fn lemma_min_sq_dist_nonnegative(h: Point, vs: Seq<Point>)
    ensures
        min_sq_dist(h, vs) >= 0,
{
    if vs.len() > 0 {
        lemma_min_sq_dist_is_least(h, vs);
        let w = choose|i: int| 0 <= i < vs.len() && min_sq_dist(h, vs) == sq_dist(
            h,
            #[trigger] vs[i],
        );
        lemma_sq_dist_nonnegative(h, vs[w]);
    }
}

/// The coverage of a prefix is never negative.
pub proof fn lemma_coverage_nonnegative(hole: Seq<Point>, vs: Seq<Point>, upto: int)
    ensures
        coverage(hole, vs, upto) >= 0,
    decreases upto,
{
    if upto > 0 {
        lemma_coverage_nonnegative(hole, vs, upto - 1);
        lemma_min_sq_dist_nonnegative(hole[upto - 1], vs);
    }
}

/// A pose that claims no bonus has a cost that is not negative.
pub proof fn lemma_dislikes_nonnegative(hole: Seq<Point>, vs: Seq<Point>)
    ensures
        dislikes(hole, vs, Seq::<ClaimedBonus>::empty()) >= 0,
{
    lemma_coverage_nonnegative(hole, vs, hole.len() as int);
    lemma_discount_bounds(hole, Seq::<ClaimedBonus>::empty(), hole.len() as int);
}

/// The least squared distance depends only on which points the vertices
/// occupy.
pub proof fn lemma_min_sq_dist_same_points(h: Point, vs: Seq<Point>, ws: Seq<Point>)
    requires
        forall|p: Point| vs.contains(p) <==> ws.contains(p),
    ensures
        min_sq_dist(h, vs) == min_sq_dist(h, ws),
{
    if vs.len() == 0 {
        if ws.len() > 0 {
            assert(ws.contains(ws[0]));
        }
    } else {
        assert(vs.contains(vs[0]));
        lemma_min_sq_dist_is_least(h, vs);
        lemma_min_sq_dist_is_least(h, ws);
        let i = choose|i: int| 0 <= i < vs.len() && min_sq_dist(h, vs) == sq_dist(
            h,
            #[trigger] vs[i],
        );
        let j = choose|j: int| 0 <= j < ws.len() && min_sq_dist(h, ws) == sq_dist(
            h,
            #[trigger] ws[j],
        );
        assert(vs.contains(vs[i]));
        assert(ws.contains(ws[j]));
    }
}

/// The coverage depends only on which points the vertices occupy.
pub proof fn lemma_coverage_same_points(
    hole: Seq<Point>,
    vs: Seq<Point>,
    ws: Seq<Point>,
    upto: int,
)
    requires
        forall|p: Point| vs.contains(p) <==> ws.contains(p),
    ensures
        coverage(hole, vs, upto) == coverage(hole, ws, upto),
    decreases upto,
{
    if upto > 0 {
        lemma_coverage_same_points(hole, vs, ws, upto - 1);
        lemma_min_sq_dist_same_points(hole[upto - 1], vs, ws);
    }
}

/// The cost of a pose does not depend on the order of its vertices: two
/// placements that are permutations of each other cost the same.
pub proof fn lemma_dislikes_permutation(
    hole: Seq<Point>,
    vs: Seq<Point>,
    ws: Seq<Point>,
    bonuses: Seq<ClaimedBonus>,
)
    requires
        vs.to_multiset() == ws.to_multiset(),
    ensures
        dislikes(hole, vs, bonuses) == dislikes(hole, ws, bonuses),
{
    vs.to_multiset_ensures();
    ws.to_multiset_ensures();
    assert forall|p: Point| vs.contains(p) <==> ws.contains(p) by {
        assert(vs.contains(p) <==> vs.to_multiset().count(p) > 0);
    }
    lemma_coverage_same_points(hole, vs, ws, hole.len() as int);
}

/// The least squared distance from `h` to a vertex.
pub fn nearest_sq_dist(h: Point, vertices: &Vec<Point>) -> (r: i64)
    requires
        h.in_range(),
        all_in_range(vertices@),
        vertices.len() > 0,
    ensures
        r == min_sq_dist(h, vertices@),
        0 <= r <= SQ_DIST_LIMIT,
{
    let mut best: i64 = squared_distance(h, vertices[0]);
    let n: usize = vertices.len();
    let mut i: usize = 1;
    while i < n
        invariant
            1 <= i <= n,
            n == vertices.len(),
            h.in_range(),
            all_in_range(vertices@),
            best == min_sq_dist(h, vertices@.take(i as int)),
            0 <= best <= SQ_DIST_LIMIT,
        decreases n - i,
    {
        let d: i64 = squared_distance(h, vertices[i]);
        assert(vertices@.take(i + 1).drop_last() == vertices@.take(i as int));
        if d < best {
            best = d;
        }
        i = i + 1;
    }
    assert(vertices@.take(n as int) == vertices@);
    best
}

/// Tells whether a bonus is claimed at `h`.
pub fn is_claimed_at(bonuses: &Vec<ClaimedBonus>, h: Point) -> (r: bool)
    ensures
        r == claimed_at(bonuses@, h),
{
    let n: usize = bonuses.len();
    let mut i: usize = 0;
    while i < n
        invariant
            0 <= i <= n,
            n == bonuses.len(),
            forall|j: int| 0 <= j < i ==> (#[trigger] bonuses@[j]).position != h,
        decreases n - i,
    {
        if bonuses[i].position == h {
            return true;
        }
        i = i + 1;
    }
    false
}

/// The cost of the vertices placed in the hole, with the bonuses claimed.
pub fn dislikes_of(hole: &Vec<Point>, vertices: &Vec<Point>, bonuses: &Vec<ClaimedBonus>) -> (r:
    i128)
    requires
        all_in_range(hole@),
        all_in_range(vertices@),
        vertices.len() > 0,
    ensures
        r == dislikes(hole@, vertices@, bonuses@),
        bonuses.len() == 0 ==> r >= 0,
{
    let n: usize = hole.len();
    let mut total: i128 = 0;
    let mut i: usize = 0;
    while i < n
        invariant
            0 <= i <= n,
            n == hole.len(),
            all_in_range(hole@),
            all_in_range(vertices@),
            vertices.len() > 0,
            total == coverage(hole@, vertices@, i as int) - discount(hole@, bonuses@, i as int),
        decreases n - i,
    {
        proof {
            lemma_coverage_bounds(hole@, vertices@, i as int);
            lemma_discount_bounds(hole@, bonuses@, i as int);
            assert(i * SQ_DIST_LIMIT <= 0xffff_ffff_ffff_ffff * SQ_DIST_LIMIT) by (nonlinear_arith)
                requires
                    0 <= i <= 0xffff_ffff_ffff_ffff,
            ;
        }
        let h: Point = hole[i];
        total = total + nearest_sq_dist(h, vertices) as i128;
        if is_claimed_at(bonuses, h) {
            total = total - 1;
        }
        i = i + 1;
    }
    proof {
        lemma_coverage_bounds(hole@, vertices@, n as int);
        lemma_discount_bounds(hole@, bonuses@, n as int);
    }
    total
}

/// The dislikes of a pose: the sum, over the corners of the hole, of the
/// squared distance to the nearest vertex of the pose, less one for every
/// corner at which the pose claims a bonus.
pub fn compute_dislikes(problem: &Problem, pose: &Pose) -> (r: i128)
    requires
        all_in_range(problem.hole@),
        all_in_range(pose.vertices@),
        pose.vertices.len() > 0,
    ensures
        r == dislikes(problem.hole@, pose.vertices@, pose.bonuses@),
        pose.bonuses.len() == 0 ==> r >= 0,
{
    dislikes_of(&problem.hole, &pose.vertices, &pose.bonuses)
}

} // verus!
