//! Containment in convex polygons: with respect to a polygon whose corners
//! all lie strictly on one side of every edge that they do not end, a point
//! on that side of every edge is inside, a point on the other side of some
//! edge is outside, and a segment lies in the polygon where its ends are not
//! outside. The facts are stated of rings of points of the plane, so that
//! they hold of a polygon at every magnification.

use vstd::prelude::*;
use crate::point::Point;
use crate::polygon::{
    containment, crossings, division_point, edge_crossed, is_waypoint, locate, midpoint_covered,
    on_boundary, on_edge, ring, segment_covered, segment_inside, succ, turn, twice_midpoint,
    Containment, Pt,
};
use crate::polygon_laws::{
    lemma_covered_segment_has_covered_ends, lemma_magnified_turn, lemma_turn_of_division,
    lemma_turn_of_midpoint, lemma_turn_reversed,
};

verus! {

/// Moving the third point changes `turn` by what the move is worth across the
/// line.
pub proof fn lemma_turn_shifted(o: Pt, a: Pt, p: Pt, q: Pt)
    ensures
        turn(o, a, q) == turn(o, a, p) + (a.x - o.x) * (q.y - p.y) - (a.y - o.y) * (q.x - p.x),
{
    let wx = a.x - o.x;
    let wy = a.y - o.y;
    assert(wx * (q.y - o.y) == wx * (p.y - o.y) + wx * (q.y - p.y)) by (nonlinear_arith);
    assert(wy * (q.x - o.x) == wy * (p.x - o.x) + wy * (q.x - p.x)) by (nonlinear_arith);
}

/// How `turn` about one line behaves along another: for the line from `o` to
/// `a`, the points `lo` and `hi`, and any point `q`.
pub proof fn lemma_turn_along_level(o: Pt, a: Pt, lo: Pt, hi: Pt, q: Pt)
    ensures
        (hi.y - lo.y) * turn(o, a, q) == (hi.y - q.y) * turn(o, a, lo) + (q.y - lo.y) * turn(
            o,
            a,
            hi,
        ) + (a.y - o.y) * turn(lo, hi, q),
{
    let wx = a.x - o.x;
    let wy = a.y - o.y;
    let ux = hi.x - lo.x;
    let uy = hi.y - lo.y;
    let vx = q.x - lo.x;
    let vy = q.y - lo.y;
    let c = turn(o, a, lo);
    lemma_turn_shifted(o, a, lo, hi);
    lemma_turn_shifted(o, a, lo, q);
    let th = turn(o, a, hi);
    let tq = turn(o, a, q);
    let tl = turn(lo, hi, q);
    let m1 = wx * vy;
    let m2 = wy * vx;
    let m3 = wx * uy;
    let m4 = wy * ux;
    let m5 = ux * vy;
    let m6 = uy * vx;
    assert(uy * tq == uy * c + uy * m1 - uy * m2) by (nonlinear_arith)
        requires
            tq == c + m1 - m2,
    ;
    assert(vy * th == vy * c + vy * m3 - vy * m4) by (nonlinear_arith)
        requires
            th == c + m3 - m4,
    ;
    assert(wy * tl == wy * m5 - wy * m6) by (nonlinear_arith)
        requires
            tl == m5 - m6,
    ;
    assert((uy - vy) * c == uy * c - vy * c) by (nonlinear_arith);
    assert(uy * m1 == vy * m3) by (nonlinear_arith)
        requires
            m1 == wx * vy,
            m3 == wx * uy,
    ;
    assert(vy * m4 == wy * m5) by (nonlinear_arith)
        requires
            m4 == wy * ux,
            m5 == ux * vy,
    ;
    assert(uy * m2 == wy * m6) by (nonlinear_arith)
        requires
            m2 == wy * vx,
            m6 == uy * vx,
    ;
}

/// The same along the other axis.
pub proof fn lemma_turn_along_column(o: Pt, a: Pt, lo: Pt, hi: Pt, q: Pt)
    ensures
        (hi.x - lo.x) * turn(o, a, q) == (hi.x - q.x) * turn(o, a, lo) + (q.x - lo.x) * turn(
            o,
            a,
            hi,
        ) + (a.x - o.x) * turn(lo, hi, q),
{
    let wx = a.x - o.x;
    let wy = a.y - o.y;
    let ux = hi.x - lo.x;
    let uy = hi.y - lo.y;
    let vx = q.x - lo.x;
    let vy = q.y - lo.y;
    let c = turn(o, a, lo);
    lemma_turn_shifted(o, a, lo, hi);
    lemma_turn_shifted(o, a, lo, q);
    let th = turn(o, a, hi);
    let tq = turn(o, a, q);
    let tl = turn(lo, hi, q);
    let m1 = wx * vy;
    let m2 = wy * vx;
    let m3 = wx * uy;
    let m4 = wy * ux;
    let m5 = ux * vy;
    let m6 = uy * vx;
    assert(ux * tq == ux * c + ux * m1 - ux * m2) by (nonlinear_arith)
        requires
            tq == c + m1 - m2,
    ;
    assert(vx * th == vx * c + vx * m3 - vx * m4) by (nonlinear_arith)
        requires
            th == c + m3 - m4,
    ;
    assert(wx * tl == wx * m5 - wx * m6) by (nonlinear_arith)
        requires
            tl == m5 - m6,
    ;
    assert((ux - vx) * c == ux * c - vx * c) by (nonlinear_arith);
    assert(ux * m1 == wx * m5) by (nonlinear_arith)
        requires
            m1 == wx * vy,
            m5 == ux * vy,
    ;
    assert(ux * m2 == vx * m4) by (nonlinear_arith)
        requires
            m2 == wy * vx,
            m4 == wy * ux,
    ;
    assert(vx * m3 == wx * m6) by (nonlinear_arith)
        requires
            m3 == wx * uy,
            m6 == uy * vx,
    ;
}

/// The side of a line on which the inside of a polygon lies: the left of
/// every edge where the corners run counter-clockwise, the right where they
/// run clockwise. `t` is a value of `turn` about the edge.
pub open spec fn inner(ccw: bool, t: int) -> bool {
    if ccw {
        t > 0
    } else {
        t < 0
    }
}

/// On the inner side of a line, or on the line.
pub open spec fn inner_or_on(ccw: bool, t: int) -> bool {
    if ccw {
        t >= 0
    } else {
        t <= 0
    }
}

/// `turn` of the point `q` about edge `i` of the polygon.
pub open spec fn edge_turn(ring: Seq<Pt>, i: int, q: Pt) -> int {
    turn(ring[i], ring[succ(ring.len() as int, i)], q)
}

/// The polygon is strictly convex, its corners running counter-clockwise or
/// clockwise as `ccw` says: it has three corners at least, and every corner
/// lies strictly on the inner side of every edge that it does not end.
pub open spec fn strictly_convex(ring: Seq<Pt>, ccw: bool) -> bool {
    &&& ring.len() >= 3
    &&& forall|i: int, j: int|
        0 <= i < ring.len() && 0 <= j < ring.len() && j != i && j != succ(ring.len() as int, i)
            ==> inner(ccw, #[trigger] edge_turn(ring, i, ring[j]))
}

/// The point lies strictly on the inner side of every edge.
pub open spec fn strictly_within(ring: Seq<Pt>, ccw: bool, q: Pt) -> bool {
    forall|i: int| 0 <= i < ring.len() ==> inner(ccw, #[trigger] edge_turn(ring, i, q))
}

/// The point lies strictly on the outer side of some edge.
pub open spec fn strictly_beyond(ring: Seq<Pt>, ccw: bool, q: Pt) -> bool {
    exists|i: int| 0 <= i < ring.len() && inner(!ccw, #[trigger] edge_turn(ring, i, q))
}

/// Edge `i` leads upwards past the level of `q`: it begins at or below the
/// level and ends above it.
pub open spec fn leads_up(ring: Seq<Pt>, i: int, q: Pt) -> bool {
    ring[i].y <= q.y < ring[succ(ring.len() as int, i)].y
}

/// Edge `i` leads downwards past the level of `q`: it begins above the level
/// and ends at or below it.
pub open spec fn leads_down(ring: Seq<Pt>, i: int, q: Pt) -> bool {
    ring[succ(ring.len() as int, i)].y <= q.y < ring[i].y
}

/// The ray from `q` crosses an edge that leads upwards where `q` lies to its
/// left, one that leads downwards where `q` lies to its right, and no other.
pub proof fn lemma_crossed_by_side(ring: Seq<Pt>, i: int, q: Pt)
    requires
        0 <= i < ring.len(),
    ensures
        edge_crossed(ring, i, q) <==> (leads_up(ring, i, q) && edge_turn(ring, i, q) > 0) || (
        leads_down(ring, i, q) && edge_turn(ring, i, q) < 0),
{
    let a = ring[i];
    let b = ring[succ(ring.len() as int, i)];
    lemma_turn_reversed(a, b, q);
}

/// Every corner of a strictly convex polygon lies on the inner side of every
/// edge, or on the edge.
pub proof fn lemma_corners_inner_or_on(ring: Seq<Pt>, ccw: bool, i: int, j: int)
    requires
        strictly_convex(ring, ccw),
        0 <= i < ring.len(),
        0 <= j < ring.len(),
    ensures
        inner_or_on(ccw, edge_turn(ring, i, ring[j])),
{
    let a = ring[i];
    let b = ring[succ(ring.len() as int, i)];
    if j == i {
        assert(turn(a, b, a) == 0) by (nonlinear_arith);
    } else if j == succ(ring.len() as int, i) {
        assert(turn(a, b, b) == 0) by (nonlinear_arith);
    }
}

/// A product of a number that is not negative with one on the inner side is
/// on the inner side or zero; of a positive number, on the inner side.
pub proof fn lemma_weighted_inner(ccw: bool, weight: int, t: int)
    requires
        weight >= 0,
        inner_or_on(ccw, t),
    ensures
        inner_or_on(ccw, weight * t),
        weight > 0 && inner(ccw, t) ==> inner(ccw, weight * t),
{
    assert((t >= 0 ==> weight * t >= 0) && (t <= 0 ==> weight * t <= 0)) by (nonlinear_arith)
        requires
            weight >= 0,
    ;
    assert((weight > 0 && t > 0 ==> weight * t > 0) && (weight > 0 && t < 0 ==> weight * t < 0))
        by (nonlinear_arith);
}

/// What the ends of two segments are worth about each other's lines, weighted
/// by their heights over the level of `q`, adds up to nothing.
pub proof fn lemma_two_edges_balance(a: Pt, b: Pt, c: Pt, d: Pt, q: Pt)
    ensures
        (d.y - q.y) * turn(a, b, c) + (q.y - c.y) * turn(a, b, d) + (b.y - q.y) * turn(c, d, a) + (
        q.y - a.y) * turn(c, d, b) == 0,
{
    lemma_turn_along_level(a, b, c, d, q);
    lemma_turn_along_level(c, d, a, b, q);
}

/// At most one edge of a strictly convex polygon leads upwards past a level.
pub proof fn lemma_one_way_up(ring: Seq<Pt>, ccw: bool, q: Pt, i: int, j: int)
    requires
        strictly_convex(ring, ccw),
        0 <= i < ring.len(),
        0 <= j < ring.len(),
        leads_up(ring, i, q),
        leads_up(ring, j, q),
    ensures
        i == j,
{
    let n = ring.len() as int;
    if i != j {
        let a = ring[i];
        let b = ring[succ(n, i)];
        let c = ring[j];
        let d = ring[succ(n, j)];
        assert(inner(ccw, edge_turn(ring, i, ring[j])));
        assert(inner(ccw, edge_turn(ring, i, ring[succ(n, j)])));
        assert(inner(ccw, edge_turn(ring, j, ring[i])));
        assert(inner(ccw, edge_turn(ring, j, ring[succ(n, i)])));
        lemma_two_edges_balance(a, b, c, d, q);
        lemma_weighted_inner(ccw, d.y - q.y, turn(a, b, c));
        lemma_weighted_inner(ccw, q.y - c.y, turn(a, b, d));
        lemma_weighted_inner(ccw, b.y - q.y, turn(c, d, a));
        lemma_weighted_inner(ccw, q.y - a.y, turn(c, d, b));
    }
}

/// At most one edge of a strictly convex polygon leads downwards past a
/// level.
pub proof fn lemma_one_way_down(ring: Seq<Pt>, ccw: bool, q: Pt, i: int, j: int)
    requires
        strictly_convex(ring, ccw),
        0 <= i < ring.len(),
        0 <= j < ring.len(),
        leads_down(ring, i, q),
        leads_down(ring, j, q),
    ensures
        i == j,
{
    let n = ring.len() as int;
    if i != j {
        let a = ring[i];
        let b = ring[succ(n, i)];
        let c = ring[j];
        let d = ring[succ(n, j)];
        assert(inner(ccw, edge_turn(ring, i, ring[j])));
        assert(inner(ccw, edge_turn(ring, i, ring[succ(n, j)])));
        assert(inner(ccw, edge_turn(ring, j, ring[i])));
        assert(inner(ccw, edge_turn(ring, j, ring[succ(n, i)])));
        lemma_two_edges_balance(a, b, c, d, q);
        lemma_weighted_inner(ccw, q.y - d.y, turn(a, b, c));
        lemma_weighted_inner(ccw, c.y - q.y, turn(a, b, d));
        lemma_weighted_inner(ccw, q.y - b.y, turn(c, d, a));
        lemma_weighted_inner(ccw, a.y - q.y, turn(c, d, b));
        assert((d.y - q.y) * turn(a, b, c) == -((q.y - d.y) * turn(a, b, c))) by (nonlinear_arith);
        assert((q.y - c.y) * turn(a, b, d) == -((c.y - q.y) * turn(a, b, d))) by (nonlinear_arith);
        assert((b.y - q.y) * turn(c, d, a) == -((q.y - b.y) * turn(c, d, a))) by (nonlinear_arith);
        assert((q.y - a.y) * turn(c, d, b) == -((a.y - q.y) * turn(c, d, b))) by (nonlinear_arith);
    }
}

/// Index of the corner that comes before corner `i` in a polygon of `n`
/// corners.
pub open spec fn pred(n: int, i: int) -> int {
    if i == 0 {
        n - 1
    } else {
        i - 1
    }
}

/// Among the first corners of a polygon one is the lowest.
pub proof fn lemma_lowest_corner(ring: Seq<Pt>, upto: int) -> (m: int)
    requires
        0 < upto <= ring.len(),
    ensures
        0 <= m < upto,
        forall|k: int| 0 <= k < upto ==> ring[m].y <= (#[trigger] ring[k]).y,
    decreases upto,
{
    if upto == 1 {
        0
    } else {
        let m = lemma_lowest_corner(ring, upto - 1);
        if ring[upto - 1].y < ring[m].y {
            upto - 1
        } else {
            m
        }
    }
}

/// Among the first corners of a polygon one is the highest.
pub proof fn lemma_highest_corner(ring: Seq<Pt>, upto: int) -> (m: int)
    requires
        0 < upto <= ring.len(),
    ensures
        0 <= m < upto,
        forall|k: int| 0 <= k < upto ==> ring[m].y >= (#[trigger] ring[k]).y,
    decreases upto,
{
    if upto == 1 {
        0
    } else {
        let m = lemma_highest_corner(ring, upto - 1);
        if ring[upto - 1].y > ring[m].y {
            upto - 1
        } else {
            m
        }
    }
}

/// At a corner of a strictly convex polygon, what a point is worth about the
/// two edges that meet there, weighted by the rise of the other edge, is what
/// the corner before is worth about the edge after, weighted by the height
/// of the point over the corner.
pub proof fn lemma_turns_at_corner(ring: Seq<Pt>, m: int, q: Pt)
    requires
        ring.len() >= 3,
        0 <= m < ring.len(),
    ensures
        ({
            let n = ring.len() as int;
            let before = ring[pred(n, m)];
            let at = ring[m];
            let after = ring[succ(n, m)];
            (after.y - at.y) * edge_turn(ring, pred(n, m), q) - (at.y - before.y) * edge_turn(
                ring,
                m,
                q,
            ) == (q.y - at.y) * edge_turn(ring, m, before)
        }),
{
    let n = ring.len() as int;
    let before = ring[pred(n, m)];
    let at = ring[m];
    let after = ring[succ(n, m)];
    lemma_turn_along_level(at, after, before, at, q);
    assert(turn(at, after, at) == 0) by (nonlinear_arith);
    assert((q.y - before.y) * turn(at, after, at) == 0) by (nonlinear_arith)
        requires
            turn(at, after, at) == 0,
    ;
    assert((at.y - q.y) * turn(at, after, before) == -((q.y - at.y) * turn(at, after, before)))
        by (nonlinear_arith);
}

/// A point strictly within a strictly convex polygon has corners above its
/// level, and corners at or below it.
pub proof fn lemma_level_cuts_polygon(ring: Seq<Pt>, ccw: bool, q: Pt)
    requires
        strictly_convex(ring, ccw),
        strictly_within(ring, ccw, q),
    ensures
        exists|k: int| 0 <= k < ring.len() && (#[trigger] ring[k]).y > q.y,
        exists|k: int| 0 <= k < ring.len() && (#[trigger] ring[k]).y <= q.y,
{
    let n = ring.len() as int;
    if forall|k: int| 0 <= k < ring.len() ==> (#[trigger] ring[k]).y > q.y {
        let m = lemma_lowest_corner(ring, n);
        lemma_corner_excludes(ring, ccw, q, m);
    }
    if forall|k: int| 0 <= k < ring.len() ==> (#[trigger] ring[k]).y <= q.y {
        let m = lemma_highest_corner(ring, n);
        lemma_corner_excludes(ring, ccw, q, m);
    }
}

/// A point strictly within a strictly convex polygon lies neither below a
/// corner that has no lower neighbour, nor at or above one that has no higher
/// neighbour.
pub proof fn lemma_corner_excludes(ring: Seq<Pt>, ccw: bool, q: Pt, m: int)
    requires
        strictly_convex(ring, ccw),
        strictly_within(ring, ccw, q),
        0 <= m < ring.len(),
    ensures
        ({
            let n = ring.len() as int;
            &&& !(ring[pred(n, m)].y >= ring[m].y && ring[succ(n, m)].y >= ring[m].y && q.y
                < ring[m].y)
            &&& !(ring[pred(n, m)].y <= ring[m].y && ring[succ(n, m)].y <= ring[m].y && q.y
                >= ring[m].y)
        }),
{
    let n = ring.len() as int;
    let before = ring[pred(n, m)];
    let at = ring[m];
    let after = ring[succ(n, m)];
    let rise_after = after.y - at.y;
    let rise_before = at.y - before.y;
    let over = q.y - at.y;
    let t_before = edge_turn(ring, pred(n, m), q);
    let t_after = edge_turn(ring, m, q);
    let t_corner = edge_turn(ring, m, before);
    lemma_turns_at_corner(ring, m, q);
    if rise_before <= 0 && rise_after >= 0 && over < 0 {
        lemma_weighted_inner(ccw, rise_after, t_before);
        lemma_weighted_inner(ccw, -rise_before, t_after);
        lemma_weighted_inner(ccw, -over, t_corner);
        assert(-rise_before * t_after == -(rise_before * t_after)) by (nonlinear_arith);
        assert(-over * t_corner == -(over * t_corner)) by (nonlinear_arith);
    }
    if rise_before >= 0 && rise_after <= 0 && over >= 0 {
        lemma_weighted_inner(ccw, -rise_after, t_before);
        lemma_weighted_inner(ccw, rise_before, t_after);
        lemma_weighted_inner(ccw, over, t_corner);
        assert(-rise_after * t_before == -(rise_after * t_before)) by (nonlinear_arith);
        if rise_before == 0 && rise_after == 0 {
            // the three corners lie on one level, and so on one line
            assert(t_corner == 0) by (nonlinear_arith)
                requires
                    t_corner == (after.x - at.x) * (before.y - at.y) - (after.y - at.y) * (before.x
                        - at.x),
                    before.y == at.y,
                    after.y == at.y,
            ;
        }
    }
}

/// Where no edge leads upwards past a level, a corner above the level has
/// only corners above the level before it.
pub proof fn lemma_above_spreads_back(ring: Seq<Pt>, q: Pt, k: int, j: int)
    requires
        0 <= j <= k < ring.len(),
        ring[k].y > q.y,
        forall|i: int| 0 <= i < ring.len() ==> !#[trigger] leads_up(ring, i, q),
    ensures
        ring[j].y > q.y,
    decreases k - j,
{
    if j < k {
        lemma_above_spreads_back(ring, q, k, j + 1);
        assert(!leads_up(ring, j, q));
    }
}

/// Where no edge leads downwards past a level, a corner above the level has
/// only corners above the level after it.
pub proof fn lemma_above_spreads_on(ring: Seq<Pt>, q: Pt, k: int, j: int)
    requires
        0 <= k <= j < ring.len(),
        ring[k].y > q.y,
        forall|i: int| 0 <= i < ring.len() ==> !#[trigger] leads_down(ring, i, q),
    ensures
        ring[j].y > q.y,
    decreases j - k,
{
    if k < j {
        lemma_above_spreads_on(ring, q, k, j - 1);
        assert(!leads_down(ring, j - 1, q));
    }
}

/// A polygon with corners above a level and corners at or below it has an
/// edge that leads upwards past the level, and one that leads downwards.
pub proof fn lemma_ways_past_level(ring: Seq<Pt>, q: Pt)
    requires
        exists|k: int| 0 <= k < ring.len() && (#[trigger] ring[k]).y > q.y,
        exists|k: int| 0 <= k < ring.len() && (#[trigger] ring[k]).y <= q.y,
    ensures
        exists|i: int| 0 <= i < ring.len() && #[trigger] leads_up(ring, i, q),
        exists|i: int| 0 <= i < ring.len() && #[trigger] leads_down(ring, i, q),
{
    let n = ring.len() as int;
    let high = choose|k: int| 0 <= k < ring.len() && (#[trigger] ring[k]).y > q.y;
    let low = choose|k: int| 0 <= k < ring.len() && (#[trigger] ring[k]).y <= q.y;
    if forall|i: int| 0 <= i < ring.len() ==> !#[trigger] leads_up(ring, i, q) {
        lemma_above_spreads_back(ring, q, high, 0);
        assert(!leads_up(ring, n - 1, q));
        lemma_above_spreads_back(ring, q, n - 1, low);
    }
    if forall|i: int| 0 <= i < ring.len() ==> !#[trigger] leads_down(ring, i, q) {
        lemma_above_spreads_on(ring, q, high, n - 1);
        assert(!leads_down(ring, n - 1, q));
        lemma_above_spreads_on(ring, q, 0, low);
    }
}

/// Where the ray from `q` crosses no edge but edge `u` and edge `e`, it
/// crosses as many of the first edges as there are of the two among them.
pub proof fn lemma_crossings_counted(ring: Seq<Pt>, q: Pt, u: int, e: int, upto: int)
    requires
        0 <= upto <= ring.len(),
        u != e,
        forall|i: int|
            0 <= i < ring.len() && #[trigger] edge_crossed(ring, i, q) ==> i == u || i == e,
    ensures
        crossings(ring, q, upto) == (if 0 <= u < upto && edge_crossed(ring, u, q) {
            1int
        } else {
            0int
        }) + (if 0 <= e < upto && edge_crossed(ring, e, q) {
            1int
        } else {
            0int
        }),
    decreases upto,
{
    if upto > 0 {
        lemma_crossings_counted(ring, q, u, e, upto - 1);
    }
}

/// A point strictly within a strictly convex polygon is inside it.
pub proof fn lemma_within_convex_is_inside(ring: Seq<Pt>, ccw: bool, q: Pt)
    requires
        strictly_convex(ring, ccw),
        strictly_within(ring, ccw, q),
    ensures
        locate(ring, q) == Containment::Inside,
{
    let n = ring.len() as int;
    assert forall|i: int| 0 <= i < ring.len() implies !on_edge(ring, i, q) by {
        assert(inner(ccw, edge_turn(ring, i, q)));
    }
    lemma_level_cuts_polygon(ring, ccw, q);
    lemma_ways_past_level(ring, q);
    let u = if ccw {
        choose|i: int| 0 <= i < ring.len() && #[trigger] leads_up(ring, i, q)
    } else {
        choose|i: int| 0 <= i < ring.len() && #[trigger] leads_down(ring, i, q)
    };
    assert forall|i: int| 0 <= i < ring.len() implies (#[trigger] edge_crossed(ring, i, q) <==> i
        == u) by {
        lemma_crossed_by_side(ring, i, q);
        if ccw {
            if leads_up(ring, i, q) {
                lemma_one_way_up(ring, ccw, q, i, u);
            }
        } else {
            if leads_down(ring, i, q) {
                lemma_one_way_down(ring, ccw, q, i, u);
            }
        }
    }
    lemma_crossings_counted(ring, q, u, -1, n);
}

/// A number is on the side on which its product with a positive number is.
pub proof fn lemma_inner_of_multiple(ccw: bool, weight: int, t: int)
    requires
        weight > 0,
    ensures
        inner_or_on(ccw, weight * t) ==> inner_or_on(ccw, t),
        inner(ccw, weight * t) ==> inner(ccw, t),
{
    assert((weight * t >= 0 ==> t >= 0) && (weight * t <= 0 ==> t <= 0) && (weight * t > 0 ==> t
        > 0) && (weight * t < 0 ==> t < 0)) by (nonlinear_arith)
        requires
            weight > 0,
    ;
}

/// A point between two levels is on the inner side of a line, or on it, where
/// a point on each of the levels is, and where it lies to the side of the
/// line through those two points on which the line falls away.
pub proof fn lemma_inner_between_levels(ccw: bool, o: Pt, a: Pt, lo: Pt, hi: Pt, q: Pt)
    requires
        lo.y <= q.y <= hi.y,
        lo.y < hi.y,
        inner_or_on(ccw, turn(o, a, lo)),
        inner_or_on(ccw, turn(o, a, hi)),
        inner_or_on(ccw, (a.y - o.y) * turn(lo, hi, q)),
    ensures
        inner_or_on(ccw, turn(o, a, q)),
        inner(ccw, (a.y - o.y) * turn(lo, hi, q)) ==> inner(ccw, turn(o, a, q)),
{
    lemma_turn_along_level(o, a, lo, hi, q);
    lemma_weighted_inner(ccw, hi.y - q.y, turn(o, a, lo));
    lemma_weighted_inner(ccw, q.y - lo.y, turn(o, a, hi));
    lemma_inner_of_multiple(ccw, hi.y - lo.y, turn(o, a, q));
}

/// The same between two columns.
pub proof fn lemma_inner_between_columns(ccw: bool, o: Pt, a: Pt, lo: Pt, hi: Pt, q: Pt)
    requires
        lo.x <= q.x <= hi.x,
        lo.x < hi.x,
        inner_or_on(ccw, turn(o, a, lo)),
        inner_or_on(ccw, turn(o, a, hi)),
        inner_or_on(ccw, (a.x - o.x) * turn(lo, hi, q)),
    ensures
        inner_or_on(ccw, turn(o, a, q)),
{
    lemma_turn_along_column(o, a, lo, hi, q);
    lemma_weighted_inner(ccw, hi.x - q.x, turn(o, a, lo));
    lemma_weighted_inner(ccw, q.x - lo.x, turn(o, a, hi));
    lemma_inner_of_multiple(ccw, hi.x - lo.x, turn(o, a, q));
}

/// A point on an edge of a strictly convex polygon lies on the inner side of
/// every edge, or on it.
pub proof fn lemma_edge_points_inner_or_on(ring: Seq<Pt>, ccw: bool, j: int, i: int, q: Pt)
    requires
        strictly_convex(ring, ccw),
        0 <= i < ring.len(),
        0 <= j < ring.len(),
        on_edge(ring, j, q),
    ensures
        inner_or_on(ccw, edge_turn(ring, i, q)),
{
    let n = ring.len() as int;
    let o = ring[i];
    let a = ring[succ(n, i)];
    let c = ring[j];
    let d = ring[succ(n, j)];
    lemma_corners_inner_or_on(ring, ccw, i, j);
    lemma_corners_inner_or_on(ring, ccw, i, succ(n, j));
    lemma_turn_reversed(c, d, q);
    assert((a.y - o.y) * turn(c, d, q) == 0 && (a.y - o.y) * turn(d, c, q) == 0 && (a.x - o.x)
        * turn(c, d, q) == 0 && (a.x - o.x) * turn(d, c, q) == 0) by (nonlinear_arith)
        requires
            turn(c, d, q) == 0,
            turn(d, c, q) == 0,
    ;
    if c.y < d.y {
        lemma_inner_between_levels(ccw, o, a, c, d, q);
    } else if d.y < c.y {
        lemma_inner_between_levels(ccw, o, a, d, c, q);
    } else if c.x < d.x {
        lemma_inner_between_columns(ccw, o, a, c, d, q);
    } else if d.x < c.x {
        lemma_inner_between_columns(ccw, o, a, d, c, q);
    }
}

/// The sign of a product.
pub proof fn lemma_sign_of_two(x: int, y: int)
    ensures
        x >= 0 && y >= 0 ==> x * y >= 0,
        x <= 0 && y <= 0 ==> x * y >= 0,
        x >= 0 && y <= 0 ==> x * y <= 0,
        x <= 0 && y >= 0 ==> x * y <= 0,
        x > 0 && y > 0 ==> x * y > 0,
        x < 0 && y < 0 ==> x * y > 0,
        x > 0 && y < 0 ==> x * y < 0,
        x < 0 && y > 0 ==> x * y < 0,
{
    assert((x >= 0 && y >= 0 ==> x * y >= 0) && (x <= 0 && y <= 0 ==> x * y >= 0) && (x >= 0 && y
        <= 0 ==> x * y <= 0) && (x <= 0 && y >= 0 ==> x * y <= 0)) by (nonlinear_arith);
    assert((x > 0 && y > 0 ==> x * y > 0) && (x < 0 && y < 0 ==> x * y > 0) && (x > 0 && y < 0
        ==> x * y < 0) && (x < 0 && y > 0 ==> x * y < 0)) by (nonlinear_arith);
}

/// Where the ray from `q` crosses one of the two edges that lead past its
/// level and not the other, `q` lies on the inner side of every edge, or on
/// it.
pub proof fn lemma_odd_crossing_is_within(
    ring: Seq<Pt>,
    ccw: bool,
    q: Pt,
    u: int,
    e: int,
    i: int,
)
    requires
        strictly_convex(ring, ccw),
        0 <= u < ring.len(),
        0 <= e < ring.len(),
        0 <= i < ring.len(),
        leads_up(ring, u, q),
        leads_down(ring, e, q),
        edge_crossed(ring, u, q) != edge_crossed(ring, e, q),
    ensures
        inner_or_on(ccw, edge_turn(ring, i, q)),
{
    let n = ring.len() as int;
    let a = ring[u];
    let b = ring[succ(n, u)];
    let c = ring[e];
    let d = ring[succ(n, e)];
    let o = ring[i];
    let s = ring[succ(n, i)];
    let tu = turn(a, b, q);
    let fall = s.y - o.y;
    lemma_crossed_by_side(ring, e, q);
    lemma_corners_inner_or_on(ring, ccw, i, u);
    lemma_corners_inner_or_on(ring, ccw, i, succ(n, u));
    lemma_corners_inner_or_on(ring, ccw, i, e);
    lemma_corners_inner_or_on(ring, ccw, i, succ(n, e));
    lemma_corners_inner_or_on(ring, ccw, u, e);
    lemma_corners_inner_or_on(ring, ccw, u, succ(n, e));
    lemma_corners_inner_or_on(ring, ccw, e, u);
    lemma_corners_inner_or_on(ring, ccw, e, succ(n, u));
    lemma_sign_of_two(fall, tu);
    lemma_sign_of_two(fall, turn(d, c, q));
    lemma_sign_of_two(b.y - a.y, turn(d, c, q));
    lemma_sign_of_two(d.y - c.y, tu);
    let within = ccw == edge_crossed(ring, u, q);
    if within {
        // the ray crosses the edge on the far side only
        if fall >= 0 {
            lemma_inner_between_levels(ccw, o, s, a, b, q);
        } else {
            lemma_inner_between_levels(ccw, o, s, d, c, q);
        }
    } else if ccw {
        lemma_inner_between_levels(ccw, a, b, d, c, q);
    } else {
        lemma_inner_between_levels(ccw, c, d, a, b, q);
    }
}

/// A point that lies strictly on the outer side of an edge of a strictly
/// convex polygon is outside the polygon.
pub proof fn lemma_beyond_convex_is_outside(ring: Seq<Pt>, ccw: bool, q: Pt)
    requires
        strictly_convex(ring, ccw),
        strictly_beyond(ring, ccw, q),
    ensures
        locate(ring, q) == Containment::Outside,
{
    let n = ring.len() as int;
    let far = choose|i: int| 0 <= i < ring.len() && inner(!ccw, #[trigger] edge_turn(ring, i, q));
    if on_boundary(ring, q) {
        let j = choose|j: int| 0 <= j < ring.len() && on_edge(ring, j, q);
        lemma_edge_points_inner_or_on(ring, ccw, j, far, q);
    }
    if (exists|k: int| 0 <= k < ring.len() && (#[trigger] ring[k]).y > q.y) && (exists|k: int|
        0 <= k < ring.len() && (#[trigger] ring[k]).y <= q.y) {
        lemma_ways_past_level(ring, q);
        let u = choose|i: int| 0 <= i < ring.len() && #[trigger] leads_up(ring, i, q);
        let e = choose|i: int| 0 <= i < ring.len() && #[trigger] leads_down(ring, i, q);
        assert forall|i: int| 0 <= i < ring.len() && #[trigger] edge_crossed(ring, i, q) implies i == u || i == e by {
            if leads_up(ring, i, q) {
                lemma_one_way_up(ring, ccw, q, i, u);
            } else {
                lemma_one_way_down(ring, ccw, q, i, e);
            }
        }
        lemma_crossings_counted(ring, q, u, e, n);
        if edge_crossed(ring, u, q) != edge_crossed(ring, e, q) {
            lemma_odd_crossing_is_within(ring, ccw, q, u, e, far);
        }
    } else {
        assert forall|i: int| 0 <= i < ring.len() && #[trigger] edge_crossed(ring, i, q) implies i == -1 || i == -2 by {
        }
        lemma_crossings_counted(ring, q, -1, -2, n);
    }
}

/// Where `x * p == y * t`, with `t` strictly on the inner side and `p` on it
/// or on the line, `y` has the sign of `x`, or is zero.
pub proof fn lemma_sign_carried(ccw: bool, x: int, p: int, y: int, t: int)
    requires
        x * p == y * t,
        inner(ccw, t),
        inner_or_on(ccw, p),
    ensures
        x > 0 ==> y >= 0,
        x < 0 ==> y <= 0,
        x == 0 ==> y == 0,
{
    lemma_sign_of_two(x, p);
    lemma_sign_of_two(y, t);
    assert(x == 0 ==> x * p == 0) by (nonlinear_arith);
}

/// A point on the line of an edge of a strictly convex polygon that lies on
/// the inner side of the two neighbouring edges, or on them, lies on the
/// edge.
pub proof fn lemma_on_line_within_is_on_edge(ring: Seq<Pt>, ccw: bool, j: int, q: Pt)
    requires
        strictly_convex(ring, ccw),
        0 <= j < ring.len(),
        edge_turn(ring, j, q) == 0,
        inner_or_on(ccw, edge_turn(ring, pred(ring.len() as int, j), q)),
        inner_or_on(ccw, edge_turn(ring, succ(ring.len() as int, j), q)),
    ensures
        on_edge(ring, j, q),
{
    let n = ring.len() as int;
    let prv = pred(n, j);
    let nxt = succ(n, j);
    let c = ring[j];
    let d = ring[nxt];
    let before = ring[prv];
    let after = ring[succ(n, nxt)];
    // about the edge after: its first end is worth nothing, the first end of
    // this edge is strictly inside
    assert(inner(ccw, edge_turn(ring, nxt, ring[j])));
    let t_next = turn(d, after, c);
    let p_next = turn(d, after, q);
    assert(turn(d, after, d) == 0) by (nonlinear_arith);
    // about the edge before: its last end is worth nothing, the last end of
    // this edge is strictly inside
    assert(inner(ccw, edge_turn(ring, prv, ring[nxt])));
    let t_prev = turn(before, c, d);
    let p_prev = turn(before, c, q);
    assert(turn(before, c, c) == 0) by (nonlinear_arith);
    lemma_turn_along_level(d, after, c, d, q);
    lemma_turn_along_column(d, after, c, d, q);
    lemma_turn_along_level(before, c, c, d, q);
    lemma_turn_along_column(before, c, c, d, q);
    let line = turn(c, d, q);
    assert((after.y - d.y) * line == 0 && (after.x - d.x) * line == 0 && (c.y - before.y) * line
        == 0 && (c.x - before.x) * line == 0) by (nonlinear_arith)
        requires
            line == 0,
    ;
    assert((q.y - c.y) * turn(d, after, d) == 0 && (q.x - c.x) * turn(d, after, d) == 0)
        by (nonlinear_arith)
        requires
            turn(d, after, d) == 0,
    ;
    assert((d.y - q.y) * turn(before, c, c) == 0 && (d.x - q.x) * turn(before, c, c) == 0)
        by (nonlinear_arith)
        requires
            turn(before, c, c) == 0,
    ;
    lemma_sign_carried(ccw, d.y - c.y, p_next, d.y - q.y, t_next);
    lemma_sign_carried(ccw, d.x - c.x, p_next, d.x - q.x, t_next);
    lemma_sign_carried(ccw, d.y - c.y, p_prev, q.y - c.y, t_prev);
    lemma_sign_carried(ccw, d.x - c.x, p_prev, q.x - c.x, t_prev);
}

/// With respect to a strictly convex polygon a point is inside exactly where
/// it lies strictly on the inner side of every edge, and outside exactly
/// where it lies strictly on the outer side of some edge; everywhere else it
/// is on the boundary.
pub proof fn lemma_convex_location(ring: Seq<Pt>, ccw: bool, q: Pt)
    requires
        strictly_convex(ring, ccw),
    ensures
        locate(ring, q) == Containment::Inside <==> strictly_within(ring, ccw, q),
        locate(ring, q) == Containment::Outside <==> strictly_beyond(ring, ccw, q),
{
    if strictly_within(ring, ccw, q) {
        lemma_within_convex_is_inside(ring, ccw, q);
    } else if strictly_beyond(ring, ccw, q) {
        lemma_beyond_convex_is_outside(ring, ccw, q);
    } else {
        // on the line of some edge, and beyond none
        let j = choose|j: int| 0 <= j < ring.len() && !inner(ccw, #[trigger] edge_turn(ring, j, q));
        lemma_on_line_within_is_on_edge(ring, ccw, j, q);
    }
}

/// With respect to a strictly convex polygon a grid point is inside exactly
/// where it lies strictly on the inner side of every edge, and outside
/// exactly where it lies strictly on the outer side of some edge; everywhere
/// else it is on the boundary.
pub proof fn lemma_convex_containment(poly: Seq<Point>, ccw: bool, p: Point)
    requires
        strictly_convex(ring(poly, 1), ccw),
    ensures
        containment(poly, p) == Containment::Inside <==> strictly_within(ring(poly, 1), ccw, p@),
        containment(poly, p) == Containment::Outside <==> strictly_beyond(ring(poly, 1), ccw, p@),
{
    lemma_convex_location(ring(poly, 1), ccw, p@);
}

/// A strictly convex polygon stays strictly convex where it is magnified.
pub proof fn lemma_magnified_stays_convex(poly: Seq<Point>, ccw: bool, k: int)
    requires
        k >= 1,
        strictly_convex(ring(poly, 1), ccw),
    ensures
        strictly_convex(ring(poly, k), ccw),
{
    let small = ring(poly, 1);
    let large = ring(poly, k);
    let n = poly.len() as int;
    assert forall|i: int, j: int|
        0 <= i < large.len() && 0 <= j < large.len() && j != i && j != succ(large.len() as int, i)
            implies inner(ccw, #[trigger] edge_turn(large, i, large[j])) by {
        lemma_magnified_turn(poly[i], poly[succ(n, i)], poly[j], k);
        lemma_magnified_turn(poly[i], poly[succ(n, i)], poly[j], 1);
        let t = turn(poly[i]@, poly[succ(n, i)]@, poly[j]@);
        assert(edge_turn(small, i, small[j]) == 1 * 1 * t);
        assert(k * k >= 1) by (nonlinear_arith)
            requires
                k >= 1,
        ;
    }
}

/// A segment lies in a strictly convex polygon exactly where neither of its
/// ends is outside the polygon.
pub proof fn lemma_convex_holds_segments(poly: Seq<Point>, ccw: bool, a: Point, b: Point)
    requires
        strictly_convex(ring(poly, 1), ccw),
    ensures
        segment_inside(poly, a, b) <==> containment(poly, a) != Containment::Outside
            && containment(poly, b) != Containment::Outside,
{
    let n = poly.len() as int;
    let small = ring(poly, 1);
    let large = ring(poly, 2);
    if containment(poly, a) != Containment::Outside && containment(poly, b)
        != Containment::Outside {
        lemma_convex_containment(poly, ccw, a);
        lemma_convex_containment(poly, ccw, b);
        lemma_magnified_stays_convex(poly, ccw, 2);
        // the ends lie on the inner side of every edge, or on it; so do the
        // corners
        assert forall|i: int, u: Point|
            0 <= i < n && is_waypoint(poly, a, b, u) implies inner_or_on(
            ccw,
            #[trigger] turn(poly[i]@, poly[succ(n, i)]@, u@),
        ) by {
            if u == a || u == b {
                assert(!inner(!ccw, edge_turn(small, i, u@)));
            } else {
                let j = choose|j: int| 0 <= j < poly.len() && poly[j] == u;
                lemma_corners_inner_or_on(small, ccw, i, j);
            }
        }
        assert forall|u: Point, v: Point|
            is_waypoint(poly, a, b, u) && is_waypoint(poly, a, b, v) implies #[trigger] midpoint_covered(
            poly,
            u,
            v,
        ) by {
            let m = twice_midpoint(u, v);
            assert forall|i: int| 0 <= i < large.len() implies !inner(
                !ccw,
                #[trigger] edge_turn(large, i, m),
            ) by {
                lemma_turn_of_midpoint(poly[i], poly[succ(n, i)], u, v);
            }
            lemma_convex_location(large, ccw, m);
        }
    }
}

/// In a strictly convex polygon the tests that decide whether a segment lies
/// in the polygon mean what they are meant to: a segment passes them exactly
/// where no point that divides it is outside the polygon.
pub proof fn lemma_convex_segments_are_covered(poly: Seq<Point>, ccw: bool, a: Point, b: Point)
    requires
        strictly_convex(ring(poly, 1), ccw),
    ensures
        segment_inside(poly, a, b) <==> segment_covered(poly, a, b),
{
    let n = poly.len() as int;
    let small = ring(poly, 1);
    lemma_convex_holds_segments(poly, ccw, a, b);
    if segment_covered(poly, a, b) {
        lemma_covered_segment_has_covered_ends(poly, a, b);
    }
    if segment_inside(poly, a, b) {
        lemma_convex_containment(poly, ccw, a);
        lemma_convex_containment(poly, ccw, b);
        assert forall|k: int, j: int| 1 <= k && 0 <= j <= k implies locate(
            ring(poly, k),
            #[trigger] division_point(a, b, k, j),
        ) != Containment::Outside by {
            let large = ring(poly, k);
            let q = division_point(a, b, k, j);
            lemma_magnified_stays_convex(poly, ccw, k);
            assert forall|i: int| 0 <= i < large.len() implies !inner(
                !ccw,
                #[trigger] edge_turn(large, i, q),
            ) by {
                let c = poly[i];
                let d = poly[succ(n, i)];
                lemma_turn_of_division(c, d, a, b, k, j);
                let ta = turn(c@, d@, a@);
                let tb = turn(c@, d@, b@);
                assert(small[i] == c@ && small[succ(n, i)] == d@);
                assert(!inner(!ccw, edge_turn(small, i, a@)));
                assert(!inner(!ccw, edge_turn(small, i, b@)));
                lemma_weighted_inner(ccw, k - j, ta);
                lemma_weighted_inner(ccw, j, tb);
                lemma_weighted_inner(ccw, k, (k - j) * ta + j * tb);
            }
            lemma_convex_location(large, ccw, q);
        }
    }
}

} // verus!
