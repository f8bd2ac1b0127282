//! Facts that hold of the containment predicates for every polygon, and the
//! exact classification of points with respect to an upright rectangle.

use vstd::prelude::*;
use crate::point::Point;
use crate::polygon::{
    between, containment, crossings, division_point, edge_crossed, edge_cuts, is_waypoint, locate,
    midpoint_covered, on_boundary, on_edge, on_segment, ray_crosses, ring, scaled, segment_covered,
    segment_inside, succ, turn, twice_midpoint, Containment, Pt,
};

verus! {

/// A product with a positive factor has the sign of its other factor.
pub proof fn lemma_sign_of_product(c: int, d: int)
    requires
        c > 0,
    ensures
        c * d > 0 <==> d > 0,
        c * d < 0 <==> d < 0,
        c * d == 0 <==> d == 0,
        d * c == c * d,
{
    assert((c * d > 0 <==> d > 0) && (c * d < 0 <==> d < 0) && (c * d == 0 <==> d == 0) && d * c
        == c * d) by (nonlinear_arith)
        requires
            c > 0,
    ;
}

/// A point that lies on an edge of the polygon is on its boundary, never
/// inside or outside.
pub proof fn lemma_on_edge_is_boundary(poly: Seq<Point>, i: int, p: Point)
    requires
        0 <= i < poly.len(),
        on_segment(poly[i]@, poly[succ(poly.len() as int, i)]@, p@),
    ensures
        containment(poly, p) == Containment::OnBoundary,
{
    assert(on_edge(ring(poly, 1), i, p@));
}

/// Every corner of a polygon is on its boundary.
pub proof fn lemma_corner_is_boundary(poly: Seq<Point>, i: int)
    requires
        0 <= i < poly.len(),
    ensures
        containment(poly, poly[i]) == Containment::OnBoundary,
{
    let a = poly[i]@;
    let b = poly[succ(poly.len() as int, i)]@;
    assert(turn(a, b, a) == 0) by (nonlinear_arith);
    lemma_on_edge_is_boundary(poly, i, poly[i]);
}

/// The midpoint of an edge, where it is a grid point, is on the boundary.
pub proof fn lemma_edge_midpoint_is_boundary(poly: Seq<Point>, i: int, m: Point)
    requires
        0 <= i < poly.len(),
        2 * m.x == poly[i].x + poly[succ(poly.len() as int, i)].x,
        2 * m.y == poly[i].y + poly[succ(poly.len() as int, i)].y,
    ensures
        containment(poly, m) == Containment::OnBoundary,
{
    let a = poly[i]@;
    let b = poly[succ(poly.len() as int, i)]@;
    assert(turn(a, b, m@) == 0) by (nonlinear_arith)
        requires
            2 * m@.x == a.x + b.x,
            2 * m@.y == a.y + b.y,
    ;
    lemma_on_edge_is_boundary(poly, i, m);
}

/// The upright rectangle with the opposite corners `(x0, y0)` and `(x1, y1)`.
pub open spec fn rectangle(x0: i64, y0: i64, x1: i64, y1: i64) -> Seq<Point> {
    seq![
        Point { x: x0, y: y0 },
        Point { x: x0, y: y1 },
        Point { x: x1, y: y1 },
        Point { x: x1, y: y0 },
    ]
}

/// With respect to an upright rectangle a point is inside where both its
/// coordinates lie strictly between the rectangle's sides, on the boundary
/// where it lies on a side, and outside everywhere else.
pub proof fn lemma_rectangle_containment(x0: i64, y0: i64, x1: i64, y1: i64, p: Point)
    requires
        x0 < x1,
        y0 < y1,
    ensures
        containment(rectangle(x0, y0, x1, y1), p) == if x0 < p.x < x1 && y0 < p.y < y1 {
            Containment::Inside
        } else if x0 <= p.x <= x1 && y0 <= p.y <= y1 {
            Containment::OnBoundary
        } else {
            Containment::Outside
        },
{
    let poly = rectangle(x0, y0, x1, y1);
    let q = p@;
    let c0 = Pt { x: x0 as int, y: y0 as int };
    let c1 = Pt { x: x0 as int, y: y1 as int };
    let c2 = Pt { x: x1 as int, y: y1 as int };
    let c3 = Pt { x: x1 as int, y: y0 as int };
    let w = x1 - x0;
    let h = y1 - y0;
    // the four sides, each with the sign of `turn` on it
    assert(turn(c0, c1, q) == h * (x0 - q.x)) by (nonlinear_arith)
        requires
            c0.x == x0 && c0.y == y0 && c1.x == x0 && c1.y == y1 && h == y1 - y0,
    ;
    assert(turn(c1, c2, q) == w * (q.y - y1)) by (nonlinear_arith)
        requires
            c1.x == x0 && c1.y == y1 && c2.x == x1 && c2.y == y1 && w == x1 - x0,
    ;
    assert(turn(c2, c3, q) == h * (q.x - x1)) by (nonlinear_arith)
        requires
            c2.x == x1 && c2.y == y1 && c3.x == x1 && c3.y == y0 && h == y1 - y0,
    ;
    assert(turn(c3, c2, q) == h * (x1 - q.x)) by (nonlinear_arith)
        requires
            c2.x == x1 && c2.y == y1 && c3.x == x1 && c3.y == y0 && h == y1 - y0,
    ;
    assert(turn(c3, c0, q) == w * (y0 - q.y)) by (nonlinear_arith)
        requires
            c3.x == x1 && c3.y == y0 && c0.x == x0 && c0.y == y0 && w == x1 - x0,
    ;
    lemma_sign_of_product(h, x0 - q.x);
    lemma_sign_of_product(w, q.y - y1);
    lemma_sign_of_product(h, x1 - q.x);
    lemma_sign_of_product(w, y0 - q.y);
    assert(on_edge(ring(poly, 1), 0, q) <==> (q.x == x0 && y0 <= q.y <= y1));
    assert(on_edge(ring(poly, 1), 1, q) <==> (q.y == y1 && x0 <= q.x <= x1));
    assert(on_edge(ring(poly, 1), 2, q) <==> (q.x == x1 && y0 <= q.y <= y1));
    assert(on_edge(ring(poly, 1), 3, q) <==> (q.y == y0 && x0 <= q.x <= x1));
    assert(on_boundary(ring(poly, 1), q) <==> (x0 <= q.x <= x1 && y0 <= q.y <= y1 && (q.x == x0 || q.x
        == x1 || q.y == y0 || q.y == y1))) by {
    }
    reveal_with_fuel(crossings, 5);
}

/// A segment with an end outside the polygon does not lie in it; so a segment
/// that lies wholly outside does not.
pub proof fn lemma_outside_end_excludes_segment(poly: Seq<Point>, a: Point, b: Point)
    requires
        containment(poly, a) == Containment::Outside || containment(poly, b)
            == Containment::Outside,
    ensures
        !segment_inside(poly, a, b),
{
}

/// No two edges of the polygon properly cross, as in every simple polygon.
pub open spec fn edges_do_not_cross(poly: Seq<Point>) -> bool {
    forall|i: int, j: int|
        0 <= i < poly.len() && 0 <= j < poly.len() ==> !#[trigger] edge_cuts(
            poly,
            j,
            poly[i],
            poly[succ(poly.len() as int, i)],
        )
}

/// What the midpoint of two points is worth about a line, all magnified by
/// two, is twice what the two points are worth together.
pub proof fn lemma_turn_of_midpoint(a: Point, b: Point, u: Point, v: Point)
    ensures
        turn(scaled(a, 2), scaled(b, 2), twice_midpoint(u, v)) == 2 * turn(a@, b@, u@) + 2 * turn(
            a@,
            b@,
            v@,
        ),
{
    let a2 = scaled(a, 2);
    let b2 = scaled(b, 2);
    let m = twice_midpoint(u, v);
    assert(turn(a2, b2, m) == 2 * turn(a@, b@, u@) + 2 * turn(a@, b@, v@)) by (nonlinear_arith)
        requires
            a2.x == 2 * a@.x && a2.y == 2 * a@.y && b2.x == 2 * b@.x && b2.y == 2 * b@.y,
            m.x == u@.x + v@.x && m.y == u@.y + v@.y,
    ;
}

/// A point that lies on the segment from `a` to `b` twice over: the sum of two
/// points of the segment lies on the segment magnified by two.
pub proof fn lemma_midpoint_on_segment(a: Point, b: Point, u: Point, v: Point)
    requires
        on_segment(a@, b@, u@),
        on_segment(a@, b@, v@),
    ensures
        on_segment(scaled(a, 2), scaled(b, 2), twice_midpoint(u, v)),
{
    lemma_turn_of_midpoint(a, b, u, v);
}

/// An edge of a polygon whose edges do not cross lies in the polygon, taken
/// in either direction.
pub proof fn lemma_edge_is_inside(poly: Seq<Point>, i: int)
    requires
        0 <= i < poly.len(),
        edges_do_not_cross(poly),
    ensures
        segment_inside(poly, poly[i], poly[succ(poly.len() as int, i)]),
        segment_inside(poly, poly[succ(poly.len() as int, i)], poly[i]),
{
    let n = poly.len() as int;
    let a = poly[i];
    let b = poly[succ(n, i)];
    lemma_corner_is_boundary(poly, i);
    lemma_corner_is_boundary(poly, succ(n, i));
    assert(turn(a@, b@, a@) == 0) by (nonlinear_arith);
    assert(turn(a@, b@, b@) == 0) by (nonlinear_arith);
    assert forall|j: int| 0 <= j < poly.len() implies !edge_cuts(poly, j, b, a) by {
        assert(!edge_cuts(poly, j, a, b));
        let c = poly[j]@;
        let d = poly[succ(n, j)]@;
        assert(turn(b@, a@, c) == -turn(a@, b@, c)) by (nonlinear_arith);
        assert(turn(b@, a@, d) == -turn(a@, b@, d)) by (nonlinear_arith);
    }
    assert forall|u: Point, v: Point|
        (is_waypoint(poly, a, b, u) || is_waypoint(poly, b, a, u)) && (is_waypoint(poly, a, b, v)
            || is_waypoint(poly, b, a, v)) implies #[trigger] midpoint_covered(poly, u, v) by {
        assert(turn(b@, a@, u@) == -turn(a@, b@, u@)) by (nonlinear_arith);
        assert(turn(b@, a@, v@) == -turn(a@, b@, v@)) by (nonlinear_arith);
        lemma_midpoint_on_segment(a, b, u, v);
        assert(on_edge(ring(poly, 2), i, twice_midpoint(u, v)));
    }
}

/// Seen from the other end of a line, a point lies on the other side.
pub proof fn lemma_turn_reversed(a: Pt, b: Pt, q: Pt)
    ensures
        turn(b, a, q) == -turn(a, b, q),
{
    assert(turn(b, a, q) == -turn(a, b, q)) by (nonlinear_arith);
}

/// A segment that lies in the polygon does so in the other direction too.
pub proof fn lemma_segment_reversed(poly: Seq<Point>, a: Point, b: Point)
    requires
        segment_inside(poly, a, b),
    ensures
        segment_inside(poly, b, a),
{
    let n = poly.len() as int;
    assert forall|i: int| 0 <= i < poly.len() implies !edge_cuts(poly, i, b, a) by {
        assert(!edge_cuts(poly, i, a, b));
        lemma_turn_reversed(a@, b@, poly[i]@);
        lemma_turn_reversed(a@, b@, poly[succ(n, i)]@);
    }
    assert forall|u: Point, v: Point|
        is_waypoint(poly, b, a, u) && is_waypoint(poly, b, a, v) implies #[trigger] midpoint_covered(
        poly,
        u,
        v,
    ) by {
        lemma_turn_reversed(a@, b@, u@);
        lemma_turn_reversed(a@, b@, v@);
    }
}

/// Whether a segment lies in the polygon does not depend on its direction.
pub proof fn lemma_segment_inside_symmetric(poly: Seq<Point>, a: Point, b: Point)
    ensures
        segment_inside(poly, a, b) == segment_inside(poly, b, a),
{
    if segment_inside(poly, a, b) {
        lemma_segment_reversed(poly, a, b);
    }
    if segment_inside(poly, b, a) {
        lemma_segment_reversed(poly, b, a);
    }
}

/// Magnifying three points by `k` keeps the side on which the third lies, and
/// keeps the order of their coordinates.
pub proof fn lemma_magnified_turn(a: Point, b: Point, q: Point, k: int)
    requires
        k >= 1,
    ensures
        turn(scaled(a, k), scaled(b, k), scaled(q, k)) == k * k * turn(a@, b@, q@),
        turn(scaled(a, k), scaled(b, k), scaled(q, k)) > 0 <==> turn(a@, b@, q@) > 0,
        turn(scaled(a, k), scaled(b, k), scaled(q, k)) == 0 <==> turn(a@, b@, q@) == 0,
        between(k * a.x, k * b.x, k * q.x) <==> between(a.x as int, b.x as int, q.x as int),
        between(k * a.y, k * b.y, k * q.y) <==> between(a.y as int, b.y as int, q.y as int),
        k * a.y <= k * q.y <==> a.y <= q.y,
        k * q.y < k * b.y <==> q.y < b.y,
{
    let ka = scaled(a, k);
    let kb = scaled(b, k);
    let kq = scaled(q, k);
    let t = turn(a@, b@, q@);
    let u1 = b@.x - a@.x;
    let v1 = q@.y - a@.y;
    let u2 = b@.y - a@.y;
    let v2 = q@.x - a@.x;
    assert(kb.x - ka.x == k * u1 && kq.y - ka.y == k * v1 && kb.y - ka.y == k * u2 && kq.x - ka.x
        == k * v2) by (nonlinear_arith)
        requires
            ka.x == k * a@.x && ka.y == k * a@.y,
            kb.x == k * b@.x && kb.y == k * b@.y,
            kq.x == k * q@.x && kq.y == k * q@.y,
            u1 == b@.x - a@.x && v1 == q@.y - a@.y && u2 == b@.y - a@.y && v2 == q@.x - a@.x,
    ;
    assert((k * u1) * (k * v1) == k * k * (u1 * v1)) by (nonlinear_arith);
    assert((k * u2) * (k * v2) == k * k * (u2 * v2)) by (nonlinear_arith);
    assert(k * k * (u1 * v1) - k * k * (u2 * v2) == k * k * (u1 * v1 - u2 * v2))
        by (nonlinear_arith);
    assert(k * k >= 1) by (nonlinear_arith)
        requires
            k >= 1,
    ;
    lemma_sign_of_product(k * k, t);
    lemma_order_magnified(a.x as int, q.x as int, k);
    lemma_order_magnified(q.x as int, b.x as int, k);
    lemma_order_magnified(a.y as int, q.y as int, k);
    lemma_order_magnified(q.y as int, b.y as int, k);
}

/// Magnifying two numbers by `k` keeps their order.
pub proof fn lemma_order_magnified(x: int, y: int, k: int)
    requires
        k >= 1,
    ensures
        k * x <= k * y <==> x <= y,
        k * x < k * y <==> x < y,
{
    assert((k * x <= k * y <==> x <= y) && (k * x < k * y <==> x < y)) by (nonlinear_arith)
        requires
            k >= 1,
    ;
}

/// The ray from a magnified point crosses as many edges of the magnified
/// polygon as the ray from the point crosses edges of the polygon.
pub proof fn lemma_magnified_crossings(poly: Seq<Point>, k: int, p: Point, upto: int)
    requires
        k >= 1,
        0 <= upto <= poly.len(),
    ensures
        crossings(ring(poly, k), scaled(p, k), upto) == crossings(ring(poly, 1), p@, upto),
    decreases upto,
{
    if upto > 0 {
        lemma_magnified_crossings(poly, k, p, upto - 1);
        lemma_magnified_edge(poly, k, p, upto - 1);
    }
}

/// An edge of the magnified polygon holds the magnified point, or is crossed
/// by the ray from it, exactly where the same is true of the edge of the
/// polygon and the point.
pub proof fn lemma_magnified_edge(poly: Seq<Point>, k: int, p: Point, i: int)
    requires
        k >= 1,
        0 <= i < poly.len(),
    ensures
        on_edge(ring(poly, k), i, scaled(p, k)) == on_edge(ring(poly, 1), i, p@),
        edge_crossed(ring(poly, k), i, scaled(p, k)) == edge_crossed(ring(poly, 1), i, p@),
{
    let a = poly[i];
    let b = poly[succ(poly.len() as int, i)];
    lemma_magnified_turn(a, b, p, k);
    lemma_magnified_turn(b, a, p, k);
}

/// Magnifying a polygon and a point by the same factor does not change where
/// the point lies: so the midpoint of two grid points lies where its double
/// lies with respect to the polygon magnified by two.
pub proof fn lemma_magnification_keeps_containment(poly: Seq<Point>, k: int, p: Point)
    requires
        k >= 1,
    ensures
        locate(ring(poly, k), scaled(p, k)) == containment(poly, p),
{
    let q = scaled(p, k);
    lemma_magnified_crossings(poly, k, p, poly.len() as int);
    if on_boundary(ring(poly, k), q) {
        let i = choose|i: int| 0 <= i < poly.len() && on_edge(ring(poly, k), i, q);
        lemma_magnified_edge(poly, k, p, i);
    }
    if on_boundary(ring(poly, 1), p@) {
        let i = choose|i: int| 0 <= i < poly.len() && on_edge(ring(poly, 1), i, p@);
        lemma_magnified_edge(poly, k, p, i);
    }
}

/// What a point that divides a segment is worth about a line, all magnified
/// by the number of the parts, is what the ends of the segment are worth,
/// weighted by the parts on the other side.
pub proof fn lemma_turn_of_division(c: Point, d: Point, a: Point, b: Point, k: int, j: int)
    ensures
        turn(scaled(c, k), scaled(d, k), division_point(a, b, k, j)) == k * ((k - j) * turn(
            c@,
            d@,
            a@,
        ) + j * turn(c@, d@, b@)),
{
    let kc = scaled(c, k);
    let kd = scaled(d, k);
    let q = division_point(a, b, k, j);
    let ux = d@.x - c@.x;
    let uy = d@.y - c@.y;
    let ax = a@.x - c@.x;
    let ay = a@.y - c@.y;
    let bx = b@.x - c@.x;
    let by = b@.y - c@.y;
    let i = k - j;
    assert(kd.x - kc.x == k * ux && kd.y - kc.y == k * uy) by (nonlinear_arith)
        requires
            kc.x == k * c@.x && kc.y == k * c@.y && kd.x == k * d@.x && kd.y == k * d@.y,
            ux == d@.x - c@.x && uy == d@.y - c@.y,
    ;
    let qx = i * ax + j * bx;
    let qy = i * ay + j * by;
    assert(q.x - kc.x == qx && q.y - kc.y == qy) by (nonlinear_arith)
        requires
            q.x == i * a@.x + j * b@.x && q.y == i * a@.y + j * b@.y,
            kc.x == k * c@.x && kc.y == k * c@.y,
            i == k - j,
            ax == a@.x - c@.x && ay == a@.y - c@.y && bx == b@.x - c@.x && by == b@.y - c@.y,
            qx == i * ax + j * bx && qy == i * ay + j * by,
    ;
    let m1 = ux * ay;
    let m2 = ux * by;
    let m3 = uy * ax;
    let m4 = uy * bx;
    let ta = m1 - m3;
    let tb = m2 - m4;
    assert(ux * qy == i * m1 + j * m2) by (nonlinear_arith)
        requires
            qy == i * ay + j * by,
            m1 == ux * ay,
            m2 == ux * by,
    ;
    assert(uy * qx == i * m3 + j * m4) by (nonlinear_arith)
        requires
            qx == i * ax + j * bx,
            m3 == uy * ax,
            m4 == uy * bx,
    ;
    assert(i * ta == i * m1 - i * m3 && j * tb == j * m2 - j * m4) by (nonlinear_arith)
        requires
            ta == m1 - m3,
            tb == m2 - m4,
    ;
    assert((k * ux) * qy - (k * uy) * qx == k * (ux * qy - uy * qx)) by (nonlinear_arith);
}

/// The points that divide a segment lie between its ends.
pub proof fn lemma_division_between(x: int, y: int, k: int, j: int)
    requires
        1 <= k,
        0 <= j <= k,
    ensures
        between(k * x, k * y, (k - j) * x + j * y),
{
    assert(between(k * x, k * y, (k - j) * x + j * y)) by (nonlinear_arith)
        requires
            1 <= k,
            0 <= j <= k,
    ;
}

/// No point that divides an edge of a polygon is outside the polygon: each
/// lies on the edge.
pub proof fn lemma_edge_is_covered(poly: Seq<Point>, i: int)
    requires
        0 <= i < poly.len(),
    ensures
        segment_covered(poly, poly[i], poly[succ(poly.len() as int, i)]),
{
    let n = poly.len() as int;
    let a = poly[i];
    let b = poly[succ(n, i)];
    assert(turn(a@, b@, a@) == 0 && turn(a@, b@, b@) == 0) by (nonlinear_arith);
    assert forall|k: int, j: int| 1 <= k && 0 <= j <= k implies locate(
        ring(poly, k),
        #[trigger] division_point(a, b, k, j),
    ) != Containment::Outside by {
        let q = division_point(a, b, k, j);
        lemma_turn_of_division(a, b, a, b, k, j);
        assert(k * ((k - j) * 0 + j * 0) == 0) by (nonlinear_arith);
        lemma_division_between(a.x as int, b.x as int, k, j);
        lemma_division_between(a.y as int, b.y as int, k, j);
        assert(on_edge(ring(poly, k), i, q));
    }
}

/// A segment that no dividing point of which is outside has neither end
/// outside, and the midpoint of its ends is not outside.
pub proof fn lemma_covered_segment_has_covered_ends(poly: Seq<Point>, a: Point, b: Point)
    requires
        segment_covered(poly, a, b),
    ensures
        containment(poly, a) != Containment::Outside,
        containment(poly, b) != Containment::Outside,
        midpoint_covered(poly, a, b),
{
    assert(division_point(a, b, 1, 0) == a@);
    assert(division_point(a, b, 1, 1) == b@);
    assert(division_point(a, b, 2, 1) == twice_midpoint(a, b));
}

/// The point `q` with both coordinates multiplied by `c`.
pub open spec fn times(q: Pt, c: int) -> Pt {
    Pt { x: c * q.x, y: c * q.y }
}

/// Magnifying a segment and a point alike keeps the point on the segment or
/// off it, and keeps the ray from the point crossing the segment or not.
pub proof fn lemma_times_keeps_sides(a: Pt, b: Pt, q: Pt, c: int)
    requires
        c >= 1,
    ensures
        on_segment(times(a, c), times(b, c), times(q, c)) == on_segment(a, b, q),
        ray_crosses(times(a, c), times(b, c), times(q, c)) == ray_crosses(a, b, q),
{
    let ca = times(a, c);
    let cb = times(b, c);
    let cq = times(q, c);
    let ux = b.x - a.x;
    let uy = b.y - a.y;
    let vx = q.x - a.x;
    let vy = q.y - a.y;
    assert(cb.x - ca.x == c * ux && cb.y - ca.y == c * uy && cq.x - ca.x == c * vx && cq.y - ca.y
        == c * vy) by (nonlinear_arith)
        requires
            ca.x == c * a.x && ca.y == c * a.y && cb.x == c * b.x && cb.y == c * b.y && cq.x == c
                * q.x && cq.y == c * q.y,
            ux == b.x - a.x && uy == b.y - a.y && vx == q.x - a.x && vy == q.y - a.y,
    ;
    assert((c * ux) * (c * vy) == c * c * (ux * vy)) by (nonlinear_arith);
    assert((c * uy) * (c * vx) == c * c * (uy * vx)) by (nonlinear_arith);
    assert(c * c * (ux * vy) - c * c * (uy * vx) == c * c * (ux * vy - uy * vx))
        by (nonlinear_arith);
    assert(turn(ca, cb, cq) == c * c * turn(a, b, q));
    assert(c * c >= 1) by (nonlinear_arith)
        requires
            c >= 1,
    ;
    lemma_sign_of_product(c * c, turn(a, b, q));
    lemma_turn_reversed(a, b, q);
    lemma_turn_reversed(ca, cb, cq);
    lemma_order_magnified(a.x, q.x, c);
    lemma_order_magnified(q.x, b.x, c);
    lemma_order_magnified(b.x, q.x, c);
    lemma_order_magnified(q.x, a.x, c);
    lemma_order_magnified(a.y, q.y, c);
    lemma_order_magnified(q.y, b.y, c);
    lemma_order_magnified(b.y, q.y, c);
    lemma_order_magnified(q.y, a.y, c);
}

/// One ring is another magnified by `c`.
pub open spec fn is_magnified(small: Seq<Pt>, large: Seq<Pt>, c: int) -> bool {
    &&& large.len() == small.len()
    &&& forall|i: int| 0 <= i < small.len() ==> #[trigger] large[i] == times(small[i], c)
}

/// The ray from a magnified point crosses as many edges of the ring magnified
/// alike as the ray from the point crosses edges of the ring.
pub proof fn lemma_times_keeps_crossings(
    small: Seq<Pt>,
    large: Seq<Pt>,
    q: Pt,
    c: int,
    upto: int,
)
    requires
        c >= 1,
        is_magnified(small, large, c),
        0 <= upto <= small.len(),
    ensures
        crossings(large, times(q, c), upto) == crossings(small, q, upto),
    decreases upto,
{
    if upto > 0 {
        lemma_times_keeps_crossings(small, large, q, c, upto - 1);
        let n = small.len() as int;
        let i = upto - 1;
        assert(large[i] == times(small[i], c));
        assert(large[succ(n, i)] == times(small[succ(n, i)], c));
        lemma_times_keeps_sides(small[i], small[succ(n, i)], q, c);
    }
}

/// Magnifying a ring and a point alike does not change where the point lies.
pub proof fn lemma_times_keeps_location(small: Seq<Pt>, large: Seq<Pt>, q: Pt, c: int)
    requires
        c >= 1,
        is_magnified(small, large, c),
    ensures
        locate(large, times(q, c)) == locate(small, q),
{
    let n = small.len() as int;
    lemma_times_keeps_crossings(small, large, q, c, n);
    assert forall|i: int| 0 <= i < n implies on_edge(large, i, times(q, c)) == on_edge(
        small,
        i,
        q,
    ) by {
        assert(large[i] == times(small[i], c));
        assert(large[succ(n, i)] == times(small[succ(n, i)], c));
        lemma_times_keeps_sides(small[i], small[succ(n, i)], q, c);
    }
    if on_boundary(small, q) {
        let i = choose|i: int| 0 <= i < small.len() && on_edge(small, i, q);
        assert(on_edge(large, i, times(q, c)));
    }
    if on_boundary(large, times(q, c)) {
        let i = choose|i: int| 0 <= i < large.len() && on_edge(large, i, times(q, c));
        assert(on_edge(small, i, q));
    }
}

/// A grid point on a segment divides the segment in equal parts: magnified by
/// the number of the parts, it is one of the dividing points.
pub proof fn lemma_grid_point_divides(a: Point, b: Point, u: Point) -> (parts: (int, int))
    requires
        on_segment(a@, b@, u@),
    ensures
        1 <= parts.0,
        0 <= parts.1 <= parts.0,
        division_point(a, b, parts.0, parts.1) == scaled(u, parts.0),
{
    let dx = b.x - a.x;
    let dy = b.y - a.y;
    let ex = u.x - a.x;
    let ey = u.y - a.y;
    assert(dx * ey - dy * ex == 0);
    // the parts are counted along the axis on which the ends differ, from `a`
    let (k, j) = if dx > 0 {
        (dx, ex)
    } else if dx < 0 {
        (-dx, -ex)
    } else if dy > 0 {
        (dy, ey)
    } else if dy < 0 {
        (-dy, -ey)
    } else {
        (1int, 0int)
    };
    let q = division_point(a, b, k, j);
    assert(q.x == k * a.x + j * dx && q.y == k * a.y + j * dy) by (nonlinear_arith)
        requires
            q.x == (k - j) * a.x + j * b.x && q.y == (k - j) * a.y + j * b.y,
            dx == b.x - a.x && dy == b.y - a.y,
    ;
    assert(j * dx == k * ex && j * dy == k * ey) by (nonlinear_arith)
        requires
            dx * ey - dy * ex == 0,
            (k == dx && j == ex) || (k == -dx && j == -ex) || (dx == 0 && ex == 0 && ((k == dy
                && j == ey) || (k == -dy && j == -ey) || (dy == 0 && ey == 0 && k == 1 && j
                == 0))),
    ;
    assert(k * a.x + k * ex == k * u.x && k * a.y + k * ey == k * u.y) by (nonlinear_arith)
        requires
            ex == u.x - a.x && ey == u.y - a.y,
    ;
    (k, j)
}

/// Two ways of dividing the way from `x` to `y`, mixed in equal shares, divide
/// it in twice the product of their parts.
pub proof fn lemma_divisions_mixed(k1: int, j1: int, k2: int, j2: int, x: int, y: int)
    ensures
        (2 * (k1 * k2) - (j1 * k2 + j2 * k1)) * x + (j1 * k2 + j2 * k1) * y == k2 * ((k1 - j1) * x
            + j1 * y) + k1 * ((k2 - j2) * x + j2 * y),
{
    let near = 2 * (k1 * k2) - (j1 * k2 + j2 * k1);
    let far = j1 * k2 + j2 * k1;
    assert(near == k2 * (k1 - j1) + k1 * (k2 - j2)) by (nonlinear_arith)
        requires
            near == 2 * (k1 * k2) - (j1 * k2 + j2 * k1),
    ;
    assert(near * x == k2 * ((k1 - j1) * x) + k1 * ((k2 - j2) * x)) by (nonlinear_arith)
        requires
            near == k2 * (k1 - j1) + k1 * (k2 - j2),
    ;
    assert(far * y == k2 * (j1 * y) + k1 * (j2 * y)) by (nonlinear_arith)
        requires
            far == j1 * k2 + j2 * k1,
    ;
    assert(k2 * ((k1 - j1) * x + j1 * y) == k2 * ((k1 - j1) * x) + k2 * (j1 * y))
        by (nonlinear_arith);
    assert(k1 * ((k2 - j2) * x + j2 * y) == k1 * ((k2 - j2) * x) + k1 * (j2 * y))
        by (nonlinear_arith);
}

/// Where no point that divides a segment is outside the polygon, the
/// midpoint of any two grid points of the segment is not outside.
pub proof fn lemma_covered_midpoints(poly: Seq<Point>, a: Point, b: Point, u: Point, v: Point)
    requires
        segment_covered(poly, a, b),
        on_segment(a@, b@, u@),
        on_segment(a@, b@, v@),
    ensures
        midpoint_covered(poly, u, v),
{
    let (k1, j1) = lemma_grid_point_divides(a, b, u);
    let (k2, j2) = lemma_grid_point_divides(a, b, v);
    let c = k1 * k2;
    let parts = 2 * c;
    let first = j1 * k2 + j2 * k1;
    assert(c >= 1 && 0 <= first <= parts) by (nonlinear_arith)
        requires
            1 <= k1 && 0 <= j1 <= k1 && 1 <= k2 && 0 <= j2 <= k2,
            c == k1 * k2,
            parts == 2 * c,
            first == j1 * k2 + j2 * k1,
    ;
    let q = division_point(a, b, parts, first);
    let m = twice_midpoint(u, v);
    let du = division_point(a, b, k1, j1);
    let dv = division_point(a, b, k2, j2);
    lemma_divisions_mixed(k1, j1, k2, j2, a.x as int, b.x as int);
    lemma_divisions_mixed(k1, j1, k2, j2, a.y as int, b.y as int);
    assert(k2 * du.x + k1 * dv.x == c * m.x && k2 * du.y + k1 * dv.y == c * m.y)
        by (nonlinear_arith)
        requires
            du.x == k1 * u.x && du.y == k1 * u.y && dv.x == k2 * v.x && dv.y == k2 * v.y,
            m.x == u.x + v.x && m.y == u.y + v.y,
            c == k1 * k2,
    ;
    assert(q == times(m, c));
    let small = ring(poly, 2);
    let large = ring(poly, parts);
    assert forall|i: int| 0 <= i < small.len() implies #[trigger] large[i] == times(
        small[i],
        c,
    ) by {
        assert((2 * c) * poly[i].x == c * (2 * poly[i].x) && (2 * c) * poly[i].y == c * (2
            * poly[i].y)) by (nonlinear_arith);
    }
    lemma_times_keeps_location(small, large, m, c);
}

/// Where no point that divides a segment is outside the polygon, the segment
/// passes the tests on its ends and on the midpoints of its waypoints.
pub proof fn lemma_covered_segment_passes_point_tests(poly: Seq<Point>, a: Point, b: Point)
    requires
        segment_covered(poly, a, b),
    ensures
        containment(poly, a) != Containment::Outside,
        containment(poly, b) != Containment::Outside,
        forall|u: Point, v: Point|
            is_waypoint(poly, a, b, u) && is_waypoint(poly, a, b, v) ==> #[trigger] midpoint_covered(
                poly,
                u,
                v,
            ),
{
    lemma_covered_segment_has_covered_ends(poly, a, b);
    assert(turn(a@, b@, a@) == 0 && turn(a@, b@, b@) == 0) by (nonlinear_arith);
    assert forall|u: Point, v: Point|
        is_waypoint(poly, a, b, u) && is_waypoint(poly, a, b, v) implies #[trigger] midpoint_covered(
        poly,
        u,
        v,
    ) by {
        lemma_covered_midpoints(poly, a, b, u, v);
    }
}

} // verus!
