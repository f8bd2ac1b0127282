//! What the tests on a segment establish: a segment that passes them has no
//! dividing point outside the polygon, whatever the polygon; and the tests
//! hold exactly where no dividing point is outside and no edge properly
//! crosses the segment.

use vstd::prelude::*;
use crate::convex::{
    inner, inner_or_on, lemma_sign_of_two, lemma_turn_along_column, lemma_turn_along_level,
};
use crate::parity::{apart, lemma_clear_segment_keeps_location, lemma_four_turns};
use crate::point::Point;
use crate::polygon::{
    between, division_point, edge_cuts, is_waypoint, locate, midpoint_covered, on_boundary,
    on_edge, on_segment, opposite, properly_cross, ring, scaled, segment_covered, segment_inside,
    succ, turn, twice_midpoint, Containment, Pt,
};
use crate::polygon_laws::{
    is_magnified, lemma_corner_is_boundary, lemma_covered_segment_passes_point_tests,
    lemma_magnification_keeps_containment, lemma_magnified_turn, lemma_times_keeps_location,
    lemma_turn_reversed, times,
};

verus! {

/// How far along the direction from `a` to `b` the point `p` lies from `a`,
/// in units of which the way from `a` to `b` holds as many as `span` says;
/// `p` and `a` are taken at the magnification `s`.
pub open spec fn along(a: Point, b: Point, s: int, p: Pt) -> int {
    (p.x - s * a.x) * (b.x - a.x) + (p.y - s * a.y) * (b.y - a.y)
}

/// How far off the line through `a` and `b` the point `p` lies; nothing where
/// it lies on the line. `p` and `a` are taken at the magnification `s`.
pub open spec fn off(a: Point, b: Point, s: int, p: Pt) -> int {
    (b.x - a.x) * (p.y - s * a.y) - (b.y - a.y) * (p.x - s * a.x)
}

/// The squared length of the segment from `a` to `b`.
pub open spec fn span(a: Point, b: Point) -> int {
    (b.x - a.x) * (b.x - a.x) + (b.y - a.y) * (b.y - a.y)
}

/// Two points on the line through `a` and `b` differ by the direction of the
/// line, as many times as they differ along it.
pub proof fn lemma_on_line_by_along(a: Point, b: Point, s: int, p: Pt, x: Pt)
    requires
        off(a, b, s, p) == 0,
        off(a, b, s, x) == 0,
    ensures
        (p.x - x.x) * span(a, b) == (along(a, b, s, p) - along(a, b, s, x)) * (b.x - a.x),
        (p.y - x.y) * span(a, b) == (along(a, b, s, p) - along(a, b, s, x)) * (b.y - a.y),
{
    let dx = b.x - a.x;
    let dy = b.y - a.y;
    let ex = p.x - x.x;
    let ey = p.y - x.y;
    let diff = along(a, b, s, p) - along(a, b, s, x);
    assert(diff == ex * dx + ey * dy) by (nonlinear_arith)
        requires
            diff == ((p.x - s * a.x) * dx + (p.y - s * a.y) * dy) - ((x.x - s * a.x) * dx + (x.y
                - s * a.y) * dy),
            ex == p.x - x.x,
            ey == p.y - x.y,
    ;
    assert(dx * ey - dy * ex == 0) by (nonlinear_arith)
        requires
            dx * (p.y - s * a.y) - dy * (p.x - s * a.x) == 0,
            dx * (x.y - s * a.y) - dy * (x.x - s * a.x) == 0,
            ex == p.x - x.x,
            ey == p.y - x.y,
    ;
    let m1 = ex * (dx * dx);
    let m2 = ex * (dy * dy);
    let m3 = ey * (dy * dx);
    assert(ex * (dx * dx + dy * dy) == m1 + m2) by (nonlinear_arith)
        requires
            m1 == ex * (dx * dx),
            m2 == ex * (dy * dy),
    ;
    assert((ex * dx + ey * dy) * dx == m1 + m3) by (nonlinear_arith)
        requires
            m1 == ex * (dx * dx),
            m3 == ey * (dy * dx),
    ;
    assert(m2 == m3) by (nonlinear_arith)
        requires
            m2 == ex * (dy * dy),
            m3 == ey * (dy * dx),
            dx * ey == dy * ex,
    ;
    let n1 = ey * (dx * dx);
    let n2 = ey * (dy * dy);
    let n3 = ex * (dx * dy);
    assert(ey * (dx * dx + dy * dy) == n1 + n2) by (nonlinear_arith)
        requires
            n1 == ey * (dx * dx),
            n2 == ey * (dy * dy),
    ;
    assert((ex * dx + ey * dy) * dy == n3 + n2) by (nonlinear_arith)
        requires
            n3 == ex * (dx * dy),
            n2 == ey * (dy * dy),
    ;
    assert(n1 == n3) by (nonlinear_arith)
        requires
            n1 == ey * (dx * dx),
            n3 == ex * (dx * dy),
            dx * ey == dy * ex,
    ;
}

/// Three points on the line through `a` and `b` are in line, and the one that
/// lies between the others along the line lies on the segment that joins
/// them; and on no segment that joins two of them lies one that is not
/// between them along the line.
pub proof fn lemma_segment_by_along(a: Point, b: Point, s: int, x: Pt, y: Pt, p: Pt)
    requires
        a != b,
        off(a, b, s, x) == 0,
        off(a, b, s, y) == 0,
        off(a, b, s, p) == 0,
    ensures
        on_segment(x, y, p) == between(along(a, b, s, x), along(a, b, s, y), along(a, b, s, p)),
{
    let dx = b.x - a.x;
    let dy = b.y - a.y;
    let dd = span(a, b);
    assert(dd > 0) by (nonlinear_arith)
        requires
            dd == dx * dx + dy * dy,
            dx != 0 || dy != 0,
    ;
    let ax = along(a, b, s, x);
    let ay = along(a, b, s, y);
    let ap = along(a, b, s, p);
    lemma_on_line_by_along(a, b, s, p, x);
    lemma_on_line_by_along(a, b, s, y, x);
    lemma_on_line_by_along(a, b, s, y, p);
    // in line: the differences are multiples of one direction
    let ux = y.x - x.x;
    let uy = y.y - x.y;
    let vx = p.x - x.x;
    let vy = p.y - x.y;
    let t = turn(x, y, p);
    let gy = ay - ax;
    let gp = ap - ax;
    assert((gy * dx) * (gp * dy) == (gy * dy) * (gp * dx)) by (nonlinear_arith);
    let e = dd * dd;
    let p1 = ux * vy;
    let p2 = uy * vx;
    assert((ux * dd) * (vy * dd) == e * p1) by (nonlinear_arith)
        requires
            e == dd * dd,
            p1 == ux * vy,
    ;
    assert((uy * dd) * (vx * dd) == e * p2) by (nonlinear_arith)
        requires
            e == dd * dd,
            p2 == uy * vx,
    ;
    assert(e * p1 - e * p2 == e * (p1 - p2)) by (nonlinear_arith);
    assert(t == 0) by (nonlinear_arith)
        requires
            (dd * dd) * t == 0,
            dd > 0,
    ;
    // the order of the coordinates is the order along the line, or its reverse
    lemma_sign_of_two(ap - ax, dx);
    lemma_sign_of_two(ay - ap, dx);
    lemma_sign_of_two(ap - ax, dy);
    lemma_sign_of_two(ay - ap, dy);
    lemma_sign_of_two(vx, dd);
    lemma_sign_of_two(vy, dd);
    lemma_sign_of_two(y.x - p.x, dd);
    lemma_sign_of_two(y.y - p.y, dd);
}

/// Where the grid point `w` lies along the segment from `a` to `b`.
pub open spec fn place(a: Point, b: Point, w: Point) -> int {
    along(a, b, 1, w@)
}

/// A grid point of the segment from `a` to `b` lies on the line, between the
/// ends.
pub proof fn lemma_place_of_grid_point(a: Point, b: Point, w: Point)
    requires
        a != b,
    ensures
        off(a, b, 1, w@) == turn(a@, b@, w@),
        place(a, b, a) == 0,
        place(a, b, b) == span(a, b),
        on_segment(a@, b@, w@) <==> off(a, b, 1, w@) == 0 && 0 <= place(a, b, w) <= span(a, b),
{
    assert(off(a, b, 1, a@) == 0 && off(a, b, 1, b@) == 0 && along(a, b, 1, a@) == 0) by (nonlinear_arith)
        requires
            off(a, b, 1, a@) == (b.x - a.x) * (a.y - 1 * a.y) - (b.y - a.y) * (a.x - 1 * a.x),
            off(a, b, 1, b@) == (b.x - a.x) * (b.y - 1 * a.y) - (b.y - a.y) * (b.x - 1 * a.x),
            along(a, b, 1, a@) == (a.x - 1 * a.x) * (b.x - a.x) + (a.y - 1 * a.y) * (b.y - a.y),
    ;
    if off(a, b, 1, w@) == 0 {
        lemma_segment_by_along(a, b, 1, a@, b@, w@);
        assert(span(a, b) >= 0) by (nonlinear_arith)
            requires
                span(a, b) == (b.x - a.x) * (b.x - a.x) + (b.y - a.y) * (b.y - a.y),
        ;
    }
}

/// A point that divides the segment lies on the line, as far along as its
/// share of the parts says.
pub proof fn lemma_place_of_division(a: Point, b: Point, k: int, j: int)
    ensures
        off(a, b, k, division_point(a, b, k, j)) == 0,
        along(a, b, k, division_point(a, b, k, j)) == j * span(a, b),
{
    let q = division_point(a, b, k, j);
    let dx = b.x - a.x;
    let dy = b.y - a.y;
    assert(q.x - k * a.x == j * dx && q.y - k * a.y == j * dy) by (nonlinear_arith)
        requires
            q.x == (k - j) * a.x + j * b.x,
            q.y == (k - j) * a.y + j * b.y,
            dx == b.x - a.x,
            dy == b.y - a.y,
    ;
    assert(dx * (j * dy) - dy * (j * dx) == 0) by (nonlinear_arith);
    assert((j * dx) * dx + (j * dy) * dy == j * (dx * dx + dy * dy)) by (nonlinear_arith);
}

/// Magnifying a point magnifies how far along the line it lies, and how far
/// off it.
pub proof fn lemma_place_magnified(a: Point, b: Point, s: int, p: Pt, c: int)
    ensures
        along(a, b, c * s, times(p, c)) == c * along(a, b, s, p),
        off(a, b, c * s, times(p, c)) == c * off(a, b, s, p),
{
    let dx = b.x - a.x;
    let dy = b.y - a.y;
    let rx = p.x - s * a.x;
    let ry = p.y - s * a.y;
    let cp = times(p, c);
    assert(cp.x - (c * s) * a.x == c * rx && cp.y - (c * s) * a.y == c * ry) by (nonlinear_arith)
        requires
            cp.x == c * p.x,
            cp.y == c * p.y,
            rx == p.x - s * a.x,
            ry == p.y - s * a.y,
    ;
    assert((c * rx) * dx + (c * ry) * dy == c * (rx * dx + ry * dy)) by (nonlinear_arith);
    assert(dx * (c * ry) - dy * (c * rx) == c * (dx * ry - dy * rx)) by (nonlinear_arith);
}

/// The midpoint of two grid points, magnified by two, lies as far along the
/// line as the two points together, and as far off it.
pub proof fn lemma_place_of_midpoint(a: Point, b: Point, u: Point, v: Point)
    ensures
        along(a, b, 2, twice_midpoint(u, v)) == place(a, b, u) + place(a, b, v),
        off(a, b, 2, twice_midpoint(u, v)) == off(a, b, 1, u@) + off(a, b, 1, v@),
{
    let dx = b.x - a.x;
    let dy = b.y - a.y;
    let ux = u.x - 1 * a.x;
    let uy = u.y - 1 * a.y;
    let vx = v.x - 1 * a.x;
    let vy = v.y - 1 * a.y;
    assert((ux + vx) * dx + (uy + vy) * dy == (ux * dx + uy * dy) + (vx * dx + vy * dy))
        by (nonlinear_arith);
    assert(dx * (uy + vy) - dy * (ux + vx) == (dx * uy - dy * ux) + (dx * vy - dy * vx))
        by (nonlinear_arith);
}

/// The waypoints next to a dividing point: among the ends of the segment and
/// the first corners of the polygon that lie on it, the last at or before the
/// dividing point and the first at or after it. No corner among those lies
/// strictly between the two.
pub proof fn lemma_nearest_waypoints(
    poly: Seq<Point>,
    a: Point,
    b: Point,
    k: int,
    j: int,
    upto: int,
) -> (ends: (Point, Point))
    requires
        a != b,
        1 <= k,
        0 <= j <= k,
        0 <= upto <= poly.len(),
    ensures
        is_waypoint(poly, a, b, ends.0),
        is_waypoint(poly, a, b, ends.1),
        on_segment(a@, b@, ends.0@),
        on_segment(a@, b@, ends.1@),
        k * place(a, b, ends.0) <= j * span(a, b) <= k * place(a, b, ends.1),
        forall|i: int|
            0 <= i < upto && on_segment(a@, b@, (#[trigger] poly[i])@) ==> !(place(a, b, ends.0)
                < place(a, b, poly[i]) < place(a, b, ends.1)),
    decreases upto,
{
    lemma_place_of_grid_point(a, b, a);
    if upto == 0 {
        assert(0 <= j * span(a, b) <= k * span(a, b)) by (nonlinear_arith)
            requires
                0 <= j <= k,
                span(a, b) >= 0,
        ;
        (a, b)
    } else {
        let (lo, hi) = lemma_nearest_waypoints(poly, a, b, k, j, upto - 1);
        let w = poly[upto - 1];
        if on_segment(a@, b@, w@) {
            if k * place(a, b, w) <= j * span(a, b) && place(a, b, lo) < place(a, b, w) {
                (w, hi)
            } else if k * place(a, b, w) >= j * span(a, b) && place(a, b, w) < place(a, b, hi) {
                (lo, w)
            } else {
                assert(k * (place(a, b, w) - place(a, b, lo)) == k * place(a, b, w) - k * place(
                    a,
                    b,
                    lo,
                )) by (nonlinear_arith);
                assert(k * (place(a, b, hi) - place(a, b, w)) == k * place(a, b, hi) - k * place(
                    a,
                    b,
                    w,
                )) by (nonlinear_arith);
                (lo, hi)
            }
        } else {
            (lo, hi)
        }
    }
}

/// What a point is worth about the line through two points of the line
/// through `a` and `b`: how far off that line it lies, as many times as the
/// two points differ along the line, in units of `span`.
pub proof fn lemma_turn_by_off(a: Point, b: Point, s: int, x: Pt, y: Pt, p: Pt)
    requires
        off(a, b, s, x) == 0,
        off(a, b, s, y) == 0,
    ensures
        span(a, b) * turn(x, y, p) == (along(a, b, s, y) - along(a, b, s, x)) * off(a, b, s, p),
{
    let dx = b.x - a.x;
    let dy = b.y - a.y;
    let dd = span(a, b);
    let gap = along(a, b, s, y) - along(a, b, s, x);
    lemma_on_line_by_along(a, b, s, y, x);
    let ux = y.x - x.x;
    let uy = y.y - x.y;
    let vx = p.x - x.x;
    let vy = p.y - x.y;
    let t = turn(x, y, p);
    assert(dd * t == (ux * dd) * vy - (uy * dd) * vx) by (nonlinear_arith)
        requires
            t == ux * vy - uy * vx,
    ;
    assert((gap * dx) * vy - (gap * dy) * vx == gap * (dx * vy - dy * vx)) by (nonlinear_arith);
    assert(dx * vy - dy * vx == off(a, b, s, p) - off(a, b, s, x)) by (nonlinear_arith)
        requires
            vx == p.x - x.x,
            vy == p.y - x.y,
            off(a, b, s, p) == dx * (p.y - s * a.y) - dy * (p.x - s * a.x),
            off(a, b, s, x) == dx * (x.y - s * a.y) - dy * (x.x - s * a.x),
    ;
}

/// What a point is worth about the segment from `a` to `b`, magnified: how
/// far off the line it lies, as many times as the magnification says.
pub proof fn lemma_turn_about_base(a: Point, b: Point, s: int, p: Pt)
    ensures
        turn(scaled(a, s), scaled(b, s), p) == s * off(a, b, s, p),
{
    let sa = scaled(a, s);
    let sb = scaled(b, s);
    let dx = b.x - a.x;
    let dy = b.y - a.y;
    let rx = p.x - s * a.x;
    let ry = p.y - s * a.y;
    assert(sb.x - sa.x == s * dx && sb.y - sa.y == s * dy) by (nonlinear_arith)
        requires
            sa.x == s * a.x && sa.y == s * a.y && sb.x == s * b.x && sb.y == s * b.y,
            dx == b.x - a.x,
            dy == b.y - a.y,
    ;
    assert((s * dx) * ry - (s * dy) * rx == s * (dx * ry - dy * rx)) by (nonlinear_arith);
}

/// A point of a segment lies on the side of a line on which both ends of the
/// segment lie, or on the line; and strictly on that side where one end does
/// and the point is not the other end.
pub proof fn lemma_side_along_segment(ccw: bool, o: Pt, a: Pt, x: Pt, y: Pt, p: Pt)
    requires
        on_segment(x, y, p),
        inner_or_on(ccw, turn(o, a, x)),
        inner_or_on(ccw, turn(o, a, y)),
    ensures
        inner_or_on(ccw, turn(o, a, p)),
        inner(ccw, turn(o, a, y)) && p != x ==> inner(ccw, turn(o, a, p)),
{
    let tx = turn(o, a, x);
    let ty = turn(o, a, y);
    let tp = turn(o, a, p);
    lemma_turn_along_level(o, a, x, y, p);
    lemma_turn_along_column(o, a, x, y, p);
    assert((a.y - o.y) * turn(x, y, p) == 0 && (a.x - o.x) * turn(x, y, p) == 0)
        by (nonlinear_arith)
        requires
            turn(x, y, p) == 0,
    ;
    lemma_sign_of_two(y.y - p.y, tx);
    lemma_sign_of_two(p.y - x.y, ty);
    lemma_sign_of_two(y.x - p.x, tx);
    lemma_sign_of_two(p.x - x.x, ty);
    lemma_sign_of_two(y.y - x.y, tp);
    lemma_sign_of_two(y.x - x.x, tp);
}

/// What the ends of two segments are worth about each other's lines, each
/// taken at the column of an end of the other.
pub proof fn lemma_four_turns_by_column(q: Pt, m: Pt, u: Pt, v: Pt)
    ensures
        (m.x - u.x) * turn(u, v, q) + (u.x - q.x) * turn(u, v, m) + (v.x - u.x) * turn(q, m, u)
            == 0,
        (m.x - v.x) * turn(u, v, q) + (v.x - q.x) * turn(u, v, m) + (v.x - u.x) * turn(q, m, v)
            == 0,
{
    lemma_turn_along_column(u, v, q, m, u);
    lemma_turn_along_column(u, v, q, m, v);
    assert(turn(u, v, u) == 0 && turn(u, v, v) == 0) by (nonlinear_arith);
    assert((m.x - q.x) * turn(u, v, u) == 0 && (m.x - q.x) * turn(u, v, v) == 0)
        by (nonlinear_arith)
        requires
            turn(u, v, u) == 0 && turn(u, v, v) == 0,
    ;
}

/// Two points that both lie on the line of a segment of some length put the
/// ends of the segment on their own line.
pub proof fn lemma_line_through_both(q: Pt, m: Pt, u: Pt, v: Pt)
    requires
        turn(u, v, q) == 0,
        turn(u, v, m) == 0,
        u != v,
    ensures
        turn(q, m, u) == 0,
        turn(q, m, v) == 0,
{
    lemma_four_turns(q, m, u, v);
    lemma_four_turns_by_column(q, m, u, v);
    let tq = turn(u, v, q);
    let tm = turn(u, v, m);
    assert((m.y - u.y) * tq == 0 && (u.y - q.y) * tm == 0 && (m.y - v.y) * tq == 0 && (v.y - q.y)
        * tm == 0 && (m.x - u.x) * tq == 0 && (u.x - q.x) * tm == 0 && (m.x - v.x) * tq == 0 && (
    v.x - q.x) * tm == 0) by (nonlinear_arith)
        requires
            tq == 0,
            tm == 0,
    ;
    lemma_sign_of_two(v.y - u.y, turn(q, m, u));
    lemma_sign_of_two(v.y - u.y, turn(q, m, v));
    lemma_sign_of_two(v.x - u.x, turn(q, m, u));
    lemma_sign_of_two(v.x - u.x, turn(q, m, v));
}

/// A dividing point that lies where a waypoint lies is not outside the
/// polygon, where the segment passes the tests.
pub proof fn lemma_division_at_waypoint(
    poly: Seq<Point>,
    a: Point,
    b: Point,
    k: int,
    j: int,
    w: Point,
)
    requires
        segment_inside(poly, a, b),
        a != b,
        1 <= k,
        is_waypoint(poly, a, b, w),
        on_segment(a@, b@, w@),
        k * place(a, b, w) == j * span(a, b),
    ensures
        locate(ring(poly, k), division_point(a, b, k, j)) != Containment::Outside,
{
    let q = division_point(a, b, k, j);
    let wk = times(w@, k);
    lemma_place_of_division(a, b, k, j);
    lemma_place_of_grid_point(a, b, w);
    lemma_place_magnified(a, b, 1, w@, k);
    lemma_on_line_by_along(a, b, k, q, wk);
    lemma_span_positive(a, b);
    lemma_sign_of_two(q.x - wk.x, span(a, b));
    lemma_sign_of_two(q.y - wk.y, span(a, b));
    lemma_magnification_keeps_containment(poly, k, w);
    if w != a && w != b {
        let i = choose|i: int| 0 <= i < poly.len() && poly[i] == w;
        lemma_corner_is_boundary(poly, i);
    }
}

/// The segment from `a` to `b` has some length.
pub proof fn lemma_span_positive(a: Point, b: Point)
    requires
        a != b,
    ensures
        span(a, b) > 0,
{
    let dx = b.x - a.x;
    let dy = b.y - a.y;
    assert(dx * dx + dy * dy > 0) by (nonlinear_arith)
        requires
            dx != 0 || dy != 0,
    ;
}

/// The waypoints `lo` and `hi` lie next to the dividing point, one on either
/// side of it, with no corner of the polygon strictly between them; and the
/// segment passes the tests.
pub open spec fn hemmed(
    poly: Seq<Point>,
    a: Point,
    b: Point,
    k: int,
    j: int,
    lo: Point,
    hi: Point,
) -> bool {
    &&& a != b
    &&& segment_inside(poly, a, b)
    &&& 1 <= k
    &&& 0 <= j <= k
    &&& is_waypoint(poly, a, b, lo)
    &&& is_waypoint(poly, a, b, hi)
    &&& on_segment(a@, b@, lo@)
    &&& on_segment(a@, b@, hi@)
    &&& k * place(a, b, lo) < j * span(a, b) < k * place(a, b, hi)
    &&& forall|i: int|
        0 <= i < poly.len() && on_segment(a@, b@, (#[trigger] poly[i])@) ==> !(place(a, b, lo)
            < place(a, b, poly[i]) < place(a, b, hi))
}

/// The dividing point, magnified once more by two.
pub open spec fn fine_division(a: Point, b: Point, k: int, j: int) -> Pt {
    times(division_point(a, b, k, j), 2)
}

/// The midpoint of the two waypoints, at the magnification of the dividing
/// point magnified by two.
pub open spec fn fine_midpoint(lo: Point, hi: Point, k: int) -> Pt {
    times(twice_midpoint(lo, hi), k)
}

/// Where the two fine points lie: on the line, strictly between the two
/// waypoints, which lie between the ends of the segment.
pub proof fn lemma_fine_places(
    poly: Seq<Point>,
    a: Point,
    b: Point,
    k: int,
    j: int,
    lo: Point,
    hi: Point,
)
    requires
        hemmed(poly, a, b, k, j, lo, hi),
    ensures
        off(a, b, 2 * k, fine_division(a, b, k, j)) == 0,
        off(a, b, 2 * k, fine_midpoint(lo, hi, k)) == 0,
        0 <= 2 * k * place(a, b, lo) < along(a, b, 2 * k, fine_division(a, b, k, j)) < 2 * k
            * place(a, b, hi) <= 2 * k * span(a, b),
        2 * k * place(a, b, lo) < along(a, b, 2 * k, fine_midpoint(lo, hi, k)) < 2 * k * place(
            a,
            b,
            hi,
        ),
        place(a, b, lo) < place(a, b, hi),
        span(a, b) > 0,
{
    lemma_place_of_division(a, b, k, j);
    lemma_place_magnified(a, b, k, division_point(a, b, k, j), 2);
    lemma_place_of_midpoint(a, b, lo, hi);
    lemma_place_magnified(a, b, 2, twice_midpoint(lo, hi), k);
    lemma_place_of_grid_point(a, b, lo);
    lemma_place_of_grid_point(a, b, hi);
    let pl = place(a, b, lo);
    let ph = place(a, b, hi);
    let sp = span(a, b);
    assert(pl < ph) by (nonlinear_arith)
        requires
            k * pl < k * ph,
            k >= 1,
    ;
    assert(2 * k * pl == 2 * (k * pl) && 2 * k * ph == 2 * (k * ph) && k * (pl + ph) == k * pl + k
        * ph && 2 * k * sp == 2 * (k * sp) && 0 <= k * pl && k * ph <= k * sp && k * 0 == 0)
        by (nonlinear_arith)
        requires
            k >= 1,
            0 <= pl,
            ph <= sp,
    ;
}

/// No corner of the polygon, magnified as the fine points are, lies on the
/// line strictly between the two waypoints.
pub proof fn lemma_no_corner_between(
    poly: Seq<Point>,
    a: Point,
    b: Point,
    k: int,
    j: int,
    lo: Point,
    hi: Point,
    i: int,
)
    requires
        hemmed(poly, a, b, k, j, lo, hi),
        0 <= i < poly.len(),
        off(a, b, 2 * k, ring(poly, 2 * k)[i]) == 0,
    ensures
        !(2 * k * place(a, b, lo) < along(a, b, 2 * k, ring(poly, 2 * k)[i]) < 2 * k * place(
            a,
            b,
            hi,
        )),
{
    let n = 2 * k;
    let c = poly[i];
    lemma_place_magnified(a, b, 1, c@, n);
    lemma_place_of_grid_point(a, b, c);
    lemma_place_of_grid_point(a, b, lo);
    lemma_place_of_grid_point(a, b, hi);
    let pc = place(a, b, c);
    let pl = place(a, b, lo);
    let ph = place(a, b, hi);
    lemma_sign_of_two(n, off(a, b, 1, c@));
    if n * pl < n * pc && n * pc < n * ph {
        assert(pl < pc < ph) by (nonlinear_arith)
            requires
                n * pl < n * pc,
                n * pc < n * ph,
                n >= 1,
        ;
    }
}

/// The ends of the segment, magnified, lie on the line, at its beginning and
/// at its end.
pub proof fn lemma_place_of_ends(a: Point, b: Point, n: int)
    requires
        a != b,
    ensures
        off(a, b, n, scaled(a, n)) == 0,
        off(a, b, n, scaled(b, n)) == 0,
        along(a, b, n, scaled(a, n)) == 0,
        along(a, b, n, scaled(b, n)) == n * span(a, b),
{
    lemma_place_of_grid_point(a, b, a);
    lemma_place_magnified(a, b, 1, a@, n);
    lemma_place_magnified(a, b, 1, b@, n);
}

/// Where two points of the segment from `x` to `y` lie strictly on opposite
/// sides of a line, so do the ends of the segment.
pub proof fn lemma_separated_ends(o: Pt, a: Pt, x: Pt, y: Pt, p: Pt, r: Pt)
    requires
        on_segment(x, y, p),
        on_segment(x, y, r),
        opposite(turn(o, a, p), turn(o, a, r)),
    ensures
        opposite(turn(o, a, x), turn(o, a, y)),
{
    if turn(o, a, x) >= 0 && turn(o, a, y) >= 0 {
        lemma_side_along_segment(true, o, a, x, y, p);
        lemma_side_along_segment(true, o, a, x, y, r);
    }
    if turn(o, a, x) <= 0 && turn(o, a, y) <= 0 {
        lemma_side_along_segment(false, o, a, x, y, p);
        lemma_side_along_segment(false, o, a, x, y, r);
    }
}

/// A segment taken the other way holds the same points.
pub proof fn lemma_on_segment_reversed(x: Pt, y: Pt, p: Pt)
    requires
        on_segment(x, y, p),
    ensures
        on_segment(y, x, p),
{
    lemma_turn_reversed(x, y, p);
}

/// Where a point of the segment from `x` to `y` that is neither of its ends
/// lies on a line on which not both ends lie, the ends lie strictly on
/// opposite sides of the line.
pub proof fn lemma_crossed_at_inner_point(o: Pt, a: Pt, x: Pt, y: Pt, p: Pt)
    requires
        on_segment(x, y, p),
        p != x,
        p != y,
        turn(o, a, p) == 0,
        turn(o, a, x) != 0 || turn(o, a, y) != 0,
    ensures
        opposite(turn(o, a, x), turn(o, a, y)),
{
    lemma_on_segment_reversed(x, y, p);
    if turn(o, a, x) >= 0 && turn(o, a, y) >= 0 {
        lemma_side_along_segment(true, o, a, x, y, p);
        lemma_side_along_segment(true, o, a, y, x, p);
    }
    if turn(o, a, x) <= 0 && turn(o, a, y) <= 0 {
        lemma_side_along_segment(false, o, a, x, y, p);
        lemma_side_along_segment(false, o, a, y, x, p);
    }
}

/// Magnified corners and ends lie on opposite sides of each other's lines
/// only where an edge properly crosses the segment.
pub proof fn lemma_cut_when_magnified(poly: Seq<Point>, a: Point, b: Point, i: int, n: int)
    requires
        0 <= i < poly.len(),
        n >= 1,
        opposite(
            turn(scaled(a, n), scaled(b, n), ring(poly, n)[i]),
            turn(scaled(a, n), scaled(b, n), ring(poly, n)[succ(poly.len() as int, i)]),
        ),
        opposite(
            turn(ring(poly, n)[i], ring(poly, n)[succ(poly.len() as int, i)], scaled(a, n)),
            turn(ring(poly, n)[i], ring(poly, n)[succ(poly.len() as int, i)], scaled(b, n)),
        ),
    ensures
        edge_cuts(poly, i, a, b),
{
    let c = poly[i];
    let d = poly[succ(poly.len() as int, i)];
    lemma_magnified_turn(a, b, c, n);
    lemma_magnified_turn(a, b, d, n);
    lemma_magnified_turn(c, d, a, n);
    lemma_magnified_turn(c, d, b, n);
}

/// Where the midpoint of the two waypoints lies on an edge of the polygon,
/// the dividing point lies on that edge too: the edge runs along the segment
/// from one waypoint to the other, as it does not properly cross the segment.
pub proof fn lemma_edge_under_midpoint(
    poly: Seq<Point>,
    a: Point,
    b: Point,
    k: int,
    j: int,
    lo: Point,
    hi: Point,
    i: int,
)
    requires
        hemmed(poly, a, b, k, j, lo, hi),
        0 <= i < poly.len(),
        on_edge(ring(poly, 2 * k), i, fine_midpoint(lo, hi, k)),
    ensures
        on_edge(ring(poly, 2 * k), i, fine_division(a, b, k, j)),
{
    let n = 2 * k;
    let next = succ(poly.len() as int, i);
    let u = ring(poly, n)[i];
    let v = ring(poly, n)[next];
    let q = fine_division(a, b, k, j);
    let m = fine_midpoint(lo, hi, k);
    let base = scaled(a, n);
    let tip = scaled(b, n);
    lemma_fine_places(poly, a, b, k, j, lo, hi);
    lemma_place_of_ends(a, b, n);
    lemma_turn_about_base(a, b, n, u);
    lemma_turn_about_base(a, b, n, v);
    lemma_turn_about_base(a, b, n, m);
    lemma_sign_of_two(n, off(a, b, n, u));
    lemma_sign_of_two(n, off(a, b, n, v));
    if off(a, b, n, u) == 0 && off(a, b, n, v) == 0 {
        lemma_segment_by_along(a, b, n, u, v, m);
        lemma_segment_by_along(a, b, n, u, v, q);
        lemma_no_corner_between(poly, a, b, k, j, lo, hi, i);
        lemma_no_corner_between(poly, a, b, k, j, lo, hi, next);
    } else {
        if m == u {
            lemma_no_corner_between(poly, a, b, k, j, lo, hi, i);
        }
        if m == v {
            lemma_no_corner_between(poly, a, b, k, j, lo, hi, next);
        }
        lemma_crossed_at_inner_point(base, tip, u, v, m);
        lemma_segment_by_along(a, b, n, base, tip, m);
        if turn(u, v, base) == 0 && turn(u, v, tip) == 0 {
            lemma_line_through_both(base, tip, u, v);
        }
        lemma_crossed_at_inner_point(u, v, base, tip, m);
        lemma_cut_when_magnified(poly, a, b, i, n);
    }
}

/// An edge that holds neither of the two fine points has no point in common
/// with the segment that joins them.
pub proof fn lemma_edge_apart(
    poly: Seq<Point>,
    a: Point,
    b: Point,
    k: int,
    j: int,
    lo: Point,
    hi: Point,
    i: int,
)
    requires
        hemmed(poly, a, b, k, j, lo, hi),
        0 <= i < poly.len(),
        !on_edge(ring(poly, 2 * k), i, fine_division(a, b, k, j)),
        !on_edge(ring(poly, 2 * k), i, fine_midpoint(lo, hi, k)),
        along(a, b, 2 * k, fine_division(a, b, k, j)) != along(
            a,
            b,
            2 * k,
            fine_midpoint(lo, hi, k),
        ),
    ensures
        apart(
            fine_division(a, b, k, j),
            fine_midpoint(lo, hi, k),
            ring(poly, 2 * k)[i],
            ring(poly, 2 * k)[succ(poly.len() as int, i)],
        ),
{
    reveal(apart);
    let n = 2 * k;
    let next = succ(poly.len() as int, i);
    let u = ring(poly, n)[i];
    let v = ring(poly, n)[next];
    let q = fine_division(a, b, k, j);
    let m = fine_midpoint(lo, hi, k);
    let base = scaled(a, n);
    let tip = scaled(b, n);
    let gap = along(a, b, n, m) - along(a, b, n, q);
    lemma_fine_places(poly, a, b, k, j, lo, hi);
    lemma_place_of_ends(a, b, n);
    lemma_turn_by_off(a, b, n, q, m, u);
    lemma_turn_by_off(a, b, n, q, m, v);
    lemma_sign_of_two(span(a, b), turn(q, m, u));
    lemma_sign_of_two(span(a, b), turn(q, m, v));
    lemma_sign_of_two(gap, off(a, b, n, u));
    lemma_sign_of_two(gap, off(a, b, n, v));
    if on_segment(q, m, u) {
        lemma_segment_by_along(a, b, n, q, m, u);
        lemma_no_corner_between(poly, a, b, k, j, lo, hi, i);
    }
    if on_segment(q, m, v) {
        lemma_segment_by_along(a, b, n, q, m, v);
        lemma_no_corner_between(poly, a, b, k, j, lo, hi, next);
    }
    if properly_cross(q, m, u, v) {
        lemma_turn_about_base(a, b, n, u);
        lemma_turn_about_base(a, b, n, v);
        lemma_sign_of_two(n, off(a, b, n, u));
        lemma_sign_of_two(n, off(a, b, n, v));
        lemma_segment_by_along(a, b, n, base, tip, q);
        lemma_segment_by_along(a, b, n, base, tip, m);
        lemma_separated_ends(u, v, base, tip, q, m);
        lemma_cut_when_magnified(poly, a, b, i, n);
    }
}

/// A ring of corners magnified by a product is the ring magnified by the one
/// factor, magnified by the other.
pub proof fn lemma_ring_magnified_twice(poly: Seq<Point>, s: int, c: int)
    ensures
        is_magnified(ring(poly, s), ring(poly, c * s), c),
{
    let small = ring(poly, s);
    let large = ring(poly, c * s);
    assert forall|i: int| 0 <= i < small.len() implies #[trigger] large[i] == times(
        small[i],
        c,
    ) by {
        assert((c * s) * poly[i].x == c * (s * poly[i].x) && (c * s) * poly[i].y == c * (s
            * poly[i].y)) by (nonlinear_arith);
    }
}

/// No point that divides a segment which passes the tests is outside the
/// polygon.
pub proof fn lemma_division_covered(poly: Seq<Point>, a: Point, b: Point, k: int, j: int)
    requires
        segment_inside(poly, a, b),
        1 <= k,
        0 <= j <= k,
    ensures
        locate(ring(poly, k), division_point(a, b, k, j)) != Containment::Outside,
{
    let q = division_point(a, b, k, j);
    if a == b {
        assert(q == scaled(a, k)) by (nonlinear_arith)
            requires
                q.x == (k - j) * a.x + j * a.x,
                q.y == (k - j) * a.y + j * a.y,
                scaled(a, k).x == k * a.x,
                scaled(a, k).y == k * a.y,
        ;
        lemma_magnification_keeps_containment(poly, k, a);
    } else {
        let (lo, hi) = lemma_nearest_waypoints(poly, a, b, k, j, poly.len() as int);
        if k * place(a, b, lo) == j * span(a, b) {
            lemma_division_at_waypoint(poly, a, b, k, j, lo);
        } else if k * place(a, b, hi) == j * span(a, b) {
            lemma_division_at_waypoint(poly, a, b, k, j, hi);
        } else if locate(ring(poly, k), q) == Containment::Outside {
            let n = 2 * k;
            let fine = ring(poly, n);
            let fq = fine_division(a, b, k, j);
            let fm = fine_midpoint(lo, hi, k);
            lemma_ring_magnified_twice(poly, k, 2);
            lemma_ring_magnified_twice(poly, 2, k);
            lemma_times_keeps_location(ring(poly, k), fine, q, 2);
            lemma_times_keeps_location(ring(poly, 2), fine, twice_midpoint(lo, hi), k);
            assert(midpoint_covered(poly, lo, hi));
            lemma_fine_places(poly, a, b, k, j, lo, hi);
            if on_boundary(fine, fm) {
                let i = choose|i: int| 0 <= i < fine.len() && on_edge(fine, i, fm);
                lemma_edge_under_midpoint(poly, a, b, k, j, lo, hi, i);
            } else if along(a, b, n, fq) == along(a, b, n, fm) {
                lemma_on_line_by_along(a, b, n, fq, fm);
                lemma_sign_of_two(fq.x - fm.x, span(a, b));
                lemma_sign_of_two(fq.y - fm.y, span(a, b));
            } else {
                assert forall|i: int| 0 <= i < fine.len() implies apart(
                    fq,
                    fm,
                    #[trigger] fine[i],
                    fine[succ(fine.len() as int, i)],
                ) by {
                    lemma_edge_apart(poly, a, b, k, j, lo, hi, i);
                }
                lemma_clear_segment_keeps_location(fine, fq, fm);
            }
        }
    }
}

/// A segment that passes the tests stays in the closed region of the polygon:
/// no point that divides it is outside. This holds of every polygon.
pub proof fn lemma_tested_segment_is_covered(poly: Seq<Point>, a: Point, b: Point)
    requires
        segment_inside(poly, a, b),
    ensures
        segment_covered(poly, a, b),
{
    assert forall|k: int, j: int| 1 <= k && 0 <= j <= k implies locate(
        ring(poly, k),
        #[trigger] division_point(a, b, k, j),
    ) != Containment::Outside by {
        lemma_division_covered(poly, a, b, k, j);
    }
}

/// What the tests decide: a segment passes them exactly where no point that
/// divides it is outside the polygon and no edge properly crosses it.
pub proof fn lemma_tests_decide_cover(poly: Seq<Point>, a: Point, b: Point)
    ensures
        segment_inside(poly, a, b) <==> segment_covered(poly, a, b) && forall|i: int|
            0 <= i < poly.len() ==> !edge_cuts(poly, i, a, b),
{
    if segment_inside(poly, a, b) {
        lemma_tested_segment_is_covered(poly, a, b);
    }
    if segment_covered(poly, a, b) {
        lemma_covered_segment_passes_point_tests(poly, a, b);
    }
}

} // verus!
