//! Containment of points and segments in a polygon, in exact integer
//! arithmetic.
//!
//! A polygon is the sequence of its corners; consecutive corners, and the last
//! with the first, are joined by an edge. The predicates are stated for any
//! sequence of corners; they mean containment in the usual sense where the
//! edges form a simple closed curve.

use vstd::prelude::*;
use crate::point::{lemma_product_bound, Point, COORD_LIMIT};
use crate::segment_laws::lemma_tests_decide_cover;

verus! {

/// Where a point lies with respect to a polygon.
#[derive(Clone, Copy, Debug, PartialEq, Eq, Structural)]
pub enum Containment {
    Outside,
    OnBoundary,
    Inside,
}

/// A point of the plane with unbounded integer coordinates.
pub struct Pt {
    pub x: int,
    pub y: int,
}

impl View for Point {
    type V = Pt;

    open spec fn view(&self) -> Pt {
        Pt { x: self.x as int, y: self.y as int }
    }
}

/// The point `p` with both coordinates multiplied by `k`.
pub open spec fn scaled(p: Point, k: int) -> Pt {
    Pt { x: k * p.x, y: k * p.y }
}

/// Twice the signed area of the triangle `o`, `a`, `q`: positive where `q`
/// lies to the left of the line directed from `o` to `a`, zero where the three
/// are collinear.
pub open spec fn turn(o: Pt, a: Pt, q: Pt) -> int {
    (a.x - o.x) * (q.y - o.y) - (a.y - o.y) * (q.x - o.x)
}

/// `q` lies between `a` and `b`, in either order, ends included.
pub open spec fn between(a: int, b: int, q: int) -> bool {
    (a <= q <= b) || (b <= q <= a)
}

/// `q` lies on the closed segment from `a` to `b`.
pub open spec fn on_segment(a: Pt, b: Pt, q: Pt) -> bool {
    &&& turn(a, b, q) == 0
    &&& between(a.x, b.x, q.x)
    &&& between(a.y, b.y, q.y)
}

/// The ray from `q` in the direction of growing `x` crosses the edge from `a`
/// to `b`. Of the edge's two ends the lower one counts and the upper one does
/// not, so that a ray through a corner is counted once; a horizontal edge is
/// never crossed.
pub open spec fn ray_crosses(a: Pt, b: Pt, q: Pt) -> bool {
    ||| (a.y <= q.y < b.y && turn(a, b, q) > 0)
    ||| (b.y <= q.y < a.y && turn(b, a, q) > 0)
}

/// Index of the corner that follows corner `i` in a polygon of `n` corners.
pub open spec fn succ(n: int, i: int) -> int {
    if i + 1 == n {
        0
    } else {
        i + 1
    }
}

/// The corners of the polygon, magnified by `k`.
pub open spec fn ring(poly: Seq<Point>, k: int) -> Seq<Pt> {
    Seq::new(poly.len(), |i: int| scaled(poly[i], k))
}

/// `q` lies on edge `i` of the ring of corners.
pub open spec fn on_edge(ring: Seq<Pt>, i: int, q: Pt) -> bool {
    on_segment(ring[i], ring[succ(ring.len() as int, i)], q)
}

/// `q` lies on some edge of the ring.
pub open spec fn on_boundary(ring: Seq<Pt>, q: Pt) -> bool {
    exists|i: int| 0 <= i < ring.len() && on_edge(ring, i, q)
}

/// The ray from `q` crosses edge `i` of the ring.
pub open spec fn edge_crossed(ring: Seq<Pt>, i: int, q: Pt) -> bool {
    ray_crosses(ring[i], ring[succ(ring.len() as int, i)], q)
}

/// Number of edges among the first `upto` that the ray from `q` crosses.
pub open spec fn crossings(ring: Seq<Pt>, q: Pt, upto: int) -> int
    decreases upto,
{
    if upto <= 0 {
        0
    } else {
        crossings(ring, q, upto - 1) + if edge_crossed(ring, upto - 1, q) {
            1int
        } else {
            0int
        }
    }
}

/// Where `q` lies with respect to the ring of corners: on the boundary where
/// an edge holds it; else inside where the ray from it crosses the boundary
/// an odd number of times; else outside.
pub open spec fn locate(ring: Seq<Pt>, q: Pt) -> Containment {
    if on_boundary(ring, q) {
        Containment::OnBoundary
    } else if crossings(ring, q, ring.len() as int) % 2 == 1 {
        Containment::Inside
    } else {
        Containment::Outside
    }
}

/// Where the grid point `p` lies with respect to the polygon.
pub open spec fn containment(poly: Seq<Point>, p: Point) -> Containment {
    locate(ring(poly, 1), p@)
}

/// Every point of the sequence lies in the coordinate range.
pub open spec fn all_in_range(points: Seq<Point>) -> bool {
    forall|i: int| 0 <= i < points.len() ==> (#[trigger] points[i]).in_range()
}

/// Largest absolute value of a coordinate after the magnification by two.
pub const WIDE_LIMIT: i64 = 2_000_000_000;

/// `turn` on coordinates of at most `WIDE_LIMIT` in absolute value.
fn turn_of(ox: i64, oy: i64, ax: i64, ay: i64, qx: i64, qy: i64) -> (r: i128)
    requires
        -WIDE_LIMIT <= ox <= WIDE_LIMIT,
        -WIDE_LIMIT <= oy <= WIDE_LIMIT,
        -WIDE_LIMIT <= ax <= WIDE_LIMIT,
        -WIDE_LIMIT <= ay <= WIDE_LIMIT,
        -WIDE_LIMIT <= qx <= WIDE_LIMIT,
        -WIDE_LIMIT <= qy <= WIDE_LIMIT,
    ensures
        r == turn(Pt { x: ox as int, y: oy as int }, Pt { x: ax as int, y: ay as int }, Pt {
            x: qx as int,
            y: qy as int,
        }),
{
    let dax: i128 = ax as i128 - ox as i128;
    let day: i128 = ay as i128 - oy as i128;
    let dqx: i128 = qx as i128 - ox as i128;
    let dqy: i128 = qy as i128 - oy as i128;
    proof {
        lemma_product_bound(dax as int, dqy as int, 4_000_000_000);
        lemma_product_bound(day as int, dqx as int, 4_000_000_000);
    }
    dax * dqy - day * dqx
}

/// The coordinate `c` magnified by `k`.
fn magnified(k: i64, c: i64) -> (r: i64)
    requires
        1 <= k <= 2,
        -COORD_LIMIT <= c <= COORD_LIMIT,
    ensures
        r == k * c,
        -WIDE_LIMIT <= r <= WIDE_LIMIT,
{
    if k == 1 {
        assert(k * c == c) by (nonlinear_arith)
            requires
                k == 1,
        ;
        c
    } else {
        assert(k * c == 2 * c) by (nonlinear_arith)
            requires
                k == 2,
        ;
        2 * c
    }
}

/// Tells whether `q` lies between `a` and `b`.
fn is_between(a: i64, b: i64, q: i64) -> (r: bool)
    ensures
        r == between(a as int, b as int, q as int),
{
    (a <= q && q <= b) || (b <= q && q <= a)
}

/// Locates the point `(qx, qy)` with respect to the polygon magnified by `k`.
pub fn locate_scaled(polygon: &Vec<Point>, k: i64, qx: i64, qy: i64) -> (r: Containment)
    requires
        all_in_range(polygon@),
        1 <= k <= 2,
        -WIDE_LIMIT <= qx <= WIDE_LIMIT,
        -WIDE_LIMIT <= qy <= WIDE_LIMIT,
    ensures
        r == locate(ring(polygon@, k as int), Pt { x: qx as int, y: qy as int }),
{
    let n: usize = polygon.len();
    let ghost q = Pt { x: qx as int, y: qy as int };
    let ghost poly = polygon@;
    let mut odd: bool = false;
    let mut i: usize = 0;
    while i < n
        invariant
            0 <= i <= n,
            n == polygon.len(),
            poly == polygon@,
            q == (Pt { x: qx as int, y: qy as int }),
            all_in_range(poly),
            1 <= k <= 2,
            -WIDE_LIMIT <= qx <= WIDE_LIMIT,
            -WIDE_LIMIT <= qy <= WIDE_LIMIT,
            forall|j: int| 0 <= j < i ==> !on_edge(ring(poly, k as int), j, q),
            odd == (crossings(ring(poly, k as int), q, i as int) % 2 == 1),
        decreases n - i,
    {
        let j: usize = if i + 1 == n {
            0
        } else {
            i + 1
        };
        let a: Point = polygon[i];
        let b: Point = polygon[j];
        let ax: i64 = magnified(k, a.x);
        let ay: i64 = magnified(k, a.y);
        let bx: i64 = magnified(k, b.x);
        let by: i64 = magnified(k, b.y);
        let t: i128 = turn_of(ax, ay, bx, by, qx, qy);
        if t == 0 && is_between(ax, bx, qx) && is_between(ay, by, qy) {
            assert(on_edge(ring(poly, k as int), i as int, q));
            return Containment::OnBoundary;
        }
        if ay <= qy && qy < by {
            if t > 0 {
                odd = !odd;
            }
        } else if by <= qy && qy < ay {
            let s: i128 = turn_of(bx, by, ax, ay, qx, qy);
            if s > 0 {
                odd = !odd;
            }
        }
        i = i + 1;
    }
    if odd {
        Containment::Inside
    } else {
        Containment::Outside
    }
}

/// Ray-casting test with exact boundary detection: tells whether `p` lies
/// outside the polygon, on one of its edges, or strictly inside.
pub fn point_in_polygon(polygon: &Vec<Point>, p: Point) -> (r: Containment)
    requires
        all_in_range(polygon@),
        p.in_range(),
    ensures
        r == containment(polygon@, p),
{
    locate_scaled(polygon, 1, p.x, p.y)
}

/// `s` and `t` have opposite signs, neither being zero.
pub open spec fn opposite(s: int, t: int) -> bool {
    (s > 0 && t < 0) || (s < 0 && t > 0)
}

/// The segments from `a` to `b` and from `c` to `d` cross in a single point
/// that is an end of neither: the ends of each lie strictly on opposite sides
/// of the other.
pub open spec fn properly_cross(a: Pt, b: Pt, c: Pt, d: Pt) -> bool {
    &&& opposite(turn(a, b, c), turn(a, b, d))
    &&& opposite(turn(c, d, a), turn(c, d, b))
}

/// Edge `i` of the polygon properly crosses the segment from `a` to `b`.
pub open spec fn edge_cuts(poly: Seq<Point>, i: int, a: Point, b: Point) -> bool {
    properly_cross(a@, b@, poly[i]@, poly[succ(poly.len() as int, i)]@)
}

/// `u` is an end of the segment from `a` to `b` or a corner of the polygon
/// that lies on it. Between two such points that follow each other on the
/// segment, the segment can meet the polygon's boundary only by running along
/// an edge or by properly crossing one.
pub open spec fn is_waypoint(poly: Seq<Point>, a: Point, b: Point, u: Point) -> bool {
    u == a || u == b || (poly.contains(u) && on_segment(a@, b@, u@))
}

/// The midpoint of `u` and `v`, magnified by two.
pub open spec fn twice_midpoint(u: Point, v: Point) -> Pt {
    Pt { x: u.x + v.x, y: u.y + v.y }
}

/// The midpoint of `u` and `v` is not outside the polygon.
pub open spec fn midpoint_covered(poly: Seq<Point>, u: Point, v: Point) -> bool {
    locate(ring(poly, 2), twice_midpoint(u, v)) != Containment::Outside
}

/// The segment from `a` to `b` passes the three tests that decide whether it
/// stays in the closed region of the polygon: neither end is outside, no edge
/// properly crosses it, and the midpoint of any two of its waypoints is not
/// outside. A segment that only touches the boundary, or runs along it, is
/// therefore not excluded. What the tests are meant to decide is
/// `segment_covered`: a segment passes them exactly where it is covered and no
/// edge properly crosses it, whatever the polygon.
pub open spec fn segment_inside(poly: Seq<Point>, a: Point, b: Point) -> bool {
    &&& containment(poly, a) != Containment::Outside
    &&& containment(poly, b) != Containment::Outside
    &&& forall|i: int| 0 <= i < poly.len() ==> !edge_cuts(poly, i, a, b)
    &&& forall|u: Point, v: Point|
        is_waypoint(poly, a, b, u) && is_waypoint(poly, a, b, v) ==> #[trigger] midpoint_covered(
            poly,
            u,
            v,
        )
}

/// The point that divides the segment from `a` to `b` in `k` equal parts, `j`
/// of them on the side of `a`; magnified by `k`, so that it is a grid point.
pub open spec fn division_point(a: Point, b: Point, k: int, j: int) -> Pt {
    Pt { x: (k - j) * a.x + j * b.x, y: (k - j) * a.y + j * b.y }
}

/// No point that divides the segment from `a` to `b` in equal parts is
/// outside the polygon: each is taken magnified by the number of the parts,
/// with the polygon magnified as much. These are the points of the segment
/// at every rational share of the way from `a` to `b`.
pub open spec fn segment_covered(poly: Seq<Point>, a: Point, b: Point) -> bool {
    forall|k: int, j: int|
        1 <= k && 0 <= j <= k ==> locate(ring(poly, k), #[trigger] division_point(a, b, k, j))
            != Containment::Outside
}

/// `turn` on three grid points in range.
fn turn_at(o: Point, a: Point, q: Point) -> (r: i128)
    requires
        o.in_range(),
        a.in_range(),
        q.in_range(),
    ensures
        r == turn(o@, a@, q@),
{
    turn_of(o.x, o.y, a.x, a.y, q.x, q.y)
}

/// Tells whether edge `i` of the polygon properly crosses the segment.
fn edge_cuts_segment(polygon: &Vec<Point>, i: usize, a: Point, b: Point) -> (r: bool)
    requires
        all_in_range(polygon@),
        i < polygon.len(),
        a.in_range(),
        b.in_range(),
    ensures
        r == edge_cuts(polygon@, i as int, a, b),
{
    let j: usize = if i + 1 == polygon.len() {
        0
    } else {
        i + 1
    };
    let c: Point = polygon[i];
    let d: Point = polygon[j];
    let s1: i128 = turn_at(a, b, c);
    let s2: i128 = turn_at(a, b, d);
    let s3: i128 = turn_at(c, d, a);
    let s4: i128 = turn_at(c, d, b);
    ((s1 > 0 && s2 < 0) || (s1 < 0 && s2 > 0)) && ((s3 > 0 && s4 < 0) || (s3 < 0 && s4 > 0))
}

/// The ends of the segment, followed by the corners of the polygon that lie
/// on it.
fn waypoints(polygon: &Vec<Point>, a: Point, b: Point) -> (ws: Vec<Point>)
    requires
        all_in_range(polygon@),
        a.in_range(),
        b.in_range(),
    ensures
        all_in_range(ws@),
        forall|u: Point|
            #![trigger is_waypoint(polygon@, a, b, u)]
            #![trigger ws@.contains(u)]
            is_waypoint(polygon@, a, b, u) <==> ws@.contains(u),
{
    let mut ws: Vec<Point> = Vec::new();
    ws.push(a);
    ws.push(b);
    assert(ws@[0] == a && ws@[1] == b);
    let n: usize = polygon.len();
    let mut i: usize = 0;
    while i < n
        invariant
            0 <= i <= n,
            n == polygon.len(),
            all_in_range(polygon@),
            a.in_range(),
            b.in_range(),
            all_in_range(ws@),
            ws@.contains(a),
            ws@.contains(b),
            forall|t: int| 0 <= t < ws.len() ==> is_waypoint(polygon@, a, b, #[trigger] ws@[t]),
            forall|j: int|
                0 <= j < i && on_segment(a@, b@, (#[trigger] polygon@[j])@) ==> ws@.contains(
                    polygon@[j],
                ),
        decreases n - i,
    {
        let c: Point = polygon[i];
        let t: i128 = turn_at(a, b, c);
        if t == 0 && is_between(a.x, b.x, c.x) && is_between(a.y, b.y, c.y) {
            let ghost before = ws@;
            ws.push(c);
            assert(ws@[before.len() as int] == c);
            assert forall|u: Point| before.contains(u) implies ws@.contains(u) by {
                let t = choose|t: int| 0 <= t < before.len() && before[t] == u;
                assert(ws@[t] == u);
            }
        }
        i = i + 1;
    }
    ws
}

/// Tells whether the closed segment lies in the closed region of the polygon.
/// Touching the boundary, or running along it, does not exclude a segment.
pub fn segment_in_polygon(polygon: &Vec<Point>, segment: (Point, Point)) -> (r: bool)
    requires
        all_in_range(polygon@),
        segment.0.in_range(),
        segment.1.in_range(),
    ensures
        r == segment_inside(polygon@, segment.0, segment.1),
        r ==> segment_covered(polygon@, segment.0, segment.1),
        r == (segment_covered(polygon@, segment.0, segment.1) && forall|i: int|
            0 <= i < polygon@.len() ==> !edge_cuts(polygon@, i, segment.0, segment.1)),
{
    proof {
        lemma_tests_decide_cover(polygon@, segment.0, segment.1);
    }
    let a: Point = segment.0;
    let b: Point = segment.1;
    if point_in_polygon(polygon, a) == Containment::Outside {
        return false;
    }
    if point_in_polygon(polygon, b) == Containment::Outside {
        return false;
    }
    let n: usize = polygon.len();
    let mut i: usize = 0;
    while i < n
        invariant
            0 <= i <= n,
            n == polygon.len(),
            all_in_range(polygon@),
            a.in_range(),
            b.in_range(),
            a == segment.0,
            b == segment.1,
            forall|j: int| 0 <= j < i ==> !edge_cuts(polygon@, j, a, b),
        decreases n - i,
    {
        if edge_cuts_segment(polygon, i, a, b) {
            proof {
                lemma_tests_decide_cover(polygon@, a, b);
            }
            return false;
        }
        i = i + 1;
    }
    let ws: Vec<Point> = waypoints(polygon, a, b);
    let m: usize = ws.len();
    let mut s: usize = 0;
    while s < m
        invariant
            0 <= s <= m,
            m == ws.len(),
            a == segment.0,
            b == segment.1,
            all_in_range(polygon@),
            all_in_range(ws@),
            forall|u: Point|
                #![trigger is_waypoint(polygon@, a, b, u)]
                #![trigger ws@.contains(u)]
                is_waypoint(polygon@, a, b, u) <==> ws@.contains(u),
            forall|e: int, f: int|
                0 <= e < s && 0 <= f < m ==> midpoint_covered(
                    polygon@,
                    #[trigger] ws@[e],
                    #[trigger] ws@[f],
                ),
        decreases m - s,
    {
        let mut t: usize = 0;
        while t < m
            invariant
                0 <= s < m,
                0 <= t <= m,
                m == ws.len(),
                a == segment.0,
                b == segment.1,
                all_in_range(polygon@),
                all_in_range(ws@),
                forall|u: Point|
            #![trigger is_waypoint(polygon@, a, b, u)]
            #![trigger ws@.contains(u)]
            is_waypoint(polygon@, a, b, u) <==> ws@.contains(u),
                forall|e: int, f: int|
                    0 <= e < s && 0 <= f < m ==> midpoint_covered(
                        polygon@,
                        #[trigger] ws@[e],
                        #[trigger] ws@[f],
                    ),
                forall|f: int| 0 <= f < t ==> midpoint_covered(polygon@, ws@[s as int], #[trigger] ws@[f]),
            decreases m - t,
        {
            let u: Point = ws[s];
            let v: Point = ws[t];
            if locate_scaled(polygon, 2, u.x + v.x, u.y + v.y) == Containment::Outside {
                assert(!midpoint_covered(polygon@, u, v));
                proof {
                    lemma_tests_decide_cover(polygon@, a, b);
                }
                return false;
            }
            t = t + 1;
        }
        s = s + 1;
    }
    true
}

} // verus!
