//! Where a point lies does not change along a segment that meets no edge:
//! two points that such a segment joins are both inside the ring of corners,
//! or both outside.

use vstd::prelude::*;
use crate::convex::{lemma_sign_of_two, lemma_turn_along_level};
use crate::polygon::{
    crossings, locate, on_edge, on_segment, properly_cross, ray_crosses, succ, turn, Pt,
};
use crate::polygon_laws::lemma_turn_reversed;

verus! {

/// The segment from `q` to `m` and the segment from `u` to `v` have no point
/// in common: they do not properly cross, and no end of one lies on the
/// other.
#[verifier::opaque]
pub open spec fn apart(q: Pt, m: Pt, u: Pt, v: Pt) -> bool {
    &&& !properly_cross(q, m, u, v)
    &&& !on_segment(q, m, u)
    &&& !on_segment(q, m, v)
    &&& !on_segment(u, v, q)
    &&& !on_segment(u, v, m)
}

/// The point `w` lies between the rays from `q` and from `m`, to the right of
/// the line from `q` up to `m`: above the level of `q`, at most at the level
/// of `m`.
#[verifier::opaque]
pub open spec fn between_rays(q: Pt, m: Pt, w: Pt) -> bool {
    q.y < w.y <= m.y && turn(q, m, w) < 0
}

/// A point on the line of a segment that is not level, at a level between
/// those of the ends, lies on the segment.
pub proof fn lemma_on_line_between_levels(a: Pt, b: Pt, p: Pt)
    requires
        turn(a, b, p) == 0,
        a.y < b.y,
        a.y <= p.y <= b.y,
    ensures
        on_segment(a, b, p),
{
    let h = b.y - a.y;
    let w = b.x - a.x;
    let s = p.y - a.y;
    let t = p.x - a.x;
    // `t` lies between zero and `w`, as `s` lies between zero and `h`
    assert((w >= 0 ==> 0 <= t <= w) && (w <= 0 ==> w <= t <= 0)) by (nonlinear_arith)
        requires
            w * s == h * t,
            h > 0,
            0 <= s <= h,
    ;
}

/// What the ends of two segments are worth about each other's lines, each
/// taken at the level of an end of the other.
pub proof fn lemma_four_turns(q: Pt, m: Pt, u: Pt, v: Pt)
    ensures
        (m.y - u.y) * turn(u, v, q) + (u.y - q.y) * turn(u, v, m) + (v.y - u.y) * turn(q, m, u)
            == 0,
        (m.y - v.y) * turn(u, v, q) + (v.y - q.y) * turn(u, v, m) + (v.y - u.y) * turn(q, m, v)
            == 0,
        (v.y - q.y) * turn(q, m, u) + (q.y - u.y) * turn(q, m, v) + (m.y - q.y) * turn(u, v, q)
            == 0,
        (v.y - m.y) * turn(q, m, u) + (m.y - u.y) * turn(q, m, v) + (m.y - q.y) * turn(u, v, m)
            == 0,
{
    lemma_turn_along_level(u, v, q, m, u);
    lemma_turn_along_level(u, v, q, m, v);
    lemma_turn_along_level(q, m, u, v, q);
    lemma_turn_along_level(q, m, u, v, m);
    assert(turn(u, v, u) == 0 && turn(u, v, v) == 0 && turn(q, m, q) == 0 && turn(q, m, m) == 0)
        by (nonlinear_arith);
    assert((m.y - q.y) * turn(u, v, u) == 0 && (m.y - q.y) * turn(u, v, v) == 0 && (v.y - u.y)
        * turn(q, m, q) == 0 && (v.y - u.y) * turn(q, m, m) == 0) by (nonlinear_arith)
        requires
            turn(u, v, u) == 0 && turn(u, v, v) == 0 && turn(q, m, q) == 0 && turn(q, m, m) == 0,
    ;
}

/// What a point is worth about a level line: its height over the line, times
/// the run of the line.
pub proof fn lemma_turn_about_level_line(a: Pt, b: Pt, p: Pt)
    requires
        a.y == b.y,
    ensures
        turn(a, b, p) == (b.x - a.x) * (p.y - a.y),
{
    assert((b.y - a.y) * (p.x - a.x) == 0) by (nonlinear_arith)
        requires
            a.y == b.y,
    ;
}

/// What a point at the level of the first end of a segment is worth about the
/// segment: how far it lies to the left of the end, times the rise of the
/// segment.
pub proof fn lemma_turn_at_level_of_end(a: Pt, b: Pt, p: Pt)
    requires
        p.y == a.y,
    ensures
        turn(a, b, p) == (b.y - a.y) * (a.x - p.x),
{
    assert((b.x - a.x) * (p.y - a.y) == 0) by (nonlinear_arith)
        requires
            p.y == a.y,
    ;
    assert(-((b.y - a.y) * (p.x - a.x)) == (b.y - a.y) * (a.x - p.x)) by (nonlinear_arith);
}

/// An edge that does not lead downwards, and that has no point in common
/// with the segment from `q` up to `m`, has its ends on different sides of
/// the rays from `q` and `m` exactly where one of the two rays crosses it and
/// the other does not.
pub proof fn lemma_rising_edge_flips(q: Pt, m: Pt, u: Pt, v: Pt)
    requires
        q.y <= m.y,
        u.y <= v.y,
        apart(q, m, u, v),
    ensures
        (between_rays(q, m, u) != between_rays(q, m, v)) == (ray_crosses(u, v, q) != ray_crosses(
            u,
            v,
            m,
        )),
{
    reveal(apart);
    reveal(between_rays);
    let tq = turn(u, v, q);
    let tm = turn(u, v, m);
    let lu = turn(q, m, u);
    let lv = turn(q, m, v);
    lemma_four_turns(q, m, u, v);
    lemma_sign_of_two(m.y - u.y, tq);
    lemma_sign_of_two(u.y - q.y, tm);
    lemma_sign_of_two(v.y - u.y, lu);
    lemma_sign_of_two(m.y - v.y, tq);
    lemma_sign_of_two(v.y - q.y, tm);
    lemma_sign_of_two(v.y - u.y, lv);
    lemma_sign_of_two(m.y - q.y, tq);
    if u.y < v.y {
        if u.y <= q.y <= v.y && tq == 0 {
            lemma_on_line_between_levels(u, v, q);
        }
        if u.y <= m.y <= v.y && tm == 0 {
            lemma_on_line_between_levels(u, v, m);
        }
    }
    if q.y < m.y {
        if q.y <= u.y <= m.y && lu == 0 {
            lemma_on_line_between_levels(q, m, u);
        }
        if q.y <= v.y <= m.y && lv == 0 {
            lemma_on_line_between_levels(q, m, v);
        }
    } else {
        if u.y == q.y {
            lemma_turn_at_level_of_end(u, v, q);
            lemma_turn_at_level_of_end(u, v, m);
        }
    }
    if u.y == v.y {
        lemma_turn_about_level_line(u, v, q);
        lemma_sign_of_two(v.x - u.x, q.y - u.y);
        if m.y == u.y && q.y < m.y {
            lemma_turn_reversed(q, m, u);
            lemma_turn_reversed(q, m, v);
            lemma_turn_at_level_of_end(m, q, u);
            lemma_turn_at_level_of_end(m, q, v);
            lemma_sign_of_two(q.y - m.y, m.x - u.x);
            lemma_sign_of_two(q.y - m.y, m.x - v.x);
        }
    }
}

/// Two segments that have no point in common have none whichever way they
/// are taken.
pub proof fn lemma_apart_reversed(q: Pt, m: Pt, u: Pt, v: Pt)
    requires
        apart(q, m, u, v),
    ensures
        apart(q, m, v, u),
        apart(m, q, u, v),
{
    reveal(apart);
    lemma_turn_reversed(u, v, q);
    lemma_turn_reversed(u, v, m);
    lemma_turn_reversed(q, m, u);
    lemma_turn_reversed(q, m, v);
}

/// Neither end of a segment lies on a segment that has no point in common
/// with it.
pub proof fn lemma_apart_ends(q: Pt, m: Pt, u: Pt, v: Pt)
    requires
        apart(q, m, u, v),
    ensures
        !on_segment(u, v, q),
        !on_segment(u, v, m),
        !on_segment(q, m, u),
        !on_segment(q, m, v),
        !properly_cross(q, m, u, v),
{
    reveal(apart);
}

/// An edge that has no point in common with the segment from `q` up to `m`
/// has its ends on different sides of the rays from `q` and `m` exactly where
/// one of the two rays crosses it and the other does not.
pub proof fn lemma_edge_flips(q: Pt, m: Pt, u: Pt, v: Pt)
    requires
        q.y <= m.y,
        apart(q, m, u, v),
    ensures
        (between_rays(q, m, u) != between_rays(q, m, v)) == (ray_crosses(u, v, q) != ray_crosses(
            u,
            v,
            m,
        )),
{
    if u.y <= v.y {
        lemma_rising_edge_flips(q, m, u, v);
    } else {
        lemma_apart_reversed(q, m, u, v);
        lemma_rising_edge_flips(q, m, v, u);
    }
}

/// No edge of the ring has a point in common with the segment from `q` to
/// `m`.
pub open spec fn clear_of(ring: Seq<Pt>, q: Pt, m: Pt) -> bool {
    forall|i: int|
        0 <= i < ring.len() ==> apart(q, m, #[trigger] ring[i], ring[succ(ring.len() as int, i)])
}

/// Along the ring, from its first corner to corner `upto`, the rays from `q`
/// and `m` cross an odd number of edges between them exactly where the two
/// corners lie on different sides of the rays.
pub proof fn lemma_flips_add_up(ring: Seq<Pt>, q: Pt, m: Pt, upto: int)
    requires
        q.y <= m.y,
        clear_of(ring, q, m),
        0 <= upto < ring.len(),
    ensures
        ((crossings(ring, q, upto) + crossings(ring, m, upto)) % 2 == 1) == (between_rays(
            q,
            m,
            ring[0],
        ) != between_rays(q, m, ring[upto])),
    decreases upto,
{
    if upto > 0 {
        lemma_flips_add_up(ring, q, m, upto - 1);
        let i = upto - 1;
        lemma_edge_flips(q, m, ring[i], ring[upto]);
    }
}

/// Two points joined by a segment that has no point in common with any edge
/// of the ring lie alike: both inside the ring, or both outside.
pub proof fn lemma_clear_segment_keeps_location(ring: Seq<Pt>, q: Pt, m: Pt)
    requires
        clear_of(ring, q, m),
    ensures
        locate(ring, q) == locate(ring, m),
{
    let n = ring.len() as int;
    assert forall|i: int| 0 <= i < n implies !on_edge(ring, i, q) && !on_edge(ring, i, m) by {
        lemma_apart_ends(q, m, ring[i], ring[succ(n, i)]);
    }
    if n > 0 {
        let last = n - 1;
        if q.y <= m.y {
            lemma_flips_add_up(ring, q, m, last);
            lemma_edge_flips(q, m, ring[last], ring[0]);
        } else {
            assert forall|i: int| 0 <= i < ring.len() implies apart(
                m,
                q,
                #[trigger] ring[i],
                ring[succ(n, i)],
            ) by {
                lemma_apart_reversed(q, m, ring[i], ring[succ(n, i)]);
            }
            lemma_flips_add_up(ring, m, q, last);
            lemma_edge_flips(m, q, ring[last], ring[0]);
        }
    }
}

} // verus!
