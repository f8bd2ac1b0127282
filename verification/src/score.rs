//! The score of a placement as the global strategy sees it: a baseline, less
//! the cost of the pose, less what the placement owes for every constraint
//! that it breaks. Scores are whole numbers of millionths of a unit; the
//! lengths of edges enter them as square roots rounded to millionths.

use vstd::prelude::*;
use crate::dislikes::{coverage, lemma_coverage_bounds, nearest_sq_dist};
use crate::field::{lemma_label_range, ProximityField, MAX_ROUNDS};
use crate::model::{original_sq_len, Problem};
use crate::point::{lemma_product_bound, lemma_sq_norm_bound, sq_dist, Point, SQ_DIST_LIMIT};
use crate::root::{isqrt, lemma_root_below, lemma_sqrt_bounds, sqrt_floor, ROOT_LIMIT};
use crate::polygon::{all_in_range, containment, segment_in_polygon, segment_inside, Containment};
use crate::stretch::{lemma_zero_tolerance_is_equality, stretch_ok, stretch_within, MILLION};

verus! {

/// What a vertex owes for every unit of the cube of its field value.
pub const OUTSIDE_WEIGHT: i128 = 10;

/// What an edge owes, in units, where it does not lie in the hole.
pub const EDGE_OUTSIDE_PENALTY: i128 = 1_000_000;

/// What an edge owes for every unit by which it breaks the tolerance.
pub const STRETCH_WEIGHT: i128 = 50;

/// The score, in units, of a pose of cost zero that breaks no constraint.
pub const BASELINE: i128 = 100_000;

/// No score is lower than this.
pub const SCORE_FLOOR: i128 = -1_000_000_000_000_000_000_000_000_000_000_000_000;

/// No score is higher than this: the baseline, in millionths.
pub const SCORE_CEILING: i128 = 100_000_000_000;

/// The third power.
pub open spec fn cube(v: int) -> int {
    v * v * v
}

/// What the vertex at `p` owes for lying outside the hole: the cube of the
/// field value at `p`, weighted.
pub open spec fn vertex_cost(field: ProximityField, p: Point) -> int {
    MILLION * OUTSIDE_WEIGHT * cube(field.value(p.x as int, p.y as int))
}

/// What the first `upto` vertices owe together.
pub open spec fn vertices_cost(field: ProximityField, now: Seq<Point>, upto: int) -> int
    decreases upto,
{
    if upto <= 0 {
        0
    } else {
        vertices_cost(field, now, upto - 1) + vertex_cost(field, now[upto - 1])
    }
}

/// The square of the greatest length that the tolerance allows an edge of the
/// original squared length `original`, the length taken in millionths.
pub open spec fn band_top(original: int, epsilon: int) -> int {
    original * (MILLION + epsilon) * MILLION
}

/// The square of the least length that the tolerance allows, the length taken
/// in millionths.
pub open spec fn band_bottom(original: int, epsilon: int) -> int {
    original * (MILLION - epsilon) * MILLION
}

/// The square of the length of an edge of squared length `sq`, the length
/// taken in millionths.
pub open spec fn fine_square(sq: int) -> int {
    sq * MILLION * MILLION
}

/// The length of an edge of squared length `sq`, in millionths of a unit,
/// rounded down.
pub open spec fn fine_length(sq: int) -> int {
    sqrt_floor(fine_square(sq))
}

/// By how much the length of an edge departs from its original length beyond
/// what the tolerance allows, in millionths of a unit: nothing where the
/// tolerance is kept; else the deviation of the length from the original
/// length, less the deviation that the tolerance allows on that side. That is
/// the length less the greatest length allowed, or the least length allowed
/// less the length; each length is taken in millionths and rounded down. An
/// edge that breaks the tolerance by less than the rounding shows is taken to
/// break it by one millionth. With a tolerance of zero this is the change of
/// the length.
pub open spec fn length_excess(original: int, new: int, epsilon: int) -> int {
    if stretch_within(original, new, epsilon) {
        0
    } else {
        let beyond = if new > original {
            fine_length(new) - sqrt_floor(band_top(original, epsilon))
        } else {
            sqrt_floor(band_bottom(original, epsilon)) - fine_length(new)
        };
        if beyond < 1 {
            1
        } else {
            beyond
        }
    }
}

/// What an edge owes for its length: the excess of its length over the
/// tolerance, in millionths, weighted; an excess of at most one unit counts
/// half.
pub open spec fn stretch_cost(original: int, new: int, epsilon: int) -> int {
    let excess = length_excess(original, new, epsilon);
    if excess <= MILLION {
        STRETCH_WEIGHT / 2 * excess
    } else {
        STRETCH_WEIGHT * excess
    }
}

/// An edge that breaks the tolerance has a length beyond the lengths allowed:
/// above them where it has grown, below them where it has shrunk.
pub proof fn lemma_broken_tolerance(original: int, new: int, epsilon: int)
    requires
        0 <= original,
        0 <= new,
        epsilon >= 0,
        !stretch_within(original, new, epsilon),
    ensures
        new > original ==> 0 <= band_top(original, epsilon) < fine_square(new),
        new <= original ==> 0 <= fine_square(new) < band_bottom(original, epsilon)
            <= fine_square(original),
{
    let allowed = epsilon * original;
    assert(allowed >= 0) by (nonlinear_arith)
        requires
            allowed == epsilon * original,
            epsilon >= 0,
            original >= 0,
    ;
    assert(original * (MILLION + epsilon) == 1_000_000 * original + allowed
        && original * (MILLION - epsilon) == 1_000_000 * original - allowed) by (nonlinear_arith)
        requires
            allowed == epsilon * original,
    ;
    let top = original * (MILLION + epsilon);
    let bottom = original * (MILLION - epsilon);
    let fine = new * MILLION;
    assert(fine == 1_000_000 * new);
    assert(fine_square(new) == fine * 1_000_000 && fine_square(original) == (1_000_000
        * original) * 1_000_000);
    assert(band_top(original, epsilon) == top * 1_000_000 && band_bottom(original, epsilon)
        == bottom * 1_000_000);
}

/// What an edge owes for its length is bounded, and is nothing exactly where
/// the edge keeps to the tolerance.
pub proof fn lemma_stretch_cost_bounds(original: int, new: int, epsilon: int)
    requires
        0 <= original <= SQ_DIST_LIMIT,
        0 <= new <= SQ_DIST_LIMIT,
        epsilon >= 0,
    ensures
        0 <= length_excess(original, new, epsilon) <= ROOT_LIMIT,
        0 <= stretch_cost(original, new, epsilon) <= STRETCH_WEIGHT * ROOT_LIMIT,
        stretch_cost(original, new, epsilon) == 0 <==> stretch_within(original, new, epsilon),
{
    if !stretch_within(original, new, epsilon) {
        lemma_broken_tolerance(original, new, epsilon);
        assert(ROOT_LIMIT * ROOT_LIMIT == 9_000_000_000_000_000_000_000_000_000_000)
            by (nonlinear_arith);
        if new > original {
            lemma_root_below(fine_square(new), ROOT_LIMIT as int);
            lemma_sqrt_bounds(band_top(original, epsilon));
        } else {
            lemma_root_below(band_bottom(original, epsilon), ROOT_LIMIT as int);
            lemma_sqrt_bounds(fine_square(new));
        }
        let excess = length_excess(original, new, epsilon);
        assert(1 <= excess <= ROOT_LIMIT);
        assert(STRETCH_WEIGHT / 2 == 25);
        assert(stretch_cost(original, new, epsilon) == if excess <= MILLION {
            25 * excess
        } else {
            50 * excess
        });
    }
}

/// With a tolerance of zero an edge owes for the change of its length, in
/// millionths rounded down, and for one millionth at least where its squared
/// length has changed.
pub proof fn lemma_length_excess_without_tolerance(original: int, new: int)
    requires
        0 <= original,
        0 <= new,
    ensures
        length_excess(original, new, 0) == if new == original {
            0
        } else if new > original && fine_length(new) - fine_length(original) >= 1 {
            fine_length(new) - fine_length(original)
        } else if new < original && fine_length(original) - fine_length(new) >= 1 {
            fine_length(original) - fine_length(new)
        } else {
            1
        },
{
    lemma_zero_tolerance_is_equality(original, new);
    assert(band_top(original, 0) == fine_square(original) && band_bottom(original, 0)
        == fine_square(original));
}

/// What an edge of the original squared length `original_sq_len` owes for its
/// length where its squared length is `new_sq_len`: nothing where it keeps to
/// the tolerance; else fifty times the excess of its length over the lengths
/// that the tolerance allows, in millionths, an excess of at most one unit
/// counted half.
pub fn stretch_owed(original_sq_len: i64, new_sq_len: i64, epsilon: i64) -> (r: i128)
    requires
        0 <= original_sq_len <= SQ_DIST_LIMIT,
        0 <= new_sq_len <= SQ_DIST_LIMIT,
        epsilon >= 0,
    ensures
        r == stretch_cost(original_sq_len as int, new_sq_len as int, epsilon as int),
        0 <= r <= STRETCH_WEIGHT * ROOT_LIMIT,
{
    proof {
        lemma_stretch_cost_bounds(original_sq_len as int, new_sq_len as int, epsilon as int);
    }
    if stretch_ok(original_sq_len, new_sq_len, epsilon) {
        return 0;
    }
    proof {
        lemma_broken_tolerance(original_sq_len as int, new_sq_len as int, epsilon as int);
        lemma_product_bound(
            original_sq_len as int,
            MILLION + epsilon,
            9_223_372_036_855_775_808,
        );
        lemma_product_bound(
            original_sq_len as int,
            MILLION - epsilon,
            9_223_372_036_855_775_808,
        );
    }
    let fine: i128 = new_sq_len as i128 * MILLION * MILLION;
    let excess: i128 = if new_sq_len > original_sq_len {
        let top: i128 = original_sq_len as i128 * (MILLION + epsilon as i128);
        isqrt(fine) - isqrt(top * MILLION)
    } else {
        let bottom: i128 = original_sq_len as i128 * (MILLION - epsilon as i128);
        isqrt(bottom * MILLION) - isqrt(fine)
    };
    let excess: i128 = if excess < 1 {
        1
    } else {
        excess
    };
    if excess <= MILLION {
        STRETCH_WEIGHT / 2 * excess
    } else {
        STRETCH_WEIGHT * excess
    }
}

/// What edge `i` owes: for its length, and for not lying in the hole.
pub open spec fn edge_cost(problem: Problem, now: Seq<Point>, epsilon: int, i: int) -> int {
    let e = problem.figure.edges@[i];
    stretch_cost(
        original_sq_len(problem.figure, i),
        sq_dist(now[e.0 as int], now[e.1 as int]),
        epsilon,
    ) + if segment_inside(problem.hole@, now[e.0 as int], now[e.1 as int]) {
        0int
    } else {
        MILLION * EDGE_OUTSIDE_PENALTY
    }
}

/// What the first `upto` edges owe together.
pub open spec fn edges_cost(problem: Problem, now: Seq<Point>, epsilon: int, upto: int) -> int
    decreases upto,
{
    if upto <= 0 {
        0
    } else {
        edges_cost(problem, now, epsilon, upto - 1) + edge_cost(problem, now, epsilon, upto - 1)
    }
}

/// The part of the score that the broken constraints account for: what the
/// vertices and the edges owe, taken from zero.
pub open spec fn residual(problem: Problem, field: ProximityField, now: Seq<Point>, epsilon: int)
    -> int {
    -(vertices_cost(field, now, now.len() as int) + edges_cost(
        problem,
        now,
        epsilon,
        problem.figure.edges@.len() as int,
    ))
}

/// The score of the placement: the residual, and the baseline less the sum,
/// over the corners of the hole, of the squared distance to the nearest
/// vertex.
pub open spec fn total_score(
    problem: Problem,
    field: ProximityField,
    now: Seq<Point>,
    epsilon: int,
) -> int {
    residual(problem, field, now, epsilon) + MILLION * (BASELINE - coverage(
        problem.hole@,
        now,
        problem.hole@.len() as int,
    ))
}

/// The cube of a field value is bounded, and is zero only for zero.
pub proof fn lemma_cube_bounds(v: int)
    requires
        0 <= v <= 99_999,
    ensures
        0 <= cube(v) <= 999_970_000_299_999,
        cube(v) == 0 <==> v == 0,
{
    assert(0 <= v * v <= 99_999 * 99_999) by (nonlinear_arith)
        requires
            0 <= v <= 99_999,
    ;
    let sq = v * v;
    assert(0 <= sq * v <= 9_999_800_001 * 99_999) by (nonlinear_arith)
        requires
            0 <= sq <= 9_999_800_001,
            0 <= v <= 99_999,
    ;
    assert(sq * v == 0 <==> v == 0) by (nonlinear_arith)
        requires
            sq == v * v,
            0 <= v,
    ;
}

/// What the vertices owe is bounded by their number.
pub proof fn lemma_vertices_cost_bounds(field: ProximityField, now: Seq<Point>, upto: int)
    requires
        field.wf(),
        field.covers_all(now),
        0 <= upto <= now.len(),
    ensures
        0 <= vertices_cost(field, now, upto) <= upto * 10_000_000_000_000_000_000_000,
        vertices_cost(field, now, upto) == 0 <==> forall|v: int|
            0 <= v < upto ==> field.value((#[trigger] now[v]).x as int, now[v].y as int) == 0,
    decreases upto,
{
    if upto > 0 {
        lemma_vertices_cost_bounds(field, now, upto - 1);
        let p = now[upto - 1];
        let value = field.value(p.x as int, p.y as int);
        lemma_cube_bounds(value);
    }
}

/// The squared length of edge `i` in the placement `now` is in range, and so
/// is its original squared length.
pub proof fn lemma_edge_lengths_in_range(problem: Problem, now: Seq<Point>, i: int)
    requires
        problem.wf(),
        all_in_range(now),
        now.len() == problem.figure.vertices@.len(),
        0 <= i < problem.figure.edges@.len(),
    ensures
        0 <= original_sq_len(problem.figure, i) <= SQ_DIST_LIMIT,
        0 <= sq_dist(
            now[problem.figure.edges@[i].0 as int],
            now[problem.figure.edges@[i].1 as int],
        ) <= SQ_DIST_LIMIT,
{
    let e = problem.figure.edges@[i];
    let p = problem.figure.vertices@[e.0 as int];
    let q = problem.figure.vertices@[e.1 as int];
    lemma_sq_norm_bound(p.x - q.x, p.y - q.y, 2_000_000_000);
    let s = now[e.0 as int];
    let t = now[e.1 as int];
    lemma_sq_norm_bound(s.x - t.x, s.y - t.y, 2_000_000_000);
}

/// What the edges owe is bounded by their number.
pub proof fn lemma_edges_cost_bounds(problem: Problem, now: Seq<Point>, epsilon: int, upto: int)
    requires
        problem.wf(),
        all_in_range(now),
        now.len() == problem.figure.vertices@.len(),
        epsilon >= 0,
        0 <= upto <= problem.figure.edges@.len(),
    ensures
        0 <= edges_cost(problem, now, epsilon, upto) <= upto
            * 500_000_000_000_000_000_000_000_000,
    decreases upto,
{
    if upto > 0 {
        lemma_edges_cost_bounds(problem, now, epsilon, upto - 1);
        lemma_edge_lengths_in_range(problem, now, upto - 1);
        let e = problem.figure.edges@[upto - 1];
        lemma_stretch_cost_bounds(
            original_sq_len(problem.figure, upto - 1),
            sq_dist(now[e.0 as int], now[e.1 as int]),
            epsilon,
        );
    }
}

/// Every score lies between the floor and the ceiling.
pub proof fn lemma_score_bounds(
    problem: Problem,
    field: ProximityField,
    now: Seq<Point>,
    epsilon: int,
)
    requires
        problem.wf(),
        field.wf(),
        now.len() == problem.figure.vertices@.len(),
        field.covers_all(now),
        epsilon >= 0,
    ensures
        SCORE_FLOOR <= total_score(problem, field, now, epsilon) <= SCORE_CEILING,
        residual(problem, field, now, epsilon) <= 0,
{
    let n = now.len() as int;
    let m = problem.figure.edges@.len() as int;
    let k = problem.hole@.len() as int;
    assert(all_in_range(now));
    lemma_vertices_cost_bounds(field, now, n);
    lemma_edges_cost_bounds(problem, now, epsilon, m);
    lemma_coverage_bounds(problem.hole@, now, k);
    assert(n * 10_000_000_000_000_000_000_000 <= 1_000_000_000 * 10_000_000_000_000_000_000_000)
        by (nonlinear_arith)
        requires
            0 <= n <= 1_000_000_000,
    ;
    assert(m * 500_000_000_000_000_000_000_000_000 <= 1_000_000_000
        * 500_000_000_000_000_000_000_000_000) by (nonlinear_arith)
        requires
            0 <= m <= 1_000_000_000,
    ;
    assert(k * SQ_DIST_LIMIT <= 1_000_000_000 * SQ_DIST_LIMIT) by (nonlinear_arith)
        requires
            0 <= k <= 1_000_000_000,
    ;
}

/// The squared length of the vector `(a, b)`, where it fits.
pub fn hyp(a: i64, b: i64) -> (r: i64)
    requires
        a * a + b * b <= i64::MAX,
    ensures
        r == a * a + b * b,
{
    assert(0 <= a * a && 0 <= b * b) by (nonlinear_arith);
    a * a + b * b
}

/// The cube of a field value.
pub fn pow3(a: u32) -> (r: i128)
    ensures
        r == cube(a as int),
        r >= 0,
{
    let v: i128 = a as i128;
    assert(0 <= v * v <= 0xffff_ffff * 0xffff_ffff) by (nonlinear_arith)
        requires
            0 <= v <= 0xffff_ffff,
    ;
    let square: i128 = v * v;
    assert(0 <= square * v <= 0xffff_fffe_0000_0001 * 0xffff_ffff) by (nonlinear_arith)
        requires
            0 <= square <= 0xffff_fffe_0000_0001,
            0 <= v <= 0xffff_ffff,
    ;
    square * v
}

/// The score of the placement `now` and its residual, both in millionths of
/// a unit. The score starts from a baseline of 100000 units and loses: for
/// every vertex ten times the cube of the field value at its position; for
/// every edge fifty times the amount by which its length departs from its
/// original length beyond what the tolerance `eps` allows, an excess of at
/// most one unit counted half; for every edge that does not lie in the hole a
/// million units; and
/// for every corner of the hole the squared distance to the nearest vertex.
/// The residual is what the vertices and the edges lose, without the baseline
/// and the corners: it is zero exactly where no constraint is broken.
pub fn get_all_score(problem: &Problem, now: &Vec<Point>, eps: i64, field: &ProximityField) -> (r: (
    i128,
    i128,
))
    requires
        problem.wf(),
        field.wf(),
        now.len() == problem.figure.vertices.len(),
        field.covers_all(now@),
        eps >= 0,
    ensures
        r.0 == total_score(*problem, *field, now@, eps as int),
        r.1 == residual(*problem, *field, now@, eps as int),
        r.1 <= 0,
        SCORE_FLOOR <= r.0 <= SCORE_CEILING,
{
    proof {
        lemma_score_bounds(*problem, *field, now@, eps as int);
    }
    let n: usize = now.len();
    let m: usize = problem.figure.edges.len();
    let k: usize = problem.hole.len();
    assert(all_in_range(now@));
    let mut owed: i128 = 0;
    let mut v: usize = 0;
    while v < n
        invariant
            0 <= v <= n,
            n == now.len(),
            n <= 1_000_000_000,
            field.wf(),
            field.covers_all(now@),
            owed == vertices_cost(*field, now@, v as int),
        decreases n - v,
    {
        proof {
            lemma_vertices_cost_bounds(*field, now@, v as int);
        }
        let p: Point = now[v];
        let value: u32 = field.value_at(p);
        proof {
            lemma_cube_bounds(value as int);
        }
        owed = owed + MILLION * OUTSIDE_WEIGHT * pow3(value);
        v = v + 1;
    }
    let ghost at_vertices = owed;
    proof {
        lemma_vertices_cost_bounds(*field, now@, n as int);
    }
    let mut i: usize = 0;
    while i < m
        invariant
            0 <= i <= m,
            m == problem.figure.edges.len(),
            n == now.len(),
            problem.wf(),
            all_in_range(now@),
            now.len() == problem.figure.vertices.len(),
            eps >= 0,
            0 <= at_vertices <= 1_000_000_000 * 10_000_000_000_000_000_000_000,
            owed == at_vertices + edges_cost(*problem, now@, eps as int, i as int),
        decreases m - i,
    {
        proof {
            lemma_edges_cost_bounds(*problem, now@, eps as int, i as int);
            assert(i * 500_000_000_000_000_000_000_000_000 <= 1_000_000_000
                * 500_000_000_000_000_000_000_000_000) by (nonlinear_arith)
                requires
                    0 <= i <= 1_000_000_000,
            ;
        }
        let e: (usize, usize) = problem.figure.edges[i];
        let p: Point = problem.figure.vertices[e.0];
        let q: Point = problem.figure.vertices[e.1];
        let s: Point = now[e.0];
        let t: Point = now[e.1];
        proof {
            lemma_sq_norm_bound(p.x - q.x, p.y - q.y, 2_000_000_000);
            lemma_sq_norm_bound(s.x - t.x, s.y - t.y, 2_000_000_000);
        }
        let d1: i64 = hyp(p.x - q.x, p.y - q.y);
        let d2: i64 = hyp(s.x - t.x, s.y - t.y);
        owed = owed + stretch_owed(d1, d2, eps);
        if !segment_in_polygon(&problem.hole, (s, t)) {
            owed = owed + MILLION * EDGE_OUTSIDE_PENALTY;
        }
        i = i + 1;
    }
    proof {
        lemma_edges_cost_bounds(*problem, now@, eps as int, m as int);
        assert(m * 500_000_000_000_000_000_000_000_000 <= 1_000_000_000
            * 500_000_000_000_000_000_000_000_000) by (nonlinear_arith)
            requires
                0 <= m <= 1_000_000_000,
        ;
    }
    let mut far: i128 = 0;
    let mut c: usize = 0;
    while c < k
        invariant
            0 <= c <= k,
            k == problem.hole.len(),
            k <= 1_000_000_000,
            n == now.len(),
            n > 0,
            all_in_range(problem.hole@),
            all_in_range(now@),
            far == coverage(problem.hole@, now@, c as int),
        decreases k - c,
    {
        proof {
            lemma_coverage_bounds(problem.hole@, now@, c as int);
            assert(c * SQ_DIST_LIMIT <= 1_000_000_000 * SQ_DIST_LIMIT) by (nonlinear_arith)
                requires
                    0 <= c <= 1_000_000_000,
            ;
        }
        let h: Point = problem.hole[c];
        far = far + nearest_sq_dist(h, now) as i128;
        c = c + 1;
    }
    proof {
        assert(k * SQ_DIST_LIMIT <= 1_000_000_000 * SQ_DIST_LIMIT) by (nonlinear_arith)
            requires
                0 <= k <= 1_000_000_000,
        ;
    }
    let okflag: i128 = -owed;
    (okflag + MILLION * (BASELINE - far), okflag)
}

/// The placement breaks no constraint: no vertex lies outside the hole, and
/// every edge lies in the hole and keeps to the tolerance on its length.
pub open spec fn feasible(problem: Problem, now: Seq<Point>, epsilon: int) -> bool {
    &&& forall|v: int|
        0 <= v < now.len() ==> containment(problem.hole@, #[trigger] now[v])
            != Containment::Outside
    &&& forall|i: int|
        0 <= i < problem.figure.edges@.len() ==> #[trigger] edge_feasible(problem, now, epsilon, i)
}

/// Edge `i` lies in the hole and keeps to the tolerance on its length.
pub open spec fn edge_feasible(problem: Problem, now: Seq<Point>, epsilon: int, i: int) -> bool {
    let e = problem.figure.edges@[i];
    &&& segment_inside(problem.hole@, now[e.0 as int], now[e.1 as int])
    &&& stretch_within(
        original_sq_len(problem.figure, i),
        sq_dist(now[e.0 as int], now[e.1 as int]),
        epsilon,
    )
}

/// The first edges owe nothing exactly where each of them lies in the hole
/// and keeps to the tolerance.
pub proof fn lemma_edges_cost_zero(problem: Problem, now: Seq<Point>, epsilon: int, upto: int)
    requires
        problem.wf(),
        all_in_range(now),
        now.len() == problem.figure.vertices@.len(),
        epsilon >= 0,
        0 <= upto <= problem.figure.edges@.len(),
    ensures
        edges_cost(problem, now, epsilon, upto) == 0 <==> forall|i: int|
            0 <= i < upto ==> #[trigger] edge_feasible(problem, now, epsilon, i),
    decreases upto,
{
    if upto > 0 {
        lemma_edges_cost_zero(problem, now, epsilon, upto - 1);
        lemma_edges_cost_bounds(problem, now, epsilon, upto - 1);
        lemma_edge_lengths_in_range(problem, now, upto - 1);
        let e = problem.figure.edges@[upto - 1];
        lemma_stretch_cost_bounds(
            original_sq_len(problem.figure, upto - 1),
            sq_dist(now[e.0 as int], now[e.1 as int]),
            epsilon,
        );
        assert(edge_cost(problem, now, epsilon, upto - 1) == 0 <==> edge_feasible(
            problem,
            now,
            epsilon,
            upto - 1,
        ));
    }
}

/// A placement is feasible exactly where its residual is zero; a residual is
/// never positive.
pub proof fn lemma_residual_zero_iff_feasible(
    problem: Problem,
    field: ProximityField,
    now: Seq<Point>,
    epsilon: int,
)
    requires
        problem.wf(),
        field.is_field_of(problem),
        now.len() == problem.figure.vertices@.len(),
        field.covers_all(now),
        epsilon >= 0,
    ensures
        residual(problem, field, now, epsilon) <= 0,
        residual(problem, field, now, epsilon) == 0 <==> feasible(problem, now, epsilon),
{
    let n = now.len() as int;
    let m = problem.figure.edges@.len() as int;
    assert(all_in_range(now));
    lemma_vertices_cost_bounds(field, now, n);
    lemma_edges_cost_bounds(problem, now, epsilon, m);
    lemma_edges_cost_zero(problem, now, epsilon, m);
    assert forall|v: int| 0 <= v < n implies (field.value(
        (#[trigger] now[v]).x as int,
        now[v].y as int,
    ) == 0 <==> containment(problem.hole@, now[v]) != Containment::Outside) by {
        let p = now[v];
        lemma_label_range(problem.hole@, field.frame(), MAX_ROUNDS as int, p.x as int, p.y as int);
    }
}

} // verus!
