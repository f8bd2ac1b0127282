//! The constraints that touch one vertex of a pose: the vertex must not lie
//! outside the hole, every edge at it must lie in the hole, and every edge at
//! it must keep to the tolerance on its length. They are judged in two ways:
//! as a verdict, and as a penalty that measures how far they are broken.

use vstd::prelude::*;
use crate::model::{edges_in_bounds, SIZE_LIMIT};
use crate::point::{sq_dist, squared_distance, Point, SQ_DIST_LIMIT};
use crate::polygon::{
    all_in_range, containment, point_in_polygon, segment_in_polygon, segment_inside, Containment,
};
use crate::stretch::{stretch_excess, stretch_ok, stretch_violation, MILLION};

verus! {

/// The penalty for a vertex outside the hole, and for an edge that leaves it.
pub const PENALTY_UNIT: i128 = 1000;

/// Largest value of the product of all original squared lengths, times their
/// number, for which the aggregate tolerance is computed: a million times as
/// much still fits the widest machine integer.
pub const AGGREGATE_LIMIT: i128 = 100_000_000_000_000_000_000_000_000_000_000;

/// Every entry of the adjacency list names a vertex and an edge that exist.
pub open spec fn adjacency_in_bounds(adj: Seq<(usize, usize)>, n: int, m: int) -> bool {
    &&& adj.len() <= 2 * SIZE_LIMIT
    &&& forall|t: int| 0 <= t < adj.len() ==> (#[trigger] adj[t]).0 < n && adj[t].1 < m
}

/// Every length is an original squared length of an edge between points in
/// range.
pub open spec fn lengths_in_range(dist2: Seq<i64>) -> bool {
    forall|i: int| 0 <= i < dist2.len() ==> 0 <= #[trigger] dist2[i] <= SQ_DIST_LIMIT
}

/// What the checks around vertex `a` need of their arguments: the points are
/// in range, the indices name what exists, and the tolerance is not negative.
pub open spec fn local_inputs_ok(
    hole: Seq<Point>,
    edges: Seq<(usize, usize)>,
    vertices: Seq<Point>,
    dist2: Seq<i64>,
    a: int,
    adj: Seq<(usize, usize)>,
    epsilon: int,
) -> bool {
    &&& all_in_range(hole)
    &&& all_in_range(vertices)
    &&& 0 <= a < vertices.len()
    &&& edges.len() == dist2.len()
    &&& edges.len() <= SIZE_LIMIT
    &&& edges_in_bounds(edges, vertices.len() as int)
    &&& lengths_in_range(dist2)
    &&& adjacency_in_bounds(adj, vertices.len() as int, dist2.len() as int)
    &&& epsilon >= 0
}

/// The edge from vertex `a` that the adjacency entry names lies in the hole.
pub open spec fn edge_contained(
    hole: Seq<Point>,
    vertices: Seq<Point>,
    a: int,
    entry: (usize, usize),
) -> bool {
    segment_inside(hole, vertices[a], vertices[entry.0 as int])
}

/// By how much the edge from vertex `a` that the adjacency entry names breaks
/// the tolerance on its length.
pub open spec fn edge_excess(
    vertices: Seq<Point>,
    dist2: Seq<i64>,
    a: int,
    entry: (usize, usize),
    epsilon: int,
) -> int {
    stretch_excess(
        dist2[entry.1 as int] as int,
        sq_dist(vertices[a], vertices[entry.0 as int]),
        epsilon,
    )
}

/// The penalty of one edge at vertex `a`: a unit where it leaves the hole, and
/// the magnitude by which it breaks the tolerance.
pub open spec fn edge_penalty(
    hole: Seq<Point>,
    vertices: Seq<Point>,
    dist2: Seq<i64>,
    a: int,
    entry: (usize, usize),
    epsilon: int,
) -> int {
    (if edge_contained(hole, vertices, a, entry) {
        0int
    } else {
        PENALTY_UNIT as int
    }) + edge_excess(vertices, dist2, a, entry, epsilon)
}

/// The penalties of the first `upto` edges at vertex `a`, summed.
pub open spec fn edges_penalty(
    hole: Seq<Point>,
    vertices: Seq<Point>,
    dist2: Seq<i64>,
    a: int,
    adj: Seq<(usize, usize)>,
    epsilon: int,
    upto: int,
) -> int
    decreases upto,
{
    if upto <= 0 {
        0
    } else {
        edges_penalty(hole, vertices, dist2, a, adj, epsilon, upto - 1) + edge_penalty(
            hole,
            vertices,
            dist2,
            a,
            adj[upto - 1],
            epsilon,
        )
    }
}

/// The penalty at vertex `a`: a unit where the vertex lies outside the hole,
/// and the penalty of every edge at it.
pub open spec fn violations(
    hole: Seq<Point>,
    vertices: Seq<Point>,
    dist2: Seq<i64>,
    a: int,
    adj: Seq<(usize, usize)>,
    epsilon: int,
) -> int {
    (if containment(hole, vertices[a]) == Containment::Outside {
        PENALTY_UNIT as int
    } else {
        0int
    }) + edges_penalty(hole, vertices, dist2, a, adj, epsilon, adj.len() as int)
}

/// The product of the first `upto` lengths.
pub open spec fn product(dist2: Seq<i64>, upto: int) -> int
    decreases upto,
{
    if upto <= 0 {
        1
    } else {
        product(dist2, upto - 1) * dist2[upto - 1]
    }
}

/// The change of the squared length of edge `i`, weighted by the product of
/// the original squared lengths of all other edges: the relative change of
/// the edge, times the product of all original squared lengths.
pub open spec fn weighted_change(
    edges: Seq<(usize, usize)>,
    vertices: Seq<Point>,
    dist2: Seq<i64>,
    i: int,
) -> int {
    product(dist2, dist2.len() as int) / (dist2[i] as int) * (sq_dist(
        vertices[edges[i].0 as int],
        vertices[edges[i].1 as int],
    ) - dist2[i])
}

/// The weighted changes of the first `upto` edges, summed.
pub open spec fn weighted_changes(
    edges: Seq<(usize, usize)>,
    vertices: Seq<Point>,
    dist2: Seq<i64>,
    upto: int,
) -> int
    decreases upto,
{
    if upto <= 0 {
        0
    } else {
        weighted_changes(edges, vertices, dist2, upto - 1) + weighted_change(
            edges,
            vertices,
            dist2,
            upto - 1,
        )
    }
}

/// The tolerance of the figure as a whole: the relative changes of all edges,
/// summed, are at most `epsilon` parts per million for each edge. Both sides
/// are multiplied by the product of all original squared lengths, so that no
/// division takes place. An edge may break its own tolerance where others
/// make up for it.
pub open spec fn aggregate_within(
    edges: Seq<(usize, usize)>,
    vertices: Seq<Point>,
    dist2: Seq<i64>,
    epsilon: int,
) -> bool {
    1_000_000 * weighted_changes(edges, vertices, dist2, dist2.len() as int) <= product(
        dist2,
        dist2.len() as int,
    ) * dist2.len() * epsilon
}

/// The aggregate tolerance can be computed: no original length is zero, and
/// the product of all of them, times their number, is within the limit.
pub open spec fn aggregate_in_reach(dist2: Seq<i64>) -> bool {
    &&& forall|i: int| 0 <= i < dist2.len() ==> #[trigger] dist2[i] > 0
    &&& product(dist2, dist2.len() as int) * dist2.len() <= AGGREGATE_LIMIT
}

/// Every edge at vertex `a` lies in the hole.
pub open spec fn edges_contained(
    hole: Seq<Point>,
    vertices: Seq<Point>,
    a: int,
    adj: Seq<(usize, usize)>,
) -> bool {
    forall|t: int| 0 <= t < adj.len() ==> edge_contained(hole, vertices, a, #[trigger] adj[t])
}

/// Every edge at vertex `a` keeps to the tolerance on its length.
pub open spec fn edges_within(
    vertices: Seq<Point>,
    dist2: Seq<i64>,
    a: int,
    adj: Seq<(usize, usize)>,
    epsilon: int,
) -> bool {
    forall|t: int|
        0 <= t < adj.len() ==> edge_excess(vertices, dist2, a, #[trigger] adj[t], epsilon) == 0
}

/// The constraints around vertex `a` hold: the vertex is not outside the
/// hole, every edge at it lies in the hole, and the tolerance is kept: by
/// every edge at the vertex, or, for a globalist, by the figure as a whole.
pub open spec fn satisfied(
    hole: Seq<Point>,
    edges: Seq<(usize, usize)>,
    vertices: Seq<Point>,
    dist2: Seq<i64>,
    a: int,
    adj: Seq<(usize, usize)>,
    epsilon: int,
    globalist: bool,
) -> bool {
    &&& containment(hole, vertices[a]) != Containment::Outside
    &&& edges_contained(hole, vertices, a, adj)
    &&& if globalist {
        aggregate_within(edges, vertices, dist2, epsilon)
    } else {
        edges_within(vertices, dist2, a, adj, epsilon)
    }
}

/// The penalty of a prefix of the edges is bounded by its length.
pub proof fn lemma_edges_penalty_bounds(
    hole: Seq<Point>,
    vertices: Seq<Point>,
    dist2: Seq<i64>,
    a: int,
    adj: Seq<(usize, usize)>,
    epsilon: int,
    upto: int,
)
    requires
        all_in_range(vertices),
        0 <= a < vertices.len(),
        lengths_in_range(dist2),
        adjacency_in_bounds(adj, vertices.len() as int, dist2.len() as int),
        epsilon >= 0,
        0 <= upto <= adj.len(),
    ensures
        0 <= edges_penalty(hole, vertices, dist2, a, adj, epsilon, upto) <= upto * (PENALTY_UNIT
            + 1_000_000 * SQ_DIST_LIMIT),
    decreases upto,
{
    let cap = PENALTY_UNIT + 1_000_000 * SQ_DIST_LIMIT;
    if upto > 0 {
        lemma_edges_penalty_bounds(hole, vertices, dist2, a, adj, epsilon, upto - 1);
        let entry = adj[upto - 1];
        lemma_edge_excess_bounds(vertices, dist2, a, entry, epsilon);
        assert(upto * cap == (upto - 1) * cap + cap) by (nonlinear_arith);
    }
}

/// The excess of an edge between points in range is bounded.
pub proof fn lemma_edge_excess_bounds(
    vertices: Seq<Point>,
    dist2: Seq<i64>,
    a: int,
    entry: (usize, usize),
    epsilon: int,
)
    requires
        all_in_range(vertices),
        0 <= a < vertices.len(),
        lengths_in_range(dist2),
        entry.0 < vertices.len(),
        entry.1 < dist2.len(),
        epsilon >= 0,
    ensures
        0 <= edge_excess(vertices, dist2, a, entry, epsilon) <= 1_000_000 * SQ_DIST_LIMIT,
        0 <= sq_dist(vertices[a], vertices[entry.0 as int]) <= SQ_DIST_LIMIT,
{
    let p = vertices[a];
    let q = vertices[entry.0 as int];
    crate::point::lemma_sq_norm_bound(p.x - q.x, p.y - q.y, 2_000_000_000);
}

/// Without the globalist's aggregate, the constraints around a vertex hold
/// exactly where the penalty at it is zero.
pub proof fn lemma_satisfied_iff_no_violation(
    hole: Seq<Point>,
    edges: Seq<(usize, usize)>,
    vertices: Seq<Point>,
    dist2: Seq<i64>,
    a: int,
    adj: Seq<(usize, usize)>,
    epsilon: int,
)
    ensures
        violations(hole, vertices, dist2, a, adj, epsilon) >= 0,
        satisfied(hole, edges, vertices, dist2, a, adj, epsilon, false) <==> violations(
            hole,
            vertices,
            dist2,
            a,
            adj,
            epsilon,
        ) == 0,
{
    lemma_edges_penalty_zero(hole, vertices, dist2, a, adj, epsilon, adj.len() as int);
}

/// The penalties of a prefix of the edges sum to zero exactly where each of
/// them lies in the hole and keeps to the tolerance.
pub proof fn lemma_edges_penalty_zero(
    hole: Seq<Point>,
    vertices: Seq<Point>,
    dist2: Seq<i64>,
    a: int,
    adj: Seq<(usize, usize)>,
    epsilon: int,
    upto: int,
)
    requires
        0 <= upto <= adj.len(),
    ensures
        edges_penalty(hole, vertices, dist2, a, adj, epsilon, upto) >= 0,
        edges_penalty(hole, vertices, dist2, a, adj, epsilon, upto) == 0 <==> (forall|t: int|
            0 <= t < upto ==> edge_contained(hole, vertices, a, #[trigger] adj[t]) && edge_excess(
                vertices,
                dist2,
                a,
                adj[t],
                epsilon,
            ) == 0),
    decreases upto,
{
    if upto > 0 {
        lemma_edges_penalty_zero(hole, vertices, dist2, a, adj, epsilon, upto - 1);
    }
}

/// The product of all lengths but the one at `i`.
pub open spec fn product_of_others(dist2: Seq<i64>, i: int) -> int {
    product(dist2.remove(i), dist2.len() - 1)
}

/// Two sequences that agree on their first `upto` lengths have the same
/// product of them.
pub proof fn lemma_product_of_equal_prefixes(d: Seq<i64>, e: Seq<i64>, upto: int)
    requires
        0 <= upto <= d.len(),
        upto <= e.len(),
        forall|j: int| 0 <= j < upto ==> d[j] == e[j],
    ensures
        product(d, upto) == product(e, upto),
    decreases upto,
{
    if upto > 0 {
        lemma_product_of_equal_prefixes(d, e, upto - 1);
    }
}

/// A product of lengths is one of them times the product of the others.
pub proof fn lemma_product_splits(d: Seq<i64>, i: int, upto: int)
    requires
        0 <= i < upto <= d.len(),
    ensures
        product(d, upto) == d[i] * product(d.remove(i), upto - 1),
    decreases upto,
{
    let rest = d.remove(i);
    if i == upto - 1 {
        lemma_product_of_equal_prefixes(d, rest, upto - 1);
        let front = product(d, upto - 1);
        assert(front * d[i] == d[i] * front) by (nonlinear_arith);
    } else {
        lemma_product_splits(d, i, upto - 1);
        let inner = product(rest, upto - 2);
        assert((d[i] * inner) * d[upto - 1] == d[i] * (inner * d[upto - 1])) by (nonlinear_arith);
    }
}

/// The weight of an edge in the aggregate tolerance, the product of all
/// original squared lengths divided by its own, is the product of the
/// original squared lengths of all other edges.
pub proof fn lemma_weight_is_product_of_others(dist2: Seq<i64>, i: int)
    requires
        0 <= i < dist2.len(),
        dist2[i] > 0,
    ensures
        product(dist2, dist2.len() as int) / (dist2[i] as int) == product_of_others(dist2, i),
{
    lemma_product_splits(dist2, i, dist2.len() as int);
    vstd::arithmetic::div_mod::lemma_div_multiples_vanish(
        product_of_others(dist2, i),
        dist2[i] as int,
    );
}

/// The penalty at vertex `a` of the placement `vertices`: a unit of 1000
/// where the vertex lies outside the hole; for every edge at the vertex a unit
/// where the edge does not lie in the hole, and the magnitude by which it
/// breaks the tolerance on its length. `adj` lists the edges at the vertex,
/// each as the vertex at its other end and its index among the lengths.
pub fn calculate_penalty(
    hole: &Vec<Point>,
    edges: &Vec<(usize, usize)>,
    vertices: &Vec<Point>,
    dist2: &Vec<i64>,
    a: usize,
    adj: &Vec<(usize, usize)>,
    epsilon: i64,
    globalist: bool,
) -> (penalty: i128)
    requires
        local_inputs_ok(hole@, edges@, vertices@, dist2@, a as int, adj@, epsilon as int),
    ensures
        penalty == violations(hole@, vertices@, dist2@, a as int, adj@, epsilon as int),
        penalty >= 0,
{
    let mut penalty: i128 = 0;
    let p: Point = vertices[a];
    if point_in_polygon(hole, p) == Containment::Outside {
        penalty = penalty + PENALTY_UNIT;
    }
    let ghost at_vertex = penalty;
    let k: usize = adj.len();
    let mut t: usize = 0;
    while t < k
        invariant
            0 <= t <= k,
            k == adj.len(),
            p == vertices@[a as int],
            local_inputs_ok(hole@, edges@, vertices@, dist2@, a as int, adj@, epsilon as int),
            0 <= at_vertex <= PENALTY_UNIT,
            penalty == at_vertex + edges_penalty(
                hole@,
                vertices@,
                dist2@,
                a as int,
                adj@,
                epsilon as int,
                t as int,
            ),
        decreases k - t,
    {
        proof {
            lemma_edges_penalty_bounds(
                hole@,
                vertices@,
                dist2@,
                a as int,
                adj@,
                epsilon as int,
                t as int,
            );
            assert(t * (PENALTY_UNIT + 1_000_000 * SQ_DIST_LIMIT) <= 2_000_000_000 * (PENALTY_UNIT
                + 1_000_000 * SQ_DIST_LIMIT)) by (nonlinear_arith)
                requires
                    0 <= t <= 2_000_000_000,
            ;
        }
        let entry: (usize, usize) = adj[t];
        let q: Point = vertices[entry.0];
        if !segment_in_polygon(hole, (p, q)) {
            penalty = penalty + PENALTY_UNIT;
        }
        penalty = penalty + stretch_violation(dist2[entry.1], squared_distance(p, q), epsilon);
        t = t + 1;
    }
    proof {
        lemma_edges_penalty_bounds(
            hole@,
            vertices@,
            dist2@,
            a as int,
            adj@,
            epsilon as int,
            k as int,
        );
    }
    penalty
}

/// A product of positive lengths grows with the number of its factors, and
/// is at least one.
pub proof fn lemma_product_grows(dist2: Seq<i64>, i: int, j: int)
    requires
        0 <= i <= j <= dist2.len(),
        forall|t: int| 0 <= t < dist2.len() ==> #[trigger] dist2[t] > 0,
    ensures
        1 <= product(dist2, i) <= product(dist2, j),
    decreases j,
{
    if i < j {
        lemma_product_grows(dist2, i, j - 1);
        let d = dist2[j - 1];
        let front = product(dist2, j - 1);
        assert(front * d >= front) by (nonlinear_arith)
            requires
                front >= 1,
                d >= 1,
        ;
    } else if i > 0 {
        lemma_product_grows(dist2, i - 1, i - 1);
        let d = dist2[i - 1];
        let front = product(dist2, i - 1);
        assert(front * d >= 1) by (nonlinear_arith)
            requires
                front >= 1,
                d >= 1,
        ;
    }
}

/// The product of all lengths, where the aggregate tolerance can be computed
/// with it.
pub fn aggregate_product(dist2: &Vec<i64>) -> (r: Option<i128>)
    ensures
        r is Some <==> aggregate_in_reach(dist2@),
        r is Some ==> r->0 == product(dist2@, dist2@.len() as int),
{
    let m: usize = dist2.len();
    let mut prod: i128 = 1;
    let mut i: usize = 0;
    while i < m
        invariant
            0 <= i <= m,
            m == dist2.len(),
            forall|t: int| 0 <= t < i ==> #[trigger] dist2@[t] > 0,
            prod == product(dist2@, i as int),
            1 <= prod <= AGGREGATE_LIMIT,
        decreases m - i,
    {
        let d: i64 = dist2[i];
        if d <= 0 {
            return None;
        }
        assert(prod * d >= 1) by (nonlinear_arith)
            requires
                prod >= 1,
                d >= 1,
        ;
        let next: i128 = match prod.checked_mul(d as i128) {
            Some(next) => next,
            None => AGGREGATE_LIMIT + 1,
        };
        if next > AGGREGATE_LIMIT {
            proof {
                if aggregate_in_reach(dist2@) {
                    lemma_product_grows(dist2@, i + 1, m as int);
                    let whole = product(dist2@, m as int);
                    assert(whole * m >= whole) by (nonlinear_arith)
                        requires
                            whole >= 1,
                            m >= 1,
                    ;
                }
            }
            return None;
        }
        prod = next;
        i = i + 1;
    }
    assert(prod * m <= AGGREGATE_LIMIT * 0xffff_ffff_ffff_ffff) by (nonlinear_arith)
        requires
            1 <= prod <= AGGREGATE_LIMIT,
            0 <= m <= 0xffff_ffff_ffff_ffff,
    ;
    match prod.checked_mul(m as i128) {
        Some(all) => if all > AGGREGATE_LIMIT {
            None
        } else {
            Some(prod)
        },
        None => None,
    }
}

/// The weighted change of an edge, taken apart: the change of the squared
/// length holds the original squared length `whole_parts` times, with
/// `rest` left over; so the weighted change holds the product of all lengths
/// as many times, with the rest, weighted, left over.
pub proof fn lemma_weighted_change_in_parts(
    edges: Seq<(usize, usize)>,
    vertices: Seq<Point>,
    dist2: Seq<i64>,
    i: int,
    whole_parts: int,
    rest: int,
)
    requires
        0 <= i < dist2.len(),
        dist2[i] > 0,
        sq_dist(vertices[edges[i].0 as int], vertices[edges[i].1 as int]) - dist2[i]
            == whole_parts * dist2[i] + rest,
        0 <= rest < dist2[i],
        product(dist2, dist2.len() as int) >= 1,
    ensures
        ({
            let whole = product(dist2, dist2.len() as int);
            let weight = whole / (dist2[i] as int);
            &&& weight * dist2[i] == whole
            &&& weighted_change(edges, vertices, dist2, i) == whole * whole_parts + rest * weight
            &&& 0 <= rest * weight <= whole
        }),
{
    let whole = product(dist2, dist2.len() as int);
    let d = dist2[i] as int;
    let weight = whole / d;
    let change = sq_dist(vertices[edges[i].0 as int], vertices[edges[i].1 as int]) - dist2[i];
    lemma_product_splits(dist2, i, dist2.len() as int);
    lemma_weight_is_product_of_others(dist2, i);
    assert(weight * d == whole) by (nonlinear_arith)
        requires
            whole == d * weight,
    ;
    assert(weight * change == whole * whole_parts + rest * weight) by (nonlinear_arith)
        requires
            change == whole_parts * d + rest,
            weight * d == whole,
    ;
    assert(weight >= 0) by (nonlinear_arith)
        requires
            weight * d == whole,
            whole >= 1,
            d > 0,
    ;
    assert(0 <= rest * weight <= whole) by (nonlinear_arith)
        requires
            0 <= rest < d,
            weight >= 0,
            weight * d == whole,
    ;
}

/// Tells whether the figure as a whole keeps to the tolerance. The change of
/// every edge is taken apart into whole original lengths and a rest, so that
/// only the rests are weighted.
pub fn aggregate_ok(
    edges: &Vec<(usize, usize)>,
    vertices: &Vec<Point>,
    dist2: &Vec<i64>,
    epsilon: i64,
) -> (r: bool)
    requires
        all_in_range(vertices@),
        edges.len() == dist2.len(),
        edges.len() <= SIZE_LIMIT,
        edges_in_bounds(edges@, vertices.len() as int),
        lengths_in_range(dist2@),
        aggregate_in_reach(dist2@),
        epsilon >= 0,
    ensures
        r == aggregate_within(edges@, vertices@, dist2@, epsilon as int),
{
    let m: usize = dist2.len();
    let prod: i128 = match aggregate_product(dist2) {
        Some(p) => p,
        None => 1,
    };
    let ghost whole = product(dist2@, m as int);
    proof {
        lemma_product_grows(dist2@, 0, m as int);
    }
    let mut parts: i128 = 0;
    let mut rests: i128 = 0;
    let mut i: usize = 0;
    while i < m
        invariant
            0 <= i <= m,
            m == dist2.len(),
            m <= 1_000_000_000,
            edges.len() == dist2.len(),
            all_in_range(vertices@),
            edges_in_bounds(edges@, vertices.len() as int),
            lengths_in_range(dist2@),
            aggregate_in_reach(dist2@),
            prod == whole,
            whole == product(dist2@, m as int),
            whole >= 1,
            whole * m <= AGGREGATE_LIMIT,
            weighted_changes(edges@, vertices@, dist2@, i as int) == whole * parts + rests,
            -i <= parts <= i * SQ_DIST_LIMIT,
            0 <= rests <= i * whole,
        decreases m - i,
    {
        let d: i64 = dist2[i];
        let e: (usize, usize) = edges[i];
        let p: Point = vertices[e.0];
        let q: Point = vertices[e.1];
        let new: i64 = squared_distance(p, q);
        let weight: i128 = prod / (d as i128);
        let part: i64 = if new >= d {
            (new - d) / d
        } else {
            -1
        };
        let rest: i64 = if new >= d {
            (new - d) % d
        } else {
            new
        };
        proof {
            assert(new - d == part * d + rest && 0 <= rest < d && -1 <= part <= SQ_DIST_LIMIT)
                by (nonlinear_arith)
                requires
                    0 < d <= SQ_DIST_LIMIT,
                    0 <= new <= SQ_DIST_LIMIT,
                    new >= d ==> part == (new - d) / (d as int) && rest == (new - d) % (d as int),
                    new < d ==> part == -1 && rest == new,
            ;
            lemma_weighted_change_in_parts(
                edges@,
                vertices@,
                dist2@,
                i as int,
                part as int,
                rest as int,
            );
            assert(whole * (parts + part) == whole * parts + whole * part) by (nonlinear_arith);
            assert((i + 1) * SQ_DIST_LIMIT == i * SQ_DIST_LIMIT + SQ_DIST_LIMIT
                && i * SQ_DIST_LIMIT <= 1_000_000_000 * SQ_DIST_LIMIT) by (nonlinear_arith)
                requires
                    0 <= i <= 1_000_000_000,
            ;
            assert((i + 1) * whole == i * whole + whole && (i + 1) * whole <= whole * m)
                by (nonlinear_arith)
                requires
                    0 <= i < m,
                    whole >= 1,
            ;
        }
        parts = parts + part as i128;
        rests = rests + (rest as i128) * weight;
        i = i + 1;
    }
    // a million times the changes, `whole * parts + rests`, against
    // `whole * m * epsilon`: the rests against `whole` times what is left
    proof {
        assert(m * SQ_DIST_LIMIT <= 1_000_000_000 * SQ_DIST_LIMIT) by (nonlinear_arith)
            requires
                0 <= m <= 1_000_000_000,
        ;
        assert(0 <= m * epsilon <= 1_000_000_000 * 0x7fff_ffff_ffff_ffff) by (nonlinear_arith)
            requires
                0 <= m <= 1_000_000_000,
                0 <= epsilon <= 0x7fff_ffff_ffff_ffff,
        ;
    }
    let left: i128 = (m as i128) * (epsilon as i128) - MILLION * parts;
    proof {
        assert(whole * m * epsilon - 1_000_000 * (whole * parts + rests) == whole * left
            - 1_000_000 * rests) by (nonlinear_arith)
            requires
                left == m * epsilon - 1_000_000 * parts,
        ;
        assert(rests <= m * whole && m * whole == whole * m) by (nonlinear_arith)
            requires
                rests <= m * whole,
        ;
    }
    if left < 0 {
        proof {
            assert(whole * left < 0) by (nonlinear_arith)
                requires
                    whole >= 1,
                    left < 0,
            ;
        }
        false
    } else if left >= MILLION * (m as i128) {
        proof {
            assert(whole * left >= whole * (1_000_000 * m)) by (nonlinear_arith)
                requires
                    whole >= 1,
                    left >= 1_000_000 * m,
            ;
            assert(whole * (1_000_000 * m) == 1_000_000 * (whole * m)) by (nonlinear_arith);
        }
        true
    } else {
        proof {
            assert(0 <= whole * left <= whole * (1_000_000 * m)) by (nonlinear_arith)
                requires
                    whole >= 1,
                    0 <= left <= 1_000_000 * m,
            ;
            assert(whole * (1_000_000 * m) == 1_000_000 * (whole * m)) by (nonlinear_arith);
        }
        MILLION * rests <= prod * left
    }
}

/// Tells whether the constraints around vertex `a` of the placement
/// `vertices` hold: the vertex is not outside the hole, every edge at it lies
/// in the hole, and the tolerance is kept, by every edge at the vertex or,
/// for a globalist, by the figure as a whole. `adj` lists the edges at the
/// vertex, each as the vertex at its other end and its index among the
/// lengths. The answer is given at the first constraint that fails.
pub fn check_constraints_around_vertex(
    hole: &Vec<Point>,
    edges: &Vec<(usize, usize)>,
    vertices: &Vec<Point>,
    dist2: &Vec<i64>,
    a: usize,
    adj: &Vec<(usize, usize)>,
    epsilon: i64,
    globalist: bool,
) -> (r: bool)
    requires
        local_inputs_ok(hole@, edges@, vertices@, dist2@, a as int, adj@, epsilon as int),
        globalist ==> aggregate_in_reach(dist2@),
    ensures
        r == satisfied(
            hole@,
            edges@,
            vertices@,
            dist2@,
            a as int,
            adj@,
            epsilon as int,
            globalist,
        ),
{
    let p: Point = vertices[a];
    if point_in_polygon(hole, p) == Containment::Outside {
        return false;
    }
    let k: usize = adj.len();
    let mut t: usize = 0;
    while t < k
        invariant
            0 <= t <= k,
            k == adj.len(),
            p == vertices@[a as int],
            local_inputs_ok(hole@, edges@, vertices@, dist2@, a as int, adj@, epsilon as int),
            forall|s: int|
                0 <= s < t ==> edge_contained(hole@, vertices@, a as int, #[trigger] adj@[s]),
            !globalist ==> forall|s: int|
                0 <= s < t ==> edge_excess(
                    vertices@,
                    dist2@,
                    a as int,
                    #[trigger] adj@[s],
                    epsilon as int,
                ) == 0,
        decreases k - t,
    {
        let entry: (usize, usize) = adj[t];
        let q: Point = vertices[entry.0];
        if !segment_in_polygon(hole, (p, q)) {
            return false;
        }
        if !globalist && !stretch_ok(dist2[entry.1], squared_distance(p, q), epsilon) {
            return false;
        }
        t = t + 1;
    }
    if globalist {
        aggregate_ok(edges, vertices, dist2, epsilon)
    } else {
        true
    }
}

} // verus!
