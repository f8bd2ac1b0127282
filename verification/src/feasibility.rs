//! The two ways of judging a placement agree on what is feasible: the global
//! score finds no constraint broken exactly where the constraints hold around
//! every single vertex. And the hill climb does not leave what is feasible.

use vstd::prelude::*;
use crate::constraints::{edge_contained, edge_excess, lemma_satisfied_iff_no_violation, satisfied};
use crate::hill_climb::{
    climb_run, climb_step, draws_in_bounds, incident, lemma_lengths_in_range, lengths_of,
    move_kept, moved, ClimbState,
};
use crate::model::{ClaimedBonus, Problem};
use crate::point::{sq_dist, Point};
use crate::polygon::{containment, Containment};
use crate::polygon_laws::lemma_segment_inside_symmetric;
use crate::score::{edge_feasible, feasible};
use crate::stretch::lemma_excess_zero_iff_within;

verus! {

/// Every entry of the list of the edges at vertex `a` names an edge that
/// joins `a` with the vertex that the entry names.
pub proof fn lemma_incident_entries_are_edges(edges: Seq<(usize, usize)>, a: int, upto: int)
    requires
        0 <= upto <= edges.len(),
        edges.len() <= usize::MAX,
    ensures
        forall|t: int|
            0 <= t < incident(edges, a, upto).len() ==> {
                let entry = #[trigger] incident(edges, a, upto)[t];
                &&& 0 <= entry.1 < upto
                &&& (edges[entry.1 as int].0 == a && edges[entry.1 as int].1 == entry.0)
                    || (edges[entry.1 as int].1 == a && edges[entry.1 as int].0 == entry.0)
            },
    decreases upto,
{
    if upto > 0 {
        lemma_incident_entries_are_edges(edges, a, upto - 1);
        let before = incident(edges, a, upto - 1);
    }
}

/// Every edge that begins or ends at vertex `a` is in the list of the edges
/// at `a`, with the vertex at its other end.
pub proof fn lemma_edges_are_incident(edges: Seq<(usize, usize)>, a: int, upto: int, i: int)
    requires
        0 <= i < upto <= edges.len(),
        edges.len() <= usize::MAX,
    ensures
        edges[i].0 == a ==> incident(edges, a, upto).contains((edges[i].1, i as usize)),
        edges[i].1 == a ==> incident(edges, a, upto).contains((edges[i].0, i as usize)),
    decreases upto,
{
    let e = edges[upto - 1];
    let before = incident(edges, a, upto - 1);
    let first = if e.0 == a {
        before.push((e.1, (upto - 1) as usize))
    } else {
        before
    };
    let all = incident(edges, a, upto);
    if i < upto - 1 {
        lemma_edges_are_incident(edges, a, upto - 1, i);
        assert forall|x: (usize, usize)| before.contains(x) implies all.contains(x) by {
            let t = choose|t: int| 0 <= t < before.len() && before[t] == x;
            assert(all[t] == x);
        }
    } else {
        if e.0 == a {
            assert(first[before.len() as int] == (e.1, i as usize));
        }
        if e.1 == a {
            assert(all[first.len() as int] == (e.0, i as usize));
        }
    }
}

/// The squared distance between two points does not depend on their order.
pub proof fn lemma_sq_dist_symmetric(p: Point, q: Point)
    ensures
        sq_dist(p, q) == sq_dist(q, p),
{
    let dx = p.x - q.x;
    let dy = p.y - q.y;
    assert(dx * dx == (-dx) * (-dx) && dy * dy == (-dy) * (-dy)) by (nonlinear_arith);
}

/// The constraints hold around every vertex of the placement, each edge
/// judged by its own tolerance.
pub open spec fn satisfied_everywhere(problem: Problem, now: Seq<Point>) -> bool {
    forall|a: int|
        0 <= a < now.len() ==> #[trigger] satisfied(
            problem.hole@,
            problem.figure.edges@,
            now,
            lengths_of(problem.figure),
            a,
            incident(problem.figure.edges@, a, problem.figure.edges@.len() as int),
            problem.epsilon as int,
            false,
        )
}

/// A placement is feasible exactly where the constraints hold around every
/// one of its vertices.
pub proof fn lemma_feasible_iff_satisfied_everywhere(problem: Problem, now: Seq<Point>)
    requires
        problem.wf(),
        now.len() == problem.figure.vertices@.len(),
    ensures
        feasible(problem, now, problem.epsilon as int) <==> satisfied_everywhere(problem, now),
{
    let hole = problem.hole@;
    let edges = problem.figure.edges@;
    let m = edges.len() as int;
    let dist2 = lengths_of(problem.figure);
    let eps = problem.epsilon as int;
    lemma_lengths_in_range(problem.figure);
    if feasible(problem, now, eps) {
        assert forall|a: int| 0 <= a < now.len() implies #[trigger] satisfied(
            hole,
            edges,
            now,
            dist2,
            a,
            incident(edges, a, m),
            eps,
            false,
        ) by {
            let adj = incident(edges, a, m);
            lemma_incident_entries_are_edges(edges, a, m);
            assert forall|t: int| 0 <= t < adj.len() implies edge_contained(
                hole,
                now,
                a,
                #[trigger] adj[t],
            ) && edge_excess(now, dist2, a, adj[t], eps) == 0 by {
                let entry = adj[t];
                let i = entry.1 as int;
                let e = edges[i];
                assert(edge_feasible(problem, now, eps, i));
                lemma_segment_inside_symmetric(hole, now[e.0 as int], now[e.1 as int]);
                lemma_sq_dist_symmetric(now[e.0 as int], now[e.1 as int]);
            }
        }
    }
    if satisfied_everywhere(problem, now) {
        assert forall|i: int| 0 <= i < m implies #[trigger] edge_feasible(problem, now, eps, i) by {
            let e = edges[i];
            let a = e.0 as int;
            let adj = incident(edges, a, m);
            assert(satisfied(hole, edges, now, dist2, a, adj, eps, false));
            lemma_edges_are_incident(edges, a, m, i);
        }
        assert forall|v: int| 0 <= v < now.len() implies containment(hole, #[trigger] now[v])
            != Containment::Outside by {
            assert(satisfied(hole, edges, now, dist2, v, incident(edges, v, m), eps, false));
        }
    }
}

/// Where the constraints hold around a vertex, every edge that begins or ends
/// at it is feasible.
pub proof fn lemma_satisfied_vertex_has_feasible_edges(
    problem: Problem,
    now: Seq<Point>,
    a: int,
    i: int,
)
    requires
        problem.wf(),
        now.len() == problem.figure.vertices@.len(),
        0 <= a < now.len(),
        0 <= i < problem.figure.edges@.len(),
        problem.figure.edges@[i].0 == a || problem.figure.edges@[i].1 == a,
        satisfied(
            problem.hole@,
            problem.figure.edges@,
            now,
            lengths_of(problem.figure),
            a,
            incident(problem.figure.edges@, a, problem.figure.edges@.len() as int),
            problem.epsilon as int,
            false,
        ),
    ensures
        edge_feasible(problem, now, problem.epsilon as int, i),
{
    let hole = problem.hole@;
    let edges = problem.figure.edges@;
    let m = edges.len() as int;
    let dist2 = lengths_of(problem.figure);
    let eps = problem.epsilon as int;
    let adj = incident(edges, a, m);
    let e = edges[i];
    lemma_lengths_in_range(problem.figure);
    lemma_edges_are_incident(edges, a, m, i);
    let entry = if e.0 == a {
        (e.1, i as usize)
    } else {
        (e.0, i as usize)
    };
    let t = choose|t: int| 0 <= t < adj.len() && adj[t] == entry;
    assert(edge_contained(hole, now, a, adj[t]));
    assert(edge_excess(now, dist2, a, adj[t], eps) == 0);
    lemma_segment_inside_symmetric(hole, now[e.0 as int], now[e.1 as int]);
    lemma_sq_dist_symmetric(now[e.0 as int], now[e.1 as int]);
    lemma_excess_zero_iff_within(
        dist2[i] as int,
        sq_dist(now[e.0 as int], now[e.1 as int]),
        eps,
    );
}

/// One cycle of the hill climb, each edge judged by its own tolerance, keeps
/// a feasible placement feasible.
pub proof fn lemma_step_keeps_feasible(
    problem: Problem,
    bonuses: Seq<ClaimedBonus>,
    st: ClimbState,
    a: int,
    d: int,
)
    requires
        problem.wf(),
        st.vertices.len() == problem.figure.vertices@.len(),
        0 <= a < st.vertices.len(),
        feasible(problem, st.vertices, problem.epsilon as int),
    ensures
        feasible(
            problem,
            climb_step(problem, bonuses, false, st, a, d).vertices,
            problem.epsilon as int,
        ),
{
    let hole = problem.hole@;
    let edges = problem.figure.edges@;
    let m = edges.len() as int;
    let dist2 = lengths_of(problem.figure);
    let eps = problem.epsilon as int;
    let adj = incident(edges, a, m);
    let before = st.vertices;
    let after = moved(before, a, d);
    if move_kept(problem, bonuses, false, before, a, d) {
        lemma_feasible_iff_satisfied_everywhere(problem, before);
        assert(satisfied(hole, edges, before, dist2, a, adj, eps, false));
        lemma_satisfied_iff_no_violation(hole, edges, after, dist2, a, adj, eps);
        assert(satisfied(hole, edges, after, dist2, a, adj, eps, false));
        assert forall|i: int| 0 <= i < m implies #[trigger] edge_feasible(problem, after, eps, i) by {
            let e = edges[i];
            if e.0 == a || e.1 == a {
                lemma_satisfied_vertex_has_feasible_edges(problem, after, a, i);
            } else {
                assert(edge_feasible(problem, before, eps, i));
                assert(after[e.0 as int] == before[e.0 as int]);
                assert(after[e.1 as int] == before[e.1 as int]);
            }
        }
        assert forall|v: int| 0 <= v < after.len() implies containment(hole, #[trigger] after[v])
            != Containment::Outside by {
            if v != a {
                assert(after[v] == before[v]);
            }
        }
    }
}

/// A hill climb that starts from a feasible placement, and judges each edge
/// by its own tolerance, ends at a feasible placement, whatever the draws.
pub proof fn lemma_climb_keeps_feasible(
    problem: Problem,
    bonuses: Seq<ClaimedBonus>,
    st: ClimbState,
    draws: Seq<(int, int)>,
)
    requires
        problem.wf(),
        st.vertices.len() == problem.figure.vertices@.len(),
        draws_in_bounds(draws, st.vertices.len() as int),
        feasible(problem, st.vertices, problem.epsilon as int),
    ensures
        climb_run(problem, bonuses, false, st, draws).vertices.len() == st.vertices.len(),
        feasible(
            problem,
            climb_run(problem, bonuses, false, st, draws).vertices,
            problem.epsilon as int,
        ),
    decreases draws.len(),
{
    if draws.len() > 0 {
        let front = draws.drop_last();
        assert forall|i: int| 0 <= i < front.len() implies 0 <= (#[trigger] front[i]).0
            < st.vertices.len() && 0 <= front[i].1 < 4 by {
            assert(front[i] == draws[i]);
        }
        lemma_climb_keeps_feasible(problem, bonuses, st, front);
        let mid = climb_run(problem, bonuses, false, st, front);
        assert(0 <= draws.last().0 < st.vertices.len());
        lemma_step_keeps_feasible(problem, bonuses, mid, draws.last().0, draws.last().1);
    }
}

} // verus!
