use pose_search::constraints::{calculate_penalty, check_constraints_around_vertex};
use pose_search::field::ProximityField;
use pose_search::hill_climb::build_adjacency;
use pose_search::model::{edge_lengths, Figure, Problem};
use pose_search::point::Point;
use pose_search::polygon::{point_in_polygon, segment_in_polygon, Containment};
use pose_search::random::RandomSource;
use pose_search::score::get_all_score;

fn p(x: i64, y: i64) -> Point {
    Point::new(x, y)
}

fn sample() -> Problem {
    Problem {
        hole: vec![p(0, 0), p(6, 0), p(6, 3), p(3, 3), p(3, 6), p(0, 6)],
        figure: Figure {
            edges: vec![(0, 1), (1, 2), (2, 0)],
            vertices: vec![p(0, 0), p(2, 0), p(0, 2)],
        },
        epsilon: 500_000,
        bonuses: Vec::new(),
    }
}

#[test]
fn score_and_local_checks_agree_on_feasibility() {
    let problem = sample();
    let field = ProximityField::build(&problem);
    let dist2 = edge_lengths(&problem.figure);
    let adj = build_adjacency(3, &problem.figure.edges);
    let mut source = RandomSource::from_seed(8);
    let mut feasible = 0;
    let mut infeasible = 0;
    for _ in 0..3000 {
        let now: Vec<Point> =
            (0..3).map(|_| p(source.below(7) as i64, source.below(7) as i64)).collect();
        let (_, rest) = get_all_score(&problem, &now, problem.epsilon, &field);
        let mut all = true;
        let mut penalty = 0;
        for a in 0..3 {
            let ok = check_constraints_around_vertex(
                &problem.hole,
                &problem.figure.edges,
                &now,
                &dist2,
                a,
                &adj[a],
                problem.epsilon,
                false,
            );
            let owed = calculate_penalty(
                &problem.hole,
                &problem.figure.edges,
                &now,
                &dist2,
                a,
                &adj[a],
                problem.epsilon,
                false,
            );
            assert_eq!(ok, owed == 0);
            all = all && ok;
            penalty += owed;
        }
        assert_eq!(rest == 0, all);
        assert_eq!(rest == 0, penalty == 0);
        if all {
            feasible += 1;
        } else {
            infeasible += 1;
        }
    }
    assert!(feasible > 0);
    assert!(infeasible > 0);
}

#[test]
fn convex_polygon_holds_what_its_points_span() {
    let hexagon = vec![p(2, 0), p(6, 0), p(8, 3), p(6, 6), p(2, 6), p(0, 3)];
    let mut points = Vec::new();
    for x in -1..10 {
        for y in -1..8 {
            points.push(p(x, y));
        }
    }
    let mut inside = 0;
    for a in &points {
        let a_in = point_in_polygon(&hexagon, *a) != Containment::Outside;
        // left of every edge, or on it
        let mut within = true;
        for i in 0..6 {
            let (c, d) = (hexagon[i], hexagon[(i + 1) % 6]);
            let turn = (d.x - c.x) * (a.y - c.y) - (d.y - c.y) * (a.x - c.x);
            within = within && turn >= 0;
        }
        assert_eq!(a_in, within);
        if a_in {
            inside += 1;
        }
        for b in &points {
            let b_in = point_in_polygon(&hexagon, *b) != Containment::Outside;
            assert_eq!(segment_in_polygon(&hexagon, (*a, *b)), a_in && b_in);
        }
    }
    // 5, 5, 7, 9, 7, 5 and 5 grid points on the seven levels
    assert_eq!(inside, 43);
}
