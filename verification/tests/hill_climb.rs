use pose_search::dislikes::compute_dislikes;
use pose_search::hill_climb::{
    build_adjacency, is_climbable, points_within, ugougo, ugougo_with, HillClimber,
};
use pose_search::model::{BonusType, ClaimedBonus, Figure, Pose, Problem};
use pose_search::point::{direction, squared_distance, Point};
use pose_search::polygon::{point_in_polygon, Containment};
use pose_search::random::RandomSource;

fn p(x: i64, y: i64) -> Point {
    Point::new(x, y)
}

/// A triangular hole and a figure of one edge of squared length 16.
fn one_edge_problem() -> Problem {
    Problem {
        hole: vec![p(0, 0), p(4, 0), p(0, 4)],
        figure: Figure { edges: vec![(0, 1)], vertices: vec![p(0, 0), p(4, 0)] },
        epsilon: 0,
        bonuses: Vec::new(),
    }
}

fn collapsed_pose() -> Pose {
    Pose { vertices: vec![p(0, 0), p(0, 0)], bonuses: Vec::new() }
}

#[test]
fn directions_are_the_eight_neighbours() {
    let expected = [p(1, 0), p(0, 1), p(-1, 0), p(0, -1), p(1, 1), p(1, -1), p(-1, -1), p(-1, 1)];
    for d in 0..8 {
        assert_eq!(direction(d), expected[d]);
    }
}

#[test]
fn adjacency_lists_follow_the_order_of_edges() {
    let adj = build_adjacency(3, &vec![(0, 1), (1, 2), (1, 1)]);
    assert_eq!(adj.len(), 3);
    assert_eq!(adj[0], vec![(1, 0)]);
    assert_eq!(adj[1], vec![(0, 0), (2, 1), (1, 2), (1, 2)]);
    assert_eq!(adj[2], vec![(1, 1)]);
    let none = build_adjacency(2, &Vec::new());
    assert_eq!(none, vec![Vec::new(), Vec::new()]);
}

#[test]
fn zero_cycles_return_the_pose_unchanged() {
    let problem = one_edge_problem();
    let pose = Pose {
        vertices: vec![p(1, 1), p(3, 0)],
        bonuses: vec![ClaimedBonus { position: p(4, 0), bonus: BonusType::WallHack }],
    };
    let (out, kept) = ugougo(&problem, &pose, 0);
    assert_eq!(kept, 0);
    assert_eq!(out.vertices, pose.vertices);
    assert_eq!(out.bonuses.len(), 1);
    assert_eq!(out.bonuses[0].position, p(4, 0));
    assert_eq!(out.bonuses[0].bonus, BonusType::WallHack);
    let (out, kept) = ugougo(&problem, &pose, -5);
    assert_eq!(kept, 0);
    assert_eq!(out.vertices, pose.vertices);
    let mut source = RandomSource::from_seed(1);
    let (out, kept) = ugougo_with(&problem, &pose, 0, &mut source);
    assert_eq!(kept, 0);
    assert_eq!(out.vertices, pose.vertices);
}

#[test]
fn climber_starts_at_the_pose() {
    let problem = one_edge_problem();
    let climber = HillClimber::new(&problem, &collapsed_pose());
    assert_eq!(climber.vertices, vec![p(0, 0), p(0, 0)]);
    assert_eq!(climber.dislikes, 32);
    assert_eq!(climber.accepted, 0);
    assert!(!climber.globalist);
    assert_eq!(climber.dist2, vec![16]);
    assert_eq!(climber.adj, vec![vec![(1, 0)], vec![(0, 0)]]);
    assert_eq!(climber.penalty_at(&problem, 0), 16_000_000);
    assert_eq!(climber.penalty_at(&problem, 1), 16_000_000);
}

#[test]
fn one_edge_in_a_triangle_converges() {
    let problem = one_edge_problem();
    let mut climber = HillClimber::new(&problem, &collapsed_pose());
    // the second vertex walks along the lower side of the hole
    let costs = [25i128, 20, 17, 16];
    for (i, cost) in costs.iter().enumerate() {
        assert!(climber.step(&problem, 1, 0));
        assert_eq!(climber.vertices, vec![p(0, 0), p(i as i64 + 1, 0)]);
        assert_eq!(climber.dislikes, *cost);
        assert_eq!(climber.accepted, i as i32 + 1);
    }
    let pose = climber.pose();
    for v in &pose.vertices {
        assert!(point_in_polygon(&problem.hole, *v) != Containment::Outside);
    }
    assert_eq!(squared_distance(pose.vertices[0], pose.vertices[1]), 16);
    assert_eq!(compute_dislikes(&problem, &pose), 0 + 0 + 16);
    assert_eq!(climber.penalty_at(&problem, 0), 0);
    assert_eq!(climber.penalty_at(&problem, 1), 0);
    // from here every move breaks a constraint and is taken back
    for a in 0..2 {
        for d in 0..4 {
            assert!(!climber.step(&problem, a, d));
            assert_eq!(climber.vertices, vec![p(0, 0), p(4, 0)]);
            assert_eq!(climber.accepted, 4);
            assert_eq!(climber.dislikes, 16);
        }
    }
}

#[test]
fn move_that_raises_the_penalty_is_taken_back() {
    let problem = one_edge_problem();
    let pose = Pose { vertices: vec![p(0, 0), p(3, 0)], bonuses: Vec::new() };
    let mut climber = HillClimber::new(&problem, &pose);
    assert_eq!(climber.penalty_at(&problem, 1), 7_000_000);
    // back to (2,0): the penalty grows from 7 to 12 million
    assert!(!climber.step(&problem, 1, 2));
    assert_eq!(climber.vertices, pose.vertices);
    // down to (3,-1): outside the hole
    assert!(!climber.step(&problem, 1, 3));
    assert_eq!(climber.vertices, pose.vertices);
    assert_eq!(climber.accepted, 0);
}

#[test]
fn move_that_raises_the_cost_is_taken_back() {
    let problem = Problem {
        hole: vec![p(0, 0), p(4, 0), p(0, 4)],
        figure: Figure { edges: Vec::new(), vertices: vec![p(1, 1)] },
        epsilon: 0,
        bonuses: Vec::new(),
    };
    let pose = Pose { vertices: vec![p(1, 1)], bonuses: Vec::new() };
    let mut climber = HillClimber::new(&problem, &pose);
    // (1,1): 2 + 10 + 10; (2,1): 5 + 5 + 13; (1,0): 1 + 9 + 17
    assert_eq!(climber.dislikes, 22);
    assert!(!climber.step(&problem, 0, 0));
    assert!(!climber.step(&problem, 0, 3));
    assert_eq!(climber.vertices, vec![p(1, 1)]);
    assert_eq!(climber.dislikes, 22);
}

#[test]
fn move_of_equal_cost_is_kept() {
    let problem = Problem {
        hole: vec![p(0, 0), p(4, 0), p(4, 4), p(0, 4)],
        figure: Figure { edges: Vec::new(), vertices: vec![p(2, 2), p(1, 2)] },
        epsilon: 0,
        bonuses: Vec::new(),
    };
    // two vertices that swap their places in two moves: the cost is that of
    // the set of places
    let pose = Pose { vertices: vec![p(2, 2), p(2, 2)], bonuses: Vec::new() };
    let mut climber = HillClimber::new(&problem, &pose);
    assert_eq!(climber.dislikes, 32);
    assert!(climber.step(&problem, 0, 0));
    assert_eq!(climber.dislikes, 8 + 5 + 5 + 8);
    assert!(climber.step(&problem, 1, 2));
    assert_eq!(climber.dislikes, 5 + 5 + 5 + 5);
    assert_eq!(climber.accepted, 2);
    assert_eq!(climber.vertices, vec![p(3, 2), p(1, 2)]);
}

#[test]
fn wandering_outside_is_tolerated_while_nothing_gets_worse() {
    let problem = Problem {
        hole: vec![p(0, 0), p(4, 0), p(0, 4)],
        figure: Figure { edges: Vec::new(), vertices: vec![p(0, 0), p(0, 0), p(0, 0), p(0, 0)] },
        epsilon: 0,
        bonuses: Vec::new(),
    };
    // three vertices hold the corners; the fourth is outside already
    let pose = Pose { vertices: vec![p(0, 0), p(4, 0), p(0, 4), p(9, 9)], bonuses: Vec::new() };
    let mut climber = HillClimber::new(&problem, &pose);
    assert_eq!(climber.penalty_at(&problem, 3), 1000);
    assert!(climber.step(&problem, 3, 0));
    assert_eq!(climber.vertices[3], p(10, 9));
    assert_eq!(climber.dislikes, 0);
}

#[test]
fn seeded_climb_never_raises_the_cost() {
    let problem = one_edge_problem();
    let pose = collapsed_pose();
    for seed in 0..20u64 {
        let mut source = RandomSource::from_seed(seed);
        let (out, kept) = ugougo_with(&problem, &pose, 400, &mut source);
        assert!(0 <= kept && kept <= 400);
        assert_eq!(out.vertices.len(), 2);
        assert!(out.bonuses.is_empty());
        let cost = compute_dislikes(&problem, &out);
        assert!(cost <= 32);
        assert!(cost >= 0);
    }
}

#[test]
fn seeded_climbs_reach_the_feasible_pose() {
    let problem = one_edge_problem();
    let pose = collapsed_pose();
    let mut reached = 0;
    for seed in 0..200u64 {
        let mut source = RandomSource::from_seed(seed);
        let (out, _) = ugougo_with(&problem, &pose, 400, &mut source);
        let inside = out
            .vertices
            .iter()
            .all(|v| point_in_polygon(&problem.hole, *v) != Containment::Outside);
        if inside && squared_distance(out.vertices[0], out.vertices[1]) == 16 {
            // one vertex at the right angle, the other at an end of a leg
            assert_eq!(compute_dislikes(&problem, &out), 16);
            assert!(out.vertices.contains(&p(0, 0)));
            assert!(out.vertices.contains(&p(4, 0)) || out.vertices.contains(&p(0, 4)));
            reached += 1;
        }
    }
    assert!(reached > 0);
}

#[test]
fn climb_from_entropy_keeps_the_vertex_count() {
    let problem = one_edge_problem();
    let (out, kept) = ugougo(&problem, &collapsed_pose(), 200);
    assert_eq!(out.vertices.len(), 2);
    assert!(0 <= kept && kept <= 200);
    assert!(compute_dislikes(&problem, &out) <= 32);
}

#[test]
fn range_of_points_is_checked_against_any_bound() {
    let points = vec![p(3, -4), p(-5, 2)];
    assert!(points_within(&points, 5));
    assert!(!points_within(&points, 4));
    assert!(!points_within(&points, -1));
    assert!(points_within(&Vec::new(), 0));
    assert!(points_within(&Vec::new(), -1));
}


#[test]
fn climb_is_possible_on_well_formed_input_in_range() {
    let problem = one_edge_problem();
    assert!(is_climbable(&problem, &collapsed_pose(), 0));
    assert!(is_climbable(&problem, &collapsed_pose(), 1_000_000));
    assert!(is_climbable(&problem, &collapsed_pose(), 1_000_000_000));
    assert!(!is_climbable(&problem, &collapsed_pose(), 1_000_000_001));
    assert!(is_climbable(&problem, &collapsed_pose(), -7));
    // a vertex too few
    let short = Pose { vertices: vec![p(0, 0)], bonuses: Vec::new() };
    assert!(!is_climbable(&problem, &short, 10));
    // a vertex that ten steps may take out of range
    let far = Pose { vertices: vec![p(0, 0), p(999_999_995, 0)], bonuses: Vec::new() };
    assert!(is_climbable(&problem, &far, 5));
    assert!(!is_climbable(&problem, &far, 10));
    // an edge that names no vertex
    let mut broken = one_edge_problem();
    broken.figure.edges.push((0, 2));
    assert!(!is_climbable(&broken, &collapsed_pose(), 10));
}

#[test]
fn globalist_climb_needs_a_product_within_reach() {
    let globalist = vec![ClaimedBonus { position: p(9, 9), bonus: BonusType::Globalist }];
    let problem = one_edge_problem();
    let pose = Pose { vertices: vec![p(0, 0), p(0, 0)], bonuses: globalist.clone() };
    assert!(is_climbable(&problem, &pose, 100));
    // an edge of no length has no relative change
    let mut flat = one_edge_problem();
    flat.figure.vertices[1] = p(0, 0);
    assert!(!is_climbable(&flat, &pose, 100));
    assert!(is_climbable(&flat, &collapsed_pose(), 100));
    // two edges of squared length 10^17 each
    let long = Problem {
        hole: vec![p(0, 0), p(4, 0), p(0, 4)],
        figure: Figure {
            edges: vec![(0, 1), (1, 2)],
            vertices: vec![p(0, 0), p(300_000_000, 100_000_000), p(600_000_000, 200_000_000)],
        },
        epsilon: 0,
        bonuses: Vec::new(),
    };
    let three = Pose { vertices: vec![p(0, 0), p(1, 1), p(2, 2)], bonuses: globalist };
    assert!(!is_climbable(&long, &three, 100));
    let plain = Pose { vertices: vec![p(0, 0), p(1, 1), p(2, 2)], bonuses: Vec::new() };
    assert!(is_climbable(&long, &plain, 100));
}

#[test]
fn globalist_climb_accepts_what_the_aggregate_allows() {
    // two edges of squared length 4 from the first vertex; the tolerance of
    // an eighth lets the one grow by as much as the other has shrunk
    let problem = Problem {
        hole: vec![p(0, 0), p(0, 10), p(10, 10), p(10, 0)],
        figure: Figure { edges: vec![(0, 1), (0, 2)], vertices: vec![p(2, 2), p(4, 2), p(2, 4)] },
        epsilon: 125_000,
        bonuses: Vec::new(),
    };
    let start = vec![p(2, 2), p(4, 3), p(2, 3)];
    let globalist = vec![ClaimedBonus { position: p(9, 9), bonus: BonusType::Globalist }];
    let mut accepted = HillClimber::new(&problem, &Pose { vertices: start.clone(), bonuses: globalist });
    let mut refused = HillClimber::new(&problem, &Pose { vertices: start.clone(), bonuses: Vec::new() });
    assert!(accepted.globalist);
    assert!(!refused.globalist);
    // squared lengths 5 and 1: the changes add up to -2
    assert_eq!(accepted.penalty_at(&problem, 1), 0);
    assert_eq!(refused.penalty_at(&problem, 1), 1_000_000 - 500_000);
    // the second vertex moves up to (4,4): squared lengths 8 and 1
    assert!(accepted.step(&problem, 1, 1));
    assert_eq!(accepted.vertices, vec![p(2, 2), p(4, 4), p(2, 3)]);
    assert!(!refused.step(&problem, 1, 1));
    assert_eq!(refused.vertices, start);
}

#[test]
fn climb_from_a_feasible_pose_stays_feasible() {
    let problem = Problem {
        hole: vec![p(0, 0), p(10, 0), p(10, 4), p(6, 4), p(6, 10), p(0, 10)],
        figure: Figure {
            edges: vec![(0, 1), (1, 2), (2, 0), (2, 3)],
            vertices: vec![p(1, 1), p(5, 1), p(3, 4), p(3, 8)],
        },
        epsilon: 1_000_000,
        bonuses: Vec::new(),
    };
    let pose = Pose { vertices: problem.figure.vertices.clone(), bonuses: Vec::new() };
    let lengths = [16i64, 13, 13, 16];
    let before = compute_dislikes(&problem, &pose);
    let mut moved = 0;
    for seed in 0..30u64 {
        let mut source = RandomSource::from_seed(seed);
        let (out, kept) = ugougo_with(&problem, &pose, 1500, &mut source);
        moved += kept;
        for v in &out.vertices {
            assert!(point_in_polygon(&problem.hole, *v) != Containment::Outside);
        }
        for (i, (a, b)) in problem.figure.edges.iter().enumerate() {
            let (s, t) = (out.vertices[*a], out.vertices[*b]);
            assert!(pose_search::polygon::segment_in_polygon(&problem.hole, (s, t)));
            assert!(pose_search::stretch::stretch_ok(lengths[i], squared_distance(s, t), 1_000_000));
        }
        assert!(compute_dislikes(&problem, &out) <= before);
    }
    assert!(moved > 0);
}
