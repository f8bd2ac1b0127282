use pose_search::model::{
    copy_points, edge_lengths, points_in_range, BonusType, ClaimedBonus, Figure, Pose, Problem,
};
use pose_search::point::Point;

fn p(x: i64, y: i64) -> Point {
    Point::new(x, y)
}

fn sample() -> Problem {
    Problem {
        hole: vec![p(0, 0), p(4, 0), p(0, 4)],
        figure: Figure { edges: vec![(0, 1), (1, 2)], vertices: vec![p(0, 0), p(3, 4), p(3, 0)] },
        epsilon: 1000,
        bonuses: Vec::new(),
    }
}

#[test]
fn well_formed_problem_is_recognised() {
    assert!(sample().is_well_formed());
}

#[test]
fn malformed_problems_are_recognised() {
    let mut q = sample();
    q.figure.vertices = Vec::new();
    q.figure.edges = Vec::new();
    assert!(!q.is_well_formed());
    let mut q = sample();
    q.figure.edges.push((0, 3));
    assert!(!q.is_well_formed());
    let mut q = sample();
    q.figure.edges.push((3, 0));
    assert!(!q.is_well_formed());
    let mut q = sample();
    q.epsilon = -1;
    assert!(!q.is_well_formed());
    let mut q = sample();
    q.hole.push(p(1_000_000_001, 0));
    assert!(!q.is_well_formed());
    let mut q = sample();
    q.figure.vertices[1] = p(0, -1_000_000_001);
    assert!(!q.is_well_formed());
    let mut q = sample();
    q.hole = Vec::new();
    assert!(q.is_well_formed());
}

#[test]
fn pose_must_place_every_vertex_in_range() {
    let problem = sample();
    let pose = Pose { vertices: vec![p(0, 0), p(1, 1), p(2, 2)], bonuses: Vec::new() };
    assert!(pose.is_fit_for(&problem.figure));
    let pose = Pose { vertices: vec![p(0, 0), p(1, 1)], bonuses: Vec::new() };
    assert!(!pose.is_fit_for(&problem.figure));
    let pose = Pose { vertices: vec![p(0, 0), p(1, 1), p(2_000_000_000, 2)], bonuses: Vec::new() };
    assert!(!pose.is_fit_for(&problem.figure));
}

#[test]
fn claimed_kinds_are_found() {
    let pose = Pose {
        vertices: vec![p(0, 0)],
        bonuses: vec![
            ClaimedBonus { position: p(1, 1), bonus: BonusType::WallHack },
            ClaimedBonus { position: p(2, 2), bonus: BonusType::Globalist },
        ],
    };
    assert!(pose.claims(BonusType::Globalist));
    assert!(pose.claims(BonusType::WallHack));
    assert!(!pose.claims(BonusType::SuperFlex));
    assert!(!pose.claims(BonusType::BreakALeg));
    let bare = Pose { vertices: vec![p(0, 0)], bonuses: Vec::new() };
    assert!(!bare.claims(BonusType::Globalist));
}

#[test]
fn edge_lengths_are_the_original_squared_lengths() {
    assert_eq!(edge_lengths(&sample().figure), vec![25, 16]);
}

#[test]
fn copies_and_range_checks_go_point_by_point() {
    let points = vec![p(1, 2), p(-3, 4), p(1_000_000_000, -1_000_000_000)];
    assert_eq!(copy_points(&points), points);
    assert!(points_in_range(&points));
    assert!(!points_in_range(&vec![p(0, 0), p(0, 1_000_000_001)]));
    assert!(points_in_range(&Vec::new()));
}
