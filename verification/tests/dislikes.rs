use pose_search::dislikes::{compute_dislikes, dislikes_of, is_claimed_at, nearest_sq_dist};
use pose_search::model::{BonusType, ClaimedBonus, Figure, Pose, Problem};
use pose_search::point::Point;

fn p(x: i64, y: i64) -> Point {
    Point::new(x, y)
}

fn triangle_problem() -> Problem {
    Problem {
        hole: vec![p(0, 0), p(4, 0), p(0, 4)],
        figure: Figure { edges: vec![(0, 1)], vertices: vec![p(0, 0), p(4, 0)] },
        epsilon: 0,
        bonuses: Vec::new(),
    }
}

#[test]
fn dislikes_sum_the_nearest_squared_distances() {
    let problem = triangle_problem();
    let pose = Pose { vertices: vec![p(0, 0), p(4, 0)], bonuses: Vec::new() };
    assert_eq!(compute_dislikes(&problem, &pose), 16);
    let pose = Pose { vertices: vec![p(0, 0), p(0, 0)], bonuses: Vec::new() };
    assert_eq!(compute_dislikes(&problem, &pose), 32);
    let pose = Pose { vertices: vec![p(1, 1), p(2, 1)], bonuses: Vec::new() };
    // (0,0): 2, (4,0): 5, (0,4): 10
    assert_eq!(compute_dislikes(&problem, &pose), 17);
}

#[test]
fn dislikes_without_bonuses_are_not_negative() {
    let problem = triangle_problem();
    for x in -3..6 {
        for y in -3..6 {
            let pose = Pose { vertices: vec![p(x, y), p(y, x)], bonuses: Vec::new() };
            assert!(compute_dislikes(&problem, &pose) >= 0);
        }
    }
    let pose = Pose { vertices: vec![p(0, 0), p(4, 0), p(0, 4)], bonuses: Vec::new() };
    assert_eq!(compute_dislikes(&problem, &pose), 0);
}

#[test]
fn dislikes_do_not_depend_on_the_order_of_vertices() {
    let problem = triangle_problem();
    let a = p(1, 2);
    let b = p(3, 0);
    let c = p(-1, 5);
    let orders = [[a, b, c], [a, c, b], [b, a, c], [b, c, a], [c, a, b], [c, b, a]];
    let first = compute_dislikes(&problem, &Pose { vertices: orders[0].to_vec(), bonuses: Vec::new() });
    // (0,0): 5, (4,0): 1, (0,4): 2
    assert_eq!(first, 8);
    for order in orders {
        let pose = Pose { vertices: order.to_vec(), bonuses: Vec::new() };
        assert_eq!(compute_dislikes(&problem, &pose), first);
    }
}

#[test]
fn claimed_bonus_at_a_corner_discounts_one() {
    let problem = triangle_problem();
    let at_corner = ClaimedBonus { position: p(4, 0), bonus: BonusType::Globalist };
    let elsewhere = ClaimedBonus { position: p(1, 1), bonus: BonusType::WallHack };
    let pose = Pose { vertices: vec![p(0, 0), p(4, 0)], bonuses: vec![at_corner] };
    assert_eq!(compute_dislikes(&problem, &pose), 15);
    let pose = Pose { vertices: vec![p(0, 0), p(4, 0)], bonuses: vec![elsewhere] };
    assert_eq!(compute_dislikes(&problem, &pose), 16);
    let pose = Pose { vertices: vec![p(0, 0), p(4, 0)], bonuses: vec![at_corner, at_corner, elsewhere] };
    assert_eq!(compute_dislikes(&problem, &pose), 15);
    let everywhere = vec![
        ClaimedBonus { position: p(0, 0), bonus: BonusType::BreakALeg },
        ClaimedBonus { position: p(4, 0), bonus: BonusType::SuperFlex },
        ClaimedBonus { position: p(0, 4), bonus: BonusType::Globalist },
    ];
    let pose = Pose { vertices: vec![p(0, 0), p(4, 0), p(0, 4)], bonuses: everywhere };
    assert_eq!(compute_dislikes(&problem, &pose), -3);
}

#[test]
fn nearest_distance_is_the_least() {
    let vs = vec![p(5, 5), p(1, 0), p(0, 2), p(-1, 0)];
    assert_eq!(nearest_sq_dist(p(0, 0), &vs), 1);
    assert_eq!(nearest_sq_dist(p(5, 4), &vs), 1);
    assert_eq!(nearest_sq_dist(p(0, 3), &vs), 1);
    assert_eq!(nearest_sq_dist(p(10, 10), &vs), 50);
    assert_eq!(nearest_sq_dist(p(10, 10), &vec![p(10, 10)]), 0);
}

#[test]
fn dislikes_of_a_hole_without_corners_are_zero() {
    assert_eq!(dislikes_of(&Vec::new(), &vec![p(3, 3)], &Vec::new()), 0);
}

#[test]
fn claim_is_found_by_position() {
    let bonuses = vec![
        ClaimedBonus { position: p(1, 1), bonus: BonusType::WallHack },
        ClaimedBonus { position: p(2, 5), bonus: BonusType::Globalist },
    ];
    assert!(is_claimed_at(&bonuses, p(2, 5)));
    assert!(is_claimed_at(&bonuses, p(1, 1)));
    assert!(!is_claimed_at(&bonuses, p(5, 2)));
    assert!(!is_claimed_at(&Vec::new(), p(1, 1)));
}
