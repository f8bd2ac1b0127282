use pose_search::field::ProximityField;
use pose_search::model::{Figure, Problem};
use pose_search::point::Point;
use pose_search::root::isqrt;
use pose_search::score::{get_all_score, hyp, pow3, stretch_owed};

fn p(x: i64, y: i64) -> Point {
    Point::new(x, y)
}

fn square_problem(epsilon: i64) -> Problem {
    Problem {
        hole: vec![p(0, 0), p(0, 10), p(10, 10), p(10, 0)],
        figure: Figure { edges: vec![(0, 1)], vertices: vec![p(0, 0), p(3, 4)] },
        epsilon,
        bonuses: Vec::new(),
    }
}

fn triangle_problem() -> Problem {
    Problem {
        hole: vec![p(0, 0), p(4, 0), p(0, 4)],
        figure: Figure { edges: vec![(0, 1)], vertices: vec![p(0, 0), p(4, 4)] },
        epsilon: 0,
        bonuses: Vec::new(),
    }
}

#[test]
fn helpers_square_and_cube() {
    assert_eq!(hyp(3, 4), 25);
    assert_eq!(hyp(-3, 4), 25);
    assert_eq!(hyp(0, 0), 0);
    assert_eq!(hyp(2_000_000_000, -2_000_000_000), 8_000_000_000_000_000_000);
    assert_eq!(pow3(0), 0);
    assert_eq!(pow3(3), 27);
    assert_eq!(pow3(300), 27_000_000);
    assert_eq!(pow3(99_999), 999_970_000_299_999);
    assert_eq!(pow3(u32::MAX), 79_228_162_458_924_105_385_300_197_375);
    assert_eq!(hyp(3_037_000_499, 0), 9_223_372_030_926_249_001);
    assert_eq!(hyp(-2_147_483_648, 2_147_483_647), 9_223_372_032_559_808_513);
}

#[test]
fn feasible_placement_scores_baseline_less_coverage() {
    let problem = square_problem(0);
    let field = ProximityField::build(&problem);
    // corners: 0, 45, 85, 65
    let (score, rest) = get_all_score(&problem, &vec![p(0, 0), p(3, 4)], 0, &field);
    assert_eq!(rest, 0);
    assert_eq!(score, 1_000_000 * (100_000 - 195));
}

#[test]
fn collapsed_edge_owes_fifty_for_every_unit_of_length() {
    // an edge of length 4 with both ends in one place: 4 units, fifty each
    let problem = Problem {
        hole: vec![p(0, 0), p(4, 0), p(0, 4)],
        figure: Figure { edges: vec![(0, 1)], vertices: vec![p(0, 0), p(4, 0)] },
        epsilon: 0,
        bonuses: Vec::new(),
    };
    let field = ProximityField::build(&problem);
    let (score, rest) = get_all_score(&problem, &vec![p(0, 0), p(0, 0)], 0, &field);
    assert_eq!(rest, -200_000_000);
    assert_eq!(score, 99_768_000_000);
    // length 2 against 4
    let (score, rest) = get_all_score(&problem, &vec![p(0, 0), p(2, 0)], 0, &field);
    assert_eq!(rest, -100_000_000);
    assert_eq!(score, -100_000_000 + 1_000_000 * (100_000 - 20));
    // length 3 against 4: one unit, which counts half
    let (score, rest) = get_all_score(&problem, &vec![p(0, 0), p(3, 0)], 0, &field);
    assert_eq!(rest, -25_000_000);
    assert_eq!(score, -25_000_000 + 1_000_000 * (100_000 - 17));
}

#[test]
fn stretched_edge_owes_for_its_length_in_millionths() {
    let problem = square_problem(0);
    let field = ProximityField::build(&problem);
    // length 5.830951 against 5; corners: 0, 34, 74, 74
    let (score, rest) = get_all_score(&problem, &vec![p(0, 0), p(3, 5)], 0, &field);
    assert_eq!(rest, -25 * 830_951);
    assert_eq!(score, -25 * 830_951 + 1_000_000 * (100_000 - 182));
    // length 4 against 5
    let (_, rest) = get_all_score(&problem, &vec![p(0, 0), p(0, 4)], 0, &field);
    assert_eq!(rest, -25_000_000);
    // length 10 against 5
    let (_, rest) = get_all_score(&problem, &vec![p(0, 0), p(6, 8)], 0, &field);
    assert_eq!(rest, -250_000_000);
}

#[test]
fn tolerance_is_taken_from_the_excess_of_the_length() {
    let problem = square_problem(320_000);
    let field = ProximityField::build(&problem);
    let now = vec![p(0, 0), p(3, 5)];
    // the greatest length allowed is the root of 33, 5.744562
    let (score, rest) = get_all_score(&problem, &now, 320_000, &field);
    assert_eq!(rest, -25 * (5_830_951 - 5_744_562));
    assert_eq!(score, rest + 1_000_000 * (100_000 - 182));
    let (_, rest) = get_all_score(&problem, &now, 319_999, &field);
    assert_eq!(rest, -25 * (5_830_951 - 5_744_560));
    // squared length 34 is the most that a tolerance of 36 percent allows
    let (_, rest) = get_all_score(&problem, &now, 360_000, &field);
    assert_eq!(rest, 0);
    let (_, rest) = get_all_score(&problem, &now, 359_999, &field);
    assert_eq!(rest, -25 * 2);
    // a shrunk edge: length 4 against 5, where the least allowed is the root
    // of 18.75, 4.330127
    let (_, rest) = get_all_score(&problem, &vec![p(0, 0), p(0, 4)], 250_000, &field);
    assert_eq!(rest, -25 * (4_330_127 - 4_000_000));
}

#[test]
fn stretch_owed_is_the_weighted_excess_of_length() {
    assert_eq!(stretch_owed(16, 0, 0), 200_000_000);
    assert_eq!(stretch_owed(16, 1, 0), 150_000_000);
    assert_eq!(stretch_owed(16, 9, 0), 25_000_000);
    assert_eq!(stretch_owed(16, 16, 0), 0);
    assert_eq!(stretch_owed(16, 17, 62_500), 0);
    assert_eq!(stretch_owed(100, 144, 100_000), 75_595_600);
    assert_eq!(stretch_owed(2, 8, 0), 70_710_700);
    assert_eq!(stretch_owed(0, 0, 0), 0);
    assert_eq!(stretch_owed(0, 1, 5), 25_000_000);
    assert_eq!(stretch_owed(0, 2, 5), 50 * 1_414_213);
    let widest = 8_000_000_000_000_000_000;
    assert_eq!(stretch_owed(0, widest, i64::MAX), 50 * 2_828_427_124_746_190);
    assert_eq!(stretch_owed(widest, 0, 0), 50 * 2_828_427_124_746_190);
    // a change of the length that the rounding hides counts as one millionth
    assert_eq!(stretch_owed(widest, widest - 1, 0), 25);
    assert_eq!(stretch_owed(widest / 2, widest / 2 + 1, 0), 25);
    assert_eq!(stretch_owed(widest, 0, i64::MAX), 0);
}

#[test]
fn roots_are_rounded_to_whole_numbers() {
    assert_eq!(isqrt(0), 0);
    assert_eq!(isqrt(1), 1);
    assert_eq!(isqrt(3), 1);
    assert_eq!(isqrt(4), 2);
    assert_eq!(isqrt(24), 4);
    assert_eq!(isqrt(25), 5);
    assert_eq!(isqrt(34_000_000_000_000), 5_830_951);
    assert_eq!(isqrt(16_000_000_000_000), 4_000_000);
    let limit: i128 = 9_000_000_000_000_000_000_000_000_000_000;
    assert_eq!(isqrt(limit - 1), 2_999_999_999_999_999);
}

#[test]
fn vertex_outside_owes_the_cube_of_its_distance() {
    let problem = triangle_problem();
    let field = ProximityField::build(&problem);
    assert_eq!(field.value_at(p(4, 4)), 4);
    // the vertex: 10 * 4^3; the edge leaves the hole; corners: 0, 16, 16
    let (score, rest) = get_all_score(&problem, &vec![p(0, 0), p(4, 4)], 0, &field);
    assert_eq!(rest, -(640_000_000 + 1_000_000_000_000));
    assert_eq!(score, rest + 1_000_000 * (100_000 - 32));
}

#[test]
fn residual_is_zero_exactly_for_feasible_placements() {
    let problem = triangle_problem();
    let field = ProximityField::build(&problem);
    // the edge has squared length 32: from (4,0) to (0,4) along the long side
    let (_, rest) = get_all_score(&problem, &vec![p(4, 0), p(0, 4)], 0, &field);
    assert_eq!(rest, 0);
    let (_, rest) = get_all_score(&problem, &vec![p(0, 4), p(4, 0)], 0, &field);
    assert_eq!(rest, 0);
    for x in 0..5 {
        for y in 0..5 {
            let now = vec![p(0, 0), p(x, y)];
            let (_, rest) = get_all_score(&problem, &now, 0, &field);
            assert!(rest < 0);
        }
    }
}
