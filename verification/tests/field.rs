use pose_search::field::{bounding_box, ProximityField, FAR, MAX_ROUNDS};
use pose_search::model::{Figure, Problem};
use pose_search::point::Point;

fn p(x: i64, y: i64) -> Point {
    Point::new(x, y)
}

/// A square hole from (2,2) to (4,4) in a box from (0,0) to (6,6).
fn boxed_square() -> Problem {
    Problem {
        hole: vec![p(2, 2), p(2, 4), p(4, 4), p(4, 2)],
        figure: Figure { edges: vec![(0, 1)], vertices: vec![p(0, 0), p(6, 6)] },
        epsilon: 0,
        bonuses: Vec::new(),
    }
}

#[test]
fn bounding_box_spans_hole_and_figure() {
    assert_eq!(bounding_box(&boxed_square()), (p(0, 0), p(6, 6)));
    let problem = Problem {
        hole: vec![p(-3, 5), p(7, 9), p(2, -8)],
        figure: Figure { edges: Vec::new(), vertices: vec![p(1, 1), p(-4, 0), p(0, 12)] },
        epsilon: 0,
        bonuses: Vec::new(),
    };
    assert_eq!(bounding_box(&problem), (p(-4, -8), p(7, 12)));
    let lone = Problem {
        hole: Vec::new(),
        figure: Figure { edges: Vec::new(), vertices: vec![p(5, -5)] },
        epsilon: 0,
        bonuses: Vec::new(),
    };
    assert_eq!(bounding_box(&lone), (p(5, -5), p(5, -5)));
}

#[test]
fn field_counts_steps_to_the_hole() {
    let field = ProximityField::build(&boxed_square());
    assert_eq!(field.origin, p(0, 0));
    assert_eq!(field.cells.len(), 7);
    for column in &field.cells {
        assert_eq!(column.len(), 7);
    }
    for x in 0..7i64 {
        for y in 0..7i64 {
            let dx = if x < 2 { 2 - x } else if x > 4 { x - 4 } else { 0 };
            let dy = if y < 2 { 2 - y } else if y > 4 { y - 4 } else { 0 };
            assert_eq!(field.value_at(p(x, y)) as i64, dx + dy);
        }
    }
}

#[test]
fn field_covers_exactly_the_bounding_box() {
    let field = ProximityField::build(&boxed_square());
    assert!(field.contains(p(0, 0)));
    assert!(field.contains(p(6, 6)));
    assert!(field.contains(p(0, 6)));
    assert!(field.contains(p(3, 3)));
    assert!(!field.contains(p(7, 0)));
    assert!(!field.contains(p(0, 7)));
    assert!(!field.contains(p(-1, 3)));
    assert!(!field.contains(p(3, -1)));
}

#[test]
fn field_with_a_shifted_origin_is_read_by_coordinates() {
    let problem = Problem {
        hole: vec![p(-2, -2), p(-2, 0), p(0, 0), p(0, -2)],
        figure: Figure { edges: Vec::new(), vertices: vec![p(-5, -3), p(1, 1)] },
        epsilon: 0,
        bonuses: Vec::new(),
    };
    let field = ProximityField::build(&problem);
    assert_eq!(field.origin, p(-5, -3));
    assert_eq!(field.cells.len(), 7);
    assert_eq!(field.cells[0].len(), 5);
    assert_eq!(field.value_at(p(-1, -1)), 0);
    assert_eq!(field.value_at(p(-2, 0)), 0);
    assert_eq!(field.value_at(p(-3, -1)), 1);
    assert_eq!(field.value_at(p(-5, -3)), 4);
    assert_eq!(field.value_at(p(1, 1)), 2);
    assert_eq!(field.value_at(p(1, -3)), 2);
    assert!(!field.contains(p(2, 0)));
    assert!(!field.contains(p(-6, 0)));
}

#[test]
fn field_goes_round_a_wall() {
    // a hole of one row, and a box three rows high: the far corner is
    // reached round the hole's end, step by step
    let problem = Problem {
        hole: vec![p(0, 0), p(3, 0)],
        figure: Figure { edges: Vec::new(), vertices: vec![p(0, 0), p(5, 2)] },
        epsilon: 0,
        bonuses: Vec::new(),
    };
    let field = ProximityField::build(&problem);
    let expected = [[0u32, 1, 2], [0, 1, 2], [0, 1, 2], [0, 1, 2], [1, 2, 3], [2, 3, 4]];
    for x in 0..6 {
        for y in 0..3 {
            assert_eq!(field.value_at(p(x as i64, y as i64)), expected[x][y]);
        }
    }
}

#[test]
fn field_stops_after_its_rounds() {
    let problem = Problem {
        hole: vec![p(0, 0), p(0, 1), p(1, 1), p(1, 0)],
        figure: Figure { edges: Vec::new(), vertices: vec![p(400, 0)] },
        epsilon: 0,
        bonuses: Vec::new(),
    };
    let field = ProximityField::build(&problem);
    assert_eq!(MAX_ROUNDS, 300);
    assert_eq!(FAR, 99_999);
    assert_eq!(field.value_at(p(1, 0)), 0);
    assert_eq!(field.value_at(p(2, 1)), 1);
    assert_eq!(field.value_at(p(300, 0)), 299);
    assert_eq!(field.value_at(p(301, 1)), 300);
    assert_eq!(field.value_at(p(302, 0)), FAR);
    assert_eq!(field.value_at(p(400, 1)), FAR);
}

#[test]
fn field_without_a_hole_is_far_everywhere() {
    let problem = Problem {
        hole: Vec::new(),
        figure: Figure { edges: Vec::new(), vertices: vec![p(0, 0), p(2, 3)] },
        epsilon: 0,
        bonuses: Vec::new(),
    };
    let field = ProximityField::build(&problem);
    for x in 0..3 {
        for y in 0..4 {
            assert_eq!(field.value_at(p(x, y)), FAR);
        }
    }
}

#[test]
fn field_covers_all_points_or_tells_which_not() {
    let field = ProximityField::build(&boxed_square());
    assert!(field.contains_all(&vec![p(0, 0), p(6, 6), p(3, 2)]));
    assert!(field.contains_all(&Vec::new()));
    assert!(!field.contains_all(&vec![p(0, 0), p(6, 7)]));
    assert!(!field.contains_all(&vec![p(-1, 0)]));
}
