use pose_search::point::{squared_distance, Point};
use pose_search::polygon::{locate_scaled, point_in_polygon, segment_in_polygon, Containment};

fn p(x: i64, y: i64) -> Point {
    Point::new(x, y)
}

fn square() -> Vec<Point> {
    vec![p(0, 0), p(0, 10), p(10, 10), p(10, 0)]
}

/// An L: the square from (0,0) to (4,4) without its upper right quarter.
fn ell() -> Vec<Point> {
    vec![p(0, 0), p(4, 0), p(4, 2), p(2, 2), p(2, 4), p(0, 4)]
}

/// A U: the box from (0,0) to (6,4) with a notch cut into its top.
fn notched() -> Vec<Point> {
    vec![p(0, 0), p(6, 0), p(6, 4), p(4, 4), p(4, 2), p(2, 2), p(2, 4), p(0, 4)]
}

#[test]
fn square_interior_points_are_inside() {
    let sq = square();
    for x in 1..10 {
        for y in 1..10 {
            assert_eq!(point_in_polygon(&sq, p(x, y)), Containment::Inside);
        }
    }
}

#[test]
fn square_corners_and_edge_midpoints_are_on_boundary() {
    let sq = square();
    for c in [p(0, 0), p(0, 10), p(10, 10), p(10, 0)] {
        assert_eq!(point_in_polygon(&sq, c), Containment::OnBoundary);
    }
    for m in [p(0, 5), p(5, 10), p(10, 5), p(5, 0)] {
        assert_eq!(point_in_polygon(&sq, m), Containment::OnBoundary);
    }
}

#[test]
fn square_exterior_points_are_outside() {
    let sq = square();
    for q in [p(11, 5), p(-1, 0), p(5, -3), p(20, 10), p(-5, 10), p(11, 11), p(-1, -1), p(5, 11)] {
        assert_eq!(point_in_polygon(&sq, q), Containment::Outside);
    }
}

#[test]
fn ray_through_a_corner_is_counted_once() {
    let diamond = vec![p(0, 2), p(2, 4), p(4, 2), p(2, 0)];
    assert_eq!(point_in_polygon(&diamond, p(1, 2)), Containment::Inside);
    assert_eq!(point_in_polygon(&diamond, p(2, 2)), Containment::Inside);
    assert_eq!(point_in_polygon(&diamond, p(-1, 2)), Containment::Outside);
    assert_eq!(point_in_polygon(&diamond, p(-1, 4)), Containment::Outside);
    assert_eq!(point_in_polygon(&diamond, p(-1, 0)), Containment::Outside);
    assert_eq!(point_in_polygon(&diamond, p(5, 2)), Containment::Outside);
    assert_eq!(point_in_polygon(&diamond, p(1, 3)), Containment::OnBoundary);
    assert_eq!(point_in_polygon(&diamond, p(1, 4)), Containment::Outside);
}

#[test]
fn concave_polygon_classifies_points() {
    let l = ell();
    assert_eq!(point_in_polygon(&l, p(1, 1)), Containment::Inside);
    assert_eq!(point_in_polygon(&l, p(3, 1)), Containment::Inside);
    assert_eq!(point_in_polygon(&l, p(1, 3)), Containment::Inside);
    assert_eq!(point_in_polygon(&l, p(3, 3)), Containment::Outside);
    assert_eq!(point_in_polygon(&l, p(2, 2)), Containment::OnBoundary);
    assert_eq!(point_in_polygon(&l, p(2, 3)), Containment::OnBoundary);
    assert_eq!(point_in_polygon(&l, p(3, 2)), Containment::OnBoundary);
    assert_eq!(point_in_polygon(&l, p(4, 3)), Containment::Outside);
    assert_eq!(point_in_polygon(&l, p(-1, 2)), Containment::Outside);
}

#[test]
fn polygon_without_corners_holds_nothing() {
    let none: Vec<Point> = Vec::new();
    assert_eq!(point_in_polygon(&none, p(0, 0)), Containment::Outside);
    assert!(!segment_in_polygon(&none, (p(0, 0), p(1, 1))));
}

#[test]
fn magnified_polygon_locates_half_points() {
    let sq = vec![p(0, 0), p(0, 1), p(1, 1), p(1, 0)];
    // the centre (1/2, 1/2) of the unit square, given twice over
    assert_eq!(locate_scaled(&sq, 2, 1, 1), Containment::Inside);
    assert_eq!(locate_scaled(&sq, 2, 1, 0), Containment::OnBoundary);
    assert_eq!(locate_scaled(&sq, 2, 3, 1), Containment::Outside);
    assert_eq!(locate_scaled(&sq, 1, 1, 1), Containment::OnBoundary);
}

#[test]
fn segment_outside_polygon_is_rejected() {
    let sq = square();
    assert!(!segment_in_polygon(&sq, (p(11, 11), p(15, 12))));
    assert!(!segment_in_polygon(&sq, (p(-5, -5), p(-1, -1))));
    assert!(!segment_in_polygon(&sq, (p(12, 0), p(12, 10))));
}

#[test]
fn segment_on_polygon_edge_is_accepted() {
    let sq = square();
    assert!(segment_in_polygon(&sq, (p(0, 0), p(0, 10))));
    assert!(segment_in_polygon(&sq, (p(0, 10), p(10, 10))));
    assert!(segment_in_polygon(&sq, (p(10, 10), p(10, 0))));
    assert!(segment_in_polygon(&sq, (p(10, 0), p(0, 0))));
    assert!(segment_in_polygon(&sq, (p(0, 10), p(0, 0))));
    let l = ell();
    assert!(segment_in_polygon(&l, (p(4, 2), p(2, 2))));
    assert!(segment_in_polygon(&l, (p(2, 2), p(2, 4))));
}

#[test]
fn segment_with_one_end_outside_is_rejected() {
    let sq = square();
    assert!(!segment_in_polygon(&sq, (p(5, 5), p(15, 5))));
    assert!(!segment_in_polygon(&sq, (p(15, 5), p(5, 5))));
    assert!(!segment_in_polygon(&sq, (p(0, 0), p(-1, 0))));
}

#[test]
fn segment_inside_polygon_is_accepted() {
    let sq = square();
    assert!(segment_in_polygon(&sq, (p(1, 1), p(9, 8))));
    assert!(segment_in_polygon(&sq, (p(0, 0), p(10, 10))));
    assert!(segment_in_polygon(&sq, (p(0, 3), p(10, 7))));
    assert!(segment_in_polygon(&sq, (p(5, 5), p(5, 5))));
    assert!(segment_in_polygon(&sq, (p(0, 0), p(0, 0))));
    assert!(segment_in_polygon(&sq, (p(2, 0), p(7, 0))));
}

#[test]
fn segment_touching_a_reflex_corner_is_accepted() {
    let l = ell();
    assert!(segment_in_polygon(&l, (p(1, 3), p(3, 1))));
    assert!(segment_in_polygon(&l, (p(3, 1), p(1, 3))));
    assert!(segment_in_polygon(&l, (p(0, 4), p(4, 0))));
}

#[test]
fn segment_leaving_through_an_edge_is_rejected() {
    let l = ell();
    assert!(!segment_in_polygon(&l, (p(1, 3), p(3, 3))));
    assert!(!segment_in_polygon(&l, (p(3, 1), p(3, 3))));
}

#[test]
fn segment_across_a_notch_is_rejected() {
    let l = ell();
    // from corner to corner, with nothing but the ends on the boundary
    assert!(!segment_in_polygon(&l, (p(4, 2), p(2, 4))));
    let u = notched();
    assert!(!segment_in_polygon(&u, (p(1, 3), p(5, 3))));
    assert!(!segment_in_polygon(&u, (p(2, 4), p(4, 4))));
    assert!(!segment_in_polygon(&u, (p(2, 3), p(4, 3))));
    assert!(!segment_in_polygon(&u, (p(0, 4), p(6, 4))));
    assert!(segment_in_polygon(&u, (p(2, 2), p(4, 2))));
    assert!(segment_in_polygon(&u, (p(1, 2), p(5, 2))));
    assert!(segment_in_polygon(&u, (p(1, 1), p(5, 1))));
    assert!(segment_in_polygon(&u, (p(0, 2), p(6, 2))));
}

#[test]
fn segment_along_two_edges_in_line_is_accepted() {
    let poly = vec![p(0, 0), p(5, 0), p(10, 0), p(10, 10), p(0, 10)];
    assert!(segment_in_polygon(&poly, (p(0, 0), p(10, 0))));
    assert!(segment_in_polygon(&poly, (p(2, 0), p(8, 0))));
    assert_eq!(point_in_polygon(&poly, p(5, 0)), Containment::OnBoundary);
    assert_eq!(point_in_polygon(&poly, p(5, 5)), Containment::Inside);
}

#[test]
fn squared_distance_is_exact() {
    assert_eq!(squared_distance(p(0, 0), p(3, 4)), 25);
    assert_eq!(squared_distance(p(-2, 7), p(-2, 7)), 0);
    assert_eq!(squared_distance(p(1, 1), p(-1, -1)), 8);
    assert_eq!(
        squared_distance(p(-1_000_000_000, -1_000_000_000), p(1_000_000_000, 1_000_000_000)),
        8_000_000_000_000_000_000
    );
}

#[test]
fn point_arithmetic_is_componentwise() {
    let a = p(3, -4);
    let b = p(-1, 6);
    assert_eq!(a.plus(b), p(2, 2));
    assert_eq!(a.minus(b), p(4, -10));
    assert_eq!(a.abs2(), 25);
    assert!(p(1_000_000_000, -1_000_000_000).is_in_range());
    assert!(!p(1_000_000_001, 0).is_in_range());
    assert!(!p(0, -1_000_000_001).is_in_range());
}
