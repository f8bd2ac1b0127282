use pose_search::constraints::{
    aggregate_ok, aggregate_product, calculate_penalty, check_constraints_around_vertex,
};
use pose_search::point::Point;

fn p(x: i64, y: i64) -> Point {
    Point::new(x, y)
}

fn square() -> Vec<Point> {
    vec![p(0, 0), p(0, 10), p(10, 10), p(10, 0)]
}

#[test]
fn penalty_counts_units_and_stretch_excess() {
    let hole = square();
    let edges = vec![(0usize, 1usize)];
    let dist2 = vec![25i64];
    let vertices = vec![p(5, 5), p(20, 5)];
    let at0 = vec![(1usize, 0usize)];
    let at1 = vec![(0usize, 0usize)];
    // vertex 0 inside, edge leaves the hole, squared length 225 against 25
    assert_eq!(
        calculate_penalty(&hole, &edges, &vertices, &dist2, 0, &at0, 0, false),
        1000 + 200_000_000
    );
    // vertex 1 outside as well
    assert_eq!(
        calculate_penalty(&hole, &edges, &vertices, &dist2, 1, &at1, 0, false),
        1000 + 1000 + 200_000_000
    );
    // a tolerance of the whole length allows 25 of the 200
    assert_eq!(
        calculate_penalty(&hole, &edges, &vertices, &dist2, 0, &at0, 1_000_000, false),
        1000 + 175_000_000
    );
    assert!(!check_constraints_around_vertex(&hole, &edges, &vertices, &dist2, 0, &at0, 0, false));
    assert!(!check_constraints_around_vertex(&hole, &edges, &vertices, &dist2, 1, &at1, 0, false));
}

#[test]
fn penalty_is_zero_where_constraints_hold() {
    let hole = square();
    let edges = vec![(0usize, 1usize)];
    let dist2 = vec![25i64];
    let vertices = vec![p(5, 5), p(10, 5)];
    let at0 = vec![(1usize, 0usize)];
    let at1 = vec![(0usize, 0usize)];
    assert_eq!(calculate_penalty(&hole, &edges, &vertices, &dist2, 0, &at0, 0, false), 0);
    assert_eq!(calculate_penalty(&hole, &edges, &vertices, &dist2, 1, &at1, 0, false), 0);
    assert!(check_constraints_around_vertex(&hole, &edges, &vertices, &dist2, 0, &at0, 0, false));
    assert!(check_constraints_around_vertex(&hole, &edges, &vertices, &dist2, 1, &at1, 0, false));
}

#[test]
fn vertex_without_edges_answers_for_itself_only() {
    let hole = square();
    let edges: Vec<(usize, usize)> = Vec::new();
    let dist2: Vec<i64> = Vec::new();
    let none: Vec<(usize, usize)> = Vec::new();
    let vertices = vec![p(5, 5), p(11, 5)];
    assert_eq!(calculate_penalty(&hole, &edges, &vertices, &dist2, 0, &none, 0, false), 0);
    assert_eq!(calculate_penalty(&hole, &edges, &vertices, &dist2, 1, &none, 0, false), 1000);
    assert!(check_constraints_around_vertex(&hole, &edges, &vertices, &dist2, 0, &none, 0, false));
    assert!(!check_constraints_around_vertex(&hole, &edges, &vertices, &dist2, 1, &none, 0, false));
    assert!(check_constraints_around_vertex(&hole, &edges, &vertices, &dist2, 0, &none, 0, true));
}

#[test]
fn stretched_edge_inside_hole_fails_the_verdict() {
    let hole = square();
    let edges = vec![(0usize, 1usize)];
    let dist2 = vec![25i64];
    let vertices = vec![p(5, 5), p(9, 5)];
    let at0 = vec![(1usize, 0usize)];
    // squared length 16 against 25: 9 million, less 36 percent of 25 million
    assert!(!check_constraints_around_vertex(&hole, &edges, &vertices, &dist2, 0, &at0, 359_999, false));
    assert!(check_constraints_around_vertex(&hole, &edges, &vertices, &dist2, 0, &at0, 360_000, false));
    assert_eq!(
        calculate_penalty(&hole, &edges, &vertices, &dist2, 0, &at0, 359_999, false),
        25
    );
    assert_eq!(calculate_penalty(&hole, &edges, &vertices, &dist2, 0, &at0, 360_000, false), 0);
}

#[test]
fn globalist_weighs_the_figure_as_a_whole() {
    let hole = square();
    let edges = vec![(0usize, 1usize), (0usize, 2usize)];
    let dist2 = vec![4i64, 4i64];
    // squared lengths 8 and 1: the one grown by 4, the other shrunk by 3
    let vertices = vec![p(2, 2), p(4, 4), p(2, 3)];
    let at0 = vec![(1usize, 0usize), (2usize, 1usize)];
    assert!(aggregate_ok(&edges, &vertices, &dist2, 125_000));
    assert!(!aggregate_ok(&edges, &vertices, &dist2, 124_999));
    assert!(check_constraints_around_vertex(&hole, &edges, &vertices, &dist2, 0, &at0, 125_000, true));
    assert!(!check_constraints_around_vertex(&hole, &edges, &vertices, &dist2, 0, &at0, 124_999, true));
    assert!(!check_constraints_around_vertex(&hole, &edges, &vertices, &dist2, 0, &at0, 125_000, false));
    // the penalty is that of the edges, globalist or not
    let plain = calculate_penalty(&hole, &edges, &vertices, &dist2, 0, &at0, 125_000, false);
    let global = calculate_penalty(&hole, &edges, &vertices, &dist2, 0, &at0, 125_000, true);
    assert_eq!(plain, (4_000_000 - 500_000) + (3_000_000 - 500_000));
    assert_eq!(global, plain);
}

#[test]
fn globalist_still_asks_for_containment() {
    let hole = square();
    let edges = vec![(0usize, 1usize)];
    let dist2 = vec![25i64];
    let at0 = vec![(1usize, 0usize)];
    let inside = vec![p(5, 5), p(10, 5)];
    let outside = vec![p(5, 5), p(5, 0)];
    let leaving = vec![p(8, 5), p(13, 5)];
    assert!(check_constraints_around_vertex(&hole, &edges, &inside, &dist2, 0, &at0, 0, true));
    assert!(check_constraints_around_vertex(&hole, &edges, &outside, &dist2, 0, &at0, 0, true));
    assert!(!check_constraints_around_vertex(&hole, &edges, &leaving, &dist2, 0, &at0, 0, true));
}

#[test]
fn aggregate_product_is_given_within_the_limit_only() {
    assert_eq!(aggregate_product(&vec![4, 4]), Some(16));
    assert_eq!(aggregate_product(&vec![7]), Some(7));
    assert_eq!(aggregate_product(&Vec::new()), Some(1));
    assert_eq!(aggregate_product(&vec![0, 4]), None);
    assert_eq!(aggregate_product(&vec![4, -1]), None);
    assert_eq!(
        aggregate_product(&vec![100_000, 100_000, 100_000]),
        Some(1_000_000_000_000_000)
    );
    // the product, times the number of lengths, may reach 10^32
    let ten_to_16 = 10_000_000_000_000_000;
    assert_eq!(
        aggregate_product(&vec![ten_to_16, ten_to_16 / 2]),
        Some(50_000_000_000_000_000_000_000_000_000_000)
    );
    assert_eq!(aggregate_product(&vec![ten_to_16, ten_to_16 / 2 + 1]), None);
    assert_eq!(aggregate_product(&vec![ten_to_16, ten_to_16]), None);
    assert_eq!(aggregate_product(&vec![i64::MAX, i64::MAX]), None);
    assert_eq!(aggregate_product(&vec![i64::MAX, i64::MAX, i64::MAX]), None);
    assert_eq!(aggregate_product(&vec![i64::MAX]), Some(i64::MAX as i128));
    assert_eq!(aggregate_product(&vec![1, 1, 1, ten_to_16]), Some(ten_to_16 as i128));
}

#[test]
fn aggregate_is_exact_on_long_edges() {
    // three edges of squared length 100000 in a row; the first grows to
    // 106100: 6.1 percent for three edges
    let edges = vec![(0usize, 1usize), (1, 2), (2, 3)];
    let dist2 = vec![100_000i64, 100_000, 100_000];
    let grown = vec![p(0, 0), p(310, 100), p(610, 200), p(910, 300)];
    assert!(aggregate_ok(&edges, &grown, &dist2, 20_334));
    assert!(!aggregate_ok(&edges, &grown, &dist2, 20_333));
    // the first edge shrinks to nothing, the last grows to 412100: less 100
    // percent, and 312.1 percent more
    let mixed = vec![p(0, 0), p(0, 0), p(300, 100), p(910, 300)];
    assert!(aggregate_ok(&edges, &mixed, &dist2, 707_000));
    assert!(!aggregate_ok(&edges, &mixed, &dist2, 706_999));
    // all edges shrink to nothing: no tolerance is needed
    let none = vec![p(5, 5), p(5, 5), p(5, 5), p(5, 5)];
    assert!(aggregate_ok(&edges, &none, &dist2, 0));
    // nothing changes
    let same = vec![p(0, 0), p(300, 100), p(600, 200), p(900, 300)];
    assert!(aggregate_ok(&edges, &same, &dist2, 0));
    // the widest edges against the least
    let wide = vec![p(-1_000_000_000, -1_000_000_000), p(1_000_000_000, 1_000_000_000)];
    assert!(!aggregate_ok(&vec![(0, 1)], &wide, &vec![1], i64::MAX));
    assert!(aggregate_ok(&vec![(0, 1)], &wide, &vec![8_000_000_000_000_000_000], 0));
    assert!(aggregate_ok(&vec![(0, 1)], &wide, &vec![4_000_000_000_000_000_000], 1_000_000));
    assert!(!aggregate_ok(&vec![(0, 1)], &wide, &vec![4_000_000_000_000_000_000], 999_999));
}
