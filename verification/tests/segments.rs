use pose_search::point::Point;
use pose_search::polygon::segment_in_polygon;

fn p(x: i64, y: i64) -> Point {
    Point::new(x, y)
}

/// Where the point `(x, y) / scale` lies with respect to the polygon: 0
/// outside, 1 on the boundary, 2 inside. Written anew for the comparison, by
/// the sum of the quarter turns that the boundary makes about the point.
fn place(polygon: &[Point], x: i128, y: i128, scale: i128) -> u8 {
    let n = polygon.len();
    let quadrant = |vx: i128, vy: i128| -> i32 {
        if vx > 0 && vy >= 0 {
            0
        } else if vx <= 0 && vy > 0 {
            1
        } else if vx < 0 && vy <= 0 {
            2
        } else {
            3
        }
    };
    let mut quarters = 0i32;
    for i in 0..n {
        let a = polygon[i];
        let b = polygon[(i + 1) % n];
        let (ax, ay) = (a.x as i128 * scale - x, a.y as i128 * scale - y);
        let (bx, by) = (b.x as i128 * scale - x, b.y as i128 * scale - y);
        let cross = ax * by - ay * bx;
        let dot = ax * bx + ay * by;
        if cross == 0 && dot <= 0 {
            return 1;
        }
        let step = (quadrant(bx, by) - quadrant(ax, ay) + 4) % 4;
        quarters += match step {
            0 => 0,
            1 => 1,
            3 => -1,
            _ => {
                if cross > 0 {
                    2
                } else {
                    -2
                }
            }
        };
    }
    if quarters != 0 {
        2
    } else {
        0
    }
}

/// Whether every point of the segment lies in the closed region of the
/// polygon: the segment is cut wherever it meets the line of an edge, and a
/// point of every piece is placed, with the cuts themselves.
fn stays_inside(polygon: &[Point], a: Point, b: Point) -> bool {
    let n = polygon.len();
    // the cuts, as fractions of the way from `a` to `b`
    let mut cuts: Vec<(i128, i128)> = vec![(0, 1), (1, 1)];
    let (dx, dy) = ((b.x - a.x) as i128, (b.y - a.y) as i128);
    for i in 0..n {
        let c = polygon[i];
        let d = polygon[(i + 1) % n];
        let (ex, ey) = ((d.x - c.x) as i128, (d.y - c.y) as i128);
        // a + t (b - a) on the line through c and d
        let den = dx * ey - dy * ex;
        let num = (c.x - a.x) as i128 * ey - (c.y - a.y) as i128 * ex;
        if den != 0 {
            let (num, den) = if den < 0 { (-num, -den) } else { (num, den) };
            if 0 < num && num < den {
                cuts.push((num, den));
            }
        }
        // the corners of the polygon on the segment cut it too
        for q in [c, d] {
            let (qx, qy) = ((q.x - a.x) as i128, (q.y - a.y) as i128);
            if dx * qy - dy * qx == 0 {
                let (num, den) = if dx != 0 { (qx, dx) } else { (qy, dy) };
                if den != 0 {
                    let (num, den) = if den < 0 { (-num, -den) } else { (num, den) };
                    if 0 < num && num < den {
                        cuts.push((num, den));
                    }
                }
            }
        }
    }
    cuts.sort_by(|s, t| (s.0 * t.1).cmp(&(t.0 * s.1)));
    let at = |num: i128, den: i128| -> u8 {
        place(polygon, a.x as i128 * den + dx * num, a.y as i128 * den + dy * num, den)
    };
    for w in 0..cuts.len() {
        let (n1, d1) = cuts[w];
        if at(n1, d1) == 0 {
            return false;
        }
        if w + 1 < cuts.len() {
            let (n2, d2) = cuts[w + 1];
            if at(n1 * d2 + n2 * d1, 2 * d1 * d2) == 0 {
                return false;
            }
        }
    }
    true
}

fn compare_on_grid(polygon: &[Point], lo: i64, hi: i64) -> (usize, usize) {
    let hole = polygon.to_vec();
    let mut inside = 0;
    let mut outside = 0;
    for ax in lo..=hi {
        for ay in lo..=hi {
            for bx in lo..=hi {
                for by in lo..=hi {
                    let (a, b) = (p(ax, ay), p(bx, by));
                    let expected = stays_inside(polygon, a, b);
                    assert_eq!(segment_in_polygon(&hole, (a, b)), expected, "{:?} {:?}", a, b);
                    if expected {
                        inside += 1;
                    } else {
                        outside += 1;
                    }
                }
            }
        }
    }
    (inside, outside)
}

#[test]
fn segments_in_an_ell_agree_with_their_points() {
    let ell = [p(0, 0), p(4, 0), p(4, 2), p(2, 2), p(2, 4), p(0, 4)];
    let (inside, outside) = compare_on_grid(&ell, -1, 5);
    assert!(inside > 100 && outside > 100);
}

#[test]
fn segments_in_a_notched_box_agree_with_their_points() {
    let notched = [p(0, 0), p(6, 0), p(6, 4), p(4, 4), p(4, 2), p(2, 2), p(2, 4), p(0, 4)];
    let (inside, outside) = compare_on_grid(&notched, -1, 7);
    assert!(inside > 100 && outside > 100);
}

#[test]
fn segments_in_a_star_agree_with_their_points() {
    let star = [p(4, 0), p(5, 3), p(8, 4), p(5, 5), p(4, 8), p(3, 5), p(0, 4), p(3, 3)];
    let (inside, outside) = compare_on_grid(&star, 0, 8);
    assert!(inside > 100 && outside > 100);
}

#[test]
fn segments_in_a_clockwise_zigzag_agree_with_their_points() {
    // corners in line, a slanted notch, and the corners given clockwise
    let zigzag = [p(0, 0), p(0, 6), p(2, 6), p(3, 3), p(4, 6), p(6, 6), p(6, 3), p(6, 0), p(3, 0)];
    let (inside, outside) = compare_on_grid(&zigzag, -1, 7);
    assert!(inside > 100 && outside > 100);
}
