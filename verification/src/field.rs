//! The proximity field: for every grid point of the bounding box of a
//! problem, how far outside the hole it lies, counted in steps between
//! neighbouring grid points. The global strategy reads it as a slope that
//! leads vertices back to the hole.

use vstd::prelude::*;
use crate::model::Problem;
use crate::point::{Point, COORD_LIMIT};
use crate::polygon::{all_in_range, containment, point_in_polygon, Containment};

verus! {

/// The value of a grid point outside the hole that no round has reached.
pub const FAR: u32 = 99_999;

/// The number of rounds after which the field is left as it is.
pub const MAX_ROUNDS: u32 = 300;

/// An upright box of grid points, given by its least and its greatest corner.
pub struct Frame {
    pub x0: int,
    pub y0: int,
    pub x1: int,
    pub y1: int,
}

impl Frame {
    /// The grid point `(x, y)` lies in the box.
    pub open spec fn has(self, x: int, y: int) -> bool {
        self.x0 <= x <= self.x1 && self.y0 <= y <= self.y1
    }
}

/// The box is the bounding box of the points: it holds them all, and each of
/// its four sides holds one of them.
pub open spec fn is_bounding_box(points: Seq<Point>, frame: Frame) -> bool {
    &&& forall|i: int|
        0 <= i < points.len() ==> frame.has((#[trigger] points[i]).x as int, points[i].y as int)
    &&& exists|i: int| 0 <= i < points.len() && (#[trigger] points[i]).x == frame.x0
    &&& exists|i: int| 0 <= i < points.len() && (#[trigger] points[i]).x == frame.x1
    &&& exists|i: int| 0 <= i < points.len() && (#[trigger] points[i]).y == frame.y0
    &&& exists|i: int| 0 <= i < points.len() && (#[trigger] points[i]).y == frame.y1
}

/// The grid point with the coordinates `x` and `y`.
pub open spec fn grid_point(x: int, y: int) -> Point {
    Point { x: x as i64, y: y as i64 }
}

/// The value of the grid point `(x, y)` after `rounds` rounds. Before the
/// first round a point outside the hole holds `FAR` and every other point
/// zero. In round `r` every point that still holds `FAR`, and has among its
/// four neighbours in the box one that held `r - 1` when the round began,
/// takes the value `r`.
pub open spec fn label(hole: Seq<Point>, frame: Frame, rounds: int, x: int, y: int) -> int
    decreases rounds,
{
    if rounds <= 0 {
        if containment(hole, grid_point(x, y)) == Containment::Outside {
            FAR as int
        } else {
            0
        }
    } else {
        let r = rounds - 1;
        if label(hole, frame, r, x, y) == FAR && ((frame.has(x + 1, y) && label(
            hole,
            frame,
            r,
            x + 1,
            y,
        ) == r) || (frame.has(x, y + 1) && label(hole, frame, r, x, y + 1) == r) || (frame.has(
            x - 1,
            y,
        ) && label(hole, frame, r, x - 1, y) == r) || (frame.has(x, y - 1) && label(
            hole,
            frame,
            r,
            x,
            y - 1,
        ) == r)) {
            rounds
        } else {
            label(hole, frame, r, x, y)
        }
    }
}

/// After `rounds` rounds a grid point holds zero where it is not outside the
/// hole, and otherwise `FAR` or the number of the round that reached it.
pub proof fn lemma_label_range(hole: Seq<Point>, frame: Frame, rounds: int, x: int, y: int)
    requires
        0 <= rounds < FAR,
    ensures
        label(hole, frame, rounds, x, y) == FAR || 0 <= label(hole, frame, rounds, x, y) <= rounds,
        label(hole, frame, rounds, x, y) == 0 <==> containment(hole, grid_point(x, y))
            != Containment::Outside,
    decreases rounds,
{
    if rounds > 0 {
        lemma_label_range(hole, frame, rounds - 1, x, y);
    }
}

/// Round `rounds` changes nothing in the box.
pub open spec fn round_is_idle(hole: Seq<Point>, frame: Frame, rounds: int) -> bool {
    forall|x: int, y: int|
        frame.has(x, y) ==> #[trigger] label(hole, frame, rounds, x, y) == label(
            hole,
            frame,
            rounds - 1,
            x,
            y,
        )
}

/// Once a round has changed nothing in the box, no later round changes
/// anything in it.
pub proof fn lemma_idle_round_is_last(hole: Seq<Point>, frame: Frame, idle: int, later: int)
    requires
        0 < idle <= later < FAR,
        round_is_idle(hole, frame, idle),
    ensures
        forall|x: int, y: int|
            frame.has(x, y) ==> #[trigger] label(hole, frame, later, x, y) == label(
                hole,
                frame,
                idle - 1,
                x,
                y,
            ),
    decreases later,
{
    if later > idle {
        lemma_idle_round_is_last(hole, frame, idle, later - 1);
        let r = later - 1;
        assert forall|x: int, y: int| frame.has(x, y) implies #[trigger] label(
            hole,
            frame,
            later,
            x,
            y,
        ) == label(hole, frame, idle - 1, x, y) by {
            lemma_label_range(hole, frame, idle - 1, x + 1, y);
            lemma_label_range(hole, frame, idle - 1, x, y + 1);
            lemma_label_range(hole, frame, idle - 1, x - 1, y);
            lemma_label_range(hole, frame, idle - 1, x, y - 1);
            if frame.has(x + 1, y) {
                assert(label(hole, frame, r, x + 1, y) == label(hole, frame, idle - 1, x + 1, y));
            }
            if frame.has(x, y + 1) {
                assert(label(hole, frame, r, x, y + 1) == label(hole, frame, idle - 1, x, y + 1));
            }
            if frame.has(x - 1, y) {
                assert(label(hole, frame, r, x - 1, y) == label(hole, frame, idle - 1, x - 1, y));
            }
            if frame.has(x, y - 1) {
                assert(label(hole, frame, r, x, y - 1) == label(hole, frame, idle - 1, x, y - 1));
            }
            assert(label(hole, frame, r, x, y) == label(hole, frame, idle - 1, x, y));
        }
    }
}

/// The box with the least corner `lo` and the greatest corner `hi`.
pub open spec fn frame_of(lo: Point, hi: Point) -> Frame {
    Frame { x0: lo.x as int, y0: lo.y as int, x1: hi.x as int, y1: hi.y as int }
}

/// Two sequences that hold the same points have the same bounding box.
pub proof fn lemma_same_points_same_box(a: Seq<Point>, b: Seq<Point>, frame: Frame)
    requires
        is_bounding_box(a, frame),
        forall|p: Point| a.contains(p) <==> b.contains(p),
    ensures
        is_bounding_box(b, frame),
{
    assert forall|i: int| 0 <= i < b.len() implies frame.has(
        (#[trigger] b[i]).x as int,
        b[i].y as int,
    ) by {
        assert(b.contains(b[i]));
    }
    let i0 = choose|i: int| 0 <= i < a.len() && (#[trigger] a[i]).x == frame.x0;
    let i1 = choose|i: int| 0 <= i < a.len() && (#[trigger] a[i]).x == frame.x1;
    let i2 = choose|i: int| 0 <= i < a.len() && (#[trigger] a[i]).y == frame.y0;
    let i3 = choose|i: int| 0 <= i < a.len() && (#[trigger] a[i]).y == frame.y1;
    assert(a.contains(a[i0]) && a.contains(a[i1]) && a.contains(a[i2]) && a.contains(a[i3]));
}

/// The bounding box of the points seen so far, widened to hold `points` too.
fn widen(points: &Vec<Point>, lo: Point, hi: Point, Ghost(seen): Ghost<Seq<Point>>) -> (r: (
    Point,
    Point,
))
    requires
        is_bounding_box(seen, frame_of(lo, hi)),
    ensures
        is_bounding_box(seen + points@, frame_of(r.0, r.1)),
{
    let mut lo: Point = lo;
    let mut hi: Point = hi;
    let n: usize = points.len();
    let mut i: usize = 0;
    while i < n
        invariant
            0 <= i <= n,
            n == points.len(),
            is_bounding_box(seen + points@.take(i as int), frame_of(lo, hi)),
        decreases n - i,
    {
        let p: Point = points[i];
        let ghost before = seen + points@.take(i as int);
        let ghost after = seen + points@.take(i + 1);
        let ghost old_frame = frame_of(lo, hi);
        assert(after =~= before.push(p));
        proof {
            let i0 = choose|k: int| 0 <= k < before.len() && (#[trigger] before[k]).x == old_frame.x0;
            let i1 = choose|k: int| 0 <= k < before.len() && (#[trigger] before[k]).x == old_frame.x1;
            let i2 = choose|k: int| 0 <= k < before.len() && (#[trigger] before[k]).y == old_frame.y0;
            let i3 = choose|k: int| 0 <= k < before.len() && (#[trigger] before[k]).y == old_frame.y1;
            assert(after[i0] == before[i0] && after[i1] == before[i1] && after[i2] == before[i2]
                && after[i3] == before[i3]);
            assert(after[before.len() as int] == p);
        }
        if p.x < lo.x {
            lo = Point { x: p.x, y: lo.y };
        }
        if p.y < lo.y {
            lo = Point { x: lo.x, y: p.y };
        }
        if p.x > hi.x {
            hi = Point { x: p.x, y: hi.y };
        }
        if p.y > hi.y {
            hi = Point { x: hi.x, y: p.y };
        }
        i = i + 1;
    }
    assert(points@.take(n as int) == points@);
    (lo, hi)
}

/// The least and the greatest corner of the bounding box of the hole and the
/// figure at its original position.
pub fn bounding_box(problem: &Problem) -> (r: (Point, Point))
    requires
        problem.wf(),
    ensures
        is_bounding_box(problem.hole@ + problem.figure.vertices@, frame_of(r.0, r.1)),
        r.0.in_range(),
        r.1.in_range(),
        r.0.x <= r.1.x,
        r.0.y <= r.1.y,
{
    let first: Point = problem.figure.vertices[0];
    let ghost seed = seq![first];
    assert(seed[0] == first);
    let (lo, hi) = widen(&problem.hole, first, first, Ghost(seed));
    let (lo, hi) = widen(&problem.figure.vertices, lo, hi, Ghost(seed + problem.hole@));
    proof {
        let all = problem.hole@ + problem.figure.vertices@;
        let seen = seed + problem.hole@ + problem.figure.vertices@;
        assert forall|p: Point| seen.contains(p) <==> all.contains(p) by {
            if seen.contains(p) {
                let k = choose|k: int| 0 <= k < seen.len() && seen[k] == p;
                if k == 0 {
                    assert(all[problem.hole@.len() as int] == p);
                } else {
                    assert(all[k - 1] == p);
                }
            }
            if all.contains(p) {
                let k = choose|k: int| 0 <= k < all.len() && all[k] == p;
                assert(seen[k + 1] == p);
            }
        }
        lemma_same_points_same_box(seen, all, frame_of(lo, hi));
    }
    (lo, hi)
}

/// The grid has `width` columns of `height` cells each.
pub open spec fn has_shape(cells: Seq<Vec<u32>>, width: int, height: int) -> bool {
    &&& cells.len() == width
    &&& forall|i: int| 0 <= i < width ==> (#[trigger] cells[i])@.len() == height
}

/// The value that the cell in column `i` and row `j` holds while round
/// `rounds` is under way and has come to the cell in column `done_i` and row
/// `done_j`: the cells before that one hold their value after the round, the
/// others still hold their value before it.
pub open spec fn label_under_way(
    hole: Seq<Point>,
    frame: Frame,
    rounds: int,
    done_i: int,
    done_j: int,
    i: int,
    j: int,
) -> int {
    if i < done_i || (i == done_i && j < done_j) {
        label(hole, frame, rounds, frame.x0 + i, frame.y0 + j)
    } else {
        label(hole, frame, rounds - 1, frame.x0 + i, frame.y0 + j)
    }
}

/// One round on the grid, cell by cell. Tells whether a cell changed.
fn relax(cells: &mut Vec<Vec<u32>>, round: u32, Ghost(hole): Ghost<Seq<Point>>, Ghost(frame): Ghost<
    Frame,
>) -> (changed: bool)
    requires
        0 < round <= MAX_ROUNDS,
        frame.x0 <= frame.x1,
        frame.y0 <= frame.y1,
        has_shape(old(cells)@, frame.x1 - frame.x0 + 1, frame.y1 - frame.y0 + 1),
        forall|i: int, j: int|
            0 <= i <= frame.x1 - frame.x0 && 0 <= j <= frame.y1 - frame.y0 ==> (
            #[trigger] old(cells)@[i]@[j]) == label(
                hole,
                frame,
                round - 1,
                frame.x0 + i,
                frame.y0 + j,
            ),
    ensures
        has_shape(final(cells)@, frame.x1 - frame.x0 + 1, frame.y1 - frame.y0 + 1),
        forall|i: int, j: int|
            0 <= i <= frame.x1 - frame.x0 && 0 <= j <= frame.y1 - frame.y0 ==> (
            #[trigger] final(cells)@[i]@[j]) == label(
                hole,
                frame,
                round as int,
                frame.x0 + i,
                frame.y0 + j,
            ),
        changed <==> !round_is_idle(hole, frame, round as int),
{
    let w: usize = cells.len();
    let h: usize = cells[0].len();
    let mut changed: bool = false;
    let ghost mut wx: int = 0;
    let ghost mut wy: int = 0;
    let mut i: usize = 0;
    while i < w
        invariant
            0 <= i <= w,
            0 < round <= MAX_ROUNDS,
            w == frame.x1 - frame.x0 + 1,
            h == frame.y1 - frame.y0 + 1,
            has_shape(cells@, w as int, h as int),
            forall|a: int, b: int|
                0 <= a < w && 0 <= b < h ==> (#[trigger] cells@[a]@[b]) == label_under_way(
                    hole,
                    frame,
                    round as int,
                    i as int,
                    0,
                    a,
                    b,
                ),
            changed ==> frame.has(wx, wy) && label(hole, frame, round as int, wx, wy) != label(
                hole,
                frame,
                round - 1,
                wx,
                wy,
            ),
            !changed ==> forall|a: int, b: int|
                0 <= a < i && 0 <= b < h ==> #[trigger] label(
                    hole,
                    frame,
                    round as int,
                    frame.x0 + a,
                    frame.y0 + b,
                ) == label(hole, frame, round - 1, frame.x0 + a, frame.y0 + b),
        decreases w - i,
    {
        let mut j: usize = 0;
        while j < h
            invariant
                0 <= i < w,
                0 <= j <= h,
                0 < round <= MAX_ROUNDS,
                w == frame.x1 - frame.x0 + 1,
                h == frame.y1 - frame.y0 + 1,
                has_shape(cells@, w as int, h as int),
                forall|a: int, b: int|
                    0 <= a < w && 0 <= b < h ==> (#[trigger] cells@[a]@[b]) == label_under_way(
                        hole,
                        frame,
                        round as int,
                        i as int,
                        j as int,
                        a,
                        b,
                    ),
                changed ==> frame.has(wx, wy) && label(hole, frame, round as int, wx, wy) != label(
                    hole,
                    frame,
                    round - 1,
                    wx,
                    wy,
                ),
                !changed ==> forall|a: int, b: int|
                    (0 <= a < i && 0 <= b < h) || (a == i && 0 <= b < j) ==> #[trigger] label(
                        hole,
                        frame,
                        round as int,
                        frame.x0 + a,
                        frame.y0 + b,
                    ) == label(hole, frame, round - 1, frame.x0 + a, frame.y0 + b),
            decreases h - j,
        {
            let ghost x = frame.x0 + i;
            let ghost y = frame.y0 + j;
            let mut reached: bool = false;
            if cells[i][j] == FAR {
                let from: u32 = round - 1;
                reached = (i + 1 < w && cells[i + 1][j] == from) || (j + 1 < h && cells[i][j + 1]
                    == from) || (i > 0 && cells[i - 1][j] == from) || (j > 0 && cells[i][j - 1]
                    == from);
            }
            if reached {
                cells[i][j] = round;
                changed = true;
                proof {
                    wx = x;
                    wy = y;
                }
            }
            j = j + 1;
        }
        i = i + 1;
    }
    proof {
        if !changed {
            assert forall|x: int, y: int| frame.has(x, y) implies #[trigger] label(
                hole,
                frame,
                round as int,
                x,
                y,
            ) == label(hole, frame, round - 1, x, y) by {
                let a = x - frame.x0;
                let b = y - frame.y0;
                assert(label(hole, frame, round as int, frame.x0 + a, frame.y0 + b) == label(
                    hole,
                    frame,
                    round - 1,
                    frame.x0 + a,
                    frame.y0 + b,
                ));
            }
        }
    }
    changed
}

/// The proximity field of a problem: a grid of values over a box of grid
/// points.
pub struct ProximityField {
    /// The least corner of the box.
    pub origin: Point,
    /// The values, by columns: `cells[i][j]` belongs to the grid point
    /// `(origin.x + i, origin.y + j)`.
    pub cells: Vec<Vec<u32>>,
}

impl ProximityField {
    /// The box of grid points that the field covers.
    pub open spec fn frame(&self) -> Frame {
        Frame {
            x0: self.origin.x as int,
            y0: self.origin.y as int,
            x1: self.origin.x + self.cells@.len() - 1,
            y1: self.origin.y + self.cells@[0]@.len() - 1,
        }
    }

    /// The grid is not empty, its columns are of one height, and the box lies
    /// in the coordinate range.
    pub open spec fn wf(&self) -> bool {
        &&& self.cells@.len() > 0
        &&& self.cells@[0]@.len() > 0
        &&& has_shape(self.cells@, self.cells@.len() as int, self.cells@[0]@.len() as int)
        &&& self.origin.in_range()
        &&& self.frame().x1 <= COORD_LIMIT
        &&& self.frame().y1 <= COORD_LIMIT
        &&& forall|i: int, j: int|
            0 <= i < self.cells@.len() && 0 <= j < self.cells@[0]@.len() ==> (
            #[trigger] self.cells@[i]@[j]) <= FAR
    }

    /// The field covers the grid point `p`.
    pub open spec fn covers(&self, p: Point) -> bool {
        self.frame().has(p.x as int, p.y as int)
    }

    /// The value of the field at the grid point `(x, y)`.
    pub open spec fn value(&self, x: int, y: int) -> int {
        self.cells@[x - self.origin.x]@[y - self.origin.y] as int
    }

    /// The field is that of the problem: it covers the bounding box of the
    /// hole and the figure, and every grid point of the box holds the value
    /// that the rounds give it.
    pub open spec fn is_field_of(&self, problem: Problem) -> bool {
        &&& self.wf()
        &&& is_bounding_box(problem.hole@ + problem.figure.vertices@, self.frame())
        &&& forall|x: int, y: int|
            self.frame().has(x, y) ==> #[trigger] self.value(x, y) == label(
                problem.hole@,
                self.frame(),
                MAX_ROUNDS as int,
                x,
                y,
            )
    }

    /// Tells whether the field covers the grid point `p`.
    pub fn contains(&self, p: Point) -> (r: bool)
        requires
            self.wf(),
        ensures
            r == self.covers(p),
    {
        let w: usize = self.cells.len();
        let h: usize = self.cells[0].len();
        self.origin.x <= p.x && p.x as i128 <= self.origin.x as i128 + w as i128 - 1
            && self.origin.y <= p.y && p.y as i128 <= self.origin.y as i128 + h as i128 - 1
    }

    /// The field covers every one of the points.
    pub open spec fn covers_all(&self, points: Seq<Point>) -> bool {
        forall|v: int| 0 <= v < points.len() ==> self.covers(#[trigger] points[v])
    }

    /// Tells whether the field covers every one of the points.
    pub fn contains_all(&self, points: &Vec<Point>) -> (r: bool)
        requires
            self.wf(),
        ensures
            r == self.covers_all(points@),
    {
        let n: usize = points.len();
        let mut i: usize = 0;
        while i < n
            invariant
                0 <= i <= n,
                n == points.len(),
                self.wf(),
                forall|v: int| 0 <= v < i ==> self.covers(#[trigger] points@[v]),
            decreases n - i,
        {
            if !self.contains(points[i]) {
                return false;
            }
            i = i + 1;
        }
        true
    }

    /// The value of the field at the grid point `p`.
    pub fn value_at(&self, p: Point) -> (r: u32)
        requires
            self.wf(),
            self.covers(p),
        ensures
            r == self.value(p.x as int, p.y as int),
            r <= FAR,
    {
        let i: usize = (p.x - self.origin.x) as usize;
        let j: usize = (p.y - self.origin.y) as usize;
        self.cells[i][j]
    }

    /// Builds the field of the problem: every grid point of the bounding box
    /// starts at `FAR` where it lies outside the hole and at zero where it
    /// does not; then rounds follow until one changes nothing, `MAX_ROUNDS` at
    /// most.
    pub fn build(problem: &Problem) -> (f: ProximityField)
        requires
            problem.wf(),
        ensures
            f.is_field_of(*problem),
    {
        let (lo, hi) = bounding_box(problem);
        let w: usize = (hi.x - lo.x + 1) as usize;
        let h: usize = (hi.y - lo.y + 1) as usize;
        let ghost frame = frame_of(lo, hi);
        let ghost hole = problem.hole@;
        let mut cells: Vec<Vec<u32>> = Vec::new();
        let mut i: usize = 0;
        while i < w
            invariant
                0 <= i <= w,
                w == hi.x - lo.x + 1,
                h == hi.y - lo.y + 1,
                lo.in_range(),
                hi.in_range(),
                frame == frame_of(lo, hi),
                hole == problem.hole@,
                all_in_range(hole),
                has_shape(cells@, i as int, h as int),
                forall|a: int, b: int|
                    0 <= a < i && 0 <= b < h ==> (#[trigger] cells@[a]@[b]) == label(
                        hole,
                        frame,
                        0,
                        frame.x0 + a,
                        frame.y0 + b,
                    ),
            decreases w - i,
        {
            let mut column: Vec<u32> = Vec::new();
            let mut j: usize = 0;
            while j < h
                invariant
                    0 <= i < w,
                    0 <= j <= h,
                    w == hi.x - lo.x + 1,
                    h == hi.y - lo.y + 1,
                    lo.in_range(),
                    hi.in_range(),
                    frame == frame_of(lo, hi),
                    hole == problem.hole@,
                    all_in_range(hole),
                    column@.len() == j,
                    forall|b: int|
                        0 <= b < j ==> (#[trigger] column@[b]) == label(
                            hole,
                            frame,
                            0,
                            frame.x0 + i,
                            frame.y0 + b,
                        ),
                decreases h - j,
            {
                let p: Point = Point { x: lo.x + i as i64, y: lo.y + j as i64 };
                let v: u32 = if point_in_polygon(&problem.hole, p) == Containment::Outside {
                    FAR
                } else {
                    0
                };
                column.push(v);
                j = j + 1;
            }
            cells.push(column);
            i = i + 1;
        }
        let mut round: u32 = 0;
        let mut idle: bool = false;
        while !idle && round < MAX_ROUNDS
            invariant
                0 <= round <= MAX_ROUNDS,
                w == hi.x - lo.x + 1,
                h == hi.y - lo.y + 1,
                w > 0,
                h > 0,
                frame == frame_of(lo, hi),
                has_shape(cells@, w as int, h as int),
                forall|a: int, b: int|
                    0 <= a < w && 0 <= b < h ==> (#[trigger] cells@[a]@[b]) == label(
                        hole,
                        frame,
                        round as int,
                        frame.x0 + a,
                        frame.y0 + b,
                    ),
                idle ==> round > 0 && round_is_idle(hole, frame, round as int),
            decreases (if idle { 0int } else { 1int }), MAX_ROUNDS - round,
        {
            round = round + 1;
            let changed: bool = relax(&mut cells, round, Ghost(hole), Ghost(frame));
            idle = !changed;
        }
        let f: ProximityField = ProximityField { origin: lo, cells };
        proof {
            assert forall|a: int, b: int| 0 <= a < w && 0 <= b < h implies (
            #[trigger] f.cells@[a]@[b]) <= FAR by {
                lemma_label_range(hole, frame, round as int, frame.x0 + a, frame.y0 + b);
            }
            if round < MAX_ROUNDS {
                lemma_idle_round_is_last(hole, frame, round as int, MAX_ROUNDS as int);
            }
        }
        f
    }
}

} // verus!
