//! The data of a placement problem: the hole, the figure, the tolerance, and
//! a pose of the figure.

use vstd::prelude::*;
use crate::point::{Point, sq_dist, squared_distance};
use crate::polygon::all_in_range;

verus! {

/// Largest number of corners, vertices or edges that a problem may have.
pub const SIZE_LIMIT: usize = 1_000_000_000;

/// The kinds of bonus that a problem offers and a pose may claim.
#[derive(Clone, Copy, Debug, PartialEq, Eq, Structural)]
pub enum BonusType {
    Globalist,
    BreakALeg,
    WallHack,
    SuperFlex,
}

/// A bonus that a problem offers at a position, with the number of the
/// problem that it unlocks, where it names one.
#[derive(Clone, Copy, Debug)]
pub struct Bonus {
    pub position: Point,
    pub bonus: BonusType,
    pub problem: Option<u32>,
}

/// A bonus that a pose claims, with the position at which it is claimed.
#[derive(Clone, Copy, Debug)]
pub struct ClaimedBonus {
    pub position: Point,
    pub bonus: BonusType,
}

/// A graph of fixed shape: its vertices at their original positions, and its
/// edges as pairs of vertex indices.
#[derive(Clone, Debug)]
pub struct Figure {
    pub edges: Vec<(usize, usize)>,
    pub vertices: Vec<Point>,
}

/// A placement problem.
#[derive(Clone, Debug)]
pub struct Problem {
    pub hole: Vec<Point>,
    pub figure: Figure,
    pub epsilon: i64,
    pub bonuses: Vec<Bonus>,
}

/// A placement of the figure's vertices, with the bonuses that it claims.
#[derive(Clone, Debug)]
pub struct Pose {
    pub vertices: Vec<Point>,
    pub bonuses: Vec<ClaimedBonus>,
}

/// Both ends of every edge are vertices of a figure with `n` vertices.
pub open spec fn edges_in_bounds(edges: Seq<(usize, usize)>, n: int) -> bool {
    forall|i: int| 0 <= i < edges.len() ==> (#[trigger] edges[i]).0 < n && edges[i].1 < n
}

/// The original squared length of edge `i` of the figure.
pub open spec fn original_sq_len(figure: Figure, i: int) -> int {
    sq_dist(figure.vertices@[figure.edges@[i].0 as int], figure.vertices@[figure.edges@[i].1 as int])
}

/// Some bonus of the list is of the kind `kind`.
pub open spec fn has_claim(bonuses: Seq<ClaimedBonus>, kind: BonusType) -> bool {
    exists|i: int| 0 <= i < bonuses.len() && (#[trigger] bonuses[i]).bonus == kind
}

impl Figure {
    /// The figure has a vertex, its edges join vertices that exist, and its
    /// coordinates and sizes are in range.
    pub open spec fn wf(&self) -> bool {
        &&& 0 < self.vertices.len() <= SIZE_LIMIT
        &&& self.edges.len() <= SIZE_LIMIT
        &&& all_in_range(self.vertices@)
        &&& edges_in_bounds(self.edges@, self.vertices.len() as int)
    }
}

impl Problem {
    /// The problem is one that the library computes on: its figure is well
    /// formed, its hole is in range, and its tolerance is not negative.
    pub open spec fn wf(&self) -> bool {
        &&& self.figure.wf()
        &&& self.hole.len() <= SIZE_LIMIT
        &&& all_in_range(self.hole@)
        &&& self.epsilon >= 0
    }

    /// Tells whether the problem is well formed.
    pub fn is_well_formed(&self) -> (r: bool)
        ensures
            r == self.wf(),
    {
        let n: usize = self.figure.vertices.len();
        if n == 0 || n > SIZE_LIMIT || self.figure.edges.len() > SIZE_LIMIT || self.hole.len()
            > SIZE_LIMIT || self.epsilon < 0 {
            return false;
        }
        if !points_in_range(&self.figure.vertices) || !points_in_range(&self.hole) {
            return false;
        }
        let m: usize = self.figure.edges.len();
        let mut i: usize = 0;
        while i < m
            invariant
                0 <= i <= m,
                m == self.figure.edges.len(),
                n == self.figure.vertices.len(),
                forall|j: int|
                    0 <= j < i ==> (#[trigger] self.figure.edges@[j]).0 < n
                        && self.figure.edges@[j].1 < n,
            decreases m - i,
        {
            let e: (usize, usize) = self.figure.edges[i];
            if e.0 >= n || e.1 >= n {
                return false;
            }
            i = i + 1;
        }
        true
    }
}

impl Pose {
    /// The pose places every vertex of the figure, each in range.
    pub open spec fn fits(&self, figure: Figure) -> bool {
        &&& self.vertices.len() == figure.vertices.len()
        &&& all_in_range(self.vertices@)
    }

    /// Tells whether the pose places every vertex of the figure in range.
    pub fn is_fit_for(&self, figure: &Figure) -> (r: bool)
        ensures
            r == self.fits(*figure),
    {
        self.vertices.len() == figure.vertices.len() && points_in_range(&self.vertices)
    }

    /// Tells whether the pose claims a bonus of the kind `kind`.
    pub fn claims(&self, kind: BonusType) -> (r: bool)
        ensures
            r == has_claim(self.bonuses@, kind),
    {
        let n: usize = self.bonuses.len();
        let mut i: usize = 0;
        while i < n
            invariant
                0 <= i <= n,
                n == self.bonuses.len(),
                forall|j: int| 0 <= j < i ==> (#[trigger] self.bonuses@[j]).bonus != kind,
            decreases n - i,
        {
            if self.bonuses[i].bonus == kind {
                return true;
            }
            i = i + 1;
        }
        false
    }
}

/// Tells whether every point lies in the coordinate range.
pub fn points_in_range(points: &Vec<Point>) -> (r: bool)
    ensures
        r == all_in_range(points@),
{
    let n: usize = points.len();
    let mut i: usize = 0;
    while i < n
        invariant
            0 <= i <= n,
            n == points.len(),
            forall|j: int| 0 <= j < i ==> (#[trigger] points@[j]).in_range(),
        decreases n - i,
    {
        if !points[i].is_in_range() {
            return false;
        }
        i = i + 1;
    }
    true
}

/// A copy of the points.
pub fn copy_points(points: &Vec<Point>) -> (r: Vec<Point>)
    ensures
        r@ == points@,
{
    let mut r: Vec<Point> = Vec::new();
    let n: usize = points.len();
    let mut i: usize = 0;
    while i < n
        invariant
            0 <= i <= n,
            n == points.len(),
            r@ == points@.take(i as int),
        decreases n - i,
    {
        r.push(points[i]);
        i = i + 1;
    }
    r
}

/// The original squared length of every edge of the figure.
pub fn edge_lengths(figure: &Figure) -> (r: Vec<i64>)
    requires
        figure.wf(),
    ensures
        r@.len() == figure.edges@.len(),
        forall|i: int| 0 <= i < r@.len() ==> (#[trigger] r@[i]) == original_sq_len(*figure, i),
{
    let mut r: Vec<i64> = Vec::new();
    let m: usize = figure.edges.len();
    let mut i: usize = 0;
    while i < m
        invariant
            0 <= i <= m,
            m == figure.edges.len(),
            figure.wf(),
            r@.len() == i,
            forall|j: int| 0 <= j < i ==> (#[trigger] r@[j]) == original_sq_len(*figure, j),
        decreases m - i,
    {
        let e: (usize, usize) = figure.edges[i];
        let a: Point = figure.vertices[e.0];
        let b: Point = figure.vertices[e.1];
        r.push(squared_distance(a, b));
        i = i + 1;
    }
    r
}

} // verus!
