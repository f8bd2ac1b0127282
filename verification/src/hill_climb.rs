//! The local strategy: a hill climb that moves one vertex by one step at a
//! time, keeps a move where the constraints around the vertex do not get
//! worse and the cost of the pose does not grow, and takes it back otherwise.

use vstd::prelude::*;
use crate::constraints::{
    aggregate_in_reach, aggregate_product, calculate_penalty, check_constraints_around_vertex,
    lengths_in_range, local_inputs_ok, satisfied, violations,
};
use crate::dislikes::{dislikes, dislikes_of};
use crate::model::{
    copy_points, edge_lengths, edges_in_bounds, has_claim, original_sq_len, BonusType,
    ClaimedBonus, Figure, Pose, Problem,
};
use crate::point::{direction, lemma_sq_norm_bound, step_vector, Point, COORD_LIMIT, SQ_DIST_LIMIT};
use crate::polygon::all_in_range;
use crate::random::RandomSource;

verus! {

/// The edges at vertex `a` among the first `upto` edges, in their order: each
/// as the vertex at its other end and its index. An edge from a vertex to
/// itself is listed twice.
pub open spec fn incident(edges: Seq<(usize, usize)>, a: int, upto: int) -> Seq<(usize, usize)>
    decreases upto,
{
    if upto <= 0 {
        Seq::empty()
    } else {
        let e = edges[upto - 1];
        let before = incident(edges, a, upto - 1);
        let first = if e.0 == a {
            before.push((e.1, (upto - 1) as usize))
        } else {
            before
        };
        if e.1 == a {
            first.push((e.0, (upto - 1) as usize))
        } else {
            first
        }
    }
}

/// The original squared lengths of the figure's edges, as machine integers.
pub open spec fn lengths_of(figure: Figure) -> Seq<i64> {
    Seq::new(figure.edges@.len(), |i: int| original_sq_len(figure, i) as i64)
}

/// The list of the edges at a vertex names vertices and edges that exist.
pub proof fn lemma_incident_in_bounds(edges: Seq<(usize, usize)>, n: int, a: int, upto: int)
    requires
        edges_in_bounds(edges, n),
        0 <= upto <= edges.len(),
        edges.len() <= usize::MAX,
    ensures
        incident(edges, a, upto).len() <= 2 * upto,
        forall|t: int|
            0 <= t < incident(edges, a, upto).len() ==> (#[trigger] incident(edges, a, upto)[t]).0
                < n && incident(edges, a, upto)[t].1 < upto,
    decreases upto,
{
    if upto > 0 {
        lemma_incident_in_bounds(edges, n, a, upto - 1);
    }
}

/// The original squared lengths of a well-formed figure are in range.
pub proof fn lemma_lengths_in_range(figure: Figure)
    requires
        figure.wf(),
    ensures
        lengths_in_range(lengths_of(figure)),
        forall|i: int|
            0 <= i < figure.edges@.len() ==> (#[trigger] lengths_of(figure)[i]) as int
                == original_sq_len(figure, i),
{
    assert forall|i: int| 0 <= i < lengths_of(figure).len() implies 0 <= #[trigger] lengths_of(
        figure,
    )[i] <= SQ_DIST_LIMIT && lengths_of(figure)[i] as int == original_sq_len(figure, i) by {
        let e = figure.edges@[i];
        let p = figure.vertices@[e.0 as int];
        let q = figure.vertices@[e.1 as int];
        lemma_sq_norm_bound(p.x - q.x, p.y - q.y, 2_000_000_000);
    }
}

/// For every vertex of a figure with `n` vertices, the list of the edges at
/// it.
pub fn build_adjacency(n: usize, edges: &Vec<(usize, usize)>) -> (adj: Vec<Vec<(usize, usize)>>)
    requires
        edges_in_bounds(edges@, n as int),
    ensures
        adj.len() == n,
        forall|a: int|
            0 <= a < n ==> (#[trigger] adj@[a])@ == incident(edges@, a, edges@.len() as int),
{
    let mut adj: Vec<Vec<(usize, usize)>> = Vec::new();
    let mut v: usize = 0;
    while v < n
        invariant
            0 <= v <= n,
            adj.len() == v,
            forall|a: int| 0 <= a < v ==> (#[trigger] adj@[a])@ == incident(edges@, a, 0),
        decreases n - v,
    {
        adj.push(Vec::new());
        v = v + 1;
    }
    let m: usize = edges.len();
    let mut i: usize = 0;
    while i < m
        invariant
            0 <= i <= m,
            m == edges.len(),
            adj.len() == n,
            edges_in_bounds(edges@, n as int),
            forall|a: int| 0 <= a < n ==> (#[trigger] adj@[a])@ == incident(edges@, a, i as int),
        decreases m - i,
    {
        let e: (usize, usize) = edges[i];
        adj[e.0].push((e.1, i));
        adj[e.1].push((e.0, i));
        i = i + 1;
    }
    adj
}

/// What a hill climb has reached: the placement of the vertices and the
/// number of moves that it has kept.
pub struct ClimbState {
    pub vertices: Seq<Point>,
    pub accepted: int,
}

/// The penalty at vertex `a` as the hill climb sees it: zero where the
/// constraints around the vertex hold, the measure of their violation where
/// they do not.
pub open spec fn local_penalty(problem: Problem, vertices: Seq<Point>, a: int, globalist: bool)
    -> int {
    let dist2 = lengths_of(problem.figure);
    let adj = incident(problem.figure.edges@, a, problem.figure.edges@.len() as int);
    if satisfied(
        problem.hole@,
        problem.figure.edges@,
        vertices,
        dist2,
        a,
        adj,
        problem.epsilon as int,
        globalist,
    ) {
        0
    } else {
        violations(problem.hole@, vertices, dist2, a, adj, problem.epsilon as int)
    }
}

/// The placement `after`, which differs from `before` at vertex `a`, is no
/// worse around that vertex: its constraints hold there, or its penalty there
/// is at most the penalty before.
pub open spec fn no_worse_around(
    problem: Problem,
    before: Seq<Point>,
    after: Seq<Point>,
    a: int,
    globalist: bool,
) -> bool {
    let dist2 = lengths_of(problem.figure);
    let adj = incident(problem.figure.edges@, a, problem.figure.edges@.len() as int);
    ||| satisfied(
        problem.hole@,
        problem.figure.edges@,
        after,
        dist2,
        a,
        adj,
        problem.epsilon as int,
        globalist,
    )
    ||| violations(problem.hole@, after, dist2, a, adj, problem.epsilon as int) <= local_penalty(
        problem,
        before,
        a,
        globalist,
    )
}

/// The placement with vertex `a` moved by one step in direction `d`.
pub open spec fn moved(vertices: Seq<Point>, a: int, d: int) -> Seq<Point> {
    vertices.update(a, vertices[a].moved_by(step_vector(d)))
}

/// The move of vertex `a` in direction `d` is kept: the placement is no worse
/// around the vertex, and the cost of the pose does not grow.
pub open spec fn move_kept(
    problem: Problem,
    bonuses: Seq<ClaimedBonus>,
    globalist: bool,
    vertices: Seq<Point>,
    a: int,
    d: int,
) -> bool {
    &&& no_worse_around(problem, vertices, moved(vertices, a, d), a, globalist)
    &&& dislikes(problem.hole@, moved(vertices, a, d), bonuses) <= dislikes(
        problem.hole@,
        vertices,
        bonuses,
    )
}

/// One cycle of the hill climb: vertex `a` is moved in direction `d`, and the
/// move is kept or taken back.
pub open spec fn climb_step(
    problem: Problem,
    bonuses: Seq<ClaimedBonus>,
    globalist: bool,
    st: ClimbState,
    a: int,
    d: int,
) -> ClimbState {
    if move_kept(problem, bonuses, globalist, st.vertices, a, d) {
        ClimbState { vertices: moved(st.vertices, a, d), accepted: st.accepted + 1 }
    } else {
        st
    }
}

/// The cycles of the hill climb that the draws decide, one after the other:
/// each draw names a vertex and a direction.
pub open spec fn climb_run(
    problem: Problem,
    bonuses: Seq<ClaimedBonus>,
    globalist: bool,
    st: ClimbState,
    draws: Seq<(int, int)>,
) -> ClimbState
    decreases draws.len(),
{
    if draws.len() == 0 {
        st
    } else {
        climb_step(
            problem,
            bonuses,
            globalist,
            climb_run(problem, bonuses, globalist, st, draws.drop_last()),
            draws.last().0,
            draws.last().1,
        )
    }
}

/// Every draw names a vertex of a figure with `n` vertices and one of the
/// four directions along the axes.
pub open spec fn draws_in_bounds(draws: Seq<(int, int)>, n: int) -> bool {
    forall|i: int|
        0 <= i < draws.len() ==> 0 <= (#[trigger] draws[i]).0 < n && 0 <= draws[i].1 < 4
}

/// A hill climb under way.
pub struct HillClimber {
    /// Where the vertices are placed now.
    pub vertices: Vec<Point>,
    /// The cost of that placement.
    pub dislikes: i128,
    /// The number of moves kept so far.
    pub accepted: i32,
    /// The bonuses that the pose claims.
    pub bonuses: Vec<ClaimedBonus>,
    /// Whether the tolerance is that of the figure as a whole.
    pub globalist: bool,
    /// The original squared length of every edge.
    pub dist2: Vec<i64>,
    /// For every vertex the edges at it.
    pub adj: Vec<Vec<(usize, usize)>>,
}

impl HillClimber {
    /// The placement reached and the number of moves kept.
    pub open spec fn state(&self) -> ClimbState {
        ClimbState { vertices: self.vertices@, accepted: self.accepted as int }
    }

    /// The climber belongs to the problem: it places every vertex in range,
    /// knows the cost of its placement, and holds the lengths and the
    /// adjacency lists of the problem's figure.
    pub open spec fn wf(&self, problem: Problem) -> bool {
        &&& self.vertices.len() == problem.figure.vertices.len()
        &&& all_in_range(self.vertices@)
        &&& self.dislikes == dislikes(problem.hole@, self.vertices@, self.bonuses@)
        &&& self.accepted >= 0
        &&& self.dist2@ == lengths_of(problem.figure)
        &&& self.adj.len() == problem.figure.vertices.len()
        &&& forall|a: int|
            0 <= a < self.adj.len() ==> (#[trigger] self.adj@[a])@ == incident(
                problem.figure.edges@,
                a,
                problem.figure.edges@.len() as int,
            )
        &&& self.globalist ==> aggregate_in_reach(self.dist2@)
    }

    /// A hill climb that starts at the pose.
    pub fn new(problem: &Problem, pose: &Pose) -> (c: HillClimber)
        requires
            problem.wf(),
            pose.fits(problem.figure),
            has_claim(pose.bonuses@, BonusType::Globalist) ==> aggregate_in_reach(
                lengths_of(problem.figure),
            ),
        ensures
            c.wf(*problem),
            c.vertices@ == pose.vertices@,
            c.accepted == 0,
            c.bonuses@ == pose.bonuses@,
            c.globalist == has_claim(pose.bonuses@, BonusType::Globalist),
    {
        let vertices: Vec<Point> = copy_points(&pose.vertices);
        let bonuses: Vec<ClaimedBonus> = pose.bonuses.clone();
        let cost: i128 = dislikes_of(&problem.hole, &vertices, &bonuses);
        let dist2: Vec<i64> = edge_lengths(&problem.figure);
        assert(dist2@ =~= lengths_of(problem.figure));
        let adj: Vec<Vec<(usize, usize)>> = build_adjacency(
            problem.figure.vertices.len(),
            &problem.figure.edges,
        );
        HillClimber {
            vertices,
            dislikes: cost,
            accepted: 0,
            bonuses,
            globalist: pose.claims(BonusType::Globalist),
            dist2,
            adj,
        }
    }

    /// What the checks around vertex `a` need holds of the climber.
    pub proof fn lemma_local_inputs(&self, problem: Problem, a: int)
        requires
            problem.wf(),
            self.wf(problem),
            0 <= a < self.vertices.len(),
        ensures
            local_inputs_ok(
                problem.hole@,
                problem.figure.edges@,
                self.vertices@,
                self.dist2@,
                a,
                self.adj@[a]@,
                problem.epsilon as int,
            ),
    {
        lemma_lengths_in_range(problem.figure);
        lemma_incident_in_bounds(
            problem.figure.edges@,
            problem.figure.vertices.len() as int,
            a,
            problem.figure.edges@.len() as int,
        );
    }

    /// The penalty at vertex `a` as the hill climb sees it.
    pub fn penalty_at(&self, problem: &Problem, a: usize) -> (r: i128)
        requires
            problem.wf(),
            self.wf(*problem),
            a < self.vertices.len(),
        ensures
            r == local_penalty(*problem, self.vertices@, a as int, self.globalist),
    {
        proof {
            self.lemma_local_inputs(*problem, a as int);
        }
        if check_constraints_around_vertex(
            &problem.hole,
            &problem.figure.edges,
            &self.vertices,
            &self.dist2,
            a,
            &self.adj[a],
            problem.epsilon,
            self.globalist,
        ) {
            0
        } else {
            calculate_penalty(
                &problem.hole,
                &problem.figure.edges,
                &self.vertices,
                &self.dist2,
                a,
                &self.adj[a],
                problem.epsilon,
                self.globalist,
            )
        }
    }

    /// One cycle: moves vertex `a` by one step in direction `d`, and keeps
    /// the move where the placement is then no worse around the vertex and
    /// costs no more; takes it back otherwise. Tells whether the move was
    /// kept.
    pub fn step(&mut self, problem: &Problem, a: usize, d: usize) -> (kept: bool)
        requires
            problem.wf(),
            old(self).wf(*problem),
            a < old(self).vertices.len(),
            d < 4,
            old(self).vertices@[a as int].within(COORD_LIMIT - 1),
            old(self).accepted < i32::MAX,
        ensures
            final(self).wf(*problem),
            final(self).state() == climb_step(
                *problem,
                old(self).bonuses@,
                old(self).globalist,
                old(self).state(),
                a as int,
                d as int,
            ),
            kept == move_kept(
                *problem,
                old(self).bonuses@,
                old(self).globalist,
                old(self).vertices@,
                a as int,
                d as int,
            ),
            final(self).bonuses == old(self).bonuses,
            final(self).globalist == old(self).globalist,
            final(self).dist2 == old(self).dist2,
            final(self).adj == old(self).adj,
    {
        let before: i128 = self.penalty_at(problem, a);
        let origin: Point = self.vertices[a];
        let target: Point = origin.plus(direction(d));
        let ghost start = self.vertices@;
        self.vertices[a] = target;
        assert(all_in_range(self.vertices@));
        proof {
            lemma_lengths_in_range(problem.figure);
            lemma_incident_in_bounds(
                problem.figure.edges@,
                problem.figure.vertices.len() as int,
                a as int,
                problem.figure.edges@.len() as int,
            );
        }
        let ok: bool = check_constraints_around_vertex(
            &problem.hole,
            &problem.figure.edges,
            &self.vertices,
            &self.dist2,
            a,
            &self.adj[a],
            problem.epsilon,
            self.globalist,
        ) || calculate_penalty(
            &problem.hole,
            &problem.figure.edges,
            &self.vertices,
            &self.dist2,
            a,
            &self.adj[a],
            problem.epsilon,
            self.globalist,
        ) <= before;
        if ok {
            let cost: i128 = dislikes_of(&problem.hole, &self.vertices, &self.bonuses);
            if cost <= self.dislikes {
                self.dislikes = cost;
                self.accepted = self.accepted + 1;
                return true;
            }
        }
        self.vertices[a] = origin;
        assert(self.vertices@ =~= start);
        false
    }

    /// The pose that the climb has reached.
    pub fn pose(&self) -> (p: Pose)
        ensures
            p.vertices@ == self.vertices@,
            p.bonuses@ == self.bonuses@,
    {
        let bonuses: Vec<ClaimedBonus> = self.bonuses.clone();
        Pose { vertices: copy_points(&self.vertices), bonuses }
    }
}

/// Every vertex of the placement is at most `bound` from the origin in both
/// coordinates.
pub open spec fn all_within(vertices: Seq<Point>, bound: int) -> bool {
    forall|i: int| 0 <= i < vertices.len() ==> (#[trigger] vertices[i]).within(bound)
}

/// Tells whether every vertex is at most `bound` from the origin in both
/// coordinates.
pub fn points_within(vertices: &Vec<Point>, bound: i64) -> (r: bool)
    ensures
        r == all_within(vertices@, bound as int),
{
    let n: usize = vertices.len();
    let mut i: usize = 0;
    while i < n
        invariant
            0 <= i <= n,
            n == vertices.len(),
            forall|j: int| 0 <= j < i ==> (#[trigger] vertices@[j]).within(bound as int),
        decreases n - i,
    {
        let p: Point = vertices[i];
        if bound < 0 || p.x < -bound || p.x > bound || p.y < -bound || p.y > bound {
            return false;
        }
        i = i + 1;
    }
    true
}

/// Whatever the draws, a hill climb never raises the cost of the pose, keeps
/// no more moves than it makes, and moves no vertex by more than one step for
/// each move that it keeps.
pub proof fn lemma_climb_never_worse(
    problem: Problem,
    bonuses: Seq<ClaimedBonus>,
    globalist: bool,
    st: ClimbState,
    draws: Seq<(int, int)>,
    bound: int,
)
    requires
        draws_in_bounds(draws, st.vertices.len() as int),
        all_within(st.vertices, bound),
    ensures
        ({
            let end = climb_run(problem, bonuses, globalist, st, draws);
            &&& dislikes(problem.hole@, end.vertices, bonuses) <= dislikes(
                problem.hole@,
                st.vertices,
                bonuses,
            )
            &&& st.accepted <= end.accepted <= st.accepted + draws.len()
            &&& end.vertices.len() == st.vertices.len()
            &&& all_within(end.vertices, bound + (end.accepted - st.accepted))
        }),
    decreases draws.len(),
{
    if draws.len() > 0 {
        let front = draws.drop_last();
        lemma_climb_never_worse(problem, bonuses, globalist, st, front, bound);
        let mid = climb_run(problem, bonuses, globalist, st, front);
        let a = draws.last().0;
        let d = draws.last().1;
    }
}

/// The hill climb can run: the problem is well formed, the pose places every
/// vertex of its figure, no vertex can leave the coordinate range within
/// `cycles` steps, and the aggregate tolerance can be computed where the pose
/// claims to be a globalist.
pub open spec fn can_climb(problem: Problem, pose: Pose, cycles: int) -> bool {
    &&& problem.wf()
    &&& pose.fits(problem.figure)
    &&& all_within(pose.vertices@, COORD_LIMIT - cycles)
    &&& has_claim(pose.bonuses@, BonusType::Globalist) ==> aggregate_in_reach(
        lengths_of(problem.figure),
    )
}

/// Tells whether the hill climb can run on the problem and the pose for
/// `cycles` cycles.
pub fn is_climbable(problem: &Problem, pose: &Pose, cycles: i32) -> (r: bool)
    ensures
        r == can_climb(*problem, *pose, cycles as int),
{
    if !problem.is_well_formed() || !pose.is_fit_for(&problem.figure) {
        return false;
    }
    if !points_within(&pose.vertices, COORD_LIMIT - cycles as i64) {
        return false;
    }
    if pose.claims(BonusType::Globalist) {
        let dist2: Vec<i64> = edge_lengths(&problem.figure);
        assert(dist2@ =~= lengths_of(problem.figure));
        return aggregate_product(&dist2).is_some();
    }
    true
}

/// The placement `vertices` with `kept` moves kept is what a hill climb of
/// `cycles` cycles from the pose comes to, for some draws of a vertex and a
/// direction in every cycle.
pub open spec fn climbs_to(
    problem: Problem,
    pose: Pose,
    cycles: int,
    vertices: Seq<Point>,
    kept: int,
) -> bool {
    exists|draws: Seq<(int, int)>|
        {
            &&& draws.len() == (if cycles > 0 {
                cycles
            } else {
                0
            })
            &&& draws_in_bounds(draws, pose.vertices@.len() as int)
            &&& (ClimbState { vertices, accepted: kept }) == #[trigger] climb_run(
                problem,
                pose.bonuses@,
                has_claim(pose.bonuses@, BonusType::Globalist),
                ClimbState { vertices: pose.vertices@, accepted: 0 },
                draws,
            )
        }
}

/// A hill climb of `cycles` cycles from the pose, with the random choices
/// taken from `source`: each cycle picks a vertex and one of the four
/// directions along the axes, moves the vertex by one step, and keeps the
/// move where the placement is then no worse around the vertex and costs no
/// more. Returns the pose reached and the number of moves kept.
pub fn ugougo_with(problem: &Problem, pose: &Pose, cycles: i32, source: &mut RandomSource) -> (res:
    (Pose, i32))
    requires
        can_climb(*problem, *pose, cycles as int),
    ensures
        res.0.bonuses@ == pose.bonuses@,
        climbs_to(*problem, *pose, cycles as int, res.0.vertices@, res.1 as int),
        cycles <= 0 ==> res.0.vertices@ == pose.vertices@ && res.1 == 0,
        dislikes(problem.hole@, res.0.vertices@, pose.bonuses@) <= dislikes(
            problem.hole@,
            pose.vertices@,
            pose.bonuses@,
        ),
        res.0.fits(problem.figure),
        0 <= res.1,
        res.1 <= cycles || cycles < 0,
{
    let mut climber: HillClimber = HillClimber::new(problem, pose);
    let n: usize = climber.vertices.len();
    let ghost start = ClimbState { vertices: pose.vertices@, accepted: 0 };
    let ghost globalist = has_claim(pose.bonuses@, BonusType::Globalist);
    let ghost mut draws: Seq<(int, int)> = Seq::empty();
    let mut i: i32 = 0;
    while i < cycles
        invariant
            0 <= i,
            i <= cycles || cycles < 0,
            cycles <= 0 ==> i == 0,
            problem.wf(),
            climber.wf(*problem),
            n == pose.vertices@.len(),
            n == climber.vertices.len(),
            n > 0,
            climber.bonuses@ == pose.bonuses@,
            climber.globalist == globalist,
            start == (ClimbState { vertices: pose.vertices@, accepted: 0 }),
            draws.len() == i,
            draws_in_bounds(draws, n as int),
            climber.state() == climb_run(*problem, pose.bonuses@, globalist, start, draws),
            all_within(pose.vertices@, COORD_LIMIT - cycles),
        decreases cycles - i,
    {
        proof {
            lemma_climb_never_worse(
                *problem,
                pose.bonuses@,
                globalist,
                start,
                draws,
                COORD_LIMIT - cycles,
            );
        }
        let a: usize = source.below(n);
        let d: usize = source.below(4);
        let ghost before = draws;
        climber.step(problem, a, d);
        proof {
            draws = before.push((a as int, d as int));
            assert(draws.drop_last() == before);
        }
        i = i + 1;
    }
    proof {
        lemma_climb_never_worse(
            *problem,
            pose.bonuses@,
            globalist,
            start,
            draws,
            COORD_LIMIT - cycles,
        );
    }
    let reached: Pose = climber.pose();
    (reached, climber.accepted)
}

/// The seed of the generator that the hill climb falls back on where the
/// operating system has no entropy to give.
pub const FALLBACK_SEED: u64 = 0x5eed;

/// The local hill climb: `cycles` cycles from the pose, each of which picks a
/// vertex and one of the four directions along the axes at random, moves the
/// vertex by one step, and keeps the move where the placement is then no
/// worse around the vertex and costs no more. Returns the pose reached and
/// the number of moves kept. With no cycle to run, the pose comes back as it
/// was.
pub fn ugougo(problem: &Problem, pose: &Pose, cycles: i32) -> (res: (Pose, i32))
    requires
        can_climb(*problem, *pose, cycles as int),
    ensures
        res.0.bonuses@ == pose.bonuses@,
        climbs_to(*problem, *pose, cycles as int, res.0.vertices@, res.1 as int),
        cycles <= 0 ==> res.0.vertices@ == pose.vertices@ && res.1 == 0,
        dislikes(problem.hole@, res.0.vertices@, pose.bonuses@) <= dislikes(
            problem.hole@,
            pose.vertices@,
            pose.bonuses@,
        ),
        res.0.fits(problem.figure),
        0 <= res.1,
        res.1 <= cycles || cycles < 0,
{
    let mut source: RandomSource = match RandomSource::from_entropy() {
        Some(source) => source,
        None => RandomSource::from_seed(FALLBACK_SEED),
    };
    ugougo_with(problem, pose, cycles, &mut source)
}

} // verus!
