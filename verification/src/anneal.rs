//! The global strategy: simulated annealing over the whole figure. A round
//! starts from the pose given, moves one vertex by one step at a time, keeps
//! a move that lowers the score with a chance that shrinks as the round goes
//! on, and ends when its budget of moves is spent or when no move has raised
//! the best score of the round for a while. The best feasible placement met
//! is recorded across the rounds.

use vstd::prelude::*;
use crate::field::ProximityField;
use crate::model::{copy_points, Problem};
use crate::point::{direction, step_vector, Point};
use crate::random::RandomSource;
use crate::score::{
    feasible, get_all_score, lemma_residual_zero_iff_feasible, residual, total_score,
    SCORE_CEILING, SCORE_FLOOR,
};
use crate::stretch::MILLION;

verus! {

/// The number of moves that a round goes on without raising its best score.
pub const PATIENCE: i64 = 30_000;

/// The chance drawn for a move lies below this number.
pub const CHANCE_RANGE: usize = 1000;

/// A fall of the score by a hundredth of a unit is kept for every unit of
/// chance drawn, at the start of a round.
pub const CHANCE_DIVISOR: i128 = 100;

/// What the annealing has reached.
pub struct SearchState {
    /// Where the vertices are placed now.
    pub now: Seq<Point>,
    /// The best score met in this round.
    pub round_best: int,
    /// The number of moves left before the round ends for want of a better
    /// score; the round is over once it is negative.
    pub patience: int,
    /// The number of moves made in this round.
    pub moves: int,
    /// The number of moves that a round may make.
    pub budget: int,
    /// The best feasible placement recorded, or the pose given where none
    /// is.
    pub best: Seq<Point>,
    /// The score of the best feasible placement recorded.
    pub best_score: Option<int>,
}

/// What decides one move: the vertex to move, the direction to move it in,
/// and the chance with which a fall of the score is kept.
pub struct Draw {
    pub target: int,
    pub heading: int,
    pub chance: int,
}

/// The round is over: its patience or its budget is spent.
pub open spec fn round_over(s: SearchState) -> bool {
    s.patience < 0 || s.moves >= s.budget
}

/// A move that takes the score from `before` to `after` is taken back: the
/// score falls by more than the chance drawn allows. The allowance is a
/// hundredth of the chance, times the square of the part of the budget that
/// is left; both sides are multiplied so that no division takes place.
pub open spec fn taken_back(before: int, after: int, chance: int, moves: int, budget: int)
    -> bool {
    (before - after) * CHANCE_DIVISOR * (budget * budget) > chance * ((budget - moves) * (budget
        - moves)) * MILLION
}

/// The score is higher than the best recorded, if one is recorded.
pub open spec fn beats(score: int, best: Option<int>) -> bool {
    match best {
        None => true,
        Some(b) => score > b,
    }
}

/// One move of the annealing. Nothing happens once the round is over.
/// Otherwise the move is counted and costs patience; the vertex is moved by
/// one step; where it leaves the field, or where the score falls by more
/// than the chance allows, it is put back. A move that is kept and raises the
/// best score of the round restores the patience; one that is kept, leaves
/// the placement feasible and beats the best score recorded is recorded.
pub open spec fn try_move(problem: Problem, field: ProximityField, s: SearchState, d: Draw)
    -> SearchState {
    if round_over(s) {
        s
    } else {
        let spent = SearchState { patience: s.patience - 1, moves: s.moves + 1, ..s };
        let to = s.now[d.target].moved_by(step_vector(d.heading));
        let next = s.now.update(d.target, to);
        let before = total_score(problem, field, s.now, problem.epsilon as int);
        let after = total_score(problem, field, next, problem.epsilon as int);
        if !field.covers(to) || taken_back(before, after, d.chance, s.moves, s.budget) {
            spent
        } else {
            let kept = SearchState { now: next, ..spent };
            let raised = if after > s.round_best {
                SearchState { round_best: after, patience: PATIENCE as int, ..kept }
            } else {
                kept
            };
            if beats(after, s.best_score) && residual(
                problem,
                field,
                next,
                problem.epsilon as int,
            ) == 0 {
                SearchState { best: next, best_score: Some(after), ..raised }
            } else {
                raised
            }
        }
    }
}

/// The move records a new best placement.
pub open spec fn records(problem: Problem, field: ProximityField, s: SearchState, d: Draw)
    -> bool {
    try_move(problem, field, s, d).best_score != s.best_score
}

/// The moves that the draws decide, one after the other.
pub open spec fn run_moves(
    problem: Problem,
    field: ProximityField,
    s: SearchState,
    draws: Seq<Draw>,
) -> SearchState
    decreases draws.len(),
{
    if draws.len() == 0 {
        s
    } else {
        try_move(problem, field, run_moves(problem, field, s, draws.drop_last()), draws.last())
    }
}

/// Every draw names a vertex of a figure with `n` vertices, one of the eight
/// directions, and a chance in range.
pub open spec fn anneal_draws_in_bounds(draws: Seq<Draw>, n: int) -> bool {
    forall|i: int|
        0 <= i < draws.len() ==> {
            &&& 0 <= (#[trigger] draws[i]).target < n
            &&& 0 <= draws[i].heading < 8
            &&& 0 <= draws[i].chance < CHANCE_RANGE
        }
}

/// The score `b` is at least as good a record as `a`: nothing recorded is
/// the least record, and a higher score the better one.
pub open spec fn record_at_least(a: Option<int>, b: Option<int>) -> bool {
    match a {
        None => true,
        Some(x) => b is Some && x <= b->0,
    }
}

/// A move never lowers the best score recorded.
pub proof fn lemma_move_keeps_record(
    problem: Problem,
    field: ProximityField,
    s: SearchState,
    d: Draw,
)
    ensures
        record_at_least(s.best_score, try_move(problem, field, s, d).best_score),
{
}

/// The best score recorded never falls: however the moves are drawn, the
/// record after a number of them is at least as good as the record after
/// fewer of them.
pub proof fn lemma_record_never_falls(
    problem: Problem,
    field: ProximityField,
    s: SearchState,
    draws: Seq<Draw>,
    fewer: int,
    more: int,
)
    requires
        0 <= fewer <= more <= draws.len(),
    ensures
        record_at_least(
            run_moves(problem, field, s, draws.take(fewer)).best_score,
            run_moves(problem, field, s, draws.take(more)).best_score,
        ),
    decreases more - fewer,
{
    if fewer < more {
        lemma_record_never_falls(problem, field, s, draws, fewer, more - 1);
        let front = draws.take(more - 1);
        assert(draws.take(more).drop_last() == front);
    }
}

/// The state in which a round begins: the vertices are at the starting pose,
/// the round's best score is the score of that pose, and its patience and its
/// count of moves are fresh. What is recorded stays.
pub open spec fn begin_round(
    problem: Problem,
    field: ProximityField,
    s: SearchState,
    start: Seq<Point>,
) -> SearchState {
    SearchState {
        now: start,
        round_best: total_score(problem, field, start, problem.epsilon as int),
        patience: PATIENCE as int,
        moves: 0,
        ..s
    }
}

/// The state in which an annealing of rounds of `budget` moves begins.
pub open spec fn begin_search(
    problem: Problem,
    field: ProximityField,
    start: Seq<Point>,
    budget: int,
) -> SearchState {
    SearchState {
        now: start,
        round_best: total_score(problem, field, start, problem.epsilon as int),
        patience: PATIENCE as int,
        moves: 0,
        budget,
        best: start,
        best_score: None,
    }
}

/// The search is done: a feasible placement is recorded whose score is not
/// negative.
pub open spec fn search_done(s: SearchState) -> bool {
    s.best_score is Some && s.best_score->0 >= 0
}

/// The rounds that the draws decide, one after the other: every round begins
/// at the starting pose and makes the moves drawn for it.
pub open spec fn run_rounds(
    problem: Problem,
    field: ProximityField,
    s: SearchState,
    start: Seq<Point>,
    trace: Seq<Seq<Draw>>,
) -> SearchState
    decreases trace.len(),
{
    if trace.len() == 0 {
        s
    } else {
        run_moves(
            problem,
            field,
            begin_round(
                problem,
                field,
                run_rounds(problem, field, s, start, trace.drop_last()),
                start,
            ),
            trace.last(),
        )
    }
}

/// The draws of every round are in bounds.
pub open spec fn trace_in_bounds(trace: Seq<Seq<Draw>>, n: int) -> bool {
    forall|r: int| 0 <= r < trace.len() ==> anneal_draws_in_bounds(#[trigger] trace[r], n)
}

/// The placement `best` with the score `best_score` is what an annealing of at
/// most `rounds` rounds of `budget` moves comes to, for some draws: it is what
/// is recorded after a number of whole rounds, and the rounds stopped short of
/// `rounds` only because the search was done.
pub open spec fn anneals_to(
    problem: Problem,
    field: ProximityField,
    start: Seq<Point>,
    budget: int,
    rounds: int,
    best: Seq<Point>,
    best_score: Option<int>,
) -> bool {
    exists|trace: Seq<Seq<Draw>>|
        {
            let end = #[trigger] run_rounds(
                problem,
                field,
                begin_search(problem, field, start, budget),
                start,
                trace,
            );
            &&& trace.len() <= rounds
            &&& trace_in_bounds(trace, start.len() as int)
            &&& end.best == best
            &&& end.best_score == best_score
            &&& trace.len() > 0 ==> round_over(end)
            &&& trace.len() < rounds ==> search_done(end)
        }
}

/// Moves can be made in two runs, the second from where the first ended.
pub proof fn lemma_run_moves_joined(
    problem: Problem,
    field: ProximityField,
    s: SearchState,
    first: Seq<Draw>,
    second: Seq<Draw>,
)
    ensures
        run_moves(problem, field, s, first + second) == run_moves(
            problem,
            field,
            run_moves(problem, field, s, first),
            second,
        ),
    decreases second.len(),
{
    if second.len() > 0 {
        lemma_run_moves_joined(problem, field, s, first, second.drop_last());
        assert((first + second).drop_last() =~= first + second.drop_last());
    }
}

/// The best score recorded never falls from round to round: the record after
/// a number of rounds is at least as good as the record after fewer of them.
pub proof fn lemma_record_never_falls_over_rounds(
    problem: Problem,
    field: ProximityField,
    s: SearchState,
    start: Seq<Point>,
    trace: Seq<Seq<Draw>>,
    fewer: int,
    more: int,
)
    requires
        0 <= fewer <= more <= trace.len(),
    ensures
        record_at_least(
            run_rounds(problem, field, s, start, trace.take(fewer)).best_score,
            run_rounds(problem, field, s, start, trace.take(more)).best_score,
        ),
    decreases more - fewer,
{
    if fewer < more {
        lemma_record_never_falls_over_rounds(problem, field, s, start, trace, fewer, more - 1);
        let front = trace.take(more - 1);
        assert(trace.take(more).drop_last() == front);
        let draws = trace.take(more).last();
        let begun = begin_round(problem, field, run_rounds(problem, field, s, start, front), start);
        lemma_record_never_falls(problem, field, begun, draws, 0, draws.len() as int);
        assert(draws.take(draws.len() as int) == draws);
    }
}

/// A score that may be missing, as a number without bounds.
pub open spec fn score_view(score: Option<i128>) -> Option<int> {
    match score {
        None => None,
        Some(b) => Some(b as int),
    }
}

/// An annealing under way.
pub struct Annealer {
    /// The pose from which every round starts.
    pub start: Vec<Point>,
    /// Where the vertices are placed now.
    pub now: Vec<Point>,
    /// The best score met in this round.
    pub round_best: i128,
    /// The number of moves left before the round ends for want of a better
    /// score.
    pub patience: i64,
    /// The number of moves made in this round.
    pub moves: u32,
    /// The number of moves that a round may make.
    pub budget: u32,
    /// The best feasible placement recorded, or the starting pose where none
    /// is.
    pub best: Vec<Point>,
    /// The score of the best feasible placement recorded.
    pub best_score: Option<i128>,
}

/// What came of running a round.
#[derive(Clone, Copy, Debug, PartialEq, Eq, Structural)]
pub enum Progress {
    /// A new best placement was recorded; the round may go on.
    Recorded,
    /// The round is over.
    RoundOver,
}

/// Tells whether a move that takes the score from `before` to `after` is
/// taken back.
pub fn is_taken_back(before: i128, after: i128, chance: usize, moves: u32, budget: u32) -> (r: bool)
    requires
        SCORE_FLOOR <= before <= SCORE_CEILING,
        SCORE_FLOOR <= after <= SCORE_CEILING,
        chance < CHANCE_RANGE,
        moves < budget,
    ensures
        r == taken_back(before as int, after as int, chance as int, moves as int, budget as int),
{
    let fall: i128 = before - after;
    proof {
        let b = budget as int;
        let l = budget - moves;
        assert(1 <= b * b <= 0xffff_ffff * 0xffff_ffff) by (nonlinear_arith)
            requires
                1 <= b <= 0xffff_ffff,
        ;
        assert(1 <= l * l <= b * b) by (nonlinear_arith)
            requires
                1 <= l <= b,
        ;
    }
    let whole: i128 = budget as i128 * budget as i128;
    let left: i128 = (budget - moves) as i128 * (budget - moves) as i128;
    proof {
        let b = budget as int;
        let l = budget - moves;
        assert(0 <= chance * (l * l) <= 999 * (b * b)) by (nonlinear_arith)
            requires
                0 <= chance <= 999,
                0 <= l * l <= b * b,
        ;
        if fall <= 0 {
            assert(fall * CHANCE_DIVISOR * (b * b) <= 0) by (nonlinear_arith)
                requires
                    fall <= 0,
                    b * b >= 1,
            ;
        } else {
            if fall >= 10_000_000 {
                assert(fall * 100 * (b * b) >= 1_000_000_000 * (b * b)) by (nonlinear_arith)
                    requires
                        fall >= 10_000_000,
                        b * b >= 1,
                ;
            } else {
                assert(0 <= fall * 100 * (b * b) <= 1_000_000_000 * (0xffff_ffff * 0xffff_ffff))
                    by (nonlinear_arith)
                    requires
                        0 < fall < 10_000_000,
                        1 <= b * b <= 0xffff_ffff * 0xffff_ffff,
                ;
            }
        }
    }
    if fall <= 0 {
        false
    } else if fall >= 10 * MILLION {
        true
    } else {
        fall * CHANCE_DIVISOR * whole > (chance as i128) * left * MILLION
    }
}

impl View for Annealer {
    type V = SearchState;

    open spec fn view(&self) -> SearchState {
        SearchState {
            now: self.now@,
            round_best: self.round_best as int,
            patience: self.patience as int,
            moves: self.moves as int,
            budget: self.budget as int,
            best: self.best@,
            best_score: score_view(self.best_score),
        }
    }
}

impl Annealer {
    /// The annealing belongs to the problem and its field: its placements
    /// place every vertex on the field, its counters are in range, and the
    /// placement recorded, if one is, is feasible and has the score recorded.
    pub open spec fn wf(&self, problem: Problem, field: ProximityField) -> bool {
        &&& problem.wf()
        &&& field.is_field_of(problem)
        &&& self.start.len() == problem.figure.vertices.len()
        &&& self.now.len() == problem.figure.vertices.len()
        &&& self.best.len() == problem.figure.vertices.len()
        &&& field.covers_all(self.start@)
        &&& field.covers_all(self.now@)
        &&& field.covers_all(self.best@)
        &&& -1 <= self.patience <= PATIENCE
        &&& self.moves <= self.budget
        &&& SCORE_FLOOR <= self.round_best <= SCORE_CEILING
        &&& match self.best_score {
            None => self.best@ == self.start@,
            Some(b) => {
                &&& b == total_score(problem, field, self.best@, problem.epsilon as int)
                &&& feasible(problem, self.best@, problem.epsilon as int)
            },
        }
    }

    /// An annealing that starts every round from `start` and gives every
    /// round `budget` moves. Its first round is ready to run.
    pub fn new(problem: &Problem, field: &ProximityField, start: &Vec<Point>, budget: u32) -> (a:
        Annealer)
        requires
            problem.wf(),
            field.is_field_of(*problem),
            start.len() == problem.figure.vertices.len(),
            field.covers_all(start@),
        ensures
            a.wf(*problem, *field),
            a.start@ == start@,
            a@ == begin_search(*problem, *field, start@, budget as int),
    {
        let score: (i128, i128) = get_all_score(problem, start, problem.epsilon, field);
        Annealer {
            start: copy_points(start),
            now: copy_points(start),
            round_best: score.0,
            patience: PATIENCE,
            moves: 0,
            budget,
            best: copy_points(start),
            best_score: None,
        }
    }

    /// Begins a new round: the vertices go back to the starting pose, and the
    /// round's best score, its patience and its count of moves start afresh.
    /// What is recorded stays.
    pub fn start_round(&mut self, problem: &Problem, field: &ProximityField)
        requires
            old(self).wf(*problem, *field),
        ensures
            final(self).wf(*problem, *field),
            final(self).start@ == old(self).start@,
            final(self)@ == begin_round(*problem, *field, old(self)@, old(self).start@),
    {
        let score: (i128, i128) = get_all_score(problem, &self.start, problem.epsilon, field);
        self.now = copy_points(&self.start);
        self.round_best = score.0;
        self.patience = PATIENCE;
        self.moves = 0;
    }

    /// Tells whether the round is over.
    pub fn is_round_over(&self) -> (r: bool)
        ensures
            r == round_over(self@),
    {
        self.patience < 0 || self.moves >= self.budget
    }

    /// Tells whether the search is done: a feasible placement is recorded
    /// whose score is not negative.
    pub fn finished(&self) -> (r: bool)
        ensures
            r == search_done(self@),
    {
        match self.best_score {
            None => false,
            Some(b) => b >= 0,
        }
    }

    /// One move: moves the vertex `target` by one step in the direction
    /// `heading`, and keeps the move or takes it back as the score and the
    /// chance drawn decide. Tells whether a new best placement was recorded.
    pub fn step(
        &mut self,
        problem: &Problem,
        field: &ProximityField,
        target: usize,
        heading: usize,
        chance: usize,
    ) -> (recorded: bool)
        requires
            old(self).wf(*problem, *field),
            target < old(self).now.len(),
            heading < 8,
            chance < CHANCE_RANGE,
        ensures
            final(self).wf(*problem, *field),
            final(self).start@ == old(self).start@,
            final(self)@ == try_move(
                *problem,
                *field,
                old(self)@,
                Draw { target: target as int, heading: heading as int, chance: chance as int },
            ),
            recorded == records(
                *problem,
                *field,
                old(self)@,
                Draw { target: target as int, heading: heading as int, chance: chance as int },
            ),
    {
        if self.patience < 0 || self.moves >= self.budget {
            return false;
        }
        let ghost s = self@;
        let made: u32 = self.moves;
        self.patience = self.patience - 1;
        self.moves = self.moves + 1;
        let before: (i128, i128) = get_all_score(problem, &self.now, problem.epsilon, field);
        let from: Point = self.now[target];
        let to: Point = from.plus(direction(heading));
        if !field.contains(to) {
            return false;
        }
        self.now[target] = to;
        assert(field.covers_all(self.now@));
        let after: (i128, i128) = get_all_score(problem, &self.now, problem.epsilon, field);
        if is_taken_back(before.0, after.0, chance, made, self.budget) {
            self.now[target] = from;
            assert(self.now@ =~= s.now);
            return false;
        }
        if after.0 > self.round_best {
            self.round_best = after.0;
            self.patience = PATIENCE;
        }
        let beating: bool = match self.best_score {
            None => true,
            Some(b) => after.0 > b,
        };
        if beating && after.1 == 0 {
            proof {
                lemma_residual_zero_iff_feasible(
                    *problem,
                    *field,
                    self.now@,
                    problem.epsilon as int,
                );
            }
            self.best = copy_points(&self.now);
            self.best_score = Some(after.0);
            return true;
        }
        false
    }
}

impl Annealer {
    /// Runs the round on, with the random choices taken from `source`, until
    /// a move records a new best placement or the round is over. Each move
    /// picks a vertex, one of the eight directions, and the chance with which
    /// a fall of the score is kept.
    pub fn run(&mut self, problem: &Problem, field: &ProximityField, source: &mut RandomSource)
        -> (event: Progress)
        requires
            old(self).wf(*problem, *field),
        ensures
            final(self).wf(*problem, *field),
            final(self).start@ == old(self).start@,
            exists|draws: Seq<Draw>|
                {
                    &&& anneal_draws_in_bounds(draws, old(self).now@.len() as int)
                    &&& final(self)@ == #[trigger] run_moves(*problem, *field, old(self)@, draws)
                },
            record_at_least(old(self)@.best_score, final(self)@.best_score),
            event == Progress::RoundOver ==> round_over(final(self)@) && final(self)@.best_score
                == old(self)@.best_score,
            event == Progress::Recorded ==> final(self)@.best_score is Some
                && final(self)@.best_score != old(self)@.best_score
                && final(self).moves > old(self).moves,
            final(self).budget == old(self).budget,
    {
        let n: usize = self.now.len();
        let ghost first = self@;
        let ghost mut draws: Seq<Draw> = Seq::empty();
        while !self.is_round_over()
            invariant
                self.wf(*problem, *field),
                self.start@ == old(self).start@,
                n == self.now.len(),
                n == first.now.len(),
                first == old(self)@,
                self.moves >= old(self).moves,
                self.budget == old(self).budget,
                anneal_draws_in_bounds(draws, n as int),
                self@ == run_moves(*problem, *field, first, draws),
                self@.best_score == first.best_score,
            decreases self.budget - self.moves,
        {
            let target: usize = source.below(n);
            let heading: usize = source.below(8);
            let chance: usize = source.below(CHANCE_RANGE);
            let ghost before = draws;
            let ghost d = Draw {
                target: target as int,
                heading: heading as int,
                chance: chance as int,
            };
            let recorded: bool = self.step(problem, field, target, heading, chance);
            proof {
                draws = before.push(d);
                assert(draws.drop_last() == before);
            }
            if recorded {
                return Progress::Recorded;
            }
        }
        Progress::RoundOver
    }
}

/// Anneals for at most `rounds` rounds of `budget` moves each, from the pose
/// `start`, with the random choices taken from `source`; stops early once a
/// feasible placement is recorded whose score is not negative. Returns the
/// best feasible placement recorded with its score, or the pose as it was
/// given where none was met.
pub fn anneal(
    problem: &Problem,
    field: &ProximityField,
    start: &Vec<Point>,
    budget: u32,
    rounds: u32,
    source: &mut RandomSource,
) -> (r: (Vec<Point>, Option<i128>))
    requires
        problem.wf(),
        field.is_field_of(*problem),
        start.len() == problem.figure.vertices.len(),
        field.covers_all(start@),
    ensures
        anneals_to(
            *problem,
            *field,
            start@,
            budget as int,
            rounds as int,
            r.0@,
            score_view(r.1),
        ),
        r.0@.len() == start@.len(),
        r.1 is None ==> r.0@ == start@,
        r.1 is Some ==> feasible(*problem, r.0@, problem.epsilon as int) && r.1->0 == total_score(
            *problem,
            *field,
            r.0@,
            problem.epsilon as int,
        ),
        rounds == 0 ==> r.1 is None,
{
    let mut annealer: Annealer = Annealer::new(problem, field, start, budget);
    let ghost first = annealer@;
    let ghost mut trace: Seq<Seq<Draw>> = Seq::empty();
    let mut round: u32 = 0;
    while round < rounds && !annealer.finished()
        invariant
            round <= rounds,
            annealer.wf(*problem, *field),
            annealer.start@ == start@,
            round == 0 ==> annealer.best_score is None,
            first == begin_search(*problem, *field, start@, budget as int),
            trace.len() == round,
            trace_in_bounds(trace, start@.len() as int),
            annealer@ == run_rounds(*problem, *field, first, start@, trace),
            round > 0 ==> round_over(annealer@),
        decreases rounds - round,
    {
        let ghost ended = annealer@;
        annealer.start_round(problem, field);
        let ghost begun = annealer@;
        let ghost mut draws: Seq<Draw> = Seq::empty();
        let mut going: bool = true;
        while going
            invariant
                annealer.wf(*problem, *field),
                annealer.start@ == start@,
                begun == begin_round(*problem, *field, ended, start@),
                anneal_draws_in_bounds(draws, start@.len() as int),
                annealer@ == run_moves(*problem, *field, begun, draws),
                !going ==> round_over(annealer@),
            decreases (if going { 1int } else { 0int }), annealer.budget - annealer.moves,
        {
            let ghost before = annealer@;
            let event: Progress = annealer.run(problem, field, source);
            proof {
                let more = choose|more: Seq<Draw>|
                    {
                        &&& anneal_draws_in_bounds(more, start@.len() as int)
                        &&& annealer@ == #[trigger] run_moves(*problem, *field, before, more)
                    };
                lemma_run_moves_joined(*problem, *field, begun, draws, more);
                draws = draws + more;
            }
            going = event == Progress::Recorded;
        }
        proof {
            let longer = trace.push(draws);
            assert(longer.drop_last() == trace);
            trace = longer;
        }
        round = round + 1;
    }
    (annealer.best, annealer.best_score)
}

} // verus!
