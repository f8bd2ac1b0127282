//! What the values of the proximity field mean: a grid point outside the
//! hole that the rounds have reached lies one step farther out than the
//! nearest of its neighbours.

use vstd::prelude::*;
use crate::field::{label, lemma_label_range, Frame, ProximityField, FAR, MAX_ROUNDS};
use crate::model::Problem;
use crate::point::Point;
use crate::polygon::{containment, Containment};

verus! {

/// `(nx, ny)` is one of the four neighbours of `(x, y)`.
pub open spec fn adjacent(x: int, y: int, nx: int, ny: int) -> bool {
    ||| (nx == x + 1 && ny == y)
    ||| (nx == x - 1 && ny == y)
    ||| (nx == x && ny == y + 1)
    ||| (nx == x && ny == y - 1)
}

/// A value that a grid point holds after a round, unless it is `FAR`, is the
/// value that it holds after every later round.
pub proof fn lemma_label_is_final(
    hole: Seq<Point>,
    frame: Frame,
    early: int,
    late: int,
    x: int,
    y: int,
)
    requires
        0 <= early <= late < FAR,
        label(hole, frame, early, x, y) != FAR,
    ensures
        label(hole, frame, late, x, y) == label(hole, frame, early, x, y),
    decreases late - early,
{
    if early < late {
        lemma_label_is_final(hole, frame, early, late - 1, x, y);
    }
}

/// A grid point that holds the number of a round was reached in that round:
/// it held `FAR` until then.
pub proof fn lemma_reached_in_its_round(
    hole: Seq<Point>,
    frame: Frame,
    rounds: int,
    x: int,
    y: int,
)
    requires
        0 <= rounds < FAR,
        0 < label(hole, frame, rounds, x, y) < FAR,
    ensures
        label(hole, frame, rounds, x, y) <= rounds,
        label(hole, frame, label(hole, frame, rounds, x, y), x, y) == label(
            hole,
            frame,
            rounds,
            x,
            y,
        ),
        label(hole, frame, label(hole, frame, rounds, x, y) - 1, x, y) == FAR,
    decreases rounds,
{
    if rounds > 0 {
        lemma_label_range(hole, frame, rounds - 1, x, y);
        if label(hole, frame, rounds, x, y) != rounds {
            lemma_reached_in_its_round(hole, frame, rounds - 1, x, y);
        }
    }
}

/// The value that a grid point holds after `rounds` rounds, where it is not
/// `FAR`, is the value that it held after as many rounds as the value says.
pub proof fn lemma_label_at_its_round(
    hole: Seq<Point>,
    frame: Frame,
    rounds: int,
    x: int,
    y: int,
)
    requires
        0 <= rounds < FAR,
        label(hole, frame, rounds, x, y) != FAR,
    ensures
        0 <= label(hole, frame, rounds, x, y) <= rounds,
        label(hole, frame, label(hole, frame, rounds, x, y), x, y) == label(
            hole,
            frame,
            rounds,
            x,
            y,
        ),
{
    lemma_label_range(hole, frame, rounds, x, y);
    if label(hole, frame, rounds, x, y) > 0 {
        lemma_reached_in_its_round(hole, frame, rounds, x, y);
    }
}

/// No neighbour in the box of a grid point holds a value that is less by
/// more than one: a point next to one that holds `s` is reached in round
/// `s + 1` at the latest.
pub proof fn lemma_neighbours_are_close(
    hole: Seq<Point>,
    frame: Frame,
    rounds: int,
    x: int,
    y: int,
    nx: int,
    ny: int,
)
    requires
        0 <= rounds < FAR,
        adjacent(x, y, nx, ny),
        frame.has(nx, ny),
        label(hole, frame, rounds, nx, ny) < rounds,
    ensures
        label(hole, frame, rounds, x, y) <= label(hole, frame, rounds, nx, ny) + 1,
{
    let s = label(hole, frame, rounds, nx, ny);
    lemma_label_at_its_round(hole, frame, rounds, nx, ny);
    // after round `s` the neighbour holds `s`; so round `s + 1` reaches the
    // point, unless an earlier round has
    if label(hole, frame, s, x, y) == FAR {
        lemma_label_is_final(hole, frame, s + 1, rounds, x, y);
    } else {
        lemma_label_range(hole, frame, s, x, y);
        lemma_label_is_final(hole, frame, s, rounds, x, y);
    }
}

/// A grid point that a round has reached has a neighbour in the box that
/// holds one less than it.
pub proof fn lemma_reached_from_a_neighbour(
    hole: Seq<Point>,
    frame: Frame,
    rounds: int,
    x: int,
    y: int,
)
    requires
        0 <= rounds < FAR,
        0 < label(hole, frame, rounds, x, y) < FAR,
    ensures
        exists|nx: int, ny: int|
            adjacent(x, y, nx, ny) && frame.has(nx, ny) && #[trigger] label(
                hole,
                frame,
                rounds,
                nx,
                ny,
            ) == label(hole, frame, rounds, x, y) - 1,
{
    let v = label(hole, frame, rounds, x, y);
    lemma_reached_in_its_round(hole, frame, rounds, x, y);
    let r = v - 1;
    // round `v` found a neighbour that held `v - 1`
    if frame.has(x + 1, y) && label(hole, frame, r, x + 1, y) == r {
        lemma_label_is_final(hole, frame, r, rounds, x + 1, y);
    } else if frame.has(x, y + 1) && label(hole, frame, r, x, y + 1) == r {
        lemma_label_is_final(hole, frame, r, rounds, x, y + 1);
    } else if frame.has(x - 1, y) && label(hole, frame, r, x - 1, y) == r {
        lemma_label_is_final(hole, frame, r, rounds, x - 1, y);
    } else {
        lemma_label_is_final(hole, frame, r, rounds, x, y - 1);
    }
}

/// The field counts steps. A grid point holds zero exactly where it is not
/// outside the hole. One that holds a value between zero and `FAR` has a
/// neighbour in the box that holds one less. And no grid point holds more
/// than one above a neighbour in the box that was reached before the last
/// round.
pub proof fn lemma_field_counts_steps(field: ProximityField, problem: Problem, x: int, y: int)
    requires
        field.is_field_of(problem),
        field.frame().has(x, y),
    ensures
        field.value(x, y) == 0 <==> containment(
            problem.hole@,
            Point { x: x as i64, y: y as i64 },
        ) != Containment::Outside,
        0 < field.value(x, y) < FAR ==> exists|nx: int, ny: int|
            adjacent(x, y, nx, ny) && field.frame().has(nx, ny) && #[trigger] field.value(nx, ny)
                == field.value(x, y) - 1,
        forall|nx: int, ny: int|
            adjacent(x, y, nx, ny) && field.frame().has(nx, ny) && #[trigger] field.value(nx, ny)
                < MAX_ROUNDS ==> field.value(x, y) <= field.value(nx, ny) + 1,
{
    let hole = problem.hole@;
    let frame = field.frame();
    let rounds = MAX_ROUNDS as int;
    lemma_label_range(hole, frame, rounds, x, y);
    if 0 < field.value(x, y) < FAR {
        lemma_reached_from_a_neighbour(hole, frame, rounds, x, y);
        let (nx, ny) = choose|nx: int, ny: int|
            adjacent(x, y, nx, ny) && frame.has(nx, ny) && #[trigger] label(
                hole,
                frame,
                rounds,
                nx,
                ny,
            ) == label(hole, frame, rounds, x, y) - 1;
        assert(field.value(nx, ny) == field.value(x, y) - 1);
    }
    assert forall|nx: int, ny: int|
        adjacent(x, y, nx, ny) && frame.has(nx, ny) && #[trigger] field.value(nx, ny)
            < MAX_ROUNDS implies field.value(x, y) <= field.value(nx, ny) + 1 by {
        lemma_neighbours_are_close(hole, frame, rounds, x, y, nx, ny);
    }
}

} // verus!
