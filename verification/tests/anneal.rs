use pose_search::anneal::{anneal, is_taken_back, Annealer, Progress, PATIENCE};
use pose_search::field::ProximityField;
use pose_search::model::{Figure, Problem};
use pose_search::point::Point;
use pose_search::random::RandomSource;
use pose_search::score::get_all_score;

fn p(x: i64, y: i64) -> Point {
    Point::new(x, y)
}

fn one_edge_problem() -> Problem {
    Problem {
        hole: vec![p(0, 0), p(4, 0), p(0, 4)],
        figure: Figure { edges: vec![(0, 1)], vertices: vec![p(0, 0), p(4, 0)] },
        epsilon: 0,
        bonuses: Vec::new(),
    }
}

fn free_vertex_problem() -> Problem {
    Problem {
        hole: vec![p(0, 0), p(4, 0), p(0, 4)],
        figure: Figure { edges: Vec::new(), vertices: vec![p(0, 0)] },
        epsilon: 0,
        bonuses: Vec::new(),
    }
}

#[test]
fn fall_is_kept_up_to_the_allowance() {
    // at the start of a round a chance of 500 allows a fall of 5 units
    assert!(!is_taken_back(5_000_000, 0, 500, 0, 10));
    assert!(is_taken_back(5_000_001, 0, 500, 0, 10));
    // with half the budget spent, a quarter of that
    assert!(!is_taken_back(1_250_000, 0, 500, 5, 10));
    assert!(is_taken_back(1_250_001, 0, 500, 5, 10));
    // no chance, no fall
    assert!(is_taken_back(1, 0, 0, 0, 10));
    assert!(!is_taken_back(0, 0, 0, 0, 10));
    assert!(!is_taken_back(0, 7, 0, 9, 10));
    // the largest chance never allows ten units
    assert!(is_taken_back(10_000_000, 0, 999, 0, 3_000_000));
    assert!(!is_taken_back(9_990_000, 0, 999, 0, 3_000_000));
    assert!(is_taken_back(9_990_000, 0, 999, 1, 3_000_000));
    assert!(is_taken_back(0, -1_000_000_000_000_000_000_000_000_000_000, 999, 0, 4_000_000_000));
}

#[test]
fn annealer_walks_to_the_feasible_pose_and_records_it() {
    let problem = one_edge_problem();
    let field = ProximityField::build(&problem);
    let start = vec![p(0, 0), p(0, 0)];
    let mut annealer = Annealer::new(&problem, &field, &start, 1000);
    assert_eq!(annealer.round_best, -200_000_000 + 1_000_000 * (100_000 - 32));
    assert_eq!(annealer.best_score, None);
    assert_eq!(annealer.best, start);
    assert!(!annealer.finished());
    let scores = [
        -150_000_000 + 1_000_000 * (100_000 - 25),
        -100_000_000 + 1_000_000 * (100_000 - 20),
        -25_000_000 + 1_000_000 * (100_000 - 17),
    ];
    for (i, score) in scores.iter().enumerate() {
        annealer.patience = 17;
        assert!(!annealer.step(&problem, &field, 1, 0, 0));
        assert_eq!(annealer.now, vec![p(0, 0), p(i as i64 + 1, 0)]);
        assert_eq!(annealer.round_best, *score);
        assert_eq!(annealer.patience, PATIENCE);
        assert_eq!(annealer.moves, i as u32 + 1);
        assert_eq!(annealer.best_score, None);
    }
    assert!(annealer.step(&problem, &field, 1, 0, 0));
    assert_eq!(annealer.now, vec![p(0, 0), p(4, 0)]);
    assert_eq!(annealer.best, vec![p(0, 0), p(4, 0)]);
    assert_eq!(annealer.best_score, Some(1_000_000 * (100_000 - 16)));
    assert!(annealer.finished());
}

#[test]
fn move_off_the_field_is_taken_back_and_counted() {
    let problem = one_edge_problem();
    let field = ProximityField::build(&problem);
    let start = vec![p(0, 0), p(4, 0)];
    let mut annealer = Annealer::new(&problem, &field, &start, 1000);
    assert!(!annealer.step(&problem, &field, 1, 0, 999));
    assert_eq!(annealer.now, start);
    assert_eq!(annealer.moves, 1);
    assert_eq!(annealer.patience, PATIENCE - 1);
    assert!(!annealer.step(&problem, &field, 0, 6, 999));
    assert_eq!(annealer.now, start);
    assert_eq!(annealer.moves, 2);
    assert_eq!(annealer.patience, PATIENCE - 2);
    assert_eq!(annealer.best_score, None);
}

#[test]
fn fall_of_the_score_is_kept_by_chance_only() {
    let problem = free_vertex_problem();
    let field = ProximityField::build(&problem);
    let mut annealer = Annealer::new(&problem, &field, &vec![p(0, 0)], 10);
    // (0,0): 32; (1,0): 27; (1,1): 22; (2,1): 23
    assert!(annealer.step(&problem, &field, 0, 0, 0));
    assert_eq!(annealer.best_score, Some(1_000_000 * (100_000 - 27)));
    assert!(annealer.step(&problem, &field, 0, 1, 0));
    assert_eq!(annealer.best_score, Some(1_000_000 * (100_000 - 22)));
    assert_eq!(annealer.best, vec![p(1, 1)]);
    // two of ten moves are made: a chance of 156 allows 0.9984 units
    assert!(!annealer.step(&problem, &field, 0, 0, 156));
    assert_eq!(annealer.now, vec![p(1, 1)]);
    assert_eq!(annealer.moves, 3);
    // three of ten are made: a chance of 205 allows 1.0045 units
    assert!(!annealer.step(&problem, &field, 0, 0, 205));
    assert_eq!(annealer.now, vec![p(2, 1)]);
    assert_eq!(annealer.moves, 4);
    assert_eq!(annealer.patience, PATIENCE - 2);
    // nothing but the placement changed: the record stays
    assert_eq!(annealer.best, vec![p(1, 1)]);
    assert_eq!(annealer.best_score, Some(1_000_000 * (100_000 - 22)));
    assert_eq!(annealer.round_best, 1_000_000 * (100_000 - 22));
}

#[test]
fn round_ends_with_its_budget() {
    let problem = free_vertex_problem();
    let field = ProximityField::build(&problem);
    let mut annealer = Annealer::new(&problem, &field, &vec![p(0, 0)], 2);
    assert!(!annealer.is_round_over());
    annealer.step(&problem, &field, 0, 0, 0);
    annealer.step(&problem, &field, 0, 1, 0);
    assert!(annealer.is_round_over());
    assert_eq!(annealer.now, vec![p(1, 1)]);
    // nothing moves once the round is over
    assert!(!annealer.step(&problem, &field, 0, 3, 999));
    assert_eq!(annealer.now, vec![p(1, 1)]);
    assert_eq!(annealer.moves, 2);
    assert_eq!(annealer.patience, PATIENCE);
    let record = annealer.best_score;
    annealer.start_round(&problem, &field);
    assert!(!annealer.is_round_over());
    assert_eq!(annealer.now, vec![p(0, 0)]);
    assert_eq!(annealer.moves, 0);
    assert_eq!(annealer.patience, PATIENCE);
    assert_eq!(annealer.round_best, 1_000_000 * (100_000 - 32));
    assert_eq!(annealer.best_score, record);
    assert_eq!(record, Some(1_000_000 * (100_000 - 22)));
    assert_eq!(annealer.best, vec![p(1, 1)]);
}

#[test]
fn round_ends_when_patience_is_spent() {
    let problem = free_vertex_problem();
    let field = ProximityField::build(&problem);
    let mut annealer = Annealer::new(&problem, &field, &vec![p(0, 0)], 1_000_000);
    annealer.patience = 1;
    // moves off the field cost patience and raise nothing
    assert!(!annealer.step(&problem, &field, 0, 2, 0));
    assert!(!annealer.is_round_over());
    assert!(!annealer.step(&problem, &field, 0, 2, 0));
    assert!(annealer.is_round_over());
    assert_eq!(annealer.moves, 2);
    assert_eq!(annealer.patience, -1);
}

#[test]
fn record_never_falls_as_moves_go_on() {
    let problem = one_edge_problem();
    let field = ProximityField::build(&problem);
    let start = vec![p(0, 0), p(0, 0)];
    for seed in 0..10u64 {
        let mut draws = RandomSource::from_seed(seed);
        let mut annealer = Annealer::new(&problem, &field, &start, 5000);
        let mut last: Option<i128> = None;
        for _ in 0..5000 {
            let target = draws.below(2);
            let heading = draws.below(8);
            let chance = draws.below(1000);
            let recorded = annealer.step(&problem, &field, target, heading, chance);
            match (last, annealer.best_score) {
                (None, _) => {}
                (Some(_), None) => panic!("a record was lost"),
                (Some(before), Some(after)) => assert!(before <= after),
            }
            assert_eq!(recorded, last != annealer.best_score);
            last = annealer.best_score;
            if let Some(score) = annealer.best_score {
                let (again, rest) = get_all_score(&problem, &annealer.best, 0, &field);
                assert_eq!(rest, 0);
                assert_eq!(again, score);
            }
        }
    }
}

#[test]
fn shorter_run_is_a_prefix_of_the_longer_one() {
    let problem = one_edge_problem();
    let field = ProximityField::build(&problem);
    let start = vec![p(0, 0), p(0, 0)];
    let mut records: Vec<Option<i128>> = Vec::new();
    for moves in [50u32, 500] {
        let mut draws = RandomSource::from_seed(5);
        let mut annealer = Annealer::new(&problem, &field, &start, 1000);
        for _ in 0..moves {
            let target = draws.below(2);
            let heading = draws.below(8);
            let chance = draws.below(1000);
            annealer.step(&problem, &field, target, heading, chance);
        }
        records.push(annealer.best_score);
    }
    match (records[0], records[1]) {
        (None, _) => {}
        (Some(_), None) => panic!("the longer run lost the record"),
        (Some(fewer), Some(more)) => assert!(fewer <= more),
    }
}

#[test]
fn running_a_round_reports_records_until_it_is_over() {
    let problem = one_edge_problem();
    let field = ProximityField::build(&problem);
    let start = vec![p(0, 0), p(0, 0)];
    let mut source = RandomSource::from_seed(2);
    let mut annealer = Annealer::new(&problem, &field, &start, 3000);
    let mut last: Option<i128> = None;
    let mut events = 0;
    loop {
        match annealer.run(&problem, &field, &mut source) {
            Progress::Recorded => {
                let score = annealer.best_score.unwrap();
                if let Some(before) = last {
                    assert!(before < score);
                }
                last = Some(score);
                events += 1;
                assert!(events <= 3000);
            }
            Progress::RoundOver => break,
        }
    }
    assert!(annealer.is_round_over());
    assert_eq!(annealer.best_score, last);
    assert_eq!(annealer.start, start);
}

#[test]
fn bounded_search_returns_a_feasible_placement_or_the_start() {
    let problem = one_edge_problem();
    let field = ProximityField::build(&problem);
    let start = vec![p(0, 0), p(0, 0)];
    let mut found = 0;
    for seed in 0..10u64 {
        let mut source = RandomSource::from_seed(seed);
        let (best, score) = anneal(&problem, &field, &start, 2000, 3, &mut source);
        assert_eq!(best.len(), 2);
        match score {
            None => assert_eq!(best, start),
            Some(s) => {
                let (again, rest) = get_all_score(&problem, &best, 0, &field);
                assert_eq!(rest, 0);
                assert_eq!(again, s);
                // the best there is: one vertex in the right angle, one at the
                // end of a leg, or both at the ends of a leg
                assert!(s <= 1_000_000 * (100_000 - 16));
                found += 1;
            }
        }
    }
    assert!(found > 0);
    let mut source = RandomSource::from_seed(0);
    let (best, score) = anneal(&problem, &field, &start, 2000, 0, &mut source);
    assert_eq!(best, start);
    assert_eq!(score, None);
}

#[test]
fn budgets_that_differ_may_end_with_records_in_either_order() {
    // the chance allowed shrinks with the share of the budget that is spent:
    // the same draws lead a round of three moves and a round of four apart
    let problem = free_vertex_problem();
    let field = ProximityField::build(&problem);
    let start = vec![p(1, 2)];
    let draws = [(1usize, 0usize), (0, 200), (3, 0), (0, 0)];
    let mut short = Annealer::new(&problem, &field, &start, 3);
    for (heading, chance) in &draws[..3] {
        short.step(&problem, &field, 0, *heading, *chance);
    }
    let mut long = Annealer::new(&problem, &field, &start, 4);
    for (heading, chance) in &draws[..4] {
        long.step(&problem, &field, 0, *heading, *chance);
    }
    // the short round takes the fall of one unit back and finds (1,1)
    assert_eq!(short.best, vec![p(1, 1)]);
    assert_eq!(short.best_score, Some(1_000_000 * (100_000 - 22)));
    // the long round keeps the fall and ends at (2,1)
    assert_eq!(long.best, vec![p(2, 1)]);
    assert_eq!(long.best_score, Some(1_000_000 * (100_000 - 23)));
    assert!(short.is_round_over());
    assert!(long.is_round_over());
}
