use pose_search::random::RandomSource;

#[test]
fn draws_stay_below_the_bound() {
    let mut source = RandomSource::from_seed(11);
    for n in [1usize, 2, 3, 4, 8, 1000] {
        for _ in 0..500 {
            assert!(source.below(n) < n);
        }
    }
    let mut source = RandomSource::from_entropy().expect("the system gives entropy");
    for _ in 0..500 {
        assert!(source.below(7) < 7);
    }
    assert_eq!(source.below(1), 0);
}

#[test]
fn draws_reach_every_value_below_the_bound() {
    let mut source = RandomSource::from_seed(3);
    let mut seen = [false; 4];
    for _ in 0..400 {
        seen[source.below(4)] = true;
    }
    assert_eq!(seen, [true; 4]);
}
