use pose_search::stretch::{stretch_ok, stretch_violation};

#[test]
fn zero_tolerance_asks_for_equal_lengths() {
    for orig in [0i64, 1, 16, 100, 8_000_000_000_000_000_000] {
        assert!(stretch_ok(orig, orig, 0));
    }
    assert!(!stretch_ok(16, 17, 0));
    assert!(!stretch_ok(16, 15, 0));
    assert!(!stretch_ok(16, 0, 0));
    assert!(!stretch_ok(0, 1, 0));
}

#[test]
fn tolerance_is_met_up_to_the_exact_bound() {
    // |110 / 100 - 1| = 100000 / 1000000
    assert!(stretch_ok(100, 110, 100_000));
    assert!(!stretch_ok(100, 110, 99_999));
    assert!(stretch_ok(100, 90, 100_000));
    assert!(!stretch_ok(100, 90, 99_999));
    assert!(stretch_ok(100, 100, 0));
    assert!(stretch_ok(3, 4, 333_334));
    assert!(!stretch_ok(3, 4, 333_333));
}

#[test]
fn swapping_lengths_alone_may_change_the_verdict() {
    assert!(stretch_ok(110, 100, 95_000));
    assert!(!stretch_ok(100, 110, 95_000));
}

#[test]
fn swapping_lengths_with_adjusted_tolerance_keeps_the_verdict() {
    // 110000 * 100 == 100000 * 110
    assert!(stretch_ok(100, 110, 110_000));
    assert!(stretch_ok(110, 100, 100_000));
    // 55000 * 100 == 50000 * 110
    assert!(!stretch_ok(100, 110, 55_000));
    assert!(!stretch_ok(110, 100, 50_000));
}

#[test]
fn violation_is_the_excess_over_the_tolerance() {
    assert_eq!(stretch_violation(100, 110, 50_000), 5_000_000);
    assert_eq!(stretch_violation(100, 90, 50_000), 5_000_000);
    assert_eq!(stretch_violation(100, 110, 100_000), 0);
    assert_eq!(stretch_violation(100, 110, 200_000), 0);
    assert_eq!(stretch_violation(16, 0, 0), 16_000_000);
    assert_eq!(stretch_violation(25, 34, 320_000), 1_000_000);
    assert_eq!(stretch_violation(25, 34, 319_999), 1_000_025);
}

#[test]
fn extreme_lengths_do_not_overflow() {
    assert!(!stretch_ok(i64::MAX, i64::MIN, 0));
    assert!(stretch_ok(i64::MAX, i64::MAX, i64::MAX));
    assert_eq!(
        stretch_violation(i64::MIN, i64::MAX, i64::MAX),
        1_000_000 * (i64::MAX as i128 - i64::MIN as i128) - (i64::MAX as i128) * (i64::MIN as i128)
    );
}
