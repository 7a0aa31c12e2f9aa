use jaccard_graph::score::Score;
use jaccard_graph::score::UNITS_PER_ONE;

fn score(overlap: u64, coverage: u64) -> Score {
    Score::new(overlap, coverage).unwrap()
}

#[test]
fn new_accepts_ratios_between_zero_and_one() {
    assert_eq!(Score::new(2, 4), Some(Score { overlap: 2, coverage: 4 }));
    assert_eq!(Score::new(0, 1), Some(Score { overlap: 0, coverage: 1 }));
    assert_eq!(Score::new(7, 7), Some(Score { overlap: 7, coverage: 7 }));
}

#[test]
fn new_rejects_what_is_no_ratio() {
    assert_eq!(Score::new(0, 0), None);
    assert_eq!(Score::new(1, 0), None);
    assert_eq!(Score::new(5, 4), None);
}

#[test]
fn zero_and_one_are_recognised() {
    assert!(score(0, 9).is_zero());
    assert!(!score(1, 9).is_zero());
    assert!(score(9, 9).is_one());
    assert!(!score(8, 9).is_one());
    assert!(!score(0, 9).is_one());
}

#[test]
fn comparison_is_by_value() {
    assert!(score(2, 3).is_above(&score(1, 2)));
    assert!(!score(1, 2).is_above(&score(2, 3)));
    assert!(!score(1, 2).is_above(&score(2, 4)));
    assert!(score(1, 2).is_tied(&score(2, 4)));
    assert!(!score(1, 2).is_tied(&score(2, 3)));
}

#[test]
fn comparison_is_exact_for_large_counts() {
    let big = u64::MAX;
    let just_below_one = score(big - 1, big);
    let a_little_lower = score(big - 2, big - 1);
    assert!(just_below_one.is_above(&a_little_lower));
    assert!(!a_little_lower.is_above(&just_below_one));
    assert!(!just_below_one.is_tied(&a_little_lower));
}

#[test]
fn units_round_down() {
    assert_eq!(UNITS_PER_ONE, 1_000_000_000);
    assert_eq!(score(1, 2).units(), 500_000_000);
    assert_eq!(score(1, 3).units(), 333_333_333);
    assert_eq!(score(2, 3).units(), 666_666_666);
    assert_eq!(score(0, 5).units(), 0);
    assert_eq!(score(5, 5).units(), 1_000_000_000);
    assert_eq!(score(u64::MAX, u64::MAX).units(), 1_000_000_000);
}
