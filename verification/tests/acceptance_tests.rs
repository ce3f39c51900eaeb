use alns_rs::acceptance::{
    AcceptanceCriteria, HillClimbAcceptanceCriteria, RecordToRecordTravelAcceptanceCriteria,
};
use alns_rs::state::{Objective, State};

#[derive(Clone, Debug, Hash, PartialEq, Eq)]
struct Plain {
    cost: u64,
}

impl State for Plain {
    fn cost(&self) -> Objective {
        self.cost
    }

    fn objective(&self) -> Objective {
        self.cost
    }

    fn clone_keeps_cost(_source: &Self, _duplicate: &Self) {}
}

fn costing(cost: u64) -> Plain {
    Plain { cost }
}

#[test]
fn hill_climbing_accepts_only_strict_improvement() {
    let mut criterion = HillClimbAcceptanceCriteria::new();
    assert!(criterion.accept(&costing(1), &costing(10), &costing(9)));
    assert!(!criterion.accept(&costing(1), &costing(10), &costing(10)));
    assert!(!criterion.accept(&costing(1), &costing(10), &costing(11)));
    assert!(criterion.accept(&costing(1), &costing(u64::MAX), &costing(0)));
}

#[test]
fn hill_climbing_ignores_best() {
    let mut criterion = HillClimbAcceptanceCriteria::new();
    for best in [0u64, 5, 9, 10, 100] {
        assert!(criterion.accept(&costing(best), &costing(10), &costing(9)));
        assert!(!criterion.accept(&costing(best), &costing(10), &costing(12)));
    }
}

#[test]
fn record_to_record_starts_at_the_start_threshold() {
    let criterion = RecordToRecordTravelAcceptanceCriteria::new(200_000, 50_000, 10);
    assert_eq!(criterion.threshold, 200_000);
    assert_eq!(criterion.start_threshold, 200_000);
    assert_eq!(criterion.end_threshold, 50_000);
    assert_eq!(criterion.iterations, 10);
    assert_eq!(criterion.calls, 0);
}

#[test]
fn record_to_record_accepts_within_the_band() {
    // Threshold 0.2: a gap of 19 in 100 is inside, a gap of 20 in 100 is not.
    let mut criterion = RecordToRecordTravelAcceptanceCriteria::new(200_000, 200_000, 1);
    assert!(criterion.accept(&costing(81), &costing(500), &costing(100)));
    assert!(!criterion.accept(&costing(80), &costing(500), &costing(100)));
    assert!(!criterion.accept(&costing(50), &costing(500), &costing(100)));
    // A candidate below the best solution is always inside.
    assert!(criterion.accept(&costing(100), &costing(500), &costing(99)));
}

#[test]
fn record_to_record_ignores_current() {
    let mut criterion = RecordToRecordTravelAcceptanceCriteria::new(100_000, 100_000, 5);
    for current in [0u64, 1, 95, 100, 10_000] {
        assert!(criterion.accept(&costing(95), &costing(current), &costing(100)));
        assert!(!criterion.accept(&costing(85), &costing(current), &costing(100)));
    }
}

#[test]
fn record_to_record_zero_cost_candidate() {
    let mut criterion = RecordToRecordTravelAcceptanceCriteria::new(500_000, 0, 4);
    assert!(!criterion.accept(&costing(0), &costing(0), &costing(0)));
    assert!(criterion.accept(&costing(3), &costing(3), &costing(0)));
}

#[test]
fn record_to_record_zero_threshold_rejects_equal_cost() {
    let mut criterion = RecordToRecordTravelAcceptanceCriteria::new(0, 0, 1);
    assert!(!criterion.accept(&costing(10), &costing(10), &costing(10)));
    assert!(criterion.accept(&costing(10), &costing(10), &costing(9)));
}

#[test]
fn record_to_record_threshold_steps_down_to_the_floor() {
    let mut criterion = RecordToRecordTravelAcceptanceCriteria::new(100, 40, 3);
    let expected = [80u64, 60, 40, 40, 40];
    for after in expected {
        criterion.accept(&costing(1), &costing(1), &costing(1));
        assert_eq!(criterion.threshold, after);
    }
}

#[test]
fn record_to_record_threshold_never_drops_below_the_floor() {
    let mut criterion = RecordToRecordTravelAcceptanceCriteria::new(1_000_000, 250_000, 7);
    for _ in 0..1000 {
        criterion.accept(&costing(5), &costing(6), &costing(7));
        assert!(criterion.threshold >= 250_000);
    }
    assert_eq!(criterion.threshold, 250_000);
}

#[test]
fn record_to_record_large_costs_do_not_overflow() {
    let mut criterion = RecordToRecordTravelAcceptanceCriteria::new(u64::MAX, 0, 1);
    assert!(criterion.accept(&costing(0), &costing(0), &costing(u64::MAX)));
    let mut tight = RecordToRecordTravelAcceptanceCriteria::new(1, 1, 1);
    assert!(!tight.accept(&costing(0), &costing(0), &costing(u64::MAX)));
    assert!(tight.accept(&costing(u64::MAX), &costing(0), &costing(u64::MAX)));
}

#[test]
fn record_to_record_threshold_falls_evenly() {
    let mut criterion = RecordToRecordTravelAcceptanceCriteria::new(200_000, 50_000, 10);
    let expected = [185_000u64, 170_000, 155_000, 140_000, 125_000, 110_000, 95_000, 80_000];
    for (i, after) in expected.iter().enumerate() {
        criterion.accept(&costing(1), &costing(1), &costing(1));
        assert_eq!(criterion.threshold, *after);
        assert_eq!(criterion.calls, i as u64 + 1);
    }
}

#[test]
fn record_to_record_reaches_the_floor_with_a_span_below_the_horizon() {
    let mut criterion = RecordToRecordTravelAcceptanceCriteria::new(5, 0, 10);
    let expected = [5u64, 4, 4, 3, 3, 2, 2, 1, 1, 0, 0, 0];
    for after in expected {
        criterion.accept(&costing(1), &costing(1), &costing(1));
        assert_eq!(criterion.threshold, after);
    }
    assert_eq!(criterion.calls, 10);
}

#[test]
fn record_to_record_reaches_the_floor_exactly_at_the_horizon() {
    let mut criterion = RecordToRecordTravelAcceptanceCriteria::new(1_000_000, 250_000, 7);
    for _ in 0..6 {
        criterion.accept(&costing(1), &costing(1), &costing(1));
        assert!(criterion.threshold > 250_000);
    }
    criterion.accept(&costing(1), &costing(1), &costing(1));
    assert_eq!(criterion.threshold, 250_000);
}

#[test]
fn record_to_record_decides_before_the_threshold_falls() {
    let mut criterion = RecordToRecordTravelAcceptanceCriteria::new(100_000, 0, 1);
    assert!(criterion.accept(&costing(95), &costing(95), &costing(100)));
    assert_eq!(criterion.threshold, 0);
    assert!(!criterion.accept(&costing(95), &costing(95), &costing(100)));
}
