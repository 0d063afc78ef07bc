use rustures::{Error, PenalizedTable, Pelt, SearchGrid, StopRule};

#[test]
fn pelt_refuses_changes_and_budgets() {
    let detector = Pelt::new(1, 1).unwrap();
    assert!(matches!(
        detector.check_stop(StopRule::Changes),
        Err(Error::UnsupportedStoppingRule { .. })
    ));
    assert_eq!(
        detector.check_stop(StopRule::Budget),
        Err(Error::UnsupportedStoppingRule { detector: "Pelt", rule: "budget" })
    );
    assert_eq!(detector.check_stop(StopRule::Penalty), Ok(()));
}

#[test]
fn pelt_checks_its_minimum_segment_size() {
    let detector = Pelt::new(2, 1).unwrap();
    assert_eq!(detector.grid(), SearchGrid { min_size: 2, jump: 1 });
    assert_eq!(detector.effective_min_size(5, 1), Ok(2));
    assert_eq!(
        detector.effective_min_size(5, 3),
        Err(Error::MinSizeBelowCost { requested: 2, minimum: 3 })
    );
    assert_eq!(
        detector.effective_min_size(1, 1),
        Err(Error::SegmentTooShort { start: 0, end: 1, length: 1, minimum: 2 })
    );
    assert_eq!(Pelt::new(0, 1), Err(Error::InvalidMinSize { value: 0 }));
}

#[test]
fn penalized_table_backtracks_on_the_grid() {
    let mut table = PenalizedTable::new(7, 3, 1);
    assert_eq!(table.positions(), &[0, 3, 6, 7]);
    assert_eq!(table.record(1, 0), Ok(()));
    assert_eq!(table.record(3, 1), Ok(()));
    assert_eq!(table.backtrack(), Ok(vec![3, 7]));
    assert_eq!(table.predecessor_of(3), Some(1));
}

#[test]
fn penalized_table_refuses_unreached_starts() {
    let mut table = PenalizedTable::new(7, 3, 1);
    assert_eq!(
        table.record(3, 2),
        Err(Error::NumericalFailure { context: "recording a penalized predecessor" })
    );
    assert!(table.backtrack().is_err());
}

#[test]
fn pruned_starts_leave_the_active_set() {
    let mut table = PenalizedTable::new(6, 1, 2);
    assert_eq!(table.candidate_starts(2), vec![0]);
    table.record(2, 0).unwrap();
    table.activate(2).unwrap();
    table.record(3, 0).unwrap();
    table.activate(3).unwrap();
    // Start 0 is dominated once a segment can follow position 3.
    table.schedule_prune(0, 3);
    table.retain_active(4);
    assert_eq!(table.candidate_starts(5), vec![0, 2, 3]);
    table.retain_active(5);
    assert_eq!(table.candidate_starts(5), vec![2, 3]);
    assert_eq!(
        table.activate(3),
        Err(Error::NumericalFailure { context: "activating a Pelt start" })
    );
}
