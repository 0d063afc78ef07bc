use rustures::{
    next_start, start_states, Error, FusedFixedTable, FusedPenalizedTable, FusedSearch,
    SearchGrid,
};

#[test]
fn fused_feasibility_reports_the_grid_spacing() {
    let search = FusedSearch::new(7, 2, 3).unwrap();
    assert_eq!(search.grid(), SearchGrid { min_size: 2, jump: 3 });
    assert_eq!(search.validate_feasible(1), Ok(3));
    assert_eq!(search.validate_feasible(0), Ok(3));
    assert_eq!(
        search.validate_feasible(2),
        Err(Error::InfeasibleSegmentation { n_samples: 7, changes: 2, min_size: 2, jump: 3 })
    );
    assert_eq!(FusedSearch::new(7, 0, 3).unwrap_err(), Error::InvalidMinSize { value: 0 });
}

#[test]
fn fused_ends_lie_on_the_grid_or_at_the_signal_end() {
    let search = FusedSearch::new(7, 2, 3).unwrap();
    assert!(search.on_grid(7));
    assert!(search.on_grid(6));
    assert!(!search.on_grid(5));
    assert_eq!(search.latest_start(6), Some(4));
    assert_eq!(search.latest_start(5), None);
    assert_eq!(search.latest_start(0), None);
}

#[test]
fn start_states_and_steps_follow_the_spacing() {
    assert_eq!(start_states(6, 3, 1), (1, None));
    assert_eq!(start_states(3, 3, 2), (1, Some(1)));
    assert_eq!(start_states(7, 3, 5), (2, None));
    assert_eq!(next_start(3, 3, 7), Some(6));
    assert_eq!(next_start(6, 3, 7), None);
}

#[test]
fn fixed_table_backtracks_recorded_states() {
    let search = FusedSearch::new(7, 2, 3).unwrap();
    let mut table = FusedFixedTable::allocate(&search, 1).unwrap();
    assert_eq!(table.spacing(), 3);
    assert!(table.is_reached(3, 0));
    assert!(!table.is_reached(7, 1));
    assert_eq!(
        table.backtrack(),
        Err(Error::NumericalFailure { context: "reconstructing a fused fixed-K path" })
    );
    assert_eq!(table.record(7, 1, 3), Ok(()));
    assert_eq!(table.backtrack(), Ok(vec![3, 7]));
}

#[test]
fn fixed_table_refuses_inadmissible_segments() {
    let search = FusedSearch::new(7, 2, 3).unwrap();
    let mut table = FusedFixedTable::allocate(&search, 1).unwrap();
    let failure = Err(Error::NumericalFailure { context: "recording a fused fixed-K predecessor" });
    assert_eq!(table.record(7, 1, 6), failure);
    assert_eq!(table.record(7, 1, 4), failure);
    assert_eq!(table.record(5, 1, 3), failure);
    assert_eq!(table.record(7, 2, 3), failure);
    assert_eq!(
        FusedFixedTable::allocate(&search, 2).unwrap_err(),
        Error::InfeasibleSegmentation { n_samples: 7, changes: 2, min_size: 2, jump: 3 }
    );
}

#[test]
fn penalized_table_prunes_and_backtracks() {
    let search = FusedSearch::new(7, 2, 3).unwrap();
    let mut table = FusedPenalizedTable::new(&search).unwrap();
    assert_eq!(table.active(), &[0]);
    assert_eq!(table.candidate_starts(3), vec![0]);
    assert_eq!(table.candidate_starts(1), Vec::<usize>::new());
    assert_eq!(table.record(3, 0), Ok(()));
    assert_eq!(table.activate(3), Ok(()));
    assert_eq!(table.record(7, 3), Ok(()));
    assert_eq!(table.backtrack(), Ok(vec![3, 7]));
    assert_eq!(table.earliest_active(4), 0);
    table.schedule_prune(0, 3);
    table.retain_active(5);
    assert_eq!(table.active(), &[3]);
    assert_eq!(table.earliest_active(6), 3);
    assert_eq!(
        table.record(5, 3),
        Err(Error::NumericalFailure { context: "recording a fused penalized predecessor" })
    );
}

#[test]
fn penalized_search_needs_one_full_segment() {
    let search = FusedSearch::new(1, 2, 1).unwrap();
    assert_eq!(
        FusedPenalizedTable::new(&search).unwrap_err(),
        Error::SegmentTooShort { start: 0, end: 1, length: 1, minimum: 2 }
    );
}
