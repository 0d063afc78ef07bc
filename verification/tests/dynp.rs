use rustures::{
    checked_candidate_positions, try_filled_vec, validate_feasible, Dynp, DynpTable, Error,
    SearchGrid, StopRule, DEFAULT_DYNP_MEMORY_LIMIT_BYTES,
};

#[test]
fn rejects_infeasible_problem_before_dp() {
    assert_eq!(
        validate_feasible(5, 2, 2, 1),
        Err(Error::InfeasibleSegmentation {
            n_samples: 5,
            changes: 2,
            min_size: 2,
            jump: 1,
        })
    );
}

#[test]
fn reports_only_supported_stopping_rule() {
    let detector = Dynp::new(1, 1).unwrap();
    assert_eq!(
        detector.check_stop(StopRule::Penalty),
        Err(Error::UnsupportedStoppingRule {
            detector: "Dynp",
            rule: "penalty",
        })
    );
    assert_eq!(detector.check_stop(StopRule::Changes), Ok(()));
}

#[test]
fn memory_estimate_respects_jump_and_zero_change_fast_path() {
    let detector = Dynp::new(1, 3).unwrap();
    assert_eq!(detector.estimated_memory_bytes(7, 0), Ok(0));
    assert_eq!(detector.estimated_memory_bytes(7, 1), Ok(256));
    assert_eq!(
        Dynp::with_memory_limit(1, 1, 0),
        Err(Error::InvalidMemoryLimit { value: 0 })
    );
}

#[test]
fn compact_state_memory_is_rejected_before_any_work() {
    let detector = Dynp::with_memory_limit(1, 1, 779).unwrap();
    assert_eq!(detector.estimated_memory_bytes(8, 3), Ok(780));
    assert_eq!(
        detector.check_memory_limit(8, 3),
        Err(Error::DynpMemoryLimit { requested: 780, maximum: 779 })
    );
    assert_eq!(Dynp::with_memory_limit(1, 1, 780).unwrap().check_memory_limit(8, 3), Ok(()));
}

#[test]
fn default_detector_reports_its_configuration() {
    let detector = Dynp::new(2, 3).unwrap();
    assert_eq!(detector.grid(), SearchGrid { min_size: 2, jump: 3 });
    assert_eq!(detector.max_memory_bytes(), DEFAULT_DYNP_MEMORY_LIMIT_BYTES);
    assert_eq!(detector.effective_min_size(1), Ok(2));
    assert_eq!(
        detector.effective_min_size(3),
        Err(Error::MinSizeBelowCost { requested: 2, minimum: 3 })
    );
}

#[test]
fn feasibility_matches_grid_spacing() {
    // min_size 2 on a grid of 3 needs breakpoints three samples apart.
    assert_eq!(validate_feasible(8, 2, 2, 3), Ok(()));
    assert!(validate_feasible(7, 2, 2, 3).is_err());
    assert_eq!(validate_feasible(2, 0, 2, 1), Ok(()));
    assert!(validate_feasible(1, 0, 2, 1).is_err());
}

#[test]
fn candidate_positions_end_with_the_signal_length() {
    assert_eq!(checked_candidate_positions(7, 3), Ok(vec![0, 3, 6, 7]));
    assert_eq!(checked_candidate_positions(6, 3), Ok(vec![0, 3, 6]));
    assert_eq!(checked_candidate_positions(0, 3), Err(Error::EmptySignal));
    assert_eq!(try_filled_vec(3, 7u8, "test"), Ok(vec![7u8, 7, 7]));
}

#[test]
fn table_backtracks_a_recorded_path() {
    let mut table = DynpTable::allocate(7, 3, 1, 1).unwrap();
    assert_eq!(table.positions(), &[0, 3, 6, 7]);
    assert!(!table.is_reached(1, 1));
    assert_eq!(table.record(1, 1, 0), Ok(()));
    assert_eq!(table.record(2, 3, 1), Ok(()));
    assert_eq!(table.backtrack(), Ok(vec![3, 7]));
}

#[test]
fn table_refuses_inadmissible_predecessors() {
    let mut table = DynpTable::allocate(7, 3, 1, 2).unwrap();
    let failure = Err(Error::NumericalFailure { context: "storing a compact Dynp predecessor" });
    assert_eq!(table.record(2, 3, 1), failure);
    assert_eq!(table.record(1, 1, 1), failure);
    assert_eq!(table.record(1, 3, 2), failure);
    assert_eq!(
        table.backtrack(),
        Err(Error::NumericalFailure { context: "backtracking a Dynp segmentation" })
    );
}

#[test]
fn path_ties_prefer_the_lexicographically_smaller_segmentation() {
    let mut table = DynpTable::allocate(6, 1, 1, 1).unwrap();
    for end in 1..=6 {
        table.record(1, end, 0).unwrap();
    }
    let mut candidate = Vec::new();
    let mut best = Vec::new();
    assert_eq!(table.state_path_is_smaller(1, 2, 4, &mut candidate, &mut best), Ok(true));
    assert_eq!(candidate, vec![2]);
    assert_eq!(best, vec![4]);
    assert_eq!(table.state_path_is_smaller(1, 4, 2, &mut candidate, &mut best), Ok(false));
    assert_eq!(table.state_path_is_smaller(1, 4, usize::MAX, &mut candidate, &mut best), Ok(true));
}

#[test]
fn table_allocation_reports_each_refusal() {
    assert_eq!(DynpTable::allocate(0, 3, 1, 1).unwrap_err(), Error::EmptySignal);
    assert_eq!(DynpTable::allocate(7, 0, 1, 1).unwrap_err(), Error::InvalidJump { value: 0 });
    assert_eq!(
        DynpTable::allocate(7, 3, usize::MAX, 1).unwrap_err(),
        Error::InfeasibleSegmentation { n_samples: 7, changes: usize::MAX, min_size: 1, jump: 3 }
    );
    assert_eq!(
        DynpTable::allocate(7, 3, usize::MAX - 1, 1).unwrap_err(),
        Error::NumericalFailure { context: "allocating Dynp state tables" }
    );
    assert_eq!(DynpTable::allocate(7, 3, 2, 1).unwrap().n_segments(), 3);
}

#[test]
fn memory_refusal_reports_the_estimate() {
    let detector = Dynp::with_memory_limit(1, 1, 100).unwrap();
    let estimate = detector.estimated_memory_bytes(8, 3).unwrap();
    assert_eq!(
        detector.check_memory_limit(8, 3),
        Err(Error::DynpMemoryLimit { requested: estimate, maximum: 100 })
    );
    assert_eq!(detector.check_memory_limit(0, 3), Err(Error::EmptySignal));
    assert_eq!(detector.check_memory_limit(8, 0), Ok(()));
    assert_eq!(
        detector.check_memory_limit(8, usize::MAX),
        Err(Error::DynpMemoryLimit { requested: usize::MAX, maximum: 100 })
    );
}
