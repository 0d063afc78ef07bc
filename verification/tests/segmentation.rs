use rustures::{
    lexicographically_smaller, select_stop_rule, unsupported_stop, validate_breakpoints,
    validate_jump, validate_min_size, validate_segment, DetectorCapabilities, Error, SearchGrid,
    StopRule,
};

#[test]
fn accepts_valid_breakpoints_with_terminal_sample() {
    assert_eq!(validate_breakpoints(&[2, 5], 5, 2), Ok(()));
}

#[test]
fn segmentation_accepts_valid_breakpoints_with_terminal_sample() {
    assert_eq!(validate_breakpoints(&[2, 5], 5, 2), Ok(()));
}

#[test]
fn segmentation_rejects_missing_terminal_breakpoint() {
    assert_eq!(
        validate_breakpoints(&[2, 4], 5, 2),
        Err(Error::MissingTerminalBreakpoint {
            actual: 4,
            n_samples: 5,
        })
    );
}

#[test]
fn segmentation_rejects_short_segments() {
    assert!(matches!(
        validate_breakpoints(&[1, 5], 5, 2),
        Err(Error::SegmentTooShort { .. })
    ));
}

#[test]
fn search_grid_and_capabilities_are_explicit() {
    assert_eq!(
        SearchGrid::new(2, 5),
        Ok(SearchGrid {
            min_size: 2,
            jump: 5,
        })
    );
    assert!(DetectorCapabilities::changes_only().supports(StopRule::Changes));
    assert!(!DetectorCapabilities::changes_only().supports(StopRule::Penalty));
}

#[test]
fn breakpoint_errors_name_the_first_offending_entry() {
    assert_eq!(validate_breakpoints(&[], 5, 1), Err(Error::EmptyBreakpoints));
    assert_eq!(validate_breakpoints(&[2, 5], 5, 0), Err(Error::InvalidMinSize { value: 0 }));
    assert_eq!(
        validate_breakpoints(&[3, 3, 5], 5, 1),
        Err(Error::InvalidBreakpoint {
            position: 1,
            value: 3,
            n_samples: 5,
        })
    );
    assert_eq!(
        validate_breakpoints(&[2, 6], 5, 1),
        Err(Error::InvalidBreakpoint {
            position: 1,
            value: 6,
            n_samples: 5,
        })
    );
    assert_eq!(
        validate_breakpoints(&[1, 5], 5, 2),
        Err(Error::SegmentTooShort {
            start: 0,
            end: 1,
            length: 1,
            minimum: 2,
        })
    );
}

#[test]
fn segment_checks_follow_the_half_open_convention() {
    assert_eq!(validate_segment(0..5, 5, 5), Ok(()));
    assert_eq!(validate_segment(2..2, 5, 1), Err(Error::InvalidRange { start: 2, end: 2, n_samples: 5 }));
    assert_eq!(validate_segment(3..6, 5, 1), Err(Error::InvalidRange { start: 3, end: 6, n_samples: 5 }));
    assert_eq!(
        validate_segment(3..5, 5, 3),
        Err(Error::SegmentTooShort { start: 3, end: 5, length: 2, minimum: 3 })
    );
    assert_eq!(validate_segment(0..1, 5, 0), Err(Error::InvalidMinSize { value: 0 }));
}

#[test]
fn parameter_validation_reports_the_offending_value() {
    assert_eq!(validate_min_size(0), Err(Error::InvalidMinSize { value: 0 }));
    assert_eq!(validate_min_size(3), Ok(()));
    assert_eq!(validate_jump(0), Err(Error::InvalidJump { value: 0 }));
    assert_eq!(validate_jump(7), Ok(()));
    assert_eq!(SearchGrid::new(0, 1), Err(Error::InvalidMinSize { value: 0 }));
    assert_eq!(SearchGrid::new(1, 0), Err(Error::InvalidJump { value: 0 }));
}

#[test]
fn lexicographic_order_prefers_earlier_and_shorter_paths() {
    assert!(lexicographically_smaller(&[2, 5], &[3, 5]));
    assert!(!lexicographically_smaller(&[3, 5], &[2, 5]));
    assert!(lexicographically_smaller(&[1, 2, 8], &[6, 7, 8]));
    assert!(lexicographically_smaller(&[2], &[2, 5]));
    assert!(!lexicographically_smaller(&[2, 5], &[2, 5]));
}

#[test]
fn exactly_one_stopping_rule_is_accepted() {
    assert_eq!(select_stop_rule(true, false, false), Ok(StopRule::Changes));
    assert_eq!(select_stop_rule(false, true, false), Ok(StopRule::Penalty));
    assert_eq!(select_stop_rule(false, false, true), Ok(StopRule::Budget));
    assert_eq!(select_stop_rule(false, false, false), Err(Error::InvalidStoppingRules));
    assert_eq!(select_stop_rule(true, true, false), Err(Error::InvalidStoppingRules));
    assert_eq!(
        unsupported_stop("Pelt", StopRule::Budget),
        Error::UnsupportedStoppingRule { detector: "Pelt", rule: "budget" }
    );
    assert_eq!(StopRule::Penalty.name(), "penalty");
}

#[test]
fn capabilities_list_the_supported_rules() {
    let all = DetectorCapabilities::all_stops();
    assert!(all.supports(StopRule::Changes) && all.supports(StopRule::Penalty) && all.supports(StopRule::Budget));
    let penalty = DetectorCapabilities::penalty_only();
    assert!(penalty.supports(StopRule::Penalty));
    assert!(!penalty.supports(StopRule::Changes));
    assert!(!penalty.supports(StopRule::Budget));
}

#[test]
fn grid_minimum_must_cover_the_cost_minimum() {
    let grid = SearchGrid::new(3, 2).unwrap();
    assert_eq!(grid.effective_min_size(1), Ok(3));
    assert_eq!(grid.effective_min_size(3), Ok(3));
    assert_eq!(
        grid.effective_min_size(5),
        Err(Error::MinSizeBelowCost { requested: 3, minimum: 5 })
    );
}
