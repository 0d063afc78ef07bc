use rustures::{
    ar_lag_index, ar_layout, ar_local_offset, l2_prefix_layout, linear_predictors,
    regression_row_start, starts_increase, tie_runs, validate_metric_shape,
    validate_sample_counts, ARBoundary, ArLayout, CostFamily, Error,
};

#[test]
fn autoregressive_layout_counts_lags_per_feature() {
    assert_eq!(ar_layout(0, 10, 2), Err(Error::InvalidOrder { value: 0 }));
    assert_eq!(ar_layout(1, 10, 2), Ok(ArLayout { min_size: 5, predictors: 3, design_len: 30 }));
    assert_eq!(ar_layout(6, 10, 1), Ok(ArLayout { min_size: 7, predictors: 7, design_len: 70 }));
    assert_eq!(
        ar_layout(usize::MAX, 10, 1),
        Err(Error::NumericalFailure { context: "computing autoregressive minimum segment length" })
    );
    assert_eq!(
        ar_layout(2, usize::MAX, 1),
        Err(Error::NumericalFailure { context: "allocating autoregressive design storage" })
    );
}

#[test]
fn lags_before_the_signal_are_missing() {
    assert_eq!(ar_lag_index(3, 1, 1, 10, 2), Some(5));
    assert_eq!(ar_lag_index(0, 1, 0, 10, 2), None);
    assert_eq!(ar_local_offset(ARBoundary::SegmentLocal, 4), 4);
    assert_eq!(ar_local_offset(ARBoundary::Compatibility, 4), 0);
}

#[test]
fn cost_families_report_minimum_sizes_and_names() {
    assert_eq!(CostFamily::L2.minimum_size_hint(), 1);
    assert_eq!(CostFamily::Rank.minimum_size_hint(), 2);
    assert_eq!(CostFamily::CLinear.minimum_size_hint(), 3);
    assert_eq!(CostFamily::AR { order: 1 }.minimum_size_hint(), 5);
    assert_eq!(CostFamily::AR { order: 6 }.minimum_size_hint(), 7);
    assert_eq!(CostFamily::AR { order: usize::MAX }.minimum_size_hint(), usize::MAX);
    assert_eq!(CostFamily::Mahalanobis.name(), "mahalanobis");
    assert_eq!(CostFamily::AR { order: 3 }.name(), "ar");
}

#[test]
fn regression_shapes_are_checked() {
    assert_eq!(
        linear_predictors(1),
        Err(Error::InsufficientFeatures { model: "linear", minimum: 2, actual: 1 })
    );
    assert_eq!(linear_predictors(3), Ok(2));
    assert_eq!(
        validate_sample_counts(3, 4),
        Err(Error::SampleCountMismatch { response: 3, design: 4 })
    );
    assert_eq!(validate_sample_counts(4, 4), Ok(()));
}

#[test]
fn metric_must_be_a_square_of_the_feature_dimension() {
    assert_eq!(validate_metric_shape(2, 2, 2, 4), Ok(()));
    assert_eq!(
        validate_metric_shape(2, 2, 3, 6),
        Err(Error::InvalidMetricShape { expected: 2, rows: 2, columns: 3 })
    );
    assert_eq!(
        validate_metric_shape(2, 2, 2, 3),
        Err(Error::InvalidMetricShape { expected: 2, rows: 2, columns: 2 })
    );
}

#[test]
fn l2_prefix_layout_checks_size_then_emptiness() {
    assert_eq!(l2_prefix_layout(3, 2), Ok((6, 8)));
    assert_eq!(l2_prefix_layout(0, 2), Err(Error::EmptySignal));
    assert_eq!(
        l2_prefix_layout(usize::MAX, 2),
        Err(Error::NumericalFailure { context: "computing signal storage size" })
    );
}

#[test]
fn endpoint_batches_need_increasing_starts() {
    assert!(starts_increase(&[1, 3, 4]));
    assert!(!starts_increase(&[1, 1]));
    assert!(starts_increase(&[]));
    assert_eq!(regression_row_start(2, 8, 1, 10, 3, 8), Ok(3));
    assert_eq!(
        regression_row_start(2, 8, 1, 10, 3, 2),
        Err(Error::NumericalFailure { context: "evaluating an invalid regression endpoint batch" })
    );
    assert_eq!(
        regression_row_start(7, 8, 0, 10, 3, 8),
        Err(Error::SegmentTooShort { start: 7, end: 8, length: 1, minimum: 3 })
    );
}

#[test]
fn tied_values_share_one_run() {
    assert_eq!(
        tie_runs(&[false, true, false, true, true]),
        vec![(0, 2), (0, 2), (2, 5), (2, 5), (2, 5)]
    );
    assert_eq!(tie_runs(&[false, false]), vec![(0, 1), (1, 2)]);
}
