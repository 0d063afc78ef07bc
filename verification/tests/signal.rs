use rustures::{non_finite_error, row_range, validate_signal_shape, validate_storage, Error, SignalShape};

#[test]
fn scalar_signal_has_one_feature() {
    assert_eq!(
        validate_signal_shape(1, &[3]),
        Ok(SignalShape {
            n_samples: 3,
            n_features: 1,
        })
    );
}

#[test]
fn rejects_empty_and_high_rank_signals() {
    assert_eq!(validate_signal_shape(1, &[0]), Err(Error::EmptySignal));
    assert_eq!(
        validate_signal_shape(3, &[1, 1, 1]),
        Err(Error::InvalidSignalDimension { ndim: 3 })
    );
}

#[test]
fn two_dimensional_shapes_keep_their_features() {
    assert_eq!(
        validate_signal_shape(2, &[4, 3]),
        Ok(SignalShape { n_samples: 4, n_features: 3 })
    );
    assert_eq!(validate_signal_shape(2, &[4, 0]), Err(Error::EmptySignal));
    assert_eq!(validate_signal_shape(2, &[4]), Err(Error::InvalidSignalDimension { ndim: 2 }));
}

#[test]
fn non_finite_error_reports_row_and_column() {
    let shape = SignalShape { n_samples: 2, n_features: 2 };
    assert_eq!(non_finite_error(2, shape), Error::NonFiniteInput { row: 1, column: 0 });
    assert_eq!(non_finite_error(3, shape), Error::NonFiniteInput { row: 1, column: 1 });
}

#[test]
fn signal_view_borrows_row_major_storage() {
    let shape = validate_storage(4, 2, 2).unwrap();
    assert_eq!(shape.n_features, 2);
    assert_eq!(row_range(shape, 1), Some((2, 4)));
    assert_eq!(row_range(shape, 2), None);
}

#[test]
fn signal_view_rejects_storage_length_mismatch() {
    assert_eq!(
        validate_storage(3, 2, 2).unwrap_err(),
        Error::DimensionMismatch {
            expected: 4,
            actual: 3,
        }
    );
}

#[test]
fn storage_checks_emptiness_before_size() {
    assert_eq!(validate_storage(0, 0, 2), Err(Error::EmptySignal));
    assert_eq!(
        validate_storage(0, usize::MAX, 2),
        Err(Error::NumericalFailure { context: "computing signal storage size" })
    );
}
