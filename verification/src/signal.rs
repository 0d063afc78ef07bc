use vstd::prelude::*;

use crate::error::Error;

verus! {

/// Dimensions of a row-major signal: `n_samples` rows of `n_features`
/// values.
#[derive(Debug, Clone, Copy, PartialEq, Eq, Structural)]
pub struct SignalShape {
    pub n_samples: usize,
    pub n_features: usize,
}

/// The shape of a one- or two-dimensional array, refusing other ranks and
/// empty signals.
pub fn validate_signal_shape(ndim: usize, shape: &[usize]) -> (r: Result<SignalShape, Error>)
    ensures
        match r {
            Ok(s) => s.n_samples > 0 && s.n_features > 0 && ((ndim == 1 && shape@.len() == 1
                && s == (SignalShape { n_samples: shape@[0], n_features: 1 })) || (ndim == 2
                && shape@.len() == 2 && s == (SignalShape {
                n_samples: shape@[0],
                n_features: shape@[1],
            }))),
            Err(e) => if !((ndim == 1 && shape@.len() == 1) || (ndim == 2 && shape@.len() == 2)) {
                e == (Error::InvalidSignalDimension { ndim })
            } else {
                e == Error::EmptySignal && (shape@[0] == 0 || (ndim == 2 && shape@[1] == 0))
            },
        },
{
    let result = if ndim == 1 && shape.len() == 1 {
        SignalShape { n_samples: shape[0], n_features: 1 }
    } else if ndim == 2 && shape.len() == 2 {
        SignalShape { n_samples: shape[0], n_features: shape[1] }
    } else {
        return Err(Error::InvalidSignalDimension { ndim });
    };
    if result.n_samples == 0 || result.n_features == 0 {
        return Err(Error::EmptySignal);
    }
    Ok(result)
}

/// Checks that a row-major storage of `storage_len` values holds exactly
/// `n_samples` rows of `n_features` values.
pub fn validate_storage(storage_len: usize, n_samples: usize, n_features: usize) -> (r: Result<
    SignalShape,
    Error,
>)
    ensures
        match r {
            Ok(s) => n_samples > 0 && n_features > 0 && storage_len == n_samples * n_features && s
                == (SignalShape { n_samples, n_features }),
            Err(e) => if n_samples == 0 || n_features == 0 {
                e == Error::EmptySignal
            } else if n_samples * n_features > usize::MAX {
                e == (Error::NumericalFailure { context: "computing signal storage size" })
            } else {
                storage_len != n_samples * n_features && e == (Error::DimensionMismatch {
                    expected: (n_samples * n_features) as usize,
                    actual: storage_len,
                })
            },
        },
{
    if n_samples == 0 || n_features == 0 {
        return Err(Error::EmptySignal);
    }
    let expected = match n_samples.checked_mul(n_features) {
        Some(value) => value,
        None => return Err(Error::NumericalFailure { context: "computing signal storage size" }),
    };
    if storage_len != expected {
        return Err(Error::DimensionMismatch { expected, actual: storage_len });
    }
    Ok(SignalShape { n_samples, n_features })
}

/// Bounds `[start, end)` of row `index` in row-major storage, or `None`
/// past the last row.
pub fn row_range(shape: SignalShape, index: usize) -> (r: Option<(usize, usize)>)
    requires
        shape.n_samples * shape.n_features <= usize::MAX,
    ensures
        match r {
            Some((start, end)) => index < shape.n_samples && start == index * shape.n_features
                && end == start + shape.n_features,
            None => index >= shape.n_samples,
        },
{
    if index >= shape.n_samples {
        return None;
    }
    proof {
        assert((index + 1) * shape.n_features <= shape.n_samples * shape.n_features)
            by (nonlinear_arith)
            requires
                index < shape.n_samples,
        ;
        assert((index + 1) * shape.n_features == index * shape.n_features + shape.n_features)
            by (nonlinear_arith);
    }
    let start = index * shape.n_features;
    Some((start, start + shape.n_features))
}

/// The error reporting a non-finite value at flat position `flat_index` of
/// row-major storage.
pub fn non_finite_error(flat_index: usize, shape: SignalShape) -> (e: Error)
    requires
        shape.n_features > 0,
    ensures
        e == (Error::NonFiniteInput {
            row: flat_index / shape.n_features,
            column: flat_index % shape.n_features,
        }),
{
    Error::NonFiniteInput {
        row: flat_index / shape.n_features,
        column: flat_index % shape.n_features,
    }
}

} // verus!
