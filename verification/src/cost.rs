use std::ops::Range;
use vstd::prelude::*;

use crate::error::Error;
use crate::segmentation::{segment_error, validate_segment};

verus! {

/// How an autoregressive cost treats the lags of the first responses of a
/// candidate segment.
#[derive(Clone, Copy, Debug, PartialEq, Eq, Structural)]
pub enum ARBoundary {
    /// Reuse lagged observations from before a candidate segment. Missing
    /// lags at the beginning of the full signal are zero-filled.
    Compatibility,
    /// Drop the first `order` responses inside every candidate segment.
    SegmentLocal,
}

/// Number of leading responses that a segment skips under `boundary`.
pub fn ar_local_offset(boundary: ARBoundary, order: usize) -> (r: usize)
    ensures
        r == match boundary {
            ARBoundary::Compatibility => 0,
            ARBoundary::SegmentLocal => order,
        },
{
    match boundary {
        ARBoundary::Compatibility => 0,
        ARBoundary::SegmentLocal => order,
    }
}

/// Sizes of an autoregressive design: the minimum segment length, the
/// predictors per response (an intercept and `order` lags of every
/// feature), and the design storage.
#[derive(Clone, Copy, Debug, PartialEq, Eq, Structural)]
pub struct ArLayout {
    pub min_size: usize,
    pub predictors: usize,
    pub design_len: usize,
}

/// The minimum segment length of an autoregressive cost of `order`:
/// `order + 1`, and never below five.
pub open spec fn ar_min_size(order: int) -> int {
    if order + 1 < 5 {
        5
    } else {
        order + 1
    }
}

/// Sizes the autoregressive design of `order` lags of a signal.
pub fn ar_layout(order: usize, n_samples: usize, n_features: usize) -> (r: Result<ArLayout, Error>)
    ensures
        match r {
            Ok(layout) => {
                &&& order > 0
                &&& layout.min_size == ar_min_size(order as int)
                &&& layout.predictors == 1 + order * n_features
                &&& layout.design_len == n_samples * layout.predictors
            },
            Err(e) => if order == 0 {
                e == (Error::InvalidOrder { value: order })
            } else if order + 1 > usize::MAX {
                e == (Error::NumericalFailure {
                    context: "computing autoregressive minimum segment length",
                })
            } else if 1 + order * n_features > usize::MAX {
                e == (Error::NumericalFailure {
                    context: "computing autoregressive predictor count",
                })
            } else {
                n_samples * (1 + order * n_features) > usize::MAX && e == (
                Error::NumericalFailure { context: "allocating autoregressive design storage" })
            },
        },
{
    if order == 0 {
        return Err(Error::InvalidOrder { value: order });
    }
    let successor = match order.checked_add(1) {
        Some(value) => value,
        None => {
            return Err(
                Error::NumericalFailure {
                    context: "computing autoregressive minimum segment length",
                },
            )
        },
    };
    let min_size = if successor < 5 {
        5
    } else {
        successor
    };
    let lags = match order.checked_mul(n_features) {
        Some(value) => value,
        None => {
            proof {
                assert(1 + order * n_features > usize::MAX);
            }
            return Err(
                Error::NumericalFailure { context: "computing autoregressive predictor count" },
            )
        },
    };
    let predictors = match 1usize.checked_add(lags) {
        Some(value) => value,
        None => {
            return Err(
                Error::NumericalFailure { context: "computing autoregressive predictor count" },
            )
        },
    };
    let design_len = match n_samples.checked_mul(predictors) {
        Some(value) => value,
        None => {
            return Err(
                Error::NumericalFailure { context: "allocating autoregressive design storage" },
            )
        },
    };
    Ok(ArLayout { min_size, predictors, design_len })
}

/// Flat index of `feature` of the observation `lag` samples before
/// `sample`, or `None` when that observation lies before the signal (its
/// value is then taken as zero).
pub fn ar_lag_index(sample: usize, lag: usize, feature: usize, n_samples: usize, n_features: usize) -> (r:
    Option<usize>)
    requires
        sample < n_samples,
        feature < n_features,
        n_samples * n_features <= usize::MAX,
    ensures
        match r {
            Some(index) => lag <= sample && index == (sample - lag) * n_features + feature && index
                < n_samples * n_features,
            None => lag > sample,
        },
{
    if lag > sample {
        return None;
    }
    let row = sample - lag;
    proof {
        assert(row * n_features + feature < n_samples * n_features) by (nonlinear_arith)
            requires
                row < n_samples,
                feature < n_features,
        ;
        assert(row * n_features <= row * n_features + feature) by (nonlinear_arith)
            requires
                feature >= 0,
        ;
    }
    Some(row * n_features + feature)
}

/// The cost models, as far as their integer properties go.
#[derive(Clone, Copy, Debug, PartialEq, Eq, Structural)]
pub enum CostFamily {
    L2,
    L1,
    Rank,
    Normal,
    Linear,
    AR { order: usize },
    CLinear,
    Mahalanobis,
}

impl CostFamily {
    /// The smallest segment length on which the model's cost is defined.
    pub fn minimum_size_hint(self) -> (r: usize)
        ensures
            r == match self {
                CostFamily::L2 => 1,
                CostFamily::L1 | CostFamily::Rank | CostFamily::Normal | CostFamily::Linear
                | CostFamily::Mahalanobis => 2,
                CostFamily::AR { order } => if order + 1 > usize::MAX {
                    usize::MAX as int
                } else {
                    ar_min_size(order as int)
                },
                CostFamily::CLinear => 3,
            },
    {
        match self {
            CostFamily::L2 => 1,
            CostFamily::L1 | CostFamily::Rank | CostFamily::Normal | CostFamily::Linear
            | CostFamily::Mahalanobis => 2,
            CostFamily::AR { order } => {
                let successor = order.saturating_add(1);
                if successor < 5 {
                    5
                } else {
                    successor
                }
            },
            CostFamily::CLinear => 3,
        }
    }

    /// The model's name.
    pub fn name(self) -> (r: &'static str)
        ensures
            r@ == match self {
                CostFamily::L2 => "l2"@,
                CostFamily::L1 => "l1"@,
                CostFamily::Rank => "rank"@,
                CostFamily::Normal => "normal"@,
                CostFamily::Linear => "linear"@,
                CostFamily::AR { .. } => "ar"@,
                CostFamily::CLinear => "clinear"@,
                CostFamily::Mahalanobis => "mahalanobis"@,
            },
    {
        match self {
            CostFamily::L2 => "l2",
            CostFamily::L1 => "l1",
            CostFamily::Rank => "rank",
            CostFamily::Normal => "normal",
            CostFamily::Linear => "linear",
            CostFamily::AR { .. } => "ar",
            CostFamily::CLinear => "clinear",
            CostFamily::Mahalanobis => "mahalanobis",
        }
    }
}

/// Predictors of the packed linear model, whose first column is the
/// response: refuses fewer than two features.
pub fn linear_predictors(n_features: usize) -> (r: Result<usize, Error>)
    ensures
        match r {
            Ok(predictors) => n_features >= 2 && predictors == n_features - 1,
            Err(e) => n_features < 2 && e == (Error::InsufficientFeatures {
                model: "linear",
                minimum: 2,
                actual: n_features,
            }),
        },
{
    if n_features < 2 {
        return Err(Error::InsufficientFeatures { model: "linear", minimum: 2, actual: n_features });
    }
    Ok(n_features - 1)
}

/// A response and a design must have the same number of samples.
pub fn validate_sample_counts(response: usize, design: usize) -> (r: Result<(), Error>)
    ensures
        r is Ok <==> response == design,
        r matches Err(e) ==> e == (Error::SampleCountMismatch { response, design }),
{
    if response != design {
        return Err(Error::SampleCountMismatch { response, design });
    }
    Ok(())
}

/// A Mahalanobis metric must be a square of the feature dimension given in
/// row-major order (its cell count saturates at `usize::MAX`).
pub fn validate_metric_shape(expected: usize, rows: usize, columns: usize, len: usize) -> (r: Result<
    (),
    Error,
>)
    ensures
        r is Ok <==> (rows == expected && columns == expected && len == if rows * columns
            > usize::MAX {
            usize::MAX as int
        } else {
            rows * columns
        }),
        r matches Err(e) ==> e == (Error::InvalidMetricShape { expected, rows, columns }),
{
    if rows != expected || columns != expected {
        return Err(Error::InvalidMetricShape { expected, rows, columns });
    }
    let cells = match rows.checked_mul(columns) {
        Some(value) => value,
        None => usize::MAX,
    };
    if len != cells {
        return Err(Error::InvalidMetricShape { expected, rows, columns });
    }
    Ok(())
}

/// Sizes the prefix statistics of the L2 cost: the storage of the signal
/// and `(n + 1) * d` prefix entries.
pub fn l2_prefix_layout(n_samples: usize, n_features: usize) -> (r: Result<(usize, usize), Error>)
    ensures
        match r {
            Ok((expected, prefix_len)) => n_samples > 0 && n_features > 0 && expected == n_samples
                * n_features && prefix_len == (n_samples + 1) * n_features,
            Err(e) => if n_samples * n_features > usize::MAX {
                e == (Error::NumericalFailure { context: "computing signal storage size" })
            } else if n_samples == 0 || n_features == 0 {
                e == Error::EmptySignal
            } else {
                (n_samples + 1) * n_features > usize::MAX && e == (Error::NumericalFailure {
                    context: "allocating L2 prefix statistics",
                })
            },
        },
{
    let expected = match n_samples.checked_mul(n_features) {
        Some(value) => value,
        None => return Err(Error::NumericalFailure { context: "computing signal storage size" }),
    };
    if n_samples == 0 || n_features == 0 {
        return Err(Error::EmptySignal);
    }
    let rows = match n_samples.checked_add(1) {
        Some(value) => value,
        None => {
            proof {
                assert((n_samples + 1) * n_features >= n_samples + 1) by (nonlinear_arith)
                    requires
                        n_features >= 1,
                        n_samples >= 0,
                ;
            }
            return Err(Error::NumericalFailure { context: "allocating L2 prefix statistics" })
        },
    };
    let prefix_len = match rows.checked_mul(n_features) {
        Some(value) => value,
        None => return Err(Error::NumericalFailure { context: "allocating L2 prefix statistics" }),
    };
    Ok((expected, prefix_len))
}

/// Whether the starts of an endpoint batch strictly increase.
pub fn starts_increase(starts: &[usize]) -> (r: bool)
    ensures
        r == forall|i: int| 0 <= i < starts@.len() - 1 ==> #[trigger] starts@[i] < starts@[i + 1],
{
    let mut index: usize = 1;
    while index < starts.len()
        invariant
            1 <= index,
            forall|i: int| 0 <= i < index - 1 && i < starts@.len() - 1 ==> #[trigger] starts@[i]
                < starts@[i + 1],
        decreases starts@.len() - index,
    {
        if starts[index - 1] >= starts[index] {
            return false;
        }
        index = index + 1;
    }
    true
}

/// The first response row that the regression cost of `[start, end)` reads
/// once `offset` leading responses are skipped, checked against the rows
/// accumulated so far (from `accumulated_from` to `end`).
pub fn regression_row_start(
    start: usize,
    end: usize,
    offset: usize,
    n_samples: usize,
    min_size: usize,
    accumulated_from: usize,
) -> (r: Result<usize, Error>)
    ensures
        match r {
            Ok(row_start) => segment_error(start, end, n_samples, min_size) is None && row_start
                == start + offset && row_start <= accumulated_from,
            Err(e) => if segment_error(start, end, n_samples, min_size) is Some {
                Some(e) == segment_error(start, end, n_samples, min_size)
            } else if start + offset > usize::MAX {
                e == (Error::NumericalFailure { context: "computing a regression response offset" })
            } else {
                start + offset > accumulated_from && e == (Error::NumericalFailure {
                    context: "evaluating an invalid regression endpoint batch",
                })
            },
        },
{
    validate_segment(Range { start, end }, n_samples, min_size)?;
    let row_start = match start.checked_add(offset) {
        Some(value) => value,
        None => {
            return Err(
                Error::NumericalFailure { context: "computing a regression response offset" },
            )
        },
    };
    if row_start > accumulated_from {
        return Err(
            Error::NumericalFailure { context: "evaluating an invalid regression endpoint batch" },
        );
    }
    Ok(row_start)
}


/// `[start, end)` is a maximal run of equal values in sorted order, where
/// `same[k]` tells whether position `k` repeats the value before it.
pub open spec fn maximal_run(same: Seq<bool>, start: int, end: int) -> bool {
    &&& 0 <= start < end <= same.len()
    &&& forall|m: int| start < m < end ==> #[trigger] same[m]
    &&& start == 0 || !same[start]
    &&& end == same.len() || !same[end]
}

/// For every position of a sorted sequence, the run of equal values that
/// holds it; tied values share the average of their ranks.
pub fn tie_runs(same_as_previous: &[bool]) -> (r: Vec<(usize, usize)>)
    ensures
        r@.len() == same_as_previous@.len(),
        forall|k: int|
            0 <= k < r@.len() ==> (#[trigger] r@[k]).0 <= k < r@[k].1 && maximal_run(
                same_as_previous@,
                r@[k].0 as int,
                r@[k].1 as int,
            ),
{
    let n = same_as_previous.len();
    let mut runs: Vec<(usize, usize)> = Vec::new();
    let mut start: usize = 0;
    while start < n
        invariant
            n == same_as_previous@.len(),
            start <= n,
            runs@.len() == start,
            start == 0 || start == n || !same_as_previous@[start as int],
            forall|k: int|
                0 <= k < start ==> (#[trigger] runs@[k]).0 <= k < runs@[k].1 && maximal_run(
                    same_as_previous@,
                    runs@[k].0 as int,
                    runs@[k].1 as int,
                ),
        decreases n - start,
    {
        let mut end = start + 1;
        while end < n && same_as_previous[end]
            invariant
                n == same_as_previous@.len(),
                start < end <= n,
                forall|m: int| start < m < end ==> #[trigger] same_as_previous@[m],
            decreases n - end,
        {
            end = end + 1;
        }
        let mut position = start;
        while position < end
            invariant
                n == same_as_previous@.len(),
                start <= position <= end <= n,
                runs@.len() == position,
                start == 0 || !same_as_previous@[start as int],
                end == n || !same_as_previous@[end as int],
                forall|m: int| start < m < end ==> #[trigger] same_as_previous@[m],
                forall|k: int|
                    0 <= k < position ==> (#[trigger] runs@[k]).0 <= k < runs@[k].1 && maximal_run(
                        same_as_previous@,
                        runs@[k].0 as int,
                        runs@[k].1 as int,
                    ),
            decreases end - position,
        {
            runs.push((start, end));
            position = position + 1;
        }
        start = end;
    }
    runs
}

} // verus!
