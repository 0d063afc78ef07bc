use vstd::prelude::*;

verus! {

/// Every way in which a request to the library can be refused.
///
/// Values that carry a floating-point payload (penalties, budgets, gammas,
/// ridges, weights and non-finite objectives) are reported by the
/// floating-point layer that wraps this crate.
#[derive(Debug, Clone, PartialEq, Eq)]
#[non_exhaustive]
#[allow(inconsistent_fields)]
pub enum Error {
    EmptySignal,
    InvalidSignalDimension { ndim: usize },
    NonFiniteInput { row: usize, column: usize },
    DimensionMismatch { expected: usize, actual: usize },
    SampleCountMismatch { response: usize, design: usize },
    InvalidRange { start: usize, end: usize, n_samples: usize },
    SegmentTooShort { start: usize, end: usize, length: usize, minimum: usize },
    InvalidMinSize { value: usize },
    MinSizeBelowCost { requested: usize, minimum: usize },
    InvalidJump { value: usize },
    EmptyBreakpoints,
    InvalidBreakpoint { position: usize, value: usize, n_samples: usize },
    MissingTerminalBreakpoint { actual: usize, n_samples: usize },
    ExhaustiveLimitExceeded { actual: usize, maximum: usize },
    InfeasibleSegmentation { n_samples: usize, changes: usize, min_size: usize, jump: usize },
    UnsupportedStoppingRule { detector: &'static str, rule: &'static str },
    InvalidStoppingRules,
    BreakpointLengthMismatch { expected: usize, actual: usize },
    InvalidMargin { value: usize },
    InvalidDatasetParameters,
    InvalidGammaSampleSize { value: usize },
    GramMemoryLimit { requested: usize, maximum: usize },
    DynpMemoryLimit { requested: usize, maximum: usize },
    InvalidMemoryLimit { value: usize },
    AllocationFailure { context: &'static str },
    UnsupportedModel { model: String },
    InvalidOrder { value: usize },
    InsufficientFeatures { model: &'static str, minimum: usize, actual: usize },
    ScalarSignalRequired { model: &'static str, actual: usize },
    InvalidWeightsLength { expected: usize, actual: usize },
    InvalidMetricShape { expected: usize, rows: usize, columns: usize },
    NonPositiveSemidefiniteMetric,
    UnsupportedKernel { kernel: String },
    UnsupportedKernelBackend { backend: String },
    UnsupportedGammaPolicy { policy: String },
    NotFitted { object: &'static str },
    NumericalFailure { context: &'static str },
}

} // verus!
