use vstd::prelude::*;

use crate::error::Error;

verus! {

/// Bytes of one stored Gram value (an IEEE double).
pub const GRAM_VALUE_BYTES: usize = 8;

/// The linear kernel `k(x, y) = <x, y>`.
#[derive(Clone, Copy, Debug, Default)]
pub struct LinearKernel;

/// The cosine kernel `k(x, y) = <x, y> / (|x| |y|)`.
#[derive(Clone, Copy, Debug, Default)]
pub struct CosineKernel;

/// Where a kernel cost keeps its Gram information: a full 2-D prefix of
/// the Gram matrix, or nothing but one row at a time.
#[derive(Clone, Copy, Debug, PartialEq, Eq, Structural)]
pub enum KernelBackend {
    FullGram,
    Streaming,
}

/// Dimensions of the 2-D Gram prefix of a signal: `side * side` prefix
/// entries plus a diagonal prefix of `side` entries, with `side = n + 1`.
#[derive(Clone, Copy, Debug, PartialEq, Eq, Structural)]
pub struct GramLayout {
    pub side: usize,
    pub entries: usize,
    pub bytes: usize,
}

/// Sizes the Gram prefix of `n_samples` samples and refuses it when it
/// needs more than `max_bytes` bytes.
pub fn gram_prefix_layout(n_samples: usize, max_bytes: usize) -> (r: Result<GramLayout, Error>)
    ensures
        ({
            let side = n_samples + 1;
            let entries = side * side;
            let bytes = (entries + side) * GRAM_VALUE_BYTES;
            match r {
                Ok(layout) => {
                    &&& bytes <= max_bytes
                    &&& layout == (GramLayout {
                        side: side as usize,
                        entries: entries as usize,
                        bytes: bytes as usize,
                    })
                },
                Err(e) => if side > usize::MAX || entries > usize::MAX {
                    e == (Error::NumericalFailure { context: "computing Gram prefix dimensions" })
                } else if bytes > usize::MAX {
                    e == (Error::NumericalFailure { context: "computing Gram prefix memory" })
                } else {
                    bytes > max_bytes && e == (Error::GramMemoryLimit {
                        requested: bytes as usize,
                        maximum: max_bytes,
                    })
                },
            }
        }),
{
    let side = match n_samples.checked_add(1) {
        Some(value) => value,
        None => return Err(Error::NumericalFailure { context: "computing Gram prefix dimensions" }),
    };
    let entries = match side.checked_mul(side) {
        Some(value) => value,
        None => return Err(Error::NumericalFailure { context: "computing Gram prefix dimensions" }),
    };
    let count = match entries.checked_add(side) {
        Some(value) => value,
        None => {
            proof {
                assert((entries + side) * GRAM_VALUE_BYTES >= entries + side) by (nonlinear_arith)
                    requires
                        entries + side >= 0,
                ;
            }
            return Err(Error::NumericalFailure { context: "computing Gram prefix memory" });
        },
    };
    let requested = match count.checked_mul(GRAM_VALUE_BYTES) {
        Some(value) => value,
        None => return Err(Error::NumericalFailure { context: "computing Gram prefix memory" }),
    };
    if requested > max_bytes {
        return Err(Error::GramMemoryLimit { requested, maximum: max_bytes });
    }
    Ok(GramLayout { side, entries, bytes: requested })
}

/// Flat index of entry `(row, column)` of a row-major square of side `side`.
pub fn square_index(side: usize, row: usize, column: usize) -> (r: usize)
    requires
        row < side,
        column < side,
        side * side <= usize::MAX,
    ensures
        r == row * side + column,
        r < side * side,
{
    proof {
        assert(row * side + column < side * side) by (nonlinear_arith)
            requires
                row < side,
                column < side,
        ;
        assert(row * side <= row * side + column) by (nonlinear_arith)
            requires
                column >= 0,
        ;
    }
    row * side + column
}

/// Dimensions of the normalized cosine embedding: one extra coordinate per
/// sample, and the storage it needs.
pub fn cosine_dimensions(n_samples: usize, n_features: usize) -> (r: Result<(usize, usize), Error>)
    ensures
        match r {
            Ok((features, storage)) => features == n_features + 1 && storage == n_samples
                * features,
            Err(e) => (n_features + 1 > usize::MAX || n_samples * (n_features + 1) > usize::MAX)
                && e == (Error::NumericalFailure {
                context: "computing normalized cosine dimensions",
            }),
        },
{
    let features = match n_features.checked_add(1) {
        Some(value) => value,
        None => {
            return Err(Error::NumericalFailure { context: "computing normalized cosine dimensions" })
        },
    };
    let storage = match n_samples.checked_mul(features) {
        Some(value) => value,
        None => {
            return Err(Error::NumericalFailure { context: "computing normalized cosine dimensions" })
        },
    };
    Ok((features, storage))
}

/// Number of unordered pairs of distinct samples, read by the exact median
/// bandwidth.
pub fn distinct_pair_count(n_samples: usize) -> (r: Option<usize>)
    ensures
        match r {
            Some(count) => n_samples * (n_samples - 1) <= usize::MAX && count == n_samples * (
            n_samples - 1) / 2,
            None => n_samples >= 1 && n_samples * (n_samples - 1) > usize::MAX,
        },
{
    if n_samples == 0 {
        return Some(0);
    }
    match n_samples.checked_mul(n_samples - 1) {
        Some(product) => Some(product / 2),
        None => None,
    }
}

} // verus!
