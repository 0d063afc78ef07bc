mod cost;
mod datasets;
mod dynp;
mod error;
mod fused;
mod greedy;
mod grid;
mod kernel;
mod merge;
mod metrics;
mod oracle;
mod pelt;
mod potts;
mod rng;
mod segmentation;
mod signal;

pub use dynp::{
    checked_candidate_positions, try_filled_vec, validate_feasible, Dynp, DynpTable,
    DEFAULT_DYNP_MEMORY_LIMIT_BYTES,
};
pub use error::Error;
pub use greedy::{
    initial_leaves, nearest_split, next_grid_split, peak_neighborhood, split_positions, Binseg,
    BottomUp, Partition, Window,
};
pub use grid::{candidate_position_count, candidate_positions, valid_start_count};
pub use metrics::{
    hausdorff, precision_recall, rand_index, validate_pair, MatchCounts, PairCounts,
};
pub use oracle::{enumerate_partitions, MAX_EXHAUSTIVE_SAMPLES};
pub use pelt::{PenalizedTable, Pelt, NO_PENALIZED_PREDECESSOR};
pub use segmentation::{
    lexicographically_smaller, select_stop_rule, unsupported_stop, validate_breakpoints, validate_jump, validate_min_size,
    validate_segment, DetectorCapabilities, SearchGrid, StopRule,
};
pub use signal::{non_finite_error, row_range, validate_signal_shape, validate_storage, SignalShape};
pub use fused::{next_start, start_states, FusedFixedTable, FusedPenalizedTable, FusedSearch, NO_FUSED_PREDECESSOR};
pub use potts::{breakpoints_from_states, validate_potts_input, PottsPath};
pub use rng::{pair_from_draws, sampled_pairs, validate_gamma_sample_size, SplitMix64};
pub use datasets::{cumulative_ends, distribute_remainder, leftover, validate_dataset_shape};
pub use cost::{ar_lag_index, ar_layout, ar_local_offset, l2_prefix_layout, linear_predictors, regression_row_start, starts_increase, tie_runs, validate_metric_shape, validate_sample_counts, ARBoundary, ArLayout, CostFamily};
pub use kernel::{cosine_dimensions, distinct_pair_count, gram_prefix_layout, square_index, CosineKernel, GramLayout, KernelBackend, LinearKernel, GRAM_VALUE_BYTES};
pub use merge::MergeChain;
