# rustures

Offline change-point detection: exact fixed-`K` dynamic programming, penalized
optimal partitioning with pruning, kernel change-point detection, binary
segmentation, bottom-up merging, window peaks and scalar L1-Potts, with
segmentation metrics and seeded synthetic signals.

## Layout

- `src/` is the verified library. It holds everything that decides a
  segmentation without computing a floating-point cost: breakpoint and
  parameter validation, the candidate grids, the dynamic-programming tables
  and their backtracking and tie-breaks, the pruning bookkeeping of the
  penalized searches, the split and merge structures of the greedy detectors,
  the exhaustive partition enumerator, the integer parts of the metrics
  (distances, matchings, pair counts), the SplitMix64 generator and the
  breakpoint skeleton of the synthetic signals. Every function carries a
  contract that Verus proves, and the properties that span several calls are
  stated as proof functions.
- `tests/` exercises the library on concrete values.
- `app/` is ordinary Rust around the library: the floating-point segment
  costs (L2, L1, rank, normal, linear, AR, continuous linear, Mahalanobis,
  kernels), the score comparisons of the searches, the metric ratios, the
  sample values of the synthetic signals, and the Python extension built with
  PyO3 and NumPy.
