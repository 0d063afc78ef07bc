use rustures::{hausdorff, precision_recall, rand_index, validate_pair, Error, MatchCounts, PairCounts};

fn fraction((numerator, denominator): (usize, usize)) -> f64 {
    numerator as f64 / denominator as f64
}

fn precision_and_recall(truth: &[usize], prediction: &[usize], margin: usize) -> (f64, f64) {
    let counts = precision_recall(truth, prediction, margin).unwrap();
    (fraction(counts.precision_fraction()), fraction(counts.recall_fraction()))
}

fn rand_value(counts: PairCounts) -> f64 {
    if counts.total == 0 {
        return 1.0;
    }
    let different_both =
        counts.total - counts.same_truth - counts.same_prediction + counts.same_both;
    (counts.same_both + different_both) as f64 / counts.total as f64
}

#[test]
fn metrics_metrics_match_small_hand_computed_examples() {
    assert_eq!(hausdorff(&[3, 7, 10], &[2, 8, 10]).unwrap() as f64, 1.0);
    assert_eq!(precision_and_recall(&[3, 7, 10], &[2, 5, 10], 2), (0.5, 0.5));
    assert_eq!(rand_value(rand_index(&[2, 4], &[2, 4]).unwrap()), 1.0);
    assert!((rand_value(rand_index(&[2, 4], &[1, 3, 4]).unwrap()) - 0.5).abs() < 1e-12);
}

#[test]
fn mod_metrics_match_small_hand_computed_examples() {
    assert_eq!(hausdorff(&[3, 7, 10], &[2, 8, 10]).unwrap() as f64, 1.0);
    assert_eq!(precision_and_recall(&[3, 7, 10], &[2, 5, 10], 2), (0.5, 0.5));
    assert_eq!(rand_value(rand_index(&[2, 4], &[2, 4]).unwrap()), 1.0);
    assert!((rand_value(rand_index(&[2, 4], &[1, 3, 4]).unwrap()) - 0.5).abs() < 1e-12);
}

#[test]
fn metrics_no_change_edge_cases_are_defined() {
    assert_eq!(hausdorff(&[10], &[10]).unwrap() as f64, 0.0);
    assert_eq!(hausdorff(&[10], &[5, 10]).unwrap() as f64, 10.0);
    assert_eq!(precision_and_recall(&[10], &[10], 1), (1.0, 1.0));
}

#[test]
fn mod_no_change_edge_cases_are_defined() {
    assert_eq!(hausdorff(&[10], &[10]).unwrap() as f64, 0.0);
    assert_eq!(hausdorff(&[10], &[5, 10]).unwrap() as f64, 10.0);
    assert_eq!(precision_and_recall(&[10], &[10], 1), (1.0, 1.0));
}

#[test]
fn pairs_must_share_their_length() {
    assert_eq!(validate_pair(&[], &[3]), Err(Error::EmptyBreakpoints));
    assert_eq!(validate_pair(&[3], &[]), Err(Error::EmptyBreakpoints));
    assert_eq!(
        validate_pair(&[3], &[4]),
        Err(Error::BreakpointLengthMismatch { expected: 3, actual: 4 })
    );
    assert_eq!(
        validate_pair(&[3, 2, 4], &[4]),
        Err(Error::InvalidBreakpoint { position: 1, value: 2, n_samples: 4 })
    );
    assert_eq!(validate_pair(&[2, 4], &[4]), Ok(4));
}

#[test]
fn hausdorff_is_symmetric_and_zero_on_equal_inputs() {
    assert_eq!(hausdorff(&[3, 7, 10], &[2, 8, 10]), hausdorff(&[2, 8, 10], &[3, 7, 10]));
    assert_eq!(hausdorff(&[1, 4, 9, 12], &[1, 4, 9, 12]), Ok(0));
    assert_eq!(hausdorff(&[2, 20], &[15, 18, 20]), Ok(16));
    assert_eq!(
        hausdorff(&[3, 10], &[4]),
        Err(Error::BreakpointLengthMismatch { expected: 10, actual: 4 })
    );
}

#[test]
fn matching_is_one_to_one_within_the_margin() {
    assert_eq!(
        precision_recall(&[5, 6, 20], &[5, 20], 3),
        Ok(MatchCounts { matches: 1, predicted: 1, reference: 2 })
    );
    assert_eq!(
        precision_recall(&[5, 20], &[3, 20], 2),
        Ok(MatchCounts { matches: 0, predicted: 1, reference: 1 })
    );
    assert_eq!(precision_recall(&[5, 20], &[5, 20], 0), Err(Error::InvalidMargin { value: 0 }));
    let empty_prediction = precision_recall(&[5, 20], &[20], 2).unwrap();
    assert_eq!(empty_prediction.precision_fraction(), (0, 1));
    assert_eq!(empty_prediction.recall_fraction(), (0, 1));
}

#[test]
fn rand_index_counts_pairs_of_intervals() {
    assert_eq!(
        rand_index(&[2, 4], &[1, 3, 4]),
        Ok(PairCounts { same_truth: 2, same_prediction: 1, same_both: 0, total: 6 })
    );
    assert_eq!(
        rand_index(&[1], &[1]),
        Ok(PairCounts { same_truth: 0, same_prediction: 0, same_both: 0, total: 0 })
    );
    assert_eq!(rand_index(&[], &[1]), Err(Error::EmptyBreakpoints));
    assert_eq!(
        rand_index(&[2, 4], &[3, 2, 4]),
        Err(Error::InvalidBreakpoint { position: 1, value: 2, n_samples: 4 })
    );
    assert_eq!(
        precision_recall(&[2, 4], &[4, 4], 0),
        Err(Error::InvalidBreakpoint { position: 1, value: 4, n_samples: 4 })
    );
}
