use rustures::{
    cumulative_ends, distribute_remainder, leftover, validate_breakpoints,
    validate_dataset_shape, Error, SplitMix64,
};

fn uniform(rng: &mut SplitMix64) -> f64 {
    ((rng.next_u64() >> 11) as f64 + 0.5) * (1.0 / ((1u64 << 53) as f64))
}

/// The breakpoints drawn by the synthetic generators: exponential weights
/// shared out by largest remainder.
fn generated_breakpoints(n_samples: usize, n_bkps: usize, rng: &mut SplitMix64) -> Vec<usize> {
    let segments = n_bkps + 1;
    let slack = n_samples - segments;
    let weights: Vec<f64> = (0..segments).map(|_| -uniform(rng).ln()).collect();
    let total: f64 = weights.iter().sum();
    let mut extras: Vec<usize> = weights
        .iter()
        .map(|weight| (slack as f64 * weight / total).floor() as usize)
        .collect();
    let remainder = leftover(slack, &extras).unwrap();
    let mut order: Vec<usize> = (0..segments).collect();
    order.sort_by(|&left, &right| {
        let left_fraction = slack as f64 * weights[left] / total - extras[left] as f64;
        let right_fraction = slack as f64 * weights[right] / total - extras[right] as f64;
        right_fraction.total_cmp(&left_fraction).then(left.cmp(&right))
    });
    distribute_remainder(&mut extras, &order, remainder);
    cumulative_ends(&extras)
}

fn generate(n_samples: usize, n_bkps: usize, seed: u64) -> Vec<usize> {
    validate_dataset_shape(n_samples, 1, n_bkps).unwrap();
    let mut rng = SplitMix64::new(seed);
    generated_breakpoints(n_samples, n_bkps, &mut rng)
}

#[test]
fn generated_breakpoints_are_seeded_and_end_at_the_signal_length() {
    let first = generate(50, 4, 7);
    assert_eq!(first, generate(50, 4, 7));
    assert_eq!(first.len(), 5);
    assert_eq!(first.last(), Some(&50));
    assert_eq!(validate_breakpoints(&first, 50, 1), Ok(()));
}

#[test]
fn generated_breakpoints_are_valid_for_many_seeds() {
    for seed in 0..50 {
        let breakpoints = generate(40, 6, seed);
        assert_eq!(breakpoints.len(), 7);
        assert_eq!(validate_breakpoints(&breakpoints, 40, 1), Ok(()));
    }
}

#[test]
fn dataset_parameters_are_checked() {
    assert_eq!(validate_dataset_shape(0, 1, 0), Err(Error::InvalidDatasetParameters));
    assert_eq!(validate_dataset_shape(5, 0, 0), Err(Error::InvalidDatasetParameters));
    assert_eq!(validate_dataset_shape(5, 1, 5), Err(Error::InvalidDatasetParameters));
    assert_eq!(validate_dataset_shape(5, 1, 4), Ok(()));
}

#[test]
fn remainders_go_to_the_first_segments_in_order() {
    assert_eq!(leftover(10, &[3, 4]), Some(3));
    assert_eq!(leftover(5, &[3, 4]), None);
    let mut extras = vec![1, 0, 2];
    distribute_remainder(&mut extras, &[2, 0, 1], 2);
    assert_eq!(extras, vec![2, 0, 3]);
    let mut all = vec![0, 0];
    distribute_remainder(&mut all, &[1, 0], 5);
    assert_eq!(all, vec![1, 1]);
    assert_eq!(cumulative_ends(&[2, 0, 3]), vec![3, 4, 8]);
    assert_eq!(cumulative_ends(&[]), Vec::<usize>::new());
}
