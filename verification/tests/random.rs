use rustures::{pair_from_draws, sampled_pairs, validate_gamma_sample_size, Error, SplitMix64};

#[test]
fn splitmix_reproduces_the_reference_sequence() {
    let mut rng = SplitMix64::new(0);
    assert_eq!(rng.next_u64(), 0xe220_a839_7b1d_cdaf);
    assert_eq!(rng.next_u64(), 0x6e78_9e6a_a1b9_65f4);
    assert_eq!(rng.state(), 0x9e37_79b9_7f4a_7c15u64.wrapping_mul(2));
}

#[test]
fn pairs_from_draws_are_distinct() {
    assert_eq!(pair_from_draws(7, 9, 4), (3, 0));
    assert_eq!(pair_from_draws(5, 4, 4), (1, 2));
    assert_eq!(pair_from_draws(u64::MAX, u64::MAX, 2), (1, 0));
}

#[test]
fn sampled_pairs_are_deterministic_and_valid() {
    let first = sampled_pairs(9, 20, 4).unwrap();
    let second = sampled_pairs(9, 20, 4).unwrap();
    assert_eq!(first, second);
    assert_eq!(first.len(), 20);
    for &(left, right) in &first {
        assert!(left < 4 && right < 4 && left != right);
    }
    let mut rng = SplitMix64::new(9);
    assert_eq!(rng.next_pair(4), first[0]);
    assert_eq!(rng.next_pair(4), first[1]);
}

#[test]
fn sampled_median_needs_pairs() {
    assert_eq!(sampled_pairs(9, 0, 4), Err(Error::InvalidGammaSampleSize { value: 0 }));
    assert_eq!(validate_gamma_sample_size(0), Err(Error::InvalidGammaSampleSize { value: 0 }));
    assert_eq!(validate_gamma_sample_size(1), Ok(()));
}
