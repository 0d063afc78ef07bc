use rustures::{enumerate_partitions, validate_breakpoints, Error, MAX_EXHAUSTIVE_SAMPLES};

#[test]
fn enumerates_every_partition_for_min_size_one() {
    let partitions = enumerate_partitions(4, 1).unwrap();
    assert_eq!(partitions.len(), 8);
    assert!(partitions.contains(&vec![4]));
    assert!(partitions.contains(&vec![1, 2, 3, 4]));
}

#[test]
fn enforces_minimum_segment_size() {
    assert_eq!(
        enumerate_partitions(5, 2).unwrap(),
        vec![vec![5], vec![2, 5], vec![3, 5]]
    );
}

#[test]
fn rejects_large_exhaustive_problem() {
    assert_eq!(
        enumerate_partitions(13, 1),
        Err(Error::ExhaustiveLimitExceeded {
            actual: 13,
            maximum: 12,
        })
    );
}

#[test]
fn every_enumerated_partition_is_valid_and_distinct() {
    for n in 1..=MAX_EXHAUSTIVE_SAMPLES {
        for min_size in 1..=3 {
            let partitions = enumerate_partitions(n, min_size).unwrap();
            for (i, partition) in partitions.iter().enumerate() {
                assert_eq!(validate_breakpoints(partition, n, min_size), Ok(()));
                assert!(!partitions[i + 1..].contains(partition));
            }
        }
    }
    assert_eq!(enumerate_partitions(12, 1).unwrap().len(), 2048);
}

#[test]
fn partitions_shorter_than_one_segment_do_not_exist() {
    assert_eq!(enumerate_partitions(1, 2).unwrap(), Vec::<Vec<usize>>::new());
}

#[test]
fn enumeration_lists_each_partition_once() {
    for n_samples in 1..=8 {
        for min_size in 1..=3 {
            let partitions = enumerate_partitions(n_samples, min_size).unwrap();
            let mut unique = partitions.clone();
            unique.sort();
            unique.dedup();
            assert_eq!(unique.len(), partitions.len());
        }
    }
}
