use rustures::{
    initial_leaves, nearest_split, next_grid_split, peak_neighborhood, split_positions, Binseg,
    BottomUp, DetectorCapabilities, Error, MergeChain, Partition, SearchGrid, Window,
};

#[test]
fn greedy_detectors_accept_every_stopping_rule() {
    let all = DetectorCapabilities { changes: true, penalty: true, budget: true };
    assert_eq!(Binseg::new(2, 1).unwrap().capabilities(), all);
    assert_eq!(BottomUp::new(2, 1).unwrap().capabilities(), all);
    assert_eq!(Window::new(4, 1, 1).unwrap().capabilities(), all);
    assert_eq!(BottomUp::new(2, 3).unwrap().grid(), SearchGrid { min_size: 2, jump: 3 });
}

#[test]
fn window_width_is_even_and_holds_two_segments() {
    assert_eq!(Window::new(5, 2, 1).unwrap().width(), 4);
    assert_eq!(
        Window::new(3, 2, 1),
        Err(Error::InvalidRange { start: 0, end: 2, n_samples: 4 })
    );
    assert_eq!(Window::new(4, 0, 1), Err(Error::InvalidMinSize { value: 0 }));
}

#[test]
fn window_centers_leave_room_for_both_halves() {
    let window = Window::new(4, 1, 1).unwrap();
    assert_eq!(window.centers(8), vec![2, 3, 4, 5, 6]);
    assert_eq!(window.peak_order(), 2);
    let coarse = Window::new(4, 1, 3).unwrap();
    assert_eq!(coarse.centers(8), vec![3, 6]);
    assert_eq!(peak_neighborhood(1, 2, 5), (0, 4));
    assert_eq!(peak_neighborhood(4, 2, 5), (2, 5));
}

#[test]
fn split_candidates_respect_grid_and_min_size() {
    assert_eq!(next_grid_split(4, 3), 6);
    assert_eq!(next_grid_split(6, 3), 9);
    assert_eq!(split_positions(0, 9, 2, 1), vec![2, 3, 4, 5, 6, 7]);
    assert_eq!(split_positions(1, 9, 2, 3), vec![3, 6]);
    assert_eq!(nearest_split(0, 9, 2, 1), Some(4));
    assert_eq!(nearest_split(0, 3, 2, 1), None);
}

#[test]
fn initial_leaves_cover_the_signal() {
    let leaves = initial_leaves(9, 2, 1);
    assert_eq!(leaves.first().unwrap().0, 0);
    assert_eq!(leaves.last().unwrap().1, 9);
    for pair in leaves.windows(2) {
        assert_eq!(pair[0].1, pair[1].0);
    }
    for &(start, end) in &leaves {
        assert!(end - start >= 2 && end - start < 4);
    }
}

#[test]
fn partition_splits_only_admissible_positions() {
    let mut partition = Partition::new(9, 2);
    assert!(partition.try_split(4));
    assert!(partition.try_split(6));
    assert!(!partition.try_split(5));
    assert!(!partition.try_split(1));
    assert_eq!(partition.breakpoints(), &[4, 6, 9]);
    assert_eq!(partition.n_changes(), 2);
    assert_eq!(partition.locate(5), (1, 4, 6));
    assert!(partition.contains_segment(6, 9));
    assert!(!partition.contains_segment(4, 9));
}

#[test]
fn merge_chain_merges_adjacent_segments() {
    let mut chain = MergeChain::new(9, 2, 1);
    let segments = chain.len_exec();
    assert_eq!(chain.breakpoints().len(), segments);
    let first = 0;
    let second = chain.right_neighbor(first).unwrap();
    let (left_generation, right_generation) = (chain.generation(first), chain.generation(second));
    assert!(chain.is_current(first, second, left_generation, right_generation));
    assert_eq!(chain.merge(first, second), Ok(()));
    assert!(!chain.is_current(first, second, left_generation, right_generation));
    assert_eq!(chain.end(first), chain.start(chain.right_neighbor(first).unwrap()));
    let breakpoints = chain.breakpoints();
    assert_eq!(breakpoints.len(), segments - 1);
    assert_eq!(*breakpoints.last().unwrap(), 9);
    assert_eq!(
        chain.merge(second, first),
        Err(Error::NumericalFailure { context: "merging bottom-up segments" })
    );
}

#[test]
fn merging_everything_leaves_one_segment() {
    let mut chain = MergeChain::new(12, 3, 1);
    while let Some(right) = chain.right_neighbor(0) {
        chain.merge(0, right).unwrap();
    }
    assert_eq!(chain.breakpoints(), vec![12]);
    assert_eq!(chain.left_neighbor(0), None);
}

#[test]
fn initial_leaves_split_nearest_to_each_midpoint() {
    assert_eq!(initial_leaves(10, 2, 1), vec![(0, 2), (2, 5), (5, 7), (7, 10)]);
    assert_eq!(initial_leaves(3, 2, 1), vec![(0, 3)]);
    assert_eq!(initial_leaves(12, 2, 5), vec![(0, 5), (5, 10), (10, 12)]);
}

#[test]
fn merge_chain_starts_from_the_leaves_and_renews_generations() {
    let mut chain = MergeChain::new(10, 2, 1);
    assert_eq!(chain.len_exec(), 4);
    assert_eq!(chain.breakpoints(), vec![2, 5, 7, 10]);
    for index in 0..4 {
        assert_eq!(chain.generation(index), 0);
    }
    assert_eq!(chain.merge(1, 2), Ok(()));
    assert_eq!(chain.generation(0), 0);
    assert_eq!(chain.generation(1), 1);
    assert_eq!(chain.generation(2), 1);
    assert_eq!(chain.generation(3), 0);
    assert_eq!(chain.breakpoints(), vec![2, 7, 10]);
    assert_eq!(chain.right_neighbor(1), Some(3));
    assert!(!chain.is_current(0, 1, 0, 0));
    assert_eq!(chain.merge(0, 1), Ok(()));
    assert_eq!(chain.generation(0), 1);
    assert_eq!(chain.generation(1), 2);
    assert_eq!(chain.breakpoints(), vec![7, 10]);
}
