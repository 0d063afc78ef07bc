use rustures::{breakpoints_from_states, validate_potts_input, Error, PottsPath};

#[test]
fn potts_inputs_must_be_scalar_with_matching_weights() {
    assert_eq!(
        validate_potts_input(2, 4, None),
        Err(Error::ScalarSignalRequired { model: "L1Potts", actual: 2 })
    );
    assert_eq!(
        validate_potts_input(1, 4, Some(3)),
        Err(Error::InvalidWeightsLength { expected: 4, actual: 3 })
    );
    assert_eq!(validate_potts_input(1, 4, Some(4)), Ok(()));
    assert_eq!(validate_potts_input(1, 4, None), Ok(()));
}

#[test]
fn state_paths_are_read_back_through_jumps() {
    let mut path = PottsPath::allocate(5, 3).unwrap();
    for (sample, state) in [0, 1, 1, 2, 2].into_iter().enumerate() {
        path.set_best(sample, state);
    }
    path.set_jump(4, 2, true);
    path.set_jump(3, 2, true);
    path.set_jump(1, 1, true);
    assert_eq!(path.states(), vec![0, 1, 1, 2, 2]);
    assert_eq!(path.breakpoints(), vec![1, 3, 5]);
    assert_eq!(path.best_state(2), 1);
}

#[test]
fn without_jumps_the_path_keeps_the_final_state() {
    let mut path = PottsPath::allocate(4, 2).unwrap();
    path.set_best(3, 1);
    assert_eq!(path.states(), vec![1, 1, 1, 1]);
    assert_eq!(path.breakpoints(), vec![4]);
}

#[test]
fn breakpoints_mark_every_state_change() {
    assert_eq!(breakpoints_from_states(&[4, 4, 4]), vec![3]);
    assert_eq!(breakpoints_from_states(&[0, 1, 0]), vec![1, 2, 3]);
    assert_eq!(breakpoints_from_states(&[7]), vec![1]);
}

#[test]
fn parent_matrix_size_is_checked() {
    assert_eq!(
        PottsPath::allocate(usize::MAX, 2).unwrap_err(),
        Error::NumericalFailure { context: "allocating the L1-Potts parent matrix" }
    );
}
