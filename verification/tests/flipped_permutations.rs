use rauzy_iet::flipped_permutations::{FlippedPermutation, PermutationBuilderError};
use rauzy_iet::{GeneralizedPermutation, WinningSide};

#[test]
fn test_permutation_date_creator() {
    let top = [2, 0, 1];
    let bottom = [1, 2, 0];
    let flip_set = [1];

    let permutation = FlippedPermutation::new(&top, &bottom, &flip_set).unwrap();
    assert_eq!(*permutation.top_row(), vec![2, 0, 1]);
    assert_eq!(*permutation.bottom_row(), vec![1, 2, 0]);
    assert!(permutation.is_flipped(1));
    assert!(!permutation.is_flipped(0));
    assert!(!permutation.is_flipped(2));

    let top = [3, 0, 2, 1];
    let bottom = [3, 2, 1];
    let flip_set = [];
    assert_eq!(
        FlippedPermutation::new(&top, &bottom, &flip_set),
        Err(PermutationBuilderError::UnmatchedInterval)
    );

    let top = [3, 0, 2, 1];
    let bottom = [3, 3, 2, 1];
    let flip_set = [];
    assert_eq!(
        FlippedPermutation::new(&top, &bottom, &flip_set),
        Err(PermutationBuilderError::Repeated(3))
    );

    let top = [4, 0, 2, 1];
    let bottom = [3, 3, 2, 1];
    let flip_set = [];
    assert_eq!(
        FlippedPermutation::new(&top, &bottom, &flip_set),
        Err(PermutationBuilderError::OutOfBounds(4))
    );
}

#[test]
fn test_is_irreducible() {
    let top = vec![2, 0, 1];
    let bottom = vec![1, 2, 0];
    let flip_set = vec![];
    let permutation = FlippedPermutation::new(&top, &bottom, &flip_set).unwrap();
    assert!(permutation.is_irreducible());

    let top = vec![2, 0, 1];
    let bottom = vec![2, 0, 1];
    let flip_set = vec![];
    let permutation = FlippedPermutation::new(&top, &bottom, &flip_set).unwrap();
    assert!(!permutation.is_irreducible());

    let top = vec![2, 0, 1, 3];
    let bottom = vec![1, 2, 0, 3];
    let flip_set = vec![];
    let permutation = FlippedPermutation::new(&top, &bottom, &flip_set).unwrap();
    assert!(!permutation.is_irreducible());

    let top = vec![2, 0, 1, 3];
    let bottom = vec![3, 1, 2, 0];
    let flip_set = vec![];
    let permutation = FlippedPermutation::new(&top, &bottom, &flip_set).unwrap();
    assert!(permutation.is_irreducible());

    let top = vec![1, 3, 0, 2];
    let bottom = vec![3, 1, 2, 0];
    let flip_set = vec![];
    let permutation = FlippedPermutation::new(&top, &bottom, &flip_set).unwrap();
    assert!(!permutation.is_irreducible());
}

#[test]
fn test_rauzy_move() {
    let top = vec![2, 0, 1, 3];
    let bottom = vec![3, 1, 2, 0];
    let flip_set = vec![];
    let old_permutation = FlippedPermutation::new(&top, &bottom, &flip_set).unwrap();

    let top = vec![2, 0, 1, 3];
    let bottom = vec![3, 0, 1, 2];
    let flip_set = vec![];
    let top_winner_result = FlippedPermutation::new(&top, &bottom, &flip_set).unwrap();

    assert_eq!(
        old_permutation.rauzy_move(WinningSide::Top),
        top_winner_result
    );

    let top = vec![2, 0, 3, 1];
    let bottom = vec![3, 1, 2, 0];
    let flip_set = vec![];
    let bottom_winner_result = FlippedPermutation::new(&top, &bottom, &flip_set).unwrap();

    assert_eq!(
        old_permutation.rauzy_move(WinningSide::Bottom),
        bottom_winner_result
    );

    let top = vec![2, 0, 1, 3];
    let bottom = vec![3, 1, 2, 0];
    let flip_set = vec![3];
    let old_permutation = FlippedPermutation::new(&top, &bottom, &flip_set).unwrap();

    let top = vec![2, 0, 1, 3];
    let bottom = vec![0, 3, 1, 2];
    let flip_set = vec![3, 0];
    let top_winner_result = FlippedPermutation::new(&top, &bottom, &flip_set).unwrap();

    assert_eq!(
        old_permutation.rauzy_move(WinningSide::Top),
        top_winner_result
    );

    let top = vec![2, 0, 3, 1];
    let bottom = vec![3, 1, 2, 0];
    let flip_set = vec![3];
    let bottom_winner_result = FlippedPermutation::new(&top, &bottom, &flip_set).unwrap();

    assert_eq!(
        old_permutation.rauzy_move(WinningSide::Bottom),
        bottom_winner_result
    );

    let top = vec![2, 0, 1, 3];
    let bottom = vec![3, 1, 2, 0];
    let flip_set = vec![0];
    let old_permutation = FlippedPermutation::new(&top, &bottom, &flip_set).unwrap();

    let top = vec![2, 0, 1, 3];
    let bottom = vec![3, 0, 1, 2];
    let flip_set = vec![0];
    let top_winner_result = FlippedPermutation::new(&top, &bottom, &flip_set).unwrap();

    assert_eq!(
        old_permutation.rauzy_move(WinningSide::Top),
        top_winner_result
    );

    let top = vec![2, 3, 0, 1];
    let bottom = vec![3, 1, 2, 0];
    let flip_set = vec![3, 0];
    let bottom_winner_result = FlippedPermutation::new(&top, &bottom, &flip_set).unwrap();

    assert_eq!(
        old_permutation.rauzy_move(WinningSide::Bottom),
        bottom_winner_result
    );

    let top = vec![2, 0, 1, 3];
    let bottom = vec![3, 1, 2, 0];
    let flip_set = vec![0, 3];
    let old_permutation = FlippedPermutation::new(&top, &bottom, &flip_set).unwrap();

    let top = vec![2, 0, 1, 3];
    let bottom = vec![0, 3, 1, 2];
    let flip_set = vec![3];
    let top_winner_result = FlippedPermutation::new(&top, &bottom, &flip_set).unwrap();

    assert_eq!(
        old_permutation.rauzy_move(WinningSide::Top),
        top_winner_result
    );

    let top = vec![2, 3, 0, 1];
    let bottom = vec![3, 1, 2, 0];
    let flip_set = vec![0];
    let bottom_winner_result = FlippedPermutation::new(&top, &bottom, &flip_set).unwrap();

    assert_eq!(
        old_permutation.rauzy_move(WinningSide::Bottom),
        bottom_winner_result
    );
}

#[test]
fn test_flip_selection_out_of_range_dropped() {
    let top = [2, 0, 1];
    let bottom = [1, 2, 0];
    let flip_set = [5, 1, 200];
    let permutation = FlippedPermutation::new(&top, &bottom, &flip_set).unwrap();
    assert!(permutation.is_flipped(1));
    assert!(!permutation.is_flipped(0));
    assert!(!permutation.is_flipped(2));
    assert!(!permutation.is_flipped(5));
    assert!(!permutation.is_flipped(200));
}

#[test]
fn test_too_large() {
    let top = vec![0u8; 256];
    let bottom = vec![0u8; 256];
    let flip_set = [];
    assert_eq!(
        FlippedPermutation::new(&top, &bottom, &flip_set),
        Err(PermutationBuilderError::TooLarge)
    );
}

#[test]
fn test_largest_size_accepted() {
    let mut row: Vec<u8> = (0..=254).collect();
    let permutation = FlippedPermutation::new(&row, &row, &[]).unwrap();
    assert_eq!(permutation.len(), 255);
    assert!(!permutation.is_irreducible());
    row.reverse();
    let reversed = FlippedPermutation::new(&row, &[0], &[]);
    assert_eq!(reversed, Err(PermutationBuilderError::UnmatchedInterval));
}

#[test]
fn test_top_error_reported_before_bottom() {
    let top = [1, 1, 0];
    let bottom = [0, 5, 1];
    assert_eq!(
        FlippedPermutation::new(&top, &bottom, &[]),
        Err(PermutationBuilderError::Repeated(1))
    );
    let top = [0, 1, 2];
    assert_eq!(
        FlippedPermutation::new(&top, &bottom, &[]),
        Err(PermutationBuilderError::OutOfBounds(5))
    );
}

#[test]
fn test_single_interval_is_irreducible() {
    let permutation = FlippedPermutation::new(&[0], &[0], &[]).unwrap();
    assert!(permutation.is_irreducible());
}

#[test]
fn test_empty_build_succeeds() {
    let permutation = FlippedPermutation::new(&[], &[], &[]).unwrap();
    assert_eq!(permutation.len(), 0);
}

#[test]
fn test_flip_toggle_round_trip() {
    // The winner (interval 3) is flipped, the loser (interval 0) is not:
    // the move inserts the loser into the flip set.
    let top = vec![2, 0, 1, 3];
    let bottom = vec![3, 1, 2, 0];
    let once = FlippedPermutation::new(&top, &bottom, &[3])
        .unwrap()
        .rauzy_move(WinningSide::Top);
    assert!(once.is_flipped(0) && once.is_flipped(3));

    // Same rows with the loser already flipped: the move removes it again,
    // so the two outcomes differ exactly by the double toggle.
    let twice = FlippedPermutation::new(&top, &bottom, &[3, 0])
        .unwrap()
        .rauzy_move(WinningSide::Top);
    assert!(!twice.is_flipped(0) && twice.is_flipped(3));
    assert_eq!(*once.bottom_row(), *twice.bottom_row());
}
