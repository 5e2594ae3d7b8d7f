use crane_yard::Input;

#[test]
fn permutation_of_the_right_size_is_valid() {
    assert!(Input { n: 1, a: vec![0] }.is_valid());
    assert!(Input { n: 2, a: vec![3, 1, 0, 2] }.is_valid());
    assert!(Input { n: 3, a: vec![8, 7, 6, 5, 4, 3, 2, 1, 0] }.is_valid());
}

#[test]
fn empty_yard_is_not_valid() {
    assert!(!Input { n: 0, a: vec![] }.is_valid());
}

#[test]
fn wrong_length_is_not_valid() {
    assert!(!Input { n: 2, a: vec![0, 1, 2] }.is_valid());
    assert!(!Input { n: 2, a: vec![0, 1, 2, 3, 0] }.is_valid());
    assert!(!Input { n: 1, a: vec![] }.is_valid());
}

#[test]
fn id_out_of_range_is_not_valid() {
    assert!(!Input { n: 2, a: vec![0, 1, 2, 4] }.is_valid());
    assert!(!Input { n: 1, a: vec![1] }.is_valid());
}

#[test]
fn duplicate_id_is_not_valid() {
    assert!(!Input { n: 2, a: vec![0, 1, 1, 3] }.is_valid());
    assert!(!Input { n: 2, a: vec![2, 0, 1, 2] }.is_valid());
}

#[test]
fn side_too_large_to_square_is_not_valid() {
    assert!(!Input { n: usize::MAX, a: vec![0] }.is_valid());
}
