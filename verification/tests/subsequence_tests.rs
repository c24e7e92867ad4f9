use genetic_algo::subsequence::Subsequence;

#[test]
fn test_max_10() {
    let max_value = 10;
    let random_subsequence = Subsequence::random_subsequence(max_value);
    assert!(random_subsequence.start_index < max_value);
    assert!(random_subsequence.length < max_value - random_subsequence.start_index);
    assert!(random_subsequence.start_index + random_subsequence.length < max_value);
}

#[test]
fn test_max_2() {
    let max_value = 2;
    let random_subsequence = Subsequence::random_subsequence(max_value);
    assert!(random_subsequence.start_index < max_value);
    assert!(random_subsequence.length < max_value - random_subsequence.start_index);
    assert!(random_subsequence.start_index + random_subsequence.length < max_value);
}

#[test]
fn subsequence_partial_subsequence() {
    let sequence: Vec<usize> = (0..10).collect();
    let subsequence = Subsequence::new(3, 4);
    assert_eq!(
        subsequence.get_values_in(&sequence),
        Some(sequence[3..=6].to_vec())
    );
    assert_eq!(
        subsequence.get_values_before(&sequence),
        Some(sequence[0..3].to_vec())
    );
    assert_eq!(
        subsequence.get_values_after(&sequence),
        Some(sequence[7..10].to_vec())
    );
}

#[test]
fn subsequence_full_subsequence() {
    let sequence: Vec<usize> = (0..10).collect();
    let subsequence = Subsequence::new(0, 10);
    assert_eq!(
        subsequence.get_values_in(&sequence),
        Some(sequence[0..].to_vec())
    );
    assert_eq!(
        subsequence.get_values_before(&sequence),
        Some(Vec::<usize>::new())
    );
    assert_eq!(
        subsequence.get_values_after(&sequence),
        Some(Vec::<usize>::new())
    );
}

#[test]
fn subsequence_too_short() {
    let sequence: Vec<usize> = (0..10).collect();
    let subsequence = Subsequence::new(5, 12);
    assert_eq!(subsequence.get_values_in(&sequence), None);
    assert_eq!(subsequence.get_values_after(&sequence), None);
}

#[test]
fn too_short_for_sequence() {
    let sequence: Vec<usize> = (0..10).collect();
    let subsequence = Subsequence::new(5, 12);
    assert_eq!(
        subsequence.get_values_before(&sequence),
        Some(sequence[0..5].to_vec())
    );
}

#[test]
fn too_short_for_before_subsequence() {
    let sequence: Vec<usize> = (0..10).collect();
    let subsequence = Subsequence::new(11, 12);
    assert_eq!(subsequence.get_values_before(&sequence), None);
}
