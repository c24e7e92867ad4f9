use genetic_algo::route::Route;
use genetic_algo::subsequence::Subsequence;
use genetic_algo::test_utils::valid_permutation;
use genetic_algo::utils::{
    argsort, change_order, get_random_elem_from_range, is_in, ordered_crossover,
    random_permutation, remove_elem, reverse_ordering,
};
use std::cmp::Ordering;

#[test]
fn sample_int_range() {
    get_random_elem_from_range(0, 10);
}

#[test]
fn sample_empty_range() {
    assert_eq!(get_random_elem_from_range(0, 0), 0);
}

#[test]
fn remove_first() {
    assert_eq!(remove_elem(vec![1, 2, 3, 4], 0), vec![2, 3, 4]);
}

#[test]
fn remove_last() {
    assert_eq!(remove_elem(vec![1, 2, 3, 4], 3), vec![1, 2, 3]);
}

#[test]
fn remove_middle() {
    assert_eq!(remove_elem(vec![1, 2, 3, 4], 2), vec![1, 2, 4]);
}

#[test]
fn test_remove_elem_first() {
    assert_eq!(remove_elem(vec![1, 2, 3], 0), vec![2, 3])
}

#[test]
fn test_remove_elem_middle() {
    assert_eq!(remove_elem(vec![1, 2, 3], 1), vec![1, 3])
}

#[test]
fn test_remove_elem_last() {
    assert_eq!(remove_elem(vec![1, 2, 3], 2), vec![1, 2])
}

#[test]
fn put_before_first() {
    assert_eq!(change_order(&vec![1, 2, 3, 4], 0, 1), vec![2, 1, 3, 4]);
}

#[test]
fn put_last_before_first() {
    assert_eq!(change_order(&vec![1, 2, 3, 4], 0, 3), vec![4, 1, 2, 3]);
}

#[test]
fn put_first_before_second() {
    assert_eq!(change_order(&vec![1, 2, 3, 4], 1, 0), vec![1, 2, 3, 4]);
}

#[test]
fn put_before_second() {
    assert_eq!(change_order(&vec![1, 2, 3, 4], 1, 2), vec![1, 3, 2, 4]);
}

#[test]
fn put_last_before_second() {
    assert_eq!(change_order(&vec![1, 2, 3, 4], 1, 3), vec![1, 4, 2, 3]);
}

#[test]
fn put_first_before_last() {
    assert_eq!(change_order(&vec![1, 2, 3, 4], 3, 0), vec![2, 3, 1, 4]);
}

#[test]
fn put_fourth_before_fourth() {
    assert_eq!(change_order(&vec![1, 2, 3, 4], 3, 3), vec![1, 2, 3, 4]);
}

#[test]
fn put_first_before_first() {
    assert_eq!(change_order(&vec![1, 2, 3, 4], 3, 3), vec![1, 2, 3, 4]);
}

#[test]
fn test_change_order_move_first() {
    assert_eq!(change_order(&vec![1, 2, 3], 1, 0), vec![1, 2, 3])
}

#[test]
fn test_change_order_move_middle() {
    assert_eq!(change_order(&vec![1, 2, 3], 0, 1), vec![2, 1, 3])
}

#[test]
fn test_change_order_move_last() {
    assert_eq!(change_order(&vec![1, 2, 3], 0, 2), vec![3, 1, 2])
}

#[test]
fn test_change_order_move_first_before_last() {
    assert_eq!(change_order(&vec![1, 2, 3], 2, 0), vec![2, 1, 3])
}

#[test]
fn test_change_order_move_middle_before_last() {
    assert_eq!(change_order(&vec![1, 2, 3], 2, 1), vec![1, 2, 3])
}

#[test]
fn test_from_paper() {
    assert_eq!(
        ordered_crossover(
            &Route::new(vec![9, 8, 4, 5, 6, 7, 1, 3, 2]),
            &Route::new(vec![8, 7, 1, 2, 3, 0, 9, 5, 4]),
            Subsequence::new(3, 3),
        )
        .indexes,
        vec![2, 3, 0, 5, 6, 7, 9, 4, 8, 1]
    )
}

#[test]
fn utils_simple_test() {
    // The ordered crossover on two small parents.
    assert_eq!(
        ordered_crossover(
            &Route::new(vec![3, 2, 0, 1]),
            &Route::new(vec![1, 2, 3, 0]),
            Subsequence::new(1, 2),
        )
        .indexes,
        vec![3, 2, 0, 1]
    );
    // A random permutation holds exactly the elements it was given.
    let main_vec: Vec<usize> = (0..10).collect();
    assert!(valid_permutation(&main_vec, &random_permutation(&main_vec)));
}

#[test]
fn only_a() {
    assert_eq!(
        ordered_crossover(
            &Route::new(vec![3, 2, 0, 1]),
            &Route::new(vec![1, 2, 3, 0]),
            Subsequence::new(0, 4),
        )
        .indexes,
        vec![3, 2, 0, 1]
    )
}

#[test]
fn only_b() {
    assert_eq!(
        ordered_crossover(
            &Route::new(vec![3, 2, 0, 1]),
            &Route::new(vec![1, 2, 3, 0]),
            Subsequence::new(0, 0),
        )
        .indexes,
        vec![1, 2, 3, 0]
    )
}

#[test]
fn test_from_online_example() {
    assert_eq!(
        ordered_crossover(
            &Route::new(vec![8, 4, 7, 3, 6, 2, 5, 1, 9, 0]),
            &Route::new(vec![0, 1, 2, 3, 4, 5, 6, 7, 8, 9]),
            Subsequence::new(3, 5),
        )
        .indexes,
        vec![4, 7, 3, 6, 2, 5, 1, 8, 9, 0]
    )
}

#[test]
fn larger_examples() {
    assert_eq!(
        ordered_crossover(
            &Route::new(vec![0, 12, 7, 3, 9, 8, 11, 5, 13, 1, 4, 6, 10, 15, 2, 14]),
            &Route::new(vec![7, 10, 15, 12, 2, 9, 5, 3, 1, 6, 4, 13, 14, 11, 8, 0]),
            Subsequence::new(13, 2),
        )
        .indexes,
        vec![11, 8, 15, 2, 0, 7, 10, 12, 9, 5, 3, 1, 6, 4, 13, 14]
    )
}

#[test]
fn not_in() {
    assert_eq!(is_in(0, &vec![1, 2, 3]), false)
}

#[test]
fn not_in_empty_sequence() {
    assert_eq!(is_in(0, &Vec::<usize>::new()), false)
}

#[test]
fn value_is_in() {
    assert_eq!(is_in(0, &vec![1, 0, 3]), true)
}

#[test]
fn value_is_in_duplicated() {
    assert_eq!(is_in(0, &vec![0, 1, 0, 3]), true)
}

#[test]
fn four_floats() {
    let data: Vec<f64> = vec![1.0, 5.0, 3.0, 6.0];
    let keys: Vec<i64> = data.iter().map(|&x| x as i64).collect();
    assert_eq!(argsort(&keys), vec![3, 1, 2, 0]);
}

#[test]
fn thirteen_floats() {
    let data: Vec<f64> = vec![
        13.0, 14.0, 12.0, 10.0, 22.0, 6.0, 16.0, 24.0, 18.0, 23.0, 15.0, 11.0, 17.0,
    ];
    let keys: Vec<i64> = data.iter().map(|&x| x as i64).collect();
    assert_eq!(
        argsort(&keys),
        vec![7, 9, 4, 8, 12, 6, 10, 1, 0, 2, 11, 3, 5],
    );
}

#[test]
fn five_isize() {
    let keys: Vec<i64> = vec![2, 5, 3, 4, 1, 6];
    assert_eq!(argsort(&keys), vec![5, 1, 3, 2, 0, 4]);
}

#[test]
fn greater_to_less() {
    assert_eq!(reverse_ordering(Ordering::Greater), Ordering::Less)
}

#[test]
fn less_to_greater() {
    assert_eq!(reverse_ordering(Ordering::Less), Ordering::Greater)
}

#[test]
fn equal_stays() {
    assert_eq!(reverse_ordering(Ordering::Equal), Ordering::Equal)
}

#[test]
fn same_subsequence() {
    assert!(valid_permutation(&vec![1, 2, 3], &vec![1, 2, 3]));
}

#[test]
fn actual_permuation() {
    assert!(valid_permutation(&vec![1, 2, 3], &vec![3, 1, 2]));
}

#[test]
fn invalid_permuation_too_many() {
    assert!(!valid_permutation(&vec![1, 2, 3], &vec![3, 1, 2, 3]));
}

#[test]
fn invalid_permuation_too_few() {
    assert!(!valid_permutation(&vec![1, 2, 3], &vec![3, 1]));
}

#[test]
fn invalid_permuation_wrong_elem() {
    assert!(!valid_permutation(&vec![1, 2, 3], &vec![3, 1, 4]));
}
