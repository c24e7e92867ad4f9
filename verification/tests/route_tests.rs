use genetic_algo::route::{Route, PROB_SCALE};
use genetic_algo::solution::Solution;
use genetic_algo::test_utils::{test_dist_mat, valid_permutation};

#[test]
fn route_test_constructor() {
    let route = Route::new(vec![1, 2, 3, 4]);
    assert_eq!(route.indexes, vec![1, 2, 3, 4])
}

#[test]
fn route_test_mutuate_no_prob() {
    assert_eq!(
        Route::new(vec![1, 2, 3, 4]).mutate(0).indexes,
        vec![1, 2, 3, 4]
    )
}

#[test]
fn route_test_mutuate_100_prob() {
    for _ in 0..5 {
        assert_ne!(
            Route::new(vec![1, 2, 3, 4]).mutate(PROB_SCALE).indexes,
            vec![1, 2, 3, 4]
        )
    }
}

#[test]
fn route_test_mutuate_100_prob_3_elems() {
    assert_ne!(
        Route::new(vec![1, 2, 3]).mutate(PROB_SCALE).indexes,
        vec![1, 2, 3]
    )
}

#[test]
fn route_test_mutate_simple_run() {
    let test_route = Route::new(vec![1, 2, 0]);
    assert!(valid_permutation(
        &test_route.indexes,
        &test_route.clone().mutate(PROB_SCALE / 2).indexes,
    ));
}

#[test]
fn route_random_test_10() {
    let n_tests = 1000;
    let route_a = Route::new(vec![0, 12, 7, 3, 9, 8, 11, 5, 13, 1, 4, 6, 10, 15, 2, 14]);
    let route_b = Route::new(vec![7, 10, 15, 12, 2, 9, 5, 3, 1, 6, 4, 13, 14, 11, 8, 0]);
    let mut n_no_crossover = 0;
    for _ in 1..n_tests {
        let result = route_a.crossover(&route_b);
        if result.indexes == route_a.indexes || result.indexes == route_b.indexes {
            n_no_crossover += 1;
        }
        assert!(valid_permutation(&result.indexes, &route_a.indexes));
    }
    assert!(n_no_crossover <= n_tests / 5);
}

#[test]
fn route_simple_functionality_test() {
    let distance_mat = test_dist_mat();
    let route = Route::new(vec![1, 2, 0]);
    assert_eq!(route.fitness(&distance_mat), -6);
}

#[test]
fn solution_test_constructor() {
    let solution = Solution::new(vec![1, 2, 3, 4]);
    assert_eq!(solution.indexes, vec![1, 2, 3, 4])
}

#[test]
fn solution_test_mutuate_no_prob() {
    assert_eq!(
        Solution::new(vec![1, 2, 3, 4]).mutate(0).indexes,
        vec![1, 2, 3, 4]
    )
}

#[test]
fn solution_test_mutuate_100_prob() {
    for _ in 0..5 {
        assert_ne!(
            Solution::new(vec![1, 2, 3, 4]).mutate(PROB_SCALE).indexes,
            vec![1, 2, 3, 4]
        )
    }
}

#[test]
fn solution_test_mutuate_100_prob_3_elems() {
    assert_ne!(
        Solution::new(vec![1, 2, 3]).mutate(PROB_SCALE).indexes,
        vec![1, 2, 3]
    )
}

#[test]
fn solution_test_mutate_simple_run() {
    let test_solution = Solution::new(vec![1, 2, 0]);
    assert!(valid_permutation(
        &test_solution.indexes,
        &test_solution.clone().mutate(PROB_SCALE / 2).indexes,
    ));
}

#[test]
fn solution_random_test_10() {
    let n_tests = 1000;
    let solution_a = Solution::new(vec![0, 12, 7, 3, 9, 8, 11, 5, 13, 1, 4, 6, 10, 15, 2, 14]);
    let solution_b = Solution::new(vec![7, 10, 15, 12, 2, 9, 5, 3, 1, 6, 4, 13, 14, 11, 8, 0]);
    let mut n_no_crossover = 0;
    for _ in 1..n_tests {
        let result = solution_a.crossover(&solution_b);
        if result.indexes == solution_a.indexes || result.indexes == solution_b.indexes {
            n_no_crossover += 1;
        }
        assert!(valid_permutation(&result.indexes, &solution_a.indexes));
    }
    assert!(n_no_crossover <= n_tests / 5);
}

#[test]
fn solution_simple_functionality_test() {
    let distance_mat = test_dist_mat();
    let solution = Solution::new(vec![1, 2, 0]);
    assert_eq!(solution.fitness(&distance_mat), -6);
}

#[test]
fn mutate_keeps_permutation_trials() {
    let base: Vec<usize> = (0..12).collect();
    let mut route = Route::new(base.clone());
    for _ in 0..1000 {
        route = route.mutate(PROB_SCALE / 2);
        assert!(valid_permutation(&base, &route.indexes));
        let mut sorted = route.indexes.clone();
        sorted.sort();
        assert_eq!(sorted, base);
    }
}

#[test]
fn crossover_keeps_permutation_trials() {
    let base: Vec<usize> = (0..12).collect();
    let mut parent_a = Route::new(base.clone());
    let mut parent_b = Route::new((0..12).rev().collect());
    for _ in 0..1000 {
        let child = parent_a.crossover(&parent_b);
        let mut sorted = child.indexes.clone();
        sorted.sort();
        assert_eq!(sorted, base);
        parent_a = parent_b;
        parent_b = child;
    }
}
