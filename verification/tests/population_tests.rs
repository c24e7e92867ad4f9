use genetic_algo::distance_mat::DistanceMat;
use genetic_algo::route::{Route, PROB_SCALE};
use genetic_algo::routes::{evolve_population, Routes};
use genetic_algo::solution::Solution;
use genetic_algo::test_utils::{test_dist_mat, valid_permutation};

#[test]
fn distance_mat_test_constructor() {
    let dist_mat = DistanceMat::new(vec![vec![0, 1], vec![1, 0]]);
    assert_eq!(dist_mat.distances(), &vec![vec![0, 1], vec![1, 0]]);
}

#[test]
fn test_dist_same_node() {
    assert_eq!(test_dist_mat().compute_cost(&Solution::new(vec![0, 0])), 0);
}

#[test]
fn test_dist_two_nodes() {
    assert_eq!(test_dist_mat().compute_cost(&Solution::new(vec![0, 1])), 2);
    assert_eq!(test_dist_mat().compute_cost(&Solution::new(vec![0, 2])), 4);
    assert_eq!(test_dist_mat().compute_cost(&Solution::new(vec![1, 2])), 6);
}

#[test]
fn test_dist_three_nodes() {
    assert_eq!(
        test_dist_mat().compute_cost(&Solution::new(vec![0, 1, 2])),
        6
    );
    assert_eq!(
        test_dist_mat().compute_cost(&Solution::new(vec![0, 2, 1])),
        6
    );
}

#[test]
fn test_dist_repeat_visit() {
    assert_eq!(
        test_dist_mat().compute_cost(&Solution::new(vec![0, 2, 1, 2])),
        10
    );
}

#[test]
fn from_routes_vector() {
    assert_eq!(
        Routes::from(vec![
            Route::new(vec![0, 1, 2]),
            Route::new(vec![0, 2, 1]),
        ])
        .members(),
        &vec![Route::new(vec![0, 1, 2]), Route::new(vec![0, 2, 1])]
    )
}

#[test]
fn routes_random_constructor() {
    let n_objects = 3;
    let population = Routes::random(3, n_objects);
    assert_eq!(population.members().len(), 3);
    for route in population.members() {
        assert!(valid_permutation(
            &route.indexes,
            &(0..n_objects).collect::<Vec<usize>>()
        ));
    }
}

#[test]
fn routes_test_fitness() {
    let distance_mat = test_dist_mat();
    let population = Routes::from(vec![Route::new(vec![1, 2, 0]), Route::new(vec![1, 0])]);
    let fitnesses = population.fitnesses(&distance_mat);
    assert_eq!(fitnesses.len(), 2);
    for element in vec![
        (-6, Route::new(vec![1, 2, 0])),
        (-2, Route::new(vec![1, 0])),
    ] {
        assert!(fitnesses.contains(&element))
    }
}

#[test]
fn routes_n_0_fittest() {
    let distance_mat = test_dist_mat();
    let routes = Routes::from(vec![
        Route::new(vec![1, 2, 0]),
        Route::new(vec![1, 0]),
        Route::new(vec![2, 0]),
    ]);
    assert_eq!(routes.get_n_fittest(0, &distance_mat), vec![]);
    assert_eq!(
        routes.get_fittest_population(0, &distance_mat).members(),
        &Vec::<Route>::new()
    );
}

#[test]
fn routes_n_1_fittest() {
    let distance_mat = test_dist_mat();
    let routes = Routes::from(vec![
        Route::new(vec![1, 2, 0]),
        Route::new(vec![1, 0]),
        Route::new(vec![2, 0]),
    ]);
    assert_eq!(
        routes.get_n_fittest(1, &distance_mat),
        vec![Route::new(vec![1, 0])],
    );
    assert_eq!(
        routes.get_fittest_population(1, &distance_mat).members(),
        &vec![Route::new(vec![1, 0])],
    );
}

#[test]
fn routes_n_2_fittest() {
    let distance_mat = test_dist_mat();
    let routes = Routes::from(vec![
        Route::new(vec![1, 2, 0]),
        Route::new(vec![1, 0]),
        Route::new(vec![2, 0]),
    ]);
    assert_eq!(
        routes.get_n_fittest(2, &distance_mat),
        vec![Route::new(vec![1, 0]), Route::new(vec![2, 0])],
    );
    assert_eq!(
        routes.get_fittest_population(2, &distance_mat).members(),
        &vec![Route::new(vec![1, 0]), Route::new(vec![2, 0])],
    );
}

#[test]
fn routes_n_3_fittest() {
    let distance_mat = test_dist_mat();
    let routes = Routes::from(vec![
        Route::new(vec![1, 2, 0]),
        Route::new(vec![1, 0]),
        Route::new(vec![2, 0]),
    ]);
    assert_eq!(
        routes.get_n_fittest(3, &distance_mat),
        vec![
            Route::new(vec![1, 0]),
            Route::new(vec![2, 0]),
            Route::new(vec![1, 2, 0]),
        ],
    );
    assert_eq!(
        routes.get_fittest_population(3, &distance_mat).members(),
        &vec![
            Route::new(vec![1, 0]),
            Route::new(vec![2, 0]),
            Route::new(vec![1, 2, 0]),
        ],
    );
}

#[test]
fn routes_simple_test() {
    let distance_mat = test_dist_mat();
    let routes = Routes::from(vec![
        Route::new(vec![1, 2, 0]),
        Route::new(vec![1, 0, 2]),
        Route::new(vec![2, 1, 0]),
    ]);
    let past_max_fitness = routes.get_n_fittest(1, &distance_mat)[0].fitness(&distance_mat);
    let new_routes = routes.evolve(PROB_SCALE / 2).evolve(PROB_SCALE / 2);
    assert!(routes.get_n_fittest(1, &distance_mat)[0].fitness(&distance_mat) <= past_max_fitness);
    assert!(new_routes.members().len() >= 3);
    for route in new_routes.members() {
        assert!(valid_permutation(&vec![0, 1, 2], &route.indexes));
    }
}

#[test]
fn dedup_collapses_duplicates() {
    let population = Routes::from(vec![
        Route::new(vec![0, 1, 2]),
        Route::new(vec![0, 1, 2]),
        Route::new(vec![2, 1, 0]),
    ]);
    assert_eq!(
        population.members(),
        &vec![Route::new(vec![0, 1, 2]), Route::new(vec![2, 1, 0])]
    );
}

/// A six-location distance matrix with no special structure.
fn six_city_matrix() -> DistanceMat {
    DistanceMat::new(vec![
        vec![0, 7, 3, 9, 4, 6],
        vec![7, 0, 5, 2, 8, 1],
        vec![3, 5, 0, 6, 2, 7],
        vec![9, 2, 6, 0, 5, 4],
        vec![4, 8, 2, 5, 0, 3],
        vec![6, 1, 7, 4, 3, 0],
    ])
}

#[test]
fn run_evolution() {
    let n_generations = 10;
    let size_generation = 20;
    let distances = six_city_matrix();
    let routes = Routes::random(size_generation, distances.n_units());
    let max_fit = routes.get_n_fittest(1, &distances)[0].fitness(&distances);
    let routes = evolve_population(routes, n_generations, size_generation, &distances, 0);
    let max_fit_new = routes.get_n_fittest(1, &distances)[0].fitness(&distances);
    assert!(max_fit_new >= max_fit);
}

#[test]
fn monotonic_improvement() {
    let distances = six_city_matrix();
    let initial = Routes::random(10, distances.n_units());
    let initial_best = initial.get_n_fittest(1, &distances)[0].fitness(&distances);
    let evolved = evolve_population(initial, 12, 10, &distances, 0);
    let evolved_best = evolved.get_n_fittest(1, &distances)[0].fitness(&distances);
    assert!(evolved_best >= initial_best);
}

#[test]
fn parallel_and_sequential_no_worse() {
    let distances = six_city_matrix();
    let initial = Routes::random(8, distances.n_units());
    let initial_best = initial.get_n_fittest(1, &distances)[0].fitness(&distances);

    let sequential = evolve_population(initial.clone(), 6, 8, &distances, 0);
    let sequential_best = sequential.get_n_fittest(1, &distances)[0].fitness(&distances);
    assert!(sequential_best >= initial_best);

    let parallel = evolve_population(initial, 6, 8, &distances, 2);
    let parallel_best = parallel.get_n_fittest(1, &distances)[0].fitness(&distances);
    assert!(parallel_best >= initial_best);
}

#[test]
fn zero_generations_identity() {
    let distances = six_city_matrix();
    let initial = Routes::random(5, distances.n_units());
    let evolved = evolve_population(initial.clone(), 0, 5, &distances, 0);
    assert_eq!(evolved.members(), initial.members());
}

#[test]
fn evolve_of_small_population_keeps_parents() {
    let population = Routes::from(vec![Route::new(vec![0, 1, 2])]);
    let evolved = population.evolve(PROB_SCALE);
    assert_eq!(evolved.members(), &vec![Route::new(vec![0, 1, 2])]);
    let empty = Routes::from(Vec::new());
    assert_eq!(empty.evolve(PROB_SCALE).members(), &Vec::<Route>::new());
}

#[test]
fn evolve_produces_both_directions() {
    let population = Routes::from(vec![
        Route::new(vec![1, 2, 0]),
        Route::new(vec![1, 0, 2]),
        Route::new(vec![2, 1, 0]),
    ]);
    // Offspring of every ordered pair plus the three retained parents,
    // deduplicated: never fewer members than parents, never more than
    // pairs plus parents.
    let evolved = population.evolve(0);
    let n = evolved.members().len();
    assert!(n >= 3);
    assert!(n <= 3 * 2 + 3);
    for parent in population.members() {
        assert!(evolved.members().contains(parent));
    }
}
