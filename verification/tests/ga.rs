use genetic_optimization::genetic::{
    evolve_population, find_best_individual, order_crossover, run_ga, tournament_selection,
};
use genetic_optimization::population::{compute_fitness, Individual, Population};
use genetic_optimization::rng::RandomStream;
use genetic_optimization::utils::{distance, City};

fn city(id: usize, x: i64, y: i64) -> City {
    City { id, x, y }
}

/// The four corners of a unit square, in thousandth units.
fn square() -> Vec<City> {
    vec![
        city(0, 0, 0),
        city(1, 0, 1000),
        city(2, 1000, 1000),
        city(3, 1000, 0),
    ]
}

fn is_permutation(route: &[usize]) -> bool {
    let mut sorted: Vec<usize> = route.to_vec();
    sorted.sort();
    let expected: Vec<usize> = (0..route.len()).collect();
    sorted == expected
}

#[test]
fn distance_three_four_five() {
    let a = city(0, 0, 0);
    let b = city(1, 3000, 4000);
    assert_eq!(distance(&a, &b), 5000);
}

#[test]
fn distance_rounds_down() {
    let a = city(0, 0, 0);
    let b = city(1, 1000, 1000);
    // sqrt(2_000_000) = 1414.21...
    assert_eq!(distance(&a, &b), 1414);
}

#[test]
fn distance_symmetry_and_zero() {
    let a = city(0, -250, 17_000);
    let b = city(1, 930, -4);
    assert_eq!(distance(&a, &b), distance(&b, &a));
    assert_eq!(distance(&a, &a), 0);
    assert_eq!(distance(&b, &b), 0);
}

#[test]
fn fitness_of_square_tour() {
    let cities = square();
    let route: Vec<usize> = vec![0, 1, 2, 3];
    assert_eq!(compute_fitness(&route, &cities), -4000);
}

#[test]
fn fitness_of_crossed_tour() {
    let cities = square();
    let route: Vec<usize> = vec![0, 2, 1, 3];
    // two diagonals of 1414 and two sides of 1000
    assert_eq!(compute_fitness(&route, &cities), -4828);
}

#[test]
fn fitness_of_single_city_tour() {
    let cities = vec![city(9, 4000, -4000)];
    let route: Vec<usize> = vec![0];
    assert_eq!(compute_fitness(&route, &cities), 0);
}

#[test]
fn order_crossover_literal() {
    let p1: Vec<usize> = vec![0, 1, 2, 3, 4];
    let p2: Vec<usize> = vec![4, 3, 2, 1, 0];
    let (c1, c2) = order_crossover(&p1, &p2, 1, 3);
    // child 1 keeps [_, 1, 2, _, _] and fills 0, 4, 3 cyclically from
    // position 3, scanning parent 2 from position 3 and skipping {1, 2}
    assert_eq!(c1, vec![3, 1, 2, 0, 4]);
    // child 2 keeps [_, 3, 2, _, _] and is filled from child 1's updated
    // route, skipping {3, 2}
    assert_eq!(c2, vec![1, 3, 2, 0, 4]);
}

#[test]
fn order_crossover_empty_segment() {
    let p1: Vec<usize> = vec![2, 0, 1];
    let p2: Vec<usize> = vec![1, 2, 0];
    let (c1, c2) = order_crossover(&p1, &p2, 1, 1);
    assert!(is_permutation(&c1));
    assert!(is_permutation(&c2));
    // an empty kept segment means the whole child is filled from the other
    // route in cyclic order, reproducing it
    assert_eq!(c1, vec![1, 2, 0]);
    assert_eq!(c2, vec![1, 2, 0]);
}

#[test]
fn order_crossover_is_deterministic() {
    let p1: Vec<usize> = vec![5, 3, 0, 1, 4, 2];
    let p2: Vec<usize> = vec![2, 4, 5, 0, 3, 1];
    let first = order_crossover(&p1, &p2, 2, 5);
    let second = order_crossover(&p1, &p2, 2, 5);
    assert_eq!(first.0, second.0);
    assert_eq!(first.1, second.1);
    assert!(is_permutation(&first.0));
    assert!(is_permutation(&first.1));
}

#[test]
fn find_best_prefers_first_on_tie() {
    let pop = Population {
        individuals: vec![
            Individual { route: vec![0, 1], fitness: -5 },
            Individual { route: vec![1, 0], fitness: -2 },
            Individual { route: vec![0, 1], fitness: -2 },
        ],
    };
    let best = find_best_individual(&pop);
    assert_eq!(best.fitness, -2);
    assert_eq!(best.route, vec![1, 0]);
}

#[test]
fn tournament_winner_is_a_member() {
    let cities = square();
    let mut rng = RandomStream::from_seed(11);
    let pop = Population::new_random(6, &cities, &mut rng);
    let winner = tournament_selection(&pop, 3, &mut rng);
    assert!(pop
        .individuals
        .iter()
        .any(|ind| ind.route == winner.route && ind.fitness == winner.fitness));
}

#[test]
fn random_population_is_well_formed() {
    let cities = square();
    let mut rng = RandomStream::from_seed(42);
    let pop = Population::new_random(12, &cities, &mut rng);
    assert_eq!(pop.individuals.len(), 12);
    for ind in &pop.individuals {
        assert!(is_permutation(&ind.route));
        assert_eq!(ind.fitness, compute_fitness(&ind.route, &cities));
    }
}

#[test]
fn evolution_keeps_size_and_never_loses_the_best() {
    let cities = square();
    let mut rng = RandomStream::from_seed(7);
    // an odd population size exercises the final half-filled pair
    let mut pop = Population::new_random(7, &cities, &mut rng);
    for _ in 0..10 {
        let before = find_best_individual(&pop).fitness;
        pop = evolve_population(&pop, &cities, 800_000, 100_000, 3, &mut rng);
        assert_eq!(pop.individuals.len(), 7);
        let after = find_best_individual(&pop).fitness;
        assert!(after >= before);
        for ind in &pop.individuals {
            assert!(is_permutation(&ind.route));
            assert_eq!(ind.fitness, compute_fitness(&ind.route, &cities));
        }
    }
}

#[test]
fn run_ga_single_city() {
    let cities = vec![city(3, 12_500, -9000)];
    let mut rng = RandomStream::from_seed(1);
    let best = run_ga(&cities, 20, 50, 800_000, 100_000, 3, &mut rng);
    assert_eq!(best.route, vec![0]);
    assert_eq!(best.fitness, 0);
}

#[test]
fn run_ga_finds_the_square_tour() {
    let cities = square();
    let mut found = false;
    for seed in 1..=5u64 {
        let mut rng = RandomStream::from_seed(seed);
        let best = run_ga(&cities, 20, 50, 800_000, 100_000, 3, &mut rng);
        assert!(is_permutation(&best.route));
        assert_eq!(best.fitness, compute_fitness(&best.route, &cities));
        if best.fitness == -4000 {
            found = true;
        }
    }
    // the optimal closed tour around the unit square has length 4.000
    assert!(found);
}

#[test]
fn run_ga_result_is_well_formed() {
    let cities = vec![
        city(0, 0, 0),
        city(1, 5000, 1000),
        city(2, -3000, 2500),
        city(3, 1200, -4400),
        city(4, 7000, 7000),
        city(5, -2000, -2000),
    ];
    let mut rng = RandomStream::from_seed(99);
    let best = run_ga(&cities, 15, 30, 900_000, 50_000, 2, &mut rng);
    assert!(is_permutation(&best.route));
    assert_eq!(best.fitness, compute_fitness(&best.route, &cities));
}
