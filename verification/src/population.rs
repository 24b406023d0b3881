use vstd::prelude::*;

verus! {

use crate::permutation::identity_route;
use crate::permutation::lemma_identity_route_valid;
use crate::permutation::lemma_same_multiset_valid;
use crate::permutation::valid_route;
use crate::rng::shuffle;
use crate::rng::RandomStream;
use crate::utils::city_dist;
use crate::utils::city_wf;
use crate::utils::distance;
use crate::utils::City;
use crate::utils::EDGE_BOUND;

/// Every city in the list has coordinates in the accepted range.
pub open spec fn points_wf(points: Seq<City>) -> bool {
    forall|i: int| 0 <= i < points.len() ==> city_wf(#[trigger] points[i])
}

/// Total length of the first `k` edges of `route` (the edge from position
/// `i-1` to position `i`, for `i` up to `k`).
pub open spec fn path_len(route: Seq<usize>, points: Seq<City>, k: int) -> int
    decreases k,
{
    if k <= 0 {
        0
    } else {
        path_len(route, points, k - 1) + city_dist(
            points[route[k - 1] as int],
            points[route[k] as int],
        )
    }
}

/// Length of the closed tour: all consecutive edges plus the edge from the
/// last city back to the first. A single-city tour has length zero.
pub open spec fn tour_len(route: Seq<usize>, points: Seq<City>) -> int {
    if route.len() == 0 {
        0
    } else {
        path_len(route, points, route.len() - 1) + city_dist(
            points[route[route.len() - 1] as int],
            points[route[0] as int],
        )
    }
}

/// Fitness is the negated tour length, so that a shorter tour is fitter.
pub open spec fn fitness_of(route: Seq<usize>, points: Seq<City>) -> int {
    -tour_len(route, points)
}

/// One candidate tour together with its cached fitness.
#[derive(Debug)]
pub struct Individual {
    pub route: Vec<usize>,
    pub fitness: i128,
}

/// The individual's route is a permutation of the city indices and its
/// cached fitness equals the fitness of that route: the cache is never stale.
pub open spec fn ind_wf(ind: Individual, points: Seq<City>) -> bool {
    &&& valid_route(ind.route@, points.len())
    &&& ind.fitness == fitness_of(ind.route@, points)
}

/// A collection of individuals evolved together.
#[derive(Debug)]
pub struct Population {
    pub individuals: Vec<Individual>,
}

/// Every individual of the population is well-formed for the city list.
pub open spec fn pop_wf(pop: Population, points: Seq<City>) -> bool {
    forall|i: int|
        0 <= i < pop.individuals@.len() ==> ind_wf(#[trigger] pop.individuals@[i], points)
}

/// Each edge between well-formed cities is shorter than `EDGE_BOUND`, so a
/// partial tour of `k` edges is shorter than `k * EDGE_BOUND`.
proof fn lemma_path_len_bounds(route: Seq<usize>, points: Seq<City>, k: int)
    requires
        points_wf(points),
        valid_route(route, points.len()),
        0 <= k < route.len(),
    ensures
        0 <= path_len(route, points, k) <= k * (EDGE_BOUND as int),
    decreases k,
{
    if k > 0 {
        lemma_path_len_bounds(route, points, k - 1);
        crate::utils::lemma_distance_bounds(
            points[route[k - 1] as int],
            points[route[k] as int],
        );
    }
}

/// An exact copy of a route.
pub(crate) fn copy_route(route: &Vec<usize>) -> (r: Vec<usize>)
    ensures
        r@ == route@,
{
    let mut r: Vec<usize> = Vec::new();
    let n = route.len();
    for i in 0..n
        invariant
            r@.len() == i,
            n == route@.len(),
            forall|k: int| 0 <= k < i ==> r@[k] == route@[k],
    {
        r.push(route[i]);
    }
    proof {
        assert(r@ =~= route@);
    }
    r
}

/// An exact copy of an individual.
pub fn duplicate_individual(ind: &Individual) -> (r: Individual)
    ensures
        r.route@ == ind.route@,
        r.fitness == ind.fitness,
{
    Individual { route: copy_route(&ind.route), fitness: ind.fitness }
}

/// The fitness of a route: the negated length of the closed tour that visits
/// the cities in route order and returns to its starting city.
pub fn compute_fitness(route: &Vec<usize>, cities: &Vec<City>) -> (f: i128)
    requires
        points_wf(cities@),
        valid_route(route@, cities@.len()),
        cities@.len() >= 1,
    ensures
        f == fitness_of(route@, cities@),
{
    let n = route.len();
    let mut total: u128 = 0;
    for i in 1..n
        invariant
            n == route@.len(),
            n == cities@.len(),
            points_wf(cities@),
            valid_route(route@, cities@.len()),
            n >= 1,
            total == path_len(route@, cities@, i - 1),
            total <= (i - 1) * (EDGE_BOUND as int),
    {
        let a = route[i - 1];
        let b = route[i];
        let d = distance(&cities[a], &cities[b]);
        proof {
            lemma_path_len_bounds(route@, cities@, i - 1);
        }
        total = total + (d as u128);
    }
    proof {
        if n > 1 {
            lemma_path_len_bounds(route@, cities@, n - 1);
        }
    }
    let first = route[0];
    let last = route[n - 1];
    let closing = distance(&cities[last], &cities[first]);
    total = total + (closing as u128);
    proof {
        assert(total == tour_len(route@, cities@));
        assert(total <= (n as int) * (EDGE_BOUND as int));
    }
    let f: i128 = total as i128;
    -f
}

/// Builds an individual from a route, computing its fitness.
pub fn make_individual(route: Vec<usize>, cities: &Vec<City>) -> (ind: Individual)
    requires
        points_wf(cities@),
        valid_route(route@, cities@.len()),
        cities@.len() >= 1,
    ensures
        ind_wf(ind, cities@),
        ind.route@ == route@,
{
    let f = compute_fitness(&route, cities);
    Individual { route, fitness: f }
}

impl Individual {
    /// A uniformly random permutation of the city indices, with its fitness.
    pub fn new_random(cities: &Vec<City>, rng: &mut RandomStream) -> (ind: Individual)
        requires
            points_wf(cities@),
            cities@.len() >= 1,
        ensures
            ind_wf(ind, cities@),
    {
        let n = cities.len();
        let mut route: Vec<usize> = Vec::new();
        for i in 0..n
            invariant
                route@.len() == i,
                forall|k: int| 0 <= k < i ==> route@[k] == k as usize,
        {
            route.push(i);
        }
        proof {
            lemma_identity_route_valid(n as nat);
            assert(route@ =~= identity_route(n as nat));
        }
        let ghost before = route@;
        shuffle(&mut route, rng);
        proof {
            lemma_same_multiset_valid(before, route@, n as nat);
        }
        make_individual(route, cities)
    }
}

impl Population {
    /// A population of `pop_size` independent random individuals.
    pub fn new_random(pop_size: usize, cities: &Vec<City>, rng: &mut RandomStream) -> (pop:
        Population)
        requires
            points_wf(cities@),
            cities@.len() >= 1,
        ensures
            pop.individuals@.len() == pop_size,
            pop_wf(pop, cities@),
    {
        let mut individuals: Vec<Individual> = Vec::new();
        for _i in 0..pop_size
            invariant
                individuals@.len() == _i,
                points_wf(cities@),
                cities@.len() >= 1,
                forall|k: int|
                    0 <= k < _i ==> ind_wf(#[trigger] individuals@[k], cities@),
        {
            let ind = Individual::new_random(cities, rng);
            individuals.push(ind);
        }
        Population { individuals }
    }
}

} // verus!
