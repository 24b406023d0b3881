use vstd::prelude::*;

verus! {

use crate::permutation::fill_from;
use crate::permutation::lemma_fill_from_full;
use crate::permutation::lemma_fill_from_props;
use crate::permutation::lemma_rotate_from_valid;
use crate::permutation::lemma_swap_valid;
use crate::permutation::rotate_from;
use crate::permutation::valid_route;
use crate::population::compute_fitness;
use crate::population::duplicate_individual;
use crate::population::ind_wf;
use crate::population::make_individual;
use crate::population::points_wf;
use crate::population::pop_wf;
use crate::population::tour_len;
use crate::population::Individual;
use crate::population::Population;
use crate::rng::RandomStream;
use crate::rng::RATE_SCALE;
use crate::utils::City;

/// Index of the fittest individual; the earliest one wins a tie, since the
/// scan replaces the leader only on a strictly higher fitness.
pub open spec fn best_idx(s: Seq<Individual>) -> int
    decreases s.len(),
{
    if s.len() <= 1 {
        0
    } else {
        let b = best_idx(s.drop_last());
        if s[s.len() - 1].fitness > s[b].fitness {
            s.len() - 1
        } else {
            b
        }
    }
}

/// The highest fitness in the group.
pub open spec fn max_fitness(s: Seq<Individual>) -> int {
    s[best_idx(s)].fitness as int
}

pub proof fn lemma_best_idx_props(s: Seq<Individual>)
    requires
        s.len() >= 1,
    ensures
        0 <= best_idx(s) < s.len(),
        forall|i: int| 0 <= i < s.len() ==> (#[trigger] s[i]).fitness <= max_fitness(s),
        forall|i: int| 0 <= i < best_idx(s) ==> (#[trigger] s[i]).fitness < max_fitness(s),
    decreases s.len(),
{
    if s.len() > 1 {
        lemma_best_idx_props(s.drop_last());
        assert(forall|i: int|
            0 <= i < s.len() - 1 ==> (#[trigger] s[i]) == s.drop_last()[i]);
    }
}

/// Returns a copy of the fittest individual; the earliest one on a tie.
pub fn find_best_individual(pop: &Population) -> (best: Individual)
    requires
        pop.individuals@.len() >= 1,
    ensures
        best.route@ == pop.individuals@[best_idx(pop.individuals@)].route@,
        best.fitness == pop.individuals@[best_idx(pop.individuals@)].fitness,
        best.fitness == max_fitness(pop.individuals@),
        0 <= best_idx(pop.individuals@) < pop.individuals@.len(),
{
    let len = pop.individuals.len();
    let mut best_i: usize = 0;
    for i in 1..len
        invariant
            1 <= i <= len,
            len == pop.individuals@.len(),
            best_i < i,
            best_i as int == best_idx(pop.individuals@.subrange(0, i as int)),
    {
        let ghost pre = pop.individuals@.subrange(0, i as int);
        let ghost cur = pop.individuals@.subrange(0, i + 1);
        proof {
            assert(cur.drop_last() =~= pre);
            assert(cur[cur.len() - 1] == pop.individuals@[i as int]);
            assert(cur[best_idx(pre)] == pre[best_idx(pre)]) by {
                lemma_best_idx_props(pre);
            }
        }
        if pop.individuals[i].fitness > pop.individuals[best_i].fitness {
            best_i = i;
        }
    }
    proof {
        assert(pop.individuals@.subrange(0, len as int) =~= pop.individuals@);
        lemma_best_idx_props(pop.individuals@);
    }
    duplicate_individual(&pop.individuals[best_i])
}

/// Picks `tournament_size` contestants uniformly at random, with
/// replacement, and returns a copy of the fittest seen (the first drawn on
/// a tie). The winner is always a member of the population.
pub fn tournament_selection(pop: &Population, tournament_size: usize, rng: &mut RandomStream) -> (
    winner: Individual)
    requires
        pop.individuals@.len() >= 1,
        tournament_size >= 1,
    ensures
        exists|i: int|
            0 <= i < pop.individuals@.len() && (#[trigger] pop.individuals@[i]).route@
                == winner.route@ && pop.individuals@[i].fitness == winner.fitness,
{
    let len = pop.individuals.len();
    let first = rng.below(len);
    let mut best = duplicate_individual(&pop.individuals[first]);
    proof {
        assert(pop.individuals@[first as int].route@ == best.route@);
    }
    let mut t: usize = 1;
    while t < tournament_size
        invariant
            len == pop.individuals@.len(),
            len >= 1,
            exists|i: int|
                0 <= i < pop.individuals@.len() && (#[trigger] pop.individuals@[i]).route@
                    == best.route@ && pop.individuals@[i].fitness == best.fitness,
        decreases tournament_size - t,
    {
        let idx = rng.below(len);
        if pop.individuals[idx].fitness > best.fitness {
            best = duplicate_individual(&pop.individuals[idx]);
            proof {
                assert(pop.individuals@[idx as int].route@ == best.route@);
            }
        }
        t = t + 1;
    }
    best
}

/// Where the gene filling cyclic position `k` stands in the fill sequence:
/// filling starts at `end` and wraps around past the end of the route.
pub open spec fn ox_pos(k: int, end: int, n: int) -> int {
    if k >= end {
        k - end
    } else {
        k + n - end
    }
}

/// The genes that order crossover writes outside the kept segment: the
/// genes of the second parent, read cyclically from `end`, skipping those
/// already present in the first parent's segment `[start, end)`.
pub open spec fn ox_fill_genes(p1: Seq<usize>, p2: Seq<usize>, start: int, end: int) -> Seq<
    usize,
> {
    fill_from(rotate_from(p2, end), p1.subrange(start, end), p2.len() as int)
}

/// The child of order crossover: the first parent's genes on `[start, end)`,
/// and the fill genes on the remaining positions in cyclic order from `end`.
pub open spec fn ox_child(p1: Seq<usize>, p2: Seq<usize>, start: int, end: int) -> Seq<usize> {
    Seq::new(
        p1.len(),
        |k: int|
            if start <= k < end {
                p1[k]
            } else {
                ox_fill_genes(p1, p2, start, end)[ox_pos(k, end, p1.len() as int)]
            },
    )
}

/// Order crossover preserves permutation validity: the child of two
/// permutations of `0 .. n-1` is again a permutation of `0 .. n-1`.
pub proof fn lemma_ox_child_valid(p1: Seq<usize>, p2: Seq<usize>, start: int, end: int, n: nat)
    requires
        valid_route(p1, n),
        valid_route(p2, n),
        0 <= start <= end <= n,
        n <= usize::MAX,
    ensures
        ox_fill_genes(p1, p2, start, end).len() == n - (end - start),
        valid_route(ox_child(p1, p2, start, end), n),
{
    let seg = p1.subrange(start, end);
    assert forall|a: int, b: int| 0 <= a < b < seg.len() implies seg[a] != seg[b] by {
        assert(seg[a] == p1[start + a]);
        assert(seg[b] == p1[start + b]);
    }
    assert(forall|i: int| 0 <= i < seg.len() ==> (#[trigger] seg[i] as nat) < n);
    let rot = rotate_from(p2, end);
    lemma_rotate_from_valid(p2, n, end);
    lemma_fill_from_full(rot, seg, n);
    lemma_fill_from_props(rot, seg, n as int);
    let fill = ox_fill_genes(p1, p2, start, end);
    assert(fill.len() == n - (end - start));
    let c = ox_child(p1, p2, start, end);
    assert(c.len() == n);
    assert(rot.subrange(0, n as int) =~= rot);
    // every position of the child holds a gene below n
    assert forall|k: int| 0 <= k < c.len() implies (#[trigger] c[k] as nat) < n by {
        if start <= k < end {
            assert(c[k] == p1[k]);
        } else {
            let off = ox_pos(k, end, n as int);
            assert(0 <= off < fill.len());
            assert(c[k] == fill[off]);
            assert(fill.contains(fill[off]));
            assert(rot.contains(fill[off]));
            let j = choose|j: int| 0 <= j < rot.len() && rot[j] == fill[off];
            assert((rot[j] as nat) < n);
        }
    }
    // no gene is repeated
    assert forall|a: int, b: int| 0 <= a < b < c.len() implies c[a] != c[b] by {
        let a_in = start <= a < end;
        let b_in = start <= b < end;
        if a_in && b_in {
            assert(c[a] == p1[a] && c[b] == p1[b]);
        } else if a_in && !b_in {
            assert(c[a] == p1[a]);
            assert(seg[a - start] == p1[a]);
            assert(seg.contains(p1[a]));
            let off = ox_pos(b, end, n as int);
            assert(0 <= off < fill.len());
            assert(c[b] == fill[off]);
            assert(fill.contains(fill[off]));
        } else if !a_in && b_in {
            assert(c[b] == p1[b]);
            assert(seg[b - start] == p1[b]);
            assert(seg.contains(p1[b]));
            let off = ox_pos(a, end, n as int);
            assert(0 <= off < fill.len());
            assert(c[a] == fill[off]);
            assert(fill.contains(fill[off]));
        } else {
            let offa = ox_pos(a, end, n as int);
            let offb = ox_pos(b, end, n as int);
            assert(0 <= offa < fill.len());
            assert(0 <= offb < fill.len());
            assert(offa != offb);
            assert(c[a] == fill[offa] && c[b] == fill[offb]);
        }
    }
}

/// Builds one order-crossover child: it keeps `route1`'s genes on
/// `[start, end)` and fills the remaining positions, cyclically from `end`,
/// with `route2`'s genes read cyclically from `end`, skipping genes already
/// kept. The child is fully determined by the two routes and the segment.
pub fn crossover_child(route1: &Vec<usize>, route2: &Vec<usize>, start: usize, end: usize) -> (
    child: Vec<usize>)
    requires
        valid_route(route1@, route1@.len()),
        valid_route(route2@, route1@.len()),
        route2@.len() == route1@.len(),
        route1@.len() >= 1,
        start <= end,
        end <= route1@.len(),
    ensures
        child@ == ox_child(route1@, route2@, start as int, end as int),
        valid_route(child@, route1@.len()),
{
    let n = route1.len();
    let ghost gn = route1@.len();
    let ghost seg = route1@.subrange(start as int, end as int);
    let ghost rot = rotate_from(route2@, end as int);
    proof {
        lemma_rotate_from_valid(route2@, gn, end as int);
        lemma_ox_child_valid(route1@, route2@, start as int, end as int, gn);
    }
    // mark the genes that the kept segment already holds
    let mut used: Vec<bool> = vec![false; n];
    proof {
        assert(route1@.subrange(start as int, start as int) =~= Seq::<usize>::empty());
    }
    let mut k = start;
    while k < end
        invariant
            n == route1@.len(),
            gn == route1@.len(),
            valid_route(route1@, gn),
            start <= k <= end,
            end <= n,
            used@.len() == n,
            forall|v: usize|
                (v as int) < n ==> (#[trigger] used@[v as int] <==> route1@.subrange(
                    start as int,
                    k as int,
                ).contains(v)),
        decreases end - k,
    {
        let g = route1[k];
        let ghost used0 = used@;
        used[g] = true;
        proof {
            let pre0 = route1@.subrange(start as int, k as int);
            let pre1 = route1@.subrange(start as int, k as int + 1);
            assert(pre1 =~= pre0.push(route1@[k as int]));
            assert(pre1[k - start] == route1@[k as int]);
            assert(pre1.contains(g));
            assert forall|v: usize|
                (v as int) < n implies (#[trigger] used@[v as int] <==> pre1.contains(v)) by {
                if v == g {
                    assert(used@[v as int]);
                } else {
                    assert(used@[v as int] == used0[v as int]);
                    if pre0.contains(v) {
                        let j = choose|j: int| 0 <= j < pre0.len() && pre0[j] == v;
                        assert(pre1[j] == v);
                        assert(pre1.contains(v));
                    }
                    if pre1.contains(v) {
                        let j = choose|j: int| 0 <= j < pre1.len() && pre1[j] == v;
                        assert(j < pre0.len());
                        assert(pre0[j] == v);
                        assert(pre0.contains(v));
                    }
                }
            }
        }
        k = k + 1;
    }
    // collect the fill genes: route2 read cyclically from end, skipping
    // genes of the kept segment
    let mut fill: Vec<usize> = Vec::new();
    let mut o: usize = 0;
    while o < n
        invariant
            n == route1@.len(),
            n == route2@.len(),
            gn == route1@.len(),
            n >= 1,
            valid_route(route1@, gn),
            valid_route(route2@, gn),
            valid_route(rot, gn),
            start <= end <= n,
            seg == route1@.subrange(start as int, end as int),
            rot == rotate_from(route2@, end as int),
            used@.len() == n,
            forall|v: usize| (v as int) < n ==> (#[trigger] used@[v as int] <==> seg.contains(v)),
            o <= n,
            fill@ == fill_from(rot, seg, o as int),
            forall|i: int| 0 <= i < n - end ==> #[trigger] rot[i] == route2@[i + end],
            forall|i: int| n - end <= i < n ==> #[trigger] rot[i] == route2@[i + end - n],
        decreases n - o,
    {
        let src = if o < n - end {
            end + o
        } else {
            o - (n - end)
        };
        let g = route2[src];
        proof {
            assert(g == rot[o as int]);
            assert((route2@[src as int] as nat) < gn);
        }
        if !used[g] {
            fill.push(g);
        }
        o = o + 1;
    }
    // write the fill genes into the child, cyclically from end
    let mut child = crate::population::copy_route(route1);
    let fl = fill.len();
    proof {
        assert(fill@ == ox_fill_genes(route1@, route2@, start as int, end as int));
        assert(fl == gn - (end - start));
    }
    let mut j: usize = 0;
    while j < fl
        invariant
            n == route1@.len(),
            gn == route1@.len(),
            child@.len() == n,
            start <= end <= n,
            n >= 1,
            fl == fill@.len(),
            fl == n - (end - start),
            j <= fl,
            fill@ == ox_fill_genes(route1@, route2@, start as int, end as int),
            forall|k: int| start <= k < end ==> #[trigger] child@[k] == route1@[k],
            forall|k: int|
                0 <= k < n && !(start <= k < end) && ox_pos(k, end as int, n as int) < j
                    ==> #[trigger] child@[k] == fill@[ox_pos(k, end as int, n as int)],
            forall|k: int|
                0 <= k < n && !(start <= k < end) && ox_pos(k, end as int, n as int) >= j
                    ==> #[trigger] child@[k] == route1@[k],
        decreases fl - j,
    {
        let dst = if j < n - end {
            end + j
        } else {
            j - (n - end)
        };
        let g = fill[j];
        proof {
            assert(!(start <= dst < end));
            assert(ox_pos(dst as int, end as int, n as int) == j);
            assert forall|k: int|
                0 <= k < n && !(start <= k < end) && ox_pos(k, end as int, n as int) == j
                    implies k == dst as int by {}
        }
        child[dst] = g;
        j = j + 1;
    }
    proof {
        assert forall|k: int| 0 <= k < n && !(start <= k < end) implies ox_pos(
            k,
            end as int,
            n as int,
        ) < fl by {}
        assert(child@ =~= ox_child(route1@, route2@, start as int, end as int));
    }
    child
}

/// Order crossover of two parent routes over the segment `[start, end)`:
/// the first child keeps the first parent's segment and is filled from the
/// second parent; the second child keeps the second parent's segment and is
/// filled from the first child's already-crossed route. Both children are
/// again permutations, and both are exact functions of the parents and the
/// segment: with the segment fixed, the outcome is reproducible.
pub fn order_crossover(route1: &Vec<usize>, route2: &Vec<usize>, start: usize, end: usize) -> (
    children: (Vec<usize>, Vec<usize>))
    requires
        valid_route(route1@, route1@.len()),
        valid_route(route2@, route1@.len()),
        route2@.len() == route1@.len(),
        route1@.len() >= 1,
        start <= end,
        end <= route1@.len(),
    ensures
        children.0@ == ox_child(route1@, route2@, start as int, end as int),
        children.1@ == ox_child(route2@, children.0@, start as int, end as int),
        valid_route(children.0@, route1@.len()),
        valid_route(children.1@, route1@.len()),
{
    let first = crossover_child(route1, route2, start, end);
    let second = crossover_child(route2, &first, start, end);
    (first, second)
}

/// Swap mutation: with probability `mutation_rate / RATE_SCALE`, exchanges
/// the genes at two uniformly random positions (possibly the same one) and
/// recomputes the fitness. Otherwise the individual is left untouched.
pub fn mutate(
    individual: &mut Individual,
    mutation_rate: u64,
    cities: &Vec<City>,
    rng: &mut RandomStream,
)
    requires
        ind_wf(*old(individual), cities@),
        points_wf(cities@),
        cities@.len() >= 1,
        mutation_rate <= RATE_SCALE,
    ensures
        ind_wf(*final(individual), cities@),
        final(individual).route@ == old(individual).route@ || exists|i: int, j: int|
            0 <= i < old(individual).route@.len() && 0 <= j < old(individual).route@.len()
                && final(individual).route@ == old(individual).route@.update(
                i,
                old(individual).route@[j],
            ).update(j, old(individual).route@[i]),
{
    let draw = rng.below(RATE_SCALE as usize);
    if (draw as u64) < mutation_rate {
        let n = individual.route.len();
        let i = rng.below(n);
        let j = rng.below(n);
        let a = individual.route[i];
        let b = individual.route[j];
        individual.route[i] = b;
        individual.route[j] = a;
        proof {
            lemma_swap_valid(old(individual).route@, i as int, j as int, cities@.len());
            assert(individual.route@ == old(individual).route@.update(
                i as int,
                old(individual).route@[j as int],
            ).update(j as int, old(individual).route@[i as int]));
        }
        individual.fitness = compute_fitness(&individual.route, cities);
    }
}

/// One generation step. The fittest individual of the current population is
/// copied unchanged into the next (elitism), and the remaining slots are
/// filled by tournament-selected parents that undergo order crossover with
/// probability `crossover_rate / RATE_SCALE` and swap mutation with
/// probability `mutation_rate / RATE_SCALE` each. The next population has
/// exactly the size of the current one, every individual carries a valid
/// permutation with a fresh fitness, and the best fitness never drops.
pub fn evolve_population(
    current_pop: &Population,
    cities: &Vec<City>,
    crossover_rate: u64,
    mutation_rate: u64,
    tournament_size: usize,
    rng: &mut RandomStream,
) -> (next: Population)
    requires
        pop_wf(*current_pop, cities@),
        current_pop.individuals@.len() >= 1,
        points_wf(cities@),
        cities@.len() >= 1,
        crossover_rate <= RATE_SCALE,
        mutation_rate <= RATE_SCALE,
        tournament_size >= 1,
    ensures
        next.individuals@.len() == current_pop.individuals@.len(),
        pop_wf(next, cities@),
        max_fitness(next.individuals@) >= max_fitness(current_pop.individuals@),
        next.individuals@[0].route@ == current_pop.individuals@[best_idx(
            current_pop.individuals@,
        )].route@,
        next.individuals@[0].fitness == max_fitness(current_pop.individuals@),
{
    let pop_size = current_pop.individuals.len();
    let best_ind = find_best_individual(current_pop);
    proof {
        lemma_best_idx_props(current_pop.individuals@);
        assert(ind_wf(current_pop.individuals@[best_idx(current_pop.individuals@)], cities@));
    }
    let mut new_individuals: Vec<Individual> = Vec::new();
    new_individuals.push(best_ind);
    while new_individuals.len() < pop_size
        invariant
            pop_size == current_pop.individuals@.len(),
            pop_size >= 1,
            pop_wf(*current_pop, cities@),
            points_wf(cities@),
            cities@.len() >= 1,
            crossover_rate <= RATE_SCALE,
            mutation_rate <= RATE_SCALE,
            tournament_size >= 1,
            1 <= new_individuals@.len() <= pop_size,
            new_individuals@[0].fitness == max_fitness(current_pop.individuals@),
            new_individuals@[0].route@ == current_pop.individuals@[best_idx(
                current_pop.individuals@,
            )].route@,
            forall|k: int|
                0 <= k < new_individuals@.len() ==> ind_wf(
                    #[trigger] new_individuals@[k],
                    cities@,
                ),
        decreases pop_size - new_individuals@.len(),
    {
        let parent1 = tournament_selection(current_pop, tournament_size, rng);
        let parent2 = tournament_selection(current_pop, tournament_size, rng);
        proof {
            let i1 = choose|i: int|
                0 <= i < current_pop.individuals@.len() && (
                #[trigger] current_pop.individuals@[i]).route@ == parent1.route@
                    && current_pop.individuals@[i].fitness == parent1.fitness;
            assert(ind_wf(current_pop.individuals@[i1], cities@));
            let i2 = choose|i: int|
                0 <= i < current_pop.individuals@.len() && (
                #[trigger] current_pop.individuals@[i]).route@ == parent2.route@
                    && current_pop.individuals@[i].fitness == parent2.fitness;
            assert(ind_wf(current_pop.individuals@[i2], cities@));
            assert(ind_wf(parent1, cities@));
            assert(ind_wf(parent2, cities@));
        }
        let mut child1 = parent1;
        let mut child2 = parent2;
        let prob = rng.below(RATE_SCALE as usize);
        if (prob as u64) < crossover_rate {
            let n = cities.len();
            let start = rng.below(n);
            let end = start + rng.below(n - start);
            let (first_route, second_route) = order_crossover(
                &child1.route,
                &child2.route,
                start,
                end,
            );
            child1 = make_individual(first_route, cities);
            child2 = make_individual(second_route, cities);
        }
        mutate(&mut child1, mutation_rate, cities, rng);
        mutate(&mut child2, mutation_rate, cities, rng);
        new_individuals.push(child1);
        if new_individuals.len() < pop_size {
            new_individuals.push(child2);
        }
    }
    proof {
        lemma_best_idx_props(new_individuals@);
        assert(new_individuals@[0].fitness <= max_fitness(new_individuals@));
    }
    Population { individuals: new_individuals }
}

/// A well-formed individual over a single city must hold the only
/// permutation of one index, the route `[0]`, whose closed tour has length
/// zero and hence fitness zero.
pub proof fn lemma_single_city(ind: Individual, points: Seq<City>)
    requires
        ind_wf(ind, points),
        points.len() == 1,
    ensures
        ind.route@ == seq![0usize],
        ind.fitness == 0,
{
    assert(ind.route@.len() == 1);
    assert((ind.route@[0] as nat) < 1);
    assert(ind.route@ =~= seq![0usize]);
    crate::utils::lemma_distance_symmetric(points[0], points[0]);
    assert(tour_len(ind.route@, points) == 0);
}

/// Runs the genetic algorithm: builds a random population of
/// `population_size` individuals, advances it through `generations`
/// generation steps, and returns a copy of the fittest individual of the
/// final population (the earliest on a tie). The result always carries a
/// valid permutation of the city indices together with its exact fitness;
/// over a single city it is the trivial tour with fitness zero.
pub fn run_ga(
    cities: &Vec<City>,
    population_size: usize,
    generations: usize,
    crossover_rate: u64,
    mutation_rate: u64,
    tournament_size: usize,
    rng: &mut RandomStream,
) -> (best: Individual)
    requires
        points_wf(cities@),
        cities@.len() >= 1,
        population_size >= 1,
        crossover_rate <= RATE_SCALE,
        mutation_rate <= RATE_SCALE,
        tournament_size >= 1,
    ensures
        ind_wf(best, cities@),
        cities@.len() == 1 ==> best.route@ == seq![0usize] && best.fitness == 0,
{
    let mut population = Population::new_random(population_size, cities, rng);
    for _g in 0..generations
        invariant
            points_wf(cities@),
            cities@.len() >= 1,
            population_size >= 1,
            crossover_rate <= RATE_SCALE,
            mutation_rate <= RATE_SCALE,
            tournament_size >= 1,
            population.individuals@.len() == population_size,
            pop_wf(population, cities@),
    {
        population = evolve_population(
            &population,
            cities,
            crossover_rate,
            mutation_rate,
            tournament_size,
            rng,
        );
    }
    let best = find_best_individual(&population);
    proof {
        lemma_best_idx_props(population.individuals@);
        assert(ind_wf(population.individuals@[best_idx(population.individuals@)], cities@));
        assert(ind_wf(best, cities@));
        if cities@.len() == 1 {
            lemma_single_city(best, cities@);
        }
    }
    best
}

} // verus!
