//! A genetic algorithm for the traveling salesman problem: tournament
//! selection, order crossover, swap mutation, and elitist generation
//! replacement over permutations of city indices, with fixed-point integer
//! geometry and an explicitly threaded random stream.

pub mod genetic;
pub mod permutation;
pub mod population;
pub mod rng;
pub mod utils;
