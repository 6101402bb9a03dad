//! Generic local-search metaheuristics for minimization problems: a genetic
//! algorithm and a simulated annealing optimizer, both parameterized over an
//! arbitrary solution type through small capability traits.
//!
//! Fractional parameters (mutation rate, cooling rate, temperatures) are
//! fixed-point numbers in millionths: a rate of one half is `500_000`.
use vstd::prelude::*;

pub mod clock;
pub mod errors;
pub mod genetic_algorithm;
pub mod genetic_algorithm_config;
pub mod index_set;
pub mod knapsack;
pub mod knapsack_format;
pub mod metropolis;
pub mod population;
pub mod rng;
pub mod simulated_annealing;
pub mod simulated_annealing_config;
pub mod solution;

pub use errors::AlgorithmError;
pub use errors::ProblemError;
pub use genetic_algorithm::GeneticAlgorithm;
pub use genetic_algorithm::GeneticAlgorithmResult;
pub use genetic_algorithm_config::GeneticAlgorithmConfig;
pub use knapsack::KnapsackProblem;
pub use knapsack::KnapsackSolution;
pub use knapsack_format::parse_problems;
pub use metropolis::next_temperature;
pub use population::Population;
pub use simulated_annealing::SimulatedAnnealingAlgorithm;
pub use simulated_annealing::SimulationResult;
pub use simulated_annealing_config::SimulatedAnnealingConfig;
pub use solution::lemma_sorted_first_is_minimal;
pub use solution::all_well_formed;
pub use solution::sorted_by_objective;
pub use solution::GeneticCompatible;
pub use solution::ProblemSolution;
pub use solution::SimulatedAnnealing;

verus! {

/// One whole unit in the fixed-point encoding used for rates and
/// temperatures: stored values count millionths.
pub const RATE_SCALE: u64 = 1_000_000;

} // verus!
