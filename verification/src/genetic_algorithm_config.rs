//! Validated, immutable parameter set for the genetic algorithm. The
//! constructor is the only validation point.
use crate::errors::AlgorithmError;
use crate::RATE_SCALE;
use vstd::prelude::*;

verus! {

/// Configuration for the genetic algorithm.
#[derive(Debug, Clone)]
pub struct GeneticAlgorithmConfig {
    /// Generations to run.
    pub number_generations: usize,
    /// Population size kept after each generation.
    pub population_size: usize,
    /// Mutation rate, a fixed-point fraction of one (`RATE_SCALE` millionths).
    pub mutation_rate: u64,
    /// Number of pairs of parents to select per generation.
    pub number_pairs_parents: usize,
    /// Optional early-stop criterion on the best objective value.
    pub stop_threshold: Option<i64>,
}

impl GeneticAlgorithmConfig {
    /// The invariants the constructor establishes: the mutation rate is a
    /// valid fraction and the population can seat two parents per pair.
    pub open spec fn wf(&self) -> bool {
        &&& self.mutation_rate <= RATE_SCALE
        &&& 2 * (self.number_pairs_parents as int) <= self.population_size as int
    }

    /// Build a validated configuration, or say which invariant failed: a
    /// mutation rate above one, or more parents than the population seats.
    pub fn new(
        number_generations: usize,
        population_size: usize,
        mutation_rate: u64,
        number_pairs_parents: usize,
        stop_threshold: Option<i64>,
    ) -> (r: Result<Self, AlgorithmError>)
        ensures
            (r matches Ok(c)) <==> (mutation_rate <= RATE_SCALE && 2 * (
            number_pairs_parents as int) <= population_size as int),
            r matches Ok(c) ==> c.wf() && c.number_generations == number_generations
                && c.population_size == population_size && c.mutation_rate == mutation_rate
                && c.number_pairs_parents == number_pairs_parents && c.stop_threshold
                == stop_threshold,
            r matches Err(e) ==> e is ConfigurationError,
    {
        if mutation_rate > RATE_SCALE {
            return Err(
                AlgorithmError::ConfigurationError("the mutation rate should be between 0 and 1."),
            );
        }
        if number_pairs_parents > population_size / 2 {
            return Err(
                AlgorithmError::ConfigurationError(
                    "the population of size should be higher than the number of parents selected at each generation",
                ),
            );
        }
        Ok(
            GeneticAlgorithmConfig {
                number_generations,
                population_size,
                mutation_rate,
                number_pairs_parents,
                stop_threshold,
            },
        )
    }
}

impl Default for GeneticAlgorithmConfig {
    /// 100 generations, population 100, mutation rate one tenth, 2 parent
    /// pairs, no stop threshold.
    fn default() -> (r: Self)
        ensures
            r.wf(),
            r.number_generations == 100,
            r.population_size == 100,
            r.mutation_rate == 100_000,
            r.number_pairs_parents == 2,
            r.stop_threshold is None,
    {
        GeneticAlgorithmConfig {
            number_generations: 100,
            population_size: 100,
            mutation_rate: 100_000,
            number_pairs_parents: 2,
            stop_threshold: None,
        }
    }
}

} // verus!
