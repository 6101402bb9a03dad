//! The genetic algorithm: per generation, the top-ranked parents produce
//! offspring, the offspring are mutated and merged into the population, and
//! elitist truncation keeps the lowest objectives.
use crate::clock;
use crate::errors::AlgorithmError;
use crate::genetic_algorithm_config::GeneticAlgorithmConfig;
use crate::population::Population;
use crate::solution::all_well_formed;
use crate::solution::sorted_by_objective;
use crate::solution::GeneticCompatible;
use vstd::prelude::*;
use vstd::seq_lib::group_to_multiset_ensures;

verus! {

/// Genetic algorithm result.
pub struct GeneticAlgorithmResult<T> {
    /// Solution obtained from the genetic algorithm.
    pub solution: T,
    /// Runtime of the algorithm.
    pub runtime: core::time::Duration,
    /// Number of generations required to find the solution.
    pub number_generations: usize,
}

impl<T> GeneticAlgorithmResult<T> {
    /// Wrap a finished run: the solution, the wall time elapsed since
    /// `initial_time`, and the generation count.
    pub fn new(solution: T, initial_time: std::time::Instant, number_generations: usize) -> (r:
        Self)
        ensures
            r.solution == solution,
            r.number_generations == number_generations,
    {
        Self { solution, runtime: clock::elapsed_since(&initial_time), number_generations }
    }
}

/// Main genetic algorithm to solve optimization problems.
pub struct GeneticAlgorithm {
    /// Configuration object for the algorithm.
    pub config: GeneticAlgorithmConfig,
}

impl GeneticAlgorithm {
    /// Wrap a validated configuration.
    pub fn new(config: GeneticAlgorithmConfig) -> (r: Self)
        ensures
            r.config == config,
    {
        Self { config }
    }

    /// One generation: generate offspring from the top-ranked pairs, mutate
    /// each offspring, merge them into the population, re-sort, and truncate
    /// to the configured population size. After a successful generation the
    /// population never exceeds the configured size, stays sorted, and its
    /// best objective never worsens; a failed generation leaves the
    /// population exactly as it was.
    pub fn run_generation<T: GeneticCompatible>(
        &self,
        population: &mut Population<T>,
        rng: &mut rand::rngs::StdRng,
    ) -> (r: Result<(), AlgorithmError>)
        requires
            self.config.wf(),
            old(population).wf(),
            sorted_by_objective(old(population)@),
        ensures
            final(population).wf(),
            sorted_by_objective(final(population)@),
            r matches Ok(_) ==> {
                &&& final(population)@.len() <= self.config.population_size
                &&& (old(population)@.len() > 0 && self.config.population_size > 0
                    ==> final(population)@.len() > 0
                    && final(population)@[0].objective_spec()
                        <= old(population)@[0].objective_spec())
                &&& (old(population)@.len() == 0 ==> final(population)@.len() == 0)
            },
            r matches Err(e) ==> e is ExecutionError && final(population)@ == old(population)@,
            self.config.number_pairs_parents == 0 ==> r is Ok,
            2 * (self.config.number_pairs_parents as int) > old(population)@.len() ==> r is Err,
    {
        // Generate offsprings
        let offsprings = match population.generate_offspring(self.config.number_pairs_parents, rng)
            {
            Ok(children) => children,
            Err(e) => {
                return Err(e);
            },
        };
        let ghost offspring_count = offsprings@.len();

        // Mutate offsprings with a probability
        let mut remaining = offsprings;
        let mut mutated: Vec<T> = Vec::new();
        while remaining.len() > 0
            invariant
                self.config.wf(),
                all_well_formed(remaining@),
                all_well_formed(mutated@),
                mutated@.len() + remaining@.len() == offspring_count,
                self.config.number_pairs_parents == 0 ==> offspring_count == 0,
                population@ == old(population)@,
                population.wf(),
                sorted_by_objective(population@),
            decreases remaining@.len(),
        {
            let mut child = remaining.pop().unwrap();
            match child.mutate(self.config.mutation_rate, rng) {
                Ok(_) => {},
                Err(_) => {
                    return Err(AlgorithmError::ExecutionError("could not mutate offspring"));
                },
            }
            mutated.push(child);
        }

        // Add the offsprings to the population, sort and truncate
        let ghost before = population@;
        population.add_individuals(mutated);
        population.sort();
        proof {
            broadcast use group_to_multiset_ensures;

            let merged = before + mutated@;
            let sorted_seq = population@;
            assert(sorted_seq.to_multiset() == merged.to_multiset());
            assert(sorted_seq.len() == merged.len());
            if before.len() > 0 {
                let leader = before[0];
                assert(merged[0] == leader);
                assert(merged.contains(leader));
                assert(merged.to_multiset().count(leader) > 0);
                assert(sorted_seq.to_multiset().count(leader) > 0);
                assert(sorted_seq.contains(leader));
                let at = sorted_seq.lemma_contains_to_index(leader);
                assert(sorted_seq[0].objective_spec() <= leader.objective_spec());
            }
        }
        population.truncate(self.config.population_size);
        Ok(())
    }

    /// Run the configured number of generations over the given initial
    /// candidates. The returned solution is never worse than any initial
    /// candidate (elitist replacement keeps the best alive), the generation
    /// count never exceeds the configured budget, and the run stops early
    /// only once the best objective falls below the configured threshold.
    /// An empty initial population always fails, as does a first generation
    /// that cannot seat its parent pairs; with no pairs to mate (or no
    /// generations to run) over a non-empty population the run always
    /// succeeds.
    pub fn execute<T: GeneticCompatible>(
        &self,
        initial_elements: Vec<T>,
        rng: &mut rand::rngs::StdRng,
    ) -> (r: Result<GeneticAlgorithmResult<T>, AlgorithmError>)
        requires
            self.config.wf(),
            all_well_formed(initial_elements@),
        ensures
            r matches Ok(result) ==> {
                &&& result.solution.inv()
                &&& result.number_generations <= self.config.number_generations
                &&& (result.number_generations < self.config.number_generations ==> (
                self.config.stop_threshold matches Some(threshold)
                    && result.solution.objective_spec() < threshold as int))
                &&& forall|i: int|
                    0 <= i < initial_elements@.len() ==> result.solution.objective_spec() <= (
                    #[trigger] initial_elements@[i]).objective_spec()
            },
            r matches Err(e) ==> e is ExecutionError,
            self.config.number_generations == 0 && initial_elements@.len() > 0 ==> r is Ok,
            self.config.number_pairs_parents == 0 && self.config.population_size > 0
                && initial_elements@.len() > 0 ==> r is Ok,
            self.config.number_generations > 0 && 2 * (self.config.number_pairs_parents as int)
                > initial_elements@.len() ==> r is Err,
            initial_elements@.len() == 0 ==> r is Err,
    {
        let initial_time = clock::instant_now();
        let mut generation: usize = 0;

        // Create the initial population
        let mut population: Population<T> = Population::new(self.config.population_size);
        population.add_individuals(initial_elements);
        population.sort();
        proof {
            broadcast use group_to_multiset_ensures;

            let ghost start = population@;
            assert(Seq::<T>::empty() + initial_elements@ == initial_elements@);
            assert(start.to_multiset() == initial_elements@.to_multiset());
            assert forall|i: int| 0 <= i < initial_elements@.len() && start.len() > 0 implies
                start[0].objective_spec() <= (#[trigger] initial_elements@[i]).objective_spec() by {
                let candidate = initial_elements@[i];
                assert(initial_elements@.contains(candidate));
                assert(initial_elements@.to_multiset().count(candidate) > 0);
                assert(start.contains(candidate));
                let at = start.lemma_contains_to_index(candidate);
            }
        }

        // Iterate over generations
        while generation < self.config.number_generations
            invariant
                self.config.wf(),
                generation <= self.config.number_generations,
                population.wf(),
                sorted_by_objective(population@),
                population@.len() > 0 ==> forall|i: int|
                    0 <= i < initial_elements@.len() ==> population@[0].objective_spec() <= (
                    #[trigger] initial_elements@[i]).objective_spec(),
                generation == 0 ==> population@.len() == initial_elements@.len(),
                self.config.number_pairs_parents == 0 && self.config.population_size > 0
                    && initial_elements@.len() > 0 ==> population@.len() > 0,
                2 * (self.config.number_pairs_parents as int) > initial_elements@.len()
                    ==> generation == 0,
                initial_elements@.len() == 0 ==> population@.len() == 0,
            ensures
                population.wf(),
                sorted_by_objective(population@),
                generation <= self.config.number_generations,
                population@.len() > 0 ==> forall|i: int|
                    0 <= i < initial_elements@.len() ==> population@[0].objective_spec() <= (
                    #[trigger] initial_elements@[i]).objective_spec(),
                generation == self.config.number_generations || (self.config.stop_threshold matches
                    Some(threshold) && population@.len() > 0 && population@[0].objective_spec()
                    < threshold as int),
                generation == self.config.number_generations || generation >= 1,
                generation == 0 ==> population@.len() == initial_elements@.len(),
                self.config.number_pairs_parents == 0 && self.config.population_size > 0
                    && initial_elements@.len() > 0 ==> population@.len() > 0,
                2 * (self.config.number_pairs_parents as int) > initial_elements@.len()
                    ==> generation == 0,
                initial_elements@.len() == 0 ==> population@.len() == 0,
            decreases self.config.number_generations - generation,
        {
            let ghost pop_before = population@;
            match self.run_generation(&mut population, rng) {
                Ok(_) => {},
                Err(e) => {
                    return Err(e);
                },
            }

            // Update the generation parameter
            generation += 1;

            // Early stopping check
            if let Some(threshold) = self.config.stop_threshold {
                let best = match population.best_individual() {
                    Ok(best) => best,
                    Err(e) => {
                        return Err(e);
                    },
                };
                if best.objective() < threshold {
                    break ;
                }
            }
        }

        let best = match population.best_individual() {
            Ok(best) => best,
            Err(e) => {
                return Err(e);
            },
        };
        let result = GeneticAlgorithmResult::new(best, initial_time, generation);
        Ok(result)
    }
}

} // verus!
