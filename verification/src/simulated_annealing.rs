//! The simulated annealing optimizer: a temperature-driven accept/reject
//! loop over a single current/best solution pair.
use crate::clock;
use crate::errors::AlgorithmError;
use crate::metropolis;
use crate::simulated_annealing_config::SimulatedAnnealingConfig;
use crate::solution::SimulatedAnnealing;
use vstd::prelude::*;

verus! {

/// Simulation result and statistics.
pub struct SimulationResult<T> {
    /// Solution from the metaheuristics.
    pub solution: T,
    /// Run time of the algorithm.
    pub runtime: core::time::Duration,
    /// Number of iterations.
    pub number_iterations: usize,
}

impl<T> SimulationResult<T> {
    /// Wrap a finished run: the solution, the wall time elapsed since
    /// `initial_time`, and the iteration count.
    pub fn new(solution: T, initial_time: std::time::Instant, number_iterations: usize) -> (r: Self)
        ensures
            r.solution == solution,
            r.number_iterations == number_iterations,
    {
        Self { solution, runtime: clock::elapsed_since(&initial_time), number_iterations }
    }
}

/// Main algorithm implementation for the simulated annealing algorithm.
pub struct SimulatedAnnealingAlgorithm {
    /// Configuration object for the algorithm.
    pub config: SimulatedAnnealingConfig,
}

impl SimulatedAnnealingAlgorithm {
    /// Wrap a validated configuration.
    pub fn new(config: SimulatedAnnealingConfig) -> (r: Self)
        ensures
            r.config == config,
    {
        SimulatedAnnealingAlgorithm { config }
    }

    /// Find a solution with minimal objective function. Each iteration draws
    /// one neighbor, accepts it unconditionally when it does not worsen the
    /// objective and otherwise with the Metropolis probability, tracks the
    /// best solution seen, and cools the temperature. The best-seen
    /// objective never increases across the run, so the returned solution is
    /// never worse than the initial one; the run stops early only once the
    /// best objective falls below the configured threshold. A run with no
    /// iteration budget always succeeds and returns the initial objective;
    /// otherwise only a failed neighbor generation fails the run.
    pub fn execute<T: SimulatedAnnealing>(
        &self,
        initial_solution: T,
        rng: &mut rand::rngs::StdRng,
    ) -> (r: Result<SimulationResult<T>, AlgorithmError>)
        requires
            self.config.wf(),
            initial_solution.inv(),
        ensures
            r matches Ok(result) ==> {
                &&& result.solution.inv()
                &&& result.solution.objective_spec() <= initial_solution.objective_spec()
                &&& result.number_iterations <= self.config.max_iterations
                &&& (result.number_iterations < self.config.max_iterations ==> (
                self.config.stop_threshold matches Some(threshold)
                    && result.solution.objective_spec() < threshold as int))
            },
            r matches Err(e) ==> e is ExecutionError,
            self.config.max_iterations == 0 ==> (r matches Ok(result) && result.number_iterations
                == 0 && result.solution.objective_spec()
                == initial_solution.objective_spec()),
    {
        let initial_time = clock::instant_now();

        // Initialize useful mutable variables
        let mut current_solution = initial_solution;
        let mut best_solution = current_solution.duplicate();
        let mut iteration: usize = 0;
        let mut temperature: u64 = self.config.initial_temperature;

        // Loop until the final criterion is reached
        while iteration < self.config.max_iterations
            invariant
                self.config.wf(),
                iteration <= self.config.max_iterations,
                current_solution.inv(),
                best_solution.inv(),
                best_solution.objective_spec() <= initial_solution.objective_spec(),
                best_solution.objective_spec() <= current_solution.objective_spec(),
                self.config.minimal_temperature <= temperature,
                self.config.max_iterations == 0 ==> (iteration == 0
                    && best_solution.objective_spec()
                    == initial_solution.objective_spec()),
            ensures
                iteration == self.config.max_iterations || (self.config.stop_threshold matches Some(
                    threshold,
                ) && best_solution.objective_spec() < threshold as int),
            decreases self.config.max_iterations - iteration,
        {
            let new_solution = match current_solution.new_solution(rng) {
                Ok(neighbor) => neighbor,
                Err(_) => {
                    return Err(
                        AlgorithmError::ExecutionError("could not generate new solution."),
                    );
                },
            };

            // A neighbor that does not worsen the objective is always
            // accepted; a worsening one with the temperature-dependent
            // Metropolis probability.
            let new_objective = new_solution.objective();
            let current_objective = current_solution.objective();
            let accepted = if new_objective <= current_objective {
                true
            } else {
                let delta = (new_objective as i128) - (current_objective as i128);
                metropolis::metropolis_accept(delta, temperature, rng)
            };
            if accepted {
                current_solution = new_solution;
                if current_solution.objective() < best_solution.objective() {
                    best_solution = current_solution.duplicate();
                }
            }

            // Update temperature and iteration counter
            temperature = metropolis::next_temperature(temperature, &self.config);
            iteration += 1;

            // Early stopping check
            if let Some(threshold) = self.config.stop_threshold {
                let best_objective = best_solution.objective();
                if best_objective < threshold {
                    break ;
                }
            }
        }

        // Return the solution
        let result = SimulationResult::new(best_solution, initial_time, iteration);
        Ok(result)
    }
}

} // verus!
