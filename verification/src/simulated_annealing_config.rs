//! Validated, immutable parameter set for the simulated annealing
//! algorithm. The constructor is the only validation point.
use crate::errors::AlgorithmError;
use crate::RATE_SCALE;
use vstd::prelude::*;

verus! {

/// Configuration for the simulated annealing algorithm. Temperatures are
/// fixed-point numbers in millionths, like the cooling rate.
#[derive(Debug, Clone)]
pub struct SimulatedAnnealingConfig {
    /// Maximum number of iterations.
    pub max_iterations: usize,
    /// Initial temperature for the algorithm.
    pub initial_temperature: u64,
    /// Minimal temperature below which the temperature gets clipped.
    pub minimal_temperature: u64,
    /// Cooling rate, a fixed-point fraction of one (`RATE_SCALE` millionths).
    pub cooling_rate: u64,
    /// Optional early-stop criterion on the best objective value.
    pub stop_threshold: Option<i64>,
}

impl SimulatedAnnealingConfig {
    /// The invariants the constructor establishes: the temperature floor is
    /// below the starting temperature and the cooling rate is a valid
    /// fraction.
    pub open spec fn wf(&self) -> bool {
        &&& self.minimal_temperature <= self.initial_temperature
        &&& self.cooling_rate <= RATE_SCALE
    }

    /// Build a validated configuration, or say which invariant failed: an
    /// initial temperature below the minimal one, or a cooling rate above
    /// one.
    pub fn new(
        max_iterations: usize,
        initial_temperature: u64,
        minimal_temperature: u64,
        cooling_rate: u64,
        stop_threshold: Option<i64>,
    ) -> (r: Result<Self, AlgorithmError>)
        ensures
            (r matches Ok(c)) <==> (minimal_temperature <= initial_temperature && cooling_rate
                <= RATE_SCALE),
            r matches Ok(c) ==> c.wf() && c.max_iterations == max_iterations
                && c.initial_temperature == initial_temperature && c.minimal_temperature
                == minimal_temperature && c.cooling_rate == cooling_rate && c.stop_threshold
                == stop_threshold,
            r matches Err(e) ==> e is ConfigurationError,
    {
        if initial_temperature < minimal_temperature {
            return Err(
                AlgorithmError::ConfigurationError(
                    "the initial temperature should be above the minimal temperature, and both should be larger than 0.0.",
                ),
            );
        }
        if cooling_rate > RATE_SCALE {
            return Err(
                AlgorithmError::ConfigurationError("the cooling rate should be between 0 and 1."),
            );
        }
        Ok(
            SimulatedAnnealingConfig {
                max_iterations,
                initial_temperature,
                minimal_temperature,
                cooling_rate,
                stop_threshold,
            },
        )
    }
}

impl Default for SimulatedAnnealingConfig {
    /// 1000 iterations, initial temperature one, minimal temperature zero,
    /// cooling rate ninety-nine hundredths, no stop threshold.
    fn default() -> (r: Self)
        ensures
            r.wf(),
            r.max_iterations == 1000,
            r.initial_temperature == 1_000_000,
            r.minimal_temperature == 0,
            r.cooling_rate == 990_000,
            r.stop_threshold is None,
    {
        SimulatedAnnealingConfig {
            max_iterations: 1000,
            initial_temperature: 1_000_000,
            minimal_temperature: 0,
            cooling_rate: 990_000,
            stop_threshold: None,
        }
    }
}

} // verus!
