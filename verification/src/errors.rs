//! Error taxonomy: configuration errors are raised only while building a
//! configuration object; execution errors abort a run. Problem errors come
//! from the solution capabilities and are translated at the boundary.
use vstd::prelude::*;

verus! {

/// Errors surfaced by the algorithms themselves.
#[derive(Debug, Clone)]
pub enum AlgorithmError {
    /// A parameter handed to a configuration constructor is out of contract.
    ConfigurationError(&'static str),
    /// A run failed: a solution capability call failed, or an operation was
    /// attempted on an empty or undersized population.
    ExecutionError(&'static str),
}

impl AlgorithmError {
    /// The static reason string wrapped by this error.
    pub fn reason(&self) -> (r: &'static str)
        ensures
            (self matches AlgorithmError::ConfigurationError(s) ==> r == s),
            (self matches AlgorithmError::ExecutionError(s) ==> r == s),
    {
        match self {
            AlgorithmError::ConfigurationError(s) => s,
            AlgorithmError::ExecutionError(s) => s,
        }
    }
}

/// Errors raised by a problem collaborator.
#[derive(Debug, Clone)]
pub enum ProblemError {
    /// The problem instance itself could not be built.
    InitializationError(&'static str),
    /// A candidate solution could not be produced.
    NewSolutionError(&'static str),
}

impl ProblemError {
    /// The static reason string wrapped by this error.
    pub fn reason(&self) -> (r: &'static str)
        ensures
            (self matches ProblemError::InitializationError(s) ==> r == s),
            (self matches ProblemError::NewSolutionError(s) ==> r == s),
    {
        match self {
            ProblemError::InitializationError(s) => s,
            ProblemError::NewSolutionError(s) => s,
        }
    }
}

} // verus!
