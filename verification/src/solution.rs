//! Capability contracts a candidate solution type must satisfy to be
//! optimized. The objective is the value to minimize; lower is better. Each
//! capability that perturbs a solution receives the run's randomness source
//! explicitly, so runs stay reproducible under a fixed seed.
use crate::errors::ProblemError;
use crate::RATE_SCALE;
use vstd::prelude::*;

verus! {

/// What both algorithms require of a solution: a deterministic objective
/// value, and a way to copy the solution without disturbing it.
pub trait ProblemSolution: Sized {
    /// Well-formedness of the solution's internal state. Every capability
    /// call keeps it; the algorithms never hand out a value without it.
    spec fn inv(&self) -> bool;

    /// The objective value as a mathematical integer.
    spec fn objective_spec(&self) -> int;

    /// The objective value to minimize. It is a total, deterministic
    /// function of the solution's internal state.
    fn objective(&self) -> (r: i64)
        requires
            self.inv(),
        ensures
            r as int == self.objective_spec(),
    ;

    /// An independent copy with the same objective value.
    fn duplicate(&self) -> (r: Self)
        requires
            self.inv(),
        ensures
            r.inv(),
            r.objective_spec() == self.objective_spec(),
    ;
}

/// The additional capabilities the genetic algorithm needs: in-place
/// stochastic perturbation and offspring generation from two parents.
pub trait GeneticCompatible: ProblemSolution {
    /// Perturb the solution in place. The mutation rate is a fixed-point
    /// fraction of one (`RATE_SCALE` millionths); how it is interpreted is
    /// entirely the solution's business.
    fn mutate(&mut self, mutation_rate: u64, rng: &mut rand::rngs::StdRng) -> (r: Result<
        (),
        ProblemError,
    >)
        requires
            old(self).inv(),
            mutation_rate <= RATE_SCALE,
        ensures
            final(self).inv(),
    ;

    /// Produce one or more offspring from this solution and another parent.
    fn generate_children_with(&self, other_parent: &Self, rng: &mut rand::rngs::StdRng) -> (r:
        Result<Vec<Self>, ProblemError>)
        requires
            self.inv(),
            other_parent.inv(),
        ensures
            r matches Ok(children) ==> children@.len() >= 1 && forall|i: int|
                0 <= i < children@.len() ==> (#[trigger] children@[i]).inv(),
    ;
}

/// The additional capability the simulated annealing algorithm needs:
/// producing one neighboring candidate.
pub trait SimulatedAnnealing: ProblemSolution {
    /// Generate a new solution in the neighborhood of this one.
    fn new_solution(&self, rng: &mut rand::rngs::StdRng) -> (r: Result<Self, ProblemError>)
        requires
            self.inv(),
        ensures
            r matches Ok(neighbor) ==> neighbor.inv(),
    ;
}

/// Every element of `s` is a well-formed solution.
pub open spec fn all_well_formed<T: ProblemSolution>(s: Seq<T>) -> bool {
    forall|k: int| 0 <= k < s.len() ==> (#[trigger] s[k]).inv()
}

/// The elements of `s` are in ascending objective order.
pub open spec fn sorted_by_objective<T: ProblemSolution>(s: Seq<T>) -> bool {
    forall|i: int, j: int|
        0 <= i < j < s.len() ==> #[trigger] s[i].objective_spec() <= #[trigger] s[j].objective_spec()
}

/// In an ascending sequence the first element carries the minimum objective
/// value present.
pub proof fn lemma_sorted_first_is_minimal<T: ProblemSolution>(s: Seq<T>)
    requires
        sorted_by_objective(s),
        s.len() > 0,
    ensures
        forall|i: int| 0 <= i < s.len() ==> s[0].objective_spec() <= #[trigger] s[i].objective_spec(),
{
}

} // verus!
