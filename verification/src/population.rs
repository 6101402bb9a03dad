//! The population manager used by the genetic algorithm: a collection of
//! candidate solutions kept in ascending objective order, with elitist
//! truncation and a deterministic top-ranked mating scheme.
use crate::errors::AlgorithmError;
use crate::solution::all_well_formed;
use crate::solution::sorted_by_objective;
use crate::solution::GeneticCompatible;
use vstd::prelude::*;
use vstd::seq_lib::group_to_multiset_ensures;

verus! {

/// The evolving candidate set for one genetic algorithm run.
pub struct Population<T: GeneticCompatible> {
    /// Elements of the population; ascending by objective after `sort`.
    elements: Vec<T>,
}

impl<T: GeneticCompatible> View for Population<T> {
    type V = Seq<T>;

    closed spec fn view(&self) -> Seq<T> {
        self.elements@
    }
}

impl<T: GeneticCompatible> Population<T> {
    /// Every element is a well-formed solution.
    pub open spec fn wf(&self) -> bool {
        all_well_formed(self@)
    }

    /// An empty population with room for `capacity` elements.
    pub fn new(capacity: usize) -> (r: Self)
        ensures
            r@ == Seq::<T>::empty(),
            r.wf(),
    {
        Population { elements: Vec::with_capacity(capacity) }
    }

    /// The number of candidates currently held.
    pub fn len(&self) -> (r: usize)
        ensures
            r == self@.len(),
    {
        self.elements.len()
    }

    /// The candidate at position `i`.
    pub fn get(&self, i: usize) -> (r: &T)
        requires
            i < self@.len(),
        ensures
            *r == self@[i as int],
    {
        &self.elements[i]
    }

    /// Append the given individuals; no deduplication.
    pub fn add_individuals(&mut self, individuals: Vec<T>)
        requires
            old(self).wf(),
            all_well_formed(individuals@),
        ensures
            final(self)@ == old(self)@ + individuals@,
            final(self).wf(),
    {
        let mut incoming = individuals;
        self.elements.append(&mut incoming);
        assert forall|k: int| 0 <= k < self@.len() implies (#[trigger] self@[k]).inv() by {
            if k < old(self)@.len() {
                assert(self@[k] == old(self)@[k]);
            } else {
                assert(self@[k] == individuals@[k - old(self)@.len()]);
            }
        }
    }

    /// Keep only the first `size` elements; with the population sorted this
    /// is elitist survival of the lowest objectives.
    pub fn truncate(&mut self, size: usize)
        requires
            old(self).wf(),
        ensures
            size <= old(self)@.len() ==> final(self)@ == old(self)@.subrange(0, size as int),
            size > old(self)@.len() ==> final(self)@ == old(self)@,
            final(self)@.len() <= old(self)@.len(),
            final(self)@.len() <= size,
            final(self).wf(),
            sorted_by_objective(old(self)@) ==> sorted_by_objective(final(self)@),
    {
        self.elements.truncate(size);
        assert forall|k: int| 0 <= k < self@.len() implies (#[trigger] self@[k]).inv() by {
            assert(self@[k] == old(self)@[k]);
        }
    }

    /// Sort ascending by objective. The sort is stable, so a sorted
    /// population is left exactly as it was; in particular sorting twice in
    /// a row yields the same order as sorting once.
    pub fn sort(&mut self)
        requires
            old(self).wf(),
        ensures
            final(self).wf(),
            final(self)@.len() == old(self)@.len(),
            sorted_by_objective(final(self)@),
            final(self)@.to_multiset() == old(self)@.to_multiset(),
            sorted_by_objective(old(self)@) ==> final(self)@ == old(self)@,
    {
        broadcast use group_to_multiset_ensures;
        broadcast use vstd::multiset::group_multiset_axioms;

        let ghost orig = self.elements@;
        assert(orig == old(self)@);
        let mut i: usize = 0;
        while i < self.elements.len()
            invariant
                i <= self.elements@.len(),
                self.elements@.len() == orig.len(),
                sorted_by_objective(self.elements@.subrange(0, i as int)),
                self.elements@.to_multiset() == orig.to_multiset(),
                all_well_formed(self.elements@),
                sorted_by_objective(orig) ==> self.elements@ == orig,
            decreases self.elements@.len() - i,
        {
            let ghost s = self.elements@;
            let key = self.elements[i].objective();
            let mut p: usize = 0;
            while p < i && self.elements[p].objective() <= key
                invariant
                    p <= i,
                    i < self.elements@.len(),
                    self.elements@ == s,
                    all_well_formed(self.elements@),
                    key as int == s[i as int].objective_spec(),
                    forall|q: int| 0 <= q < p ==> #[trigger] s[q].objective_spec() <= key as int,
                decreases i - p,
            {
                p += 1;
            }
            // `p` is the first slot whose objective exceeds the key, so the
            // element at `i` belongs there: equal keys keep their order.
            assert(p < i ==> s[p as int].objective_spec() > key as int);
            let x = self.elements.remove(i);
            self.elements.insert(p, x);
            proof {
                broadcast use group_to_multiset_ensures;
                broadcast use vstd::multiset::group_multiset_axioms;

                let t = self.elements@;
                let r = s.remove(i as int);
                s.remove_ensures(i as int);
                r.insert_ensures(p as int, x);
                assert(t == r.insert(p as int, x));
                // The multiset is untouched: removing the element and
                // reinserting it puts one occurrence back.
                assert(r.to_multiset() == s.to_multiset().remove(x)) by {
                    assert(s.remove(i as int).to_multiset() == s.to_multiset().remove(
                        s[i as int],
                    ));
                }
                assert(t.to_multiset() == r.to_multiset().insert(x)) by {
                    assert(r.insert(p as int, x).to_multiset() == r.to_multiset().insert(x));
                }
                assert(s.contains(x));
                assert(s.to_multiset().count(x) > 0);
                assert(t.to_multiset() =~= s.to_multiset());
                // The grown prefix stays sorted.
                assert(forall|q: int|
                    0 <= q < i ==> s.subrange(0, i as int)[q] == #[trigger] s[q]);
                assert forall|a: int, b: int|
                    0 <= a < b < i + 1 implies #[trigger] t[a].objective_spec()
                    <= #[trigger] t[b].objective_spec() by {
                    assert(sorted_by_objective(s.subrange(0, i as int)));
                }
                assert(sorted_by_objective(t.subrange(0, (i + 1) as int))) by {
                    assert(forall|q: int|
                        0 <= q < i + 1 ==> t.subrange(0, (i + 1) as int)[q] == #[trigger] t[q]);
                }
                // Every slot of the new sequence holds an element of the old
                // one, so well-formedness carries over.
                assert forall|k: int| 0 <= k < t.len() implies (#[trigger] t[k]).inv() by {
                    if k < p {
                        assert(t[k] == s[k]);
                    } else if k == p {
                        assert(t[k] == x);
                    } else if k <= i {
                        assert(t[k] == s[k - 1]);
                    } else {
                        assert(t[k] == s[k]);
                    }
                }
                // A sorted input is never rearranged: the scan walks to `i`
                // and the element is put back where it came from.
                if sorted_by_objective(orig) {
                    assert(s == orig);
                    assert(p == i);
                    assert(t =~= s);
                }
            }
            i += 1;
        }
        proof {
            assert(self.elements@.subrange(0, i as int) == self.elements@);
        }
    }

    /// Pair the top-ranked elements at positions `(0, 1), (2, 3), ...` and
    /// collect all their offspring into one sequence. Fails when fewer than
    /// `2 * number_pairs_parents` elements exist or when any pairing fails;
    /// the population itself is never changed.
    pub fn generate_offspring(
        &mut self,
        number_pairs_parents: usize,
        rng: &mut rand::rngs::StdRng,
    ) -> (r: Result<Vec<T>, AlgorithmError>)
        requires
            old(self).wf(),
        ensures
            final(self)@ == old(self)@,
            final(self).wf(),
            r matches Ok(children) ==> 2 * number_pairs_parents <= old(self)@.len()
                && all_well_formed(children@),
            r matches Err(e) ==> e is ExecutionError,
            2 * (number_pairs_parents as int) > old(self)@.len() ==> r is Err,
            number_pairs_parents == 0 ==> (r matches Ok(children) && children@.len() == 0),
    {
        if number_pairs_parents > self.elements.len() / 2 {
            return Err(
                AlgorithmError::ExecutionError(
                    "the population does not hold enough elements to pair the requested parents",
                ),
            );
        }
        let mut offsprings: Vec<T> = Vec::new();
        let mut idx: usize = 0;
        while idx < number_pairs_parents
            invariant
                idx <= number_pairs_parents,
                number_pairs_parents <= usize::MAX / 2,
                2 * number_pairs_parents <= self.elements@.len(),
                self.elements@ == old(self)@,
                all_well_formed(self.elements@),
                all_well_formed(offsprings@),
                number_pairs_parents == 0 ==> offsprings@.len() == 0,
            decreases number_pairs_parents - idx,
        {
            let first = 2 * idx;
            let child_result = self.elements[first].generate_children_with(
                &self.elements[first + 1],
                rng,
            );
            match child_result {
                Ok(children) => {
                    let ghost added = children@;
                    let mut incoming = children;
                    let ghost before = offsprings@;
                    offsprings.append(&mut incoming);
                    assert forall|k: int| 0 <= k < offsprings@.len() implies (
                    #[trigger] offsprings@[k]).inv() by {
                        if k < before.len() {
                            assert(offsprings@[k] == before[k]);
                        } else {
                            assert(offsprings@[k] == added[k - before.len()]);
                        }
                    }
                },
                Err(_) => {
                    return Err(AlgorithmError::ExecutionError("could not generate offsprings"));
                },
            }
            idx += 1;
        }
        Ok(offsprings)
    }

    /// A copy of the first element; with the population sorted this is the
    /// minimum-objective element present. Fails only on an empty population.
    pub fn best_individual(&self) -> (r: Result<T, AlgorithmError>)
        requires
            self.wf(),
        ensures
            self@.len() == 0 ==> (r matches Err(e) && e is ExecutionError),
            self@.len() > 0 ==> (r matches Ok(best) && best.inv() && best.objective_spec()
                == self@[0].objective_spec()),
    {
        if self.elements.len() == 0 {
            return Err(AlgorithmError::ExecutionError("empty population"));
        }
        Ok(self.elements[0].duplicate())
    }
}

} // verus!
