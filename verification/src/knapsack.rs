//! The reference problem collaborator: a knapsack instance and its candidate
//! solutions. A solution selects items from a fixed value/weight table; the
//! objective is the negated total value while the weight stays within
//! capacity, and zero (the worst possible value) once the capacity is
//! exceeded.
use crate::errors::ProblemError;
use crate::index_set::copy_indices;
use crate::index_set::distinct_indices;
use crate::index_set::index_set_contains;
use crate::index_set::index_set_insert;
use crate::index_set::index_set_remove;
use crate::index_set::lemma_insert_contains;
use crate::index_set::lemma_permutation_keeps_distinct;
use crate::index_set::lemma_remove_contains;
use crate::index_set::lemma_same_members_same_len;
use crate::index_set::lemma_selected_sum_insert;
use crate::index_set::lemma_selected_sum_le_total;
use crate::index_set::lemma_selected_sum_nonneg;
use crate::index_set::lemma_selected_sum_remove;
use crate::index_set::lemma_table_sum_concat;
use crate::index_set::lemma_table_sum_nonneg;
use crate::index_set::selected_sum;
use crate::index_set::selected_total;
use crate::index_set::strictly_increasing;
use crate::index_set::table_sum;
use crate::rng;
use crate::solution::GeneticCompatible;
use crate::solution::ProblemSolution;
use crate::solution::SimulatedAnnealing;
use crate::RATE_SCALE;
use vstd::prelude::*;

verus! {

/// Generic Knapsack problem struct.
#[derive(Debug, Clone, PartialEq)]
pub struct KnapsackProblem {
    /// Number of items possible in the knapsack.
    pub number_items: usize,
    /// Maximum weight allowed.
    pub max_weight: u64,
    /// All values of items in the knapsack.
    pub all_values: Vec<u64>,
    /// All weights of items in the knapsack.
    pub all_weights: Vec<u64>,
    /// Optimal value if known.
    pub optimal_value: Option<u64>,
}

impl KnapsackProblem {
    /// The tables agree with the item count, the values total fits the
    /// signed objective range, and the weights total fits an unsigned
    /// machine word.
    pub open spec fn wf(&self) -> bool {
        &&& self.number_items == self.all_values@.len()
        &&& self.number_items == self.all_weights@.len()
        &&& table_sum(self.all_values@) <= i64::MAX as int
        &&& table_sum(self.all_weights@) <= u64::MAX as int
    }

    /// Build a validated instance: the tables must have one value and one
    /// weight per item, and their totals must fit the machine ranges the
    /// objective works in.
    pub fn new(
        all_values: &Vec<u64>,
        all_weights: &Vec<u64>,
        max_weight: u64,
        optimal_value: Option<u64>,
    ) -> (r: Result<Self, ProblemError>)
        ensures
            (r matches Ok(p)) <==> (all_values@.len() == all_weights@.len() && table_sum(
                all_values@,
            ) <= i64::MAX as int && table_sum(all_weights@) <= u64::MAX as int),
            r matches Ok(p) ==> {
                &&& p.wf()
                &&& p.number_items == all_values@.len()
                &&& p.max_weight == max_weight
                &&& p.all_values@ == all_values@
                &&& p.all_weights@ == all_weights@
                &&& p.optimal_value == optimal_value
            },
            r matches Err(e) ==> e is InitializationError,
    {
        let number_items = all_values.len();
        if all_weights.len() != number_items {
            return Err(
                ProblemError::InitializationError(
                    "the weights and values should have the same length.",
                ),
            );
        }
        if checked_table_total(all_values, i64::MAX as u64).is_none() {
            return Err(
                ProblemError::InitializationError(
                    "the total of the item values does not fit the objective range.",
                ),
            );
        }
        if checked_table_total(all_weights, u64::MAX).is_none() {
            return Err(
                ProblemError::InitializationError(
                    "the total of the item weights does not fit a machine word.",
                ),
            );
        }
        Ok(
            KnapsackProblem {
                number_items,
                max_weight,
                all_values: crate::index_set::copy_table(all_values),
                all_weights: crate::index_set::copy_table(all_weights),
                optimal_value,
            },
        )
    }
}

/// The total of a table when it stays within `bound`, and nothing when it
/// exceeds it.
fn checked_table_total(table: &Vec<u64>, bound: u64) -> (r: Option<u64>)
    ensures
        r matches Some(total) ==> total as int == table_sum(table@) && table_sum(table@)
            <= bound as int,
        r is None <==> table_sum(table@) > bound as int,
{
    let mut total: u64 = 0;
    let mut i: usize = 0;
    while i < table.len()
        invariant
            i <= table@.len(),
            total as int == table_sum(table@.subrange(0, i as int)),
            total <= bound,
        decreases table@.len() - i,
    {
        let entry = table[i];
        proof {
            let prefix = table@.subrange(0, i as int);
            assert(table@.subrange(0, (i + 1) as int) =~= prefix + seq![entry]);
            lemma_table_sum_concat(prefix, seq![entry]);
            assert(seq![entry].drop_first() =~= Seq::<u64>::empty());
            assert(table_sum(Seq::<u64>::empty()) == 0);
            assert(seq![entry][0] == entry);
            assert(table_sum(seq![entry]) == entry + table_sum(seq![entry].drop_first()));
            assert(table@ =~= table@.subrange(0, (i + 1) as int) + table@.subrange(
                (i + 1) as int,
                table@.len() as int,
            ));
            lemma_table_sum_concat(
                table@.subrange(0, (i + 1) as int),
                table@.subrange((i + 1) as int, table@.len() as int),
            );
            lemma_table_sum_nonneg(table@.subrange((i + 1) as int, table@.len() as int));
        }
        if entry > bound - total {
            return None;
        }
        total = total + entry;
        i += 1;
    }
    proof {
        assert(table@.subrange(0, table@.len() as int) =~= table@);
    }
    Some(total)
}

/// Knapsack problem solution.
#[derive(Debug, Clone, PartialEq)]
pub struct KnapsackSolution<'a> {
    /// Current items selected, as strictly increasing indices into the
    /// problem's tables.
    pub items: Vec<usize>,
    /// Current value.
    pub value: u64,
    /// Current weight.
    pub weight: u64,
    /// Reference to the problem.
    pub problem: &'a KnapsackProblem,
}

impl<'a> KnapsackSolution<'a> {
    /// Build a solution holding the given items (duplicates collapse); its
    /// value and weight are the totals its items select.
    pub fn new(current_items: Vec<usize>, problem: &'a KnapsackProblem) -> (r: Result<
        Self,
        ProblemError,
    >)
        requires
            problem.wf(),
            forall|k: int|
                0 <= k < current_items@.len() ==> (#[trigger] current_items@[k])
                    < problem.number_items,
        ensures
            r matches Ok(s) ==> {
                &&& s.inv()
                &&& s.problem == problem
                &&& forall|x: usize| s.items@.contains(x) <==> current_items@.contains(x)
                &&& (distinct_indices(current_items@) ==> s.items@.len() == current_items@.len())
            },
            r is Ok,
    {
        let mut chosen: Vec<usize> = Vec::new();
        let mut i: usize = 0;
        while i < current_items.len()
            invariant
                i <= current_items@.len(),
                strictly_increasing(chosen@),
                problem.wf(),
                forall|k: int|
                    0 <= k < current_items@.len() ==> (#[trigger] current_items@[k])
                        < problem.number_items,
                forall|x: usize|
                    chosen@.contains(x) <==> current_items@.subrange(0, i as int).contains(x),
                forall|k: int| 0 <= k < chosen@.len() ==> (#[trigger] chosen@[k])
                    < problem.number_items,
            decreases current_items@.len() - i,
        {
            let x = current_items[i];
            let ghost pre = chosen@;
            let already = index_set_contains(&chosen, x);
            if !already {
                let p = index_set_insert(&mut chosen, x);
                proof {
                    lemma_insert_contains(pre, p as int, x);
                }
            }
            proof {
                let prefix = current_items@.subrange(0, i as int);
                let grown = current_items@.subrange(0, (i + 1) as int);
                assert(grown =~= prefix.push(x));
                assert(prefix.push(x) =~= prefix.insert(prefix.len() as int, x));
                lemma_insert_contains(prefix, prefix.len() as int, x);
                assert forall|y: usize| chosen@.contains(y) <==> grown.contains(y) by {
                    assert(grown.contains(y) <==> (prefix.contains(y) || y == x));
                    if already {
                        assert(chosen@ == pre);
                        assert(chosen@.contains(x));
                    } else {
                        assert(chosen@.contains(y) <==> (pre.contains(y) || y == x));
                    }
                }
            }
            i += 1;
        }
        proof {
            assert(current_items@.subrange(0, current_items@.len() as int) =~= current_items@);
            lemma_selected_sum_le_total(chosen@, problem.all_values@);
            lemma_selected_sum_le_total(chosen@, problem.all_weights@);
        }
        proof {
            if distinct_indices(current_items@) {
                assert(distinct_indices(chosen@));
                lemma_same_members_same_len(chosen@, current_items@);
            }
        }
        let value = selected_total(&chosen, &problem.all_values);
        let weight = selected_total(&chosen, &problem.all_weights);
        Ok(KnapsackSolution { items: chosen, value, weight, problem })
    }

    /// Build a random solution: the requested number of items (or a random
    /// count of at least one) drawn uniformly without replacement.
    pub fn new_random(
        number_items_in_set: Option<usize>,
        problem: &'a KnapsackProblem,
        rng: &mut rand::rngs::StdRng,
    ) -> (r: Result<Self, ProblemError>)
        requires
            problem.wf(),
            number_items_in_set matches Some(count) ==> count <= problem.number_items,
            number_items_in_set is None ==> problem.number_items > 0,
        ensures
            r matches Ok(s) ==> {
                &&& s.inv()
                &&& s.problem == problem
                &&& (number_items_in_set matches Some(count) ==> s.items@.len() == count)
                &&& (number_items_in_set is None ==> 1 <= s.items@.len()
                    <= problem.number_items)
            },
            r is Ok,
    {
        let count = match number_items_in_set {
            Some(count) => count,
            None => rng::draw_index(rng, problem.number_items) + 1,
        };
        let picked = rng::sample_indices(rng, problem.number_items, count);
        proof {
            assert(distinct_indices(picked@));
        }
        Self::new(picked, problem)
    }

    /// Flip one item's membership, keeping the value and weight totals in
    /// step with the selected items.
    fn toggle_item(&mut self, item: usize)
        requires
            old(self).inv(),
            item < old(self).problem.number_items,
        ensures
            final(self).inv(),
            final(self).problem == old(self).problem,
            final(self).items@.contains(item) <==> !old(self).items@.contains(item),
            forall|y: usize|
                y != item ==> (#[trigger] final(self).items@.contains(y) <==> old(
                self).items@.contains(y)),
    {
        let ghost pre = self.items@;
        let ghost values = self.problem.all_values@;
        let ghost weights = self.problem.all_weights@;
        if index_set_contains(&self.items, item) {
            let p = index_set_remove(&mut self.items, item);
            proof {
                lemma_selected_sum_remove(pre, values, p as int);
                lemma_selected_sum_remove(pre, weights, p as int);
                lemma_selected_sum_nonneg(self.items@, values);
                lemma_selected_sum_nonneg(self.items@, weights);
                lemma_remove_contains(pre, p as int);
                assert forall|k: int| 0 <= k < self.items@.len() implies (#[trigger] self.items@[k])
                    < self.problem.number_items by {
                    assert(self.items@.contains(self.items@[k]));
                    assert(pre.contains(self.items@[k]));
                    let j = choose|j: int| 0 <= j < pre.len() && pre[j] == self.items@[k];
                }
            }
            self.value = self.value - self.problem.all_values[item];
            self.weight = self.weight - self.problem.all_weights[item];
        } else {
            let p = index_set_insert(&mut self.items, item);
            proof {
                lemma_selected_sum_insert(pre, values, p as int, item);
                lemma_selected_sum_insert(pre, weights, p as int, item);
                lemma_insert_contains(pre, p as int, item);
                assert forall|k: int| 0 <= k < self.items@.len() implies (#[trigger] self.items@[k])
                    < self.problem.number_items by {
                    assert(self.items@.contains(self.items@[k]));
                    if self.items@[k] != item {
                        assert(pre.contains(self.items@[k]));
                        let j = choose|j: int| 0 <= j < pre.len() && pre[j] == self.items@[k];
                    }
                }
                lemma_selected_sum_le_total(self.items@, values);
                lemma_selected_sum_le_total(self.items@, weights);
            }
            self.value = self.value + self.problem.all_values[item];
            self.weight = self.weight + self.problem.all_weights[item];
        }
    }
}

impl<'a> ProblemSolution for KnapsackSolution<'a> {
    /// The items are a set of in-range indices and the cached value and
    /// weight are exactly the totals they select, over a well-formed
    /// problem.
    open spec fn inv(&self) -> bool {
        &&& self.problem.wf()
        &&& strictly_increasing(self.items@)
        &&& forall|k: int| 0 <= k < self.items@.len() ==> (#[trigger] self.items@[k])
            < self.problem.number_items
        &&& self.value as int == selected_sum(self.items@, self.problem.all_values@)
        &&& self.weight as int == selected_sum(self.items@, self.problem.all_weights@)
    }

    /// Negated total value while feasible; zero, the worst possible value,
    /// once the weight exceeds the capacity.
    open spec fn objective_spec(&self) -> int {
        if self.weight > self.problem.max_weight {
            0
        } else {
            -(self.value as int)
        }
    }

    fn objective(&self) -> (r: i64) {
        if self.weight > self.problem.max_weight {
            return 0;
        }
        proof {
            lemma_selected_sum_le_total(self.items@, self.problem.all_values@);
            lemma_selected_sum_nonneg(self.items@, self.problem.all_values@);
        }
        -(self.value as i64)
    }

    fn duplicate(&self) -> (r: Self) {
        KnapsackSolution {
            items: copy_indices(&self.items),
            value: self.value,
            weight: self.weight,
            problem: self.problem,
        }
    }
}

impl<'a> SimulatedAnnealing for KnapsackSolution<'a> {
    /// A neighbor: the membership of exactly one uniformly chosen item is
    /// flipped; the call succeeds exactly when the problem has items.
    fn new_solution(&self, rng: &mut rand::rngs::StdRng) -> (r: Result<Self, ProblemError>)
        ensures
            (r is Ok) <==> self.problem.number_items > 0,
            r matches Ok(neighbor) ==> {
                &&& neighbor.problem == self.problem
                &&& exists|j: usize|
                    #![auto]
                    {
                        &&& j < self.problem.number_items
                        &&& (neighbor.items@.contains(j) <==> !self.items@.contains(j))
                        &&& forall|y: usize|
                            y != j ==> (#[trigger] neighbor.items@.contains(y)
                                <==> self.items@.contains(y))
                    }
            },
    {
        if self.problem.number_items == 0 {
            return Err(ProblemError::NewSolutionError("the problem holds no items to flip."));
        }
        let mut neighbor = KnapsackSolution {
            items: copy_indices(&self.items),
            value: self.value,
            weight: self.weight,
            problem: self.problem,
        };
        let flipped = rng::draw_index(rng, self.problem.number_items);
        neighbor.toggle_item(flipped);
        proof {
            assert(flipped < self.problem.number_items);
            assert(neighbor.items@.contains(flipped) <==> !self.items@.contains(flipped));
            assert(forall|y: usize|
                y != flipped ==> (#[trigger] neighbor.items@.contains(y)
                    <==> self.items@.contains(y)));
        }
        Ok(neighbor)
    }
}

impl<'a> GeneticCompatible for KnapsackSolution<'a> {
    /// Flip the membership of a sampled set of items: the floor of the
    /// mutation rate times the item count, distinct items drawn without
    /// replacement. The call never fails.
    fn mutate(&mut self, mutation_rate: u64, rng: &mut rand::rngs::StdRng) -> (r: Result<
        (),
        ProblemError,
    >)
        ensures
            r is Ok,
            final(self).problem == old(self).problem,
            exists|flips: Seq<usize>|
                #![auto]
                {
                    &&& flips.len() == (mutation_rate as int
                        * old(self).problem.number_items as int) / (RATE_SCALE as int)
                    &&& distinct_indices(flips)
                    &&& forall|k: int|
                        0 <= k < flips.len() ==> (#[trigger] flips[k])
                            < old(self).problem.number_items
                    &&& forall|y: usize|
                        #[trigger] final(self).items@.contains(y) <==> (old(
                        self).items@.contains(y) <==> !flips.contains(y))
                },
    {
        let total_number_items = self.problem.number_items;
        proof {
            let rate = mutation_rate as int;
            let n = total_number_items as int;
            let s = RATE_SCALE as int;
            assert(rate * n <= s * n) by (nonlinear_arith)
                requires
                    0 <= rate <= s,
                    0 <= n,
            ;
            vstd::arithmetic::div_mod::lemma_div_is_ordered(rate * n, s * n, s);
            vstd::arithmetic::div_mod::lemma_div_multiples_vanish(n, s);
            assert(rate * n >= 0) by (nonlinear_arith)
                requires
                    0 <= rate,
                    0 <= n,
            ;
        }
        let flips_wide: u128 = (mutation_rate as u128) * (total_number_items as u128) / (
        RATE_SCALE as u128);
        let expected_number_flips: usize = flips_wide as usize;
        let indices = rng::sample_indices(rng, total_number_items, expected_number_flips);
        proof {
            assert(indices@.subrange(0, 0) =~= Seq::<usize>::empty());
        }
        let mut k: usize = 0;
        while k < indices.len()
            invariant
                k <= indices@.len(),
                self.inv(),
                self.problem == old(self).problem,
                distinct_indices(indices@),
                forall|j: int| 0 <= j < indices@.len() ==> (#[trigger] indices@[j])
                    < old(self).problem.number_items,
                forall|y: usize|
                    #[trigger] self.items@.contains(y) <==> (old(self).items@.contains(y)
                        <==> !indices@.subrange(0, k as int).contains(y)),
            decreases indices@.len() - k,
        {
            let idx = indices[k];
            let ghost prefix = indices@.subrange(0, k as int);
            proof {
                // The drawn items are distinct, so this one is new.
                if prefix.contains(idx) {
                    let w = choose|w: int| 0 <= w < prefix.len() && prefix[w] == idx;
                    assert(indices@[w] == indices@[k as int]);
                }
                assert(!prefix.contains(idx));
            }
            let ghost before = self.items@;
            self.toggle_item(idx);
            proof {
                let grown = indices@.subrange(0, (k + 1) as int);
                assert(grown =~= prefix.push(idx));
                assert(prefix.push(idx) =~= prefix.insert(prefix.len() as int, idx));
                lemma_insert_contains(prefix, prefix.len() as int, idx);
                assert forall|y: usize|
                    #[trigger] self.items@.contains(y) <==> (old(self).items@.contains(y)
                        <==> !grown.contains(y)) by {
                    assert(grown.contains(y) <==> (prefix.contains(y) || y == idx));
                    if y == idx {
                        assert(before.contains(idx) <==> old(self).items@.contains(idx));
                        assert(self.items@.contains(idx) <==> !before.contains(idx));
                    } else {
                        assert(self.items@.contains(y) <==> before.contains(y));
                    }
                }
            }
            k += 1;
        }
        proof {
            assert(indices@.subrange(0, indices@.len() as int) =~= indices@);
            assert(indices@.len() == (mutation_rate as int * old(self).problem.number_items as int)
                / (RATE_SCALE as int));
        }
        Ok(())
    }

    /// Two children: the union of both parents' items is shuffled and split
    /// in half, one half per child. The children's item sets are disjoint and
    /// together hold exactly the parents' union, the first child holding the
    /// smaller half. The call succeeds exactly when every item of the other
    /// parent exists in this problem.
    fn generate_children_with(&self, other_parent: &Self, rng: &mut rand::rngs::StdRng) -> (r:
        Result<Vec<Self>, ProblemError>)
        ensures
            (r is Ok) <==> (forall|k: int|
                0 <= k < other_parent.items@.len() ==> (#[trigger] other_parent.items@[k])
                    < self.problem.number_items),
            r matches Ok(children) ==> {
                &&& children@.len() == 2
                &&& children@[0].problem == self.problem
                &&& children@[1].problem == self.problem
                &&& forall|y: usize|
                    #![auto]
                    (children@[0].items@.contains(y) || children@[1].items@.contains(y)) <==> (
                    self.items@.contains(y) || other_parent.items@.contains(y))
                &&& forall|y: usize|
                    #![auto]
                    !(children@[0].items@.contains(y) && children@[1].items@.contains(y))
                &&& children@[0].items@.len() <= children@[1].items@.len()
                    <= children@[0].items@.len() + 1
            },
    {
        // Combine all elements from both sets
        let mut all_elements = copy_indices(&self.items);
        let mut j: usize = 0;
        proof {
            assert(other_parent.items@.subrange(0, 0) =~= Seq::<usize>::empty());
        }
        while j < other_parent.items.len()
            invariant
                j <= other_parent.items@.len(),
                self.inv(),
                other_parent.inv(),
                strictly_increasing(all_elements@),
                forall|k: int| 0 <= k < all_elements@.len() ==> (#[trigger] all_elements@[k])
                    < self.problem.number_items,
                forall|t: int| 0 <= t < j ==> (#[trigger] other_parent.items@[t])
                    < self.problem.number_items,
                forall|y: usize|
                    #[trigger] all_elements@.contains(y) <==> (self.items@.contains(y)
                        || other_parent.items@.subrange(0, j as int).contains(y)),
            decreases other_parent.items@.len() - j,
        {
            let x = other_parent.items[j];
            if x >= self.problem.number_items {
                // The other parent selects items this problem does not have:
                // the parents do not belong to the same problem instance.
                proof {
                    assert(other_parent.items@[j as int] >= self.problem.number_items);
                }
                return Err(
                    ProblemError::NewSolutionError(
                        "the other parent selects items outside this problem.",
                    ),
                );
            }
            let ghost pre = all_elements@;
            let already = index_set_contains(&all_elements, x);
            if !already {
                let p = index_set_insert(&mut all_elements, x);
                proof {
                    lemma_insert_contains(pre, p as int, x);
                    assert forall|k: int|
                        0 <= k < all_elements@.len() implies (#[trigger] all_elements@[k])
                        < self.problem.number_items by {
                        assert(all_elements@.contains(all_elements@[k]));
                        if all_elements@[k] != x {
                            assert(pre.contains(all_elements@[k]));
                            let w = choose|w: int|
                                0 <= w < pre.len() && pre[w] == all_elements@[k];
                        }
                    }
                }
            }
            proof {
                let prefix = other_parent.items@.subrange(0, j as int);
                let grown = other_parent.items@.subrange(0, (j + 1) as int);
                assert(grown =~= prefix.push(x));
                assert(prefix.push(x) =~= prefix.insert(prefix.len() as int, x));
                assert forall|y: usize|
                    #[trigger] all_elements@.contains(y) <==> (self.items@.contains(y)
                        || grown.contains(y)) by {
                    lemma_insert_contains(prefix, prefix.len() as int, x);
                    assert(prefix.insert(prefix.len() as int, x).contains(y) <==> (
                    prefix.contains(y) || y == x));
                    assert(grown.contains(y) <==> (prefix.contains(y) || y == x));
                    if already {
                        assert(all_elements@ == pre);
                        assert(all_elements@.contains(x));
                    } else {
                        assert(all_elements@.contains(y) <==> (pre.contains(y) || y == x));
                    }
                }
            }
            j += 1;
        }
        proof {
            assert(other_parent.items@.subrange(0, other_parent.items@.len() as int)
                =~= other_parent.items@);
            assert(distinct_indices(all_elements@));
        }

        // Shuffle the combined elements
        let ghost unshuffled = all_elements@;
        rng::shuffle_indices(rng, &mut all_elements);
        proof {
            broadcast use vstd::seq_lib::group_to_multiset_ensures;

            lemma_permutation_keeps_distinct(unshuffled, all_elements@);
            assert forall|y: usize|
                #[trigger] all_elements@.contains(y) <==> unshuffled.contains(y) by {
                if all_elements@.contains(y) {
                    assert(all_elements@.to_multiset().count(y) > 0);
                    assert(unshuffled.to_multiset().count(y) > 0);
                }
                if unshuffled.contains(y) {
                    assert(unshuffled.to_multiset().count(y) > 0);
                    assert(all_elements@.to_multiset().count(y) > 0);
                }
            }
            assert forall|k: int| 0 <= k < all_elements@.len() implies (#[trigger] all_elements@[k])
                < self.problem.number_items by {
                assert(all_elements@.contains(all_elements@[k]));
                assert(unshuffled.contains(all_elements@[k]));
                let w = choose|w: int|
                    0 <= w < unshuffled.len() && unshuffled[w] == all_elements@[k];
            }
        }

        // Split into two halves
        let ghost shuffled = all_elements@;
        let split_at = all_elements.len() / 2;
        let second_half = all_elements.split_off(split_at);
        let first_half = all_elements;
        let ghost first_view = first_half@;
        let ghost second_view = second_half@;
        proof {
            assert(first_view == shuffled.subrange(0, split_at as int));
            assert(second_view == shuffled.subrange(split_at as int, shuffled.len() as int));
            assert(distinct_indices(first_view));
            assert(distinct_indices(second_view));
            assert(forall|k: int|
                0 <= k < first_view.len() ==> (#[trigger] first_view[k])
                    < self.problem.number_items);
            assert(forall|k: int|
                0 <= k < second_view.len() ==> (#[trigger] second_view[k])
                    < self.problem.number_items);
            // Each half holds part of the shuffled union, and together they
            // hold all of it.
            assert forall|y: usize|
                (first_view.contains(y) || second_view.contains(y)) <==> #[trigger] shuffled.contains(
                y,
            ) by {
                if first_view.contains(y) {
                    let w = choose|w: int| 0 <= w < first_view.len() && first_view[w] == y;
                    assert(shuffled[w] == y);
                }
                if second_view.contains(y) {
                    let w = choose|w: int| 0 <= w < second_view.len() && second_view[w] == y;
                    assert(shuffled[w + split_at] == y);
                }
                if shuffled.contains(y) {
                    let w = choose|w: int| 0 <= w < shuffled.len() && shuffled[w] == y;
                    if w < split_at {
                        assert(first_view[w] == y);
                    } else {
                        assert(second_view[w - split_at] == y);
                    }
                }
            }
            // No item sits in both halves: the shuffled union is
            // duplicate-free.
            assert forall|y: usize|
                !(#[trigger] first_view.contains(y) && second_view.contains(y)) by {
                if first_view.contains(y) && second_view.contains(y) {
                    let a = choose|a: int| 0 <= a < first_view.len() && first_view[a] == y;
                    let b = choose|b: int| 0 <= b < second_view.len() && second_view[b] == y;
                    assert(shuffled[a] == y && shuffled[b + split_at] == y);
                }
            }
        }

        // Convert to children
        let child_1 = match Self::new(first_half, self.problem) {
            Ok(child) => child,
            Err(e) => {
                return Err(e);
            },
        };
        let child_2 = match Self::new(second_half, self.problem) {
            Ok(child) => child,
            Err(e) => {
                return Err(e);
            },
        };
        let children = vec![child_1, child_2];
        proof {
            assert(children@.len() == 2);
            assert(children@[0] == child_1 && children@[1] == child_2);
            assert(child_1.items@.len() == first_view.len());
            assert(child_2.items@.len() == second_view.len());
            assert(first_view.len() == split_at);
            assert(second_view.len() == shuffled.len() - split_at);
            assert forall|y: usize|
                (children@[0].items@.contains(y) || children@[1].items@.contains(y)) <==> (
                #[trigger] self.items@.contains(y) || other_parent.items@.contains(y)) by {
                assert(child_1.items@.contains(y) <==> first_view.contains(y));
                assert(child_2.items@.contains(y) <==> second_view.contains(y));
                assert((first_view.contains(y) || second_view.contains(y)) <==> shuffled.contains(
                    y,
                ));
                assert(shuffled.contains(y) <==> unshuffled.contains(y));
                assert(unshuffled.contains(y) <==> (self.items@.contains(y)
                    || other_parent.items@.contains(y)));
            }
            assert forall|y: usize|
                !(#[trigger] children@[0].items@.contains(y) && children@[1].items@.contains(
                    y,
                )) by {
                assert(child_1.items@.contains(y) <==> first_view.contains(y));
                assert(child_2.items@.contains(y) <==> second_view.contains(y));
                assert(!(first_view.contains(y) && second_view.contains(y)));
            }
        }
        Ok(children)
    }
}

} // verus!
