//! The randomness source threaded through every stochastic call, and the
//! draws the algorithms need from it. Each draw is a thin trusted wrapper
//! around `rand`; nothing is claimed about a random outcome beyond what the
//! crate documents of every outcome.
use rand::seq::SliceRandom;
use vstd::prelude::*;

verus! {

/// The concrete deterministic generator used by this library. Seeding the
/// same value reproduces the same draw sequence.
#[verifier::external_type_specification]
#[verifier::external_body]
pub struct ExStdRng(rand::rngs::StdRng);

/// Relies on `rand::Rng::random_range` over `0..bound`: a uniform index
/// strictly below `bound`; the call panics only on an empty range.
#[verifier::external_body]
pub(crate) fn draw_index(rng: &mut rand::rngs::StdRng, bound: usize) -> (r: usize)
    requires
        bound > 0,
    ensures
        r < bound,
{
    rand::Rng::random_range(rng, 0..bound)
}

/// Relies on `rand::Rng::random_ratio`: true with probability
/// `numerator / denominator`; guaranteed false for a zero numerator and
/// guaranteed true when numerator and denominator are equal; panics when the
/// denominator is zero or the numerator exceeds it.
#[verifier::external_body]
pub(crate) fn draw_ratio(rng: &mut rand::rngs::StdRng, numerator: u32, denominator: u32) -> (r:
    bool)
    requires
        0 < denominator,
        numerator <= denominator,
    ensures
        numerator == 0 ==> !r,
        numerator == denominator ==> r,
{
    rand::Rng::random_ratio(rng, numerator, denominator)
}

/// Relies on `rand::seq::index::sample`: exactly `amount` distinct indices
/// drawn from `0..length`, in random order; panics when `amount > length`.
#[verifier::external_body]
pub(crate) fn sample_indices(rng: &mut rand::rngs::StdRng, length: usize, amount: usize) -> (r: Vec<
    usize,
>)
    requires
        amount <= length,
    ensures
        r@.len() == amount,
        forall|i: int| 0 <= i < r@.len() ==> r@[i] < length,
        forall|i: int, j: int| 0 <= i < j < r@.len() ==> r@[i] != r@[j],
{
    rand::seq::index::sample(rng, length, amount).into_vec()
}

/// Relies on `rand::seq::SliceRandom::shuffle`: the slice afterwards is a
/// permutation of what it held before.
#[verifier::external_body]
pub(crate) fn shuffle_indices(rng: &mut rand::rngs::StdRng, items: &mut Vec<usize>)
    ensures
        final(items)@.len() == old(items)@.len(),
        final(items)@.to_multiset() == old(items)@.to_multiset(),
{
    items.shuffle(rng);
}

} // verus!
