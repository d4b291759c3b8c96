//! Random draws, taken from the generator that the `rand` crate keeps for
//! each thread. Nothing is proved of these functions: their contracts state
//! what `rand` documents of every outcome, and never which outcome comes.

use rand::seq::SliceRandom;
use rand::Rng;
use vstd::prelude::*;

verus! {

/// `rand::seq::SliceRandom::choose` on `items`: one of the entries, or
/// nothing where there is none.
#[verifier::external_body]
pub(crate) fn choose_one(items: &Vec<usize>) -> (picked: Option<usize>)
    ensures
        items@.len() == 0 ==> picked is None,
        items@.len() > 0 ==> picked is Some && items@.contains(picked.unwrap()),
{
    items.choose(&mut rand::thread_rng()).copied()
}

/// `first` and `second` stand at two different positions of `items`.
pub open spec fn at_two_positions(items: Seq<usize>, first: usize, second: usize) -> bool {
    exists|i: int, j: int|
        0 <= i < items.len() && 0 <= j < items.len() && i != j && #[trigger] items[i] == first
            && #[trigger] items[j] == second
}

/// `rand::seq::SliceRandom::choose_multiple` on `items` for two entries: the
/// entries at two different positions, in the order they were drawn.
#[verifier::external_body]
pub(crate) fn choose_two(items: &Vec<usize>) -> (picked: (usize, usize))
    requires
        items@.len() >= 2,
    ensures
        at_two_positions(items@, picked.0, picked.1),
{
    let picked: Vec<usize> = items.choose_multiple(&mut rand::thread_rng(), 2).copied().collect();
    (picked[0], picked[1])
}

/// `rand::Rng::gen_range` on the closed range from `low` to `high`: a number
/// in that range.
#[verifier::external_body]
pub(crate) fn random_in_range(low: usize, high: usize) -> (drawn: usize)
    requires
        low <= high,
    ensures
        low <= drawn <= high,
{
    rand::thread_rng().gen_range(low..=high)
}

} // verus!
