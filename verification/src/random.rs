//! Random choices, made by the `rand` crate.
use vstd::prelude::*;
use rand::Rng;
use rand::prelude::IndexedRandom;
use rand::seq::SliceRandom;

verus! {

/// Calls `IndexedRandom::choose` of `rand` on the thread's generator: an element
/// of `items` picked at random, or `None` when `items` is empty. Which element
/// comes back is left open: only that it is one of `items`.
#[verifier::external_body]
pub(crate) fn pick<T>(items: &Vec<T>) -> (picked: Option<&T>)
    ensures
        picked is None <==> items@.len() == 0,
        picked matches Some(p) ==> items@.contains(*p),
{
    items.choose(&mut rand::rng())
}

/// Calls `SliceRandom::shuffle` of `rand` on the thread's generator: the same
/// elements, each as often as before, in an order left open.
#[verifier::external_body]
pub(crate) fn shuffle<T>(items: &mut Vec<T>)
    ensures
        final(items)@.len() == old(items)@.len(),
        final(items)@.to_multiset() == old(items)@.to_multiset(),
{
    items.shuffle(&mut rand::rng())
}

/// Calls `Rng::random_range` of `rand` with the range `low..high` on the thread's
/// generator: some value in that range, which one left open. `rand` panics on an
/// empty range, which `requires` leaves out.
#[verifier::external_body]
pub(crate) fn random_range_i32(low: i32, high: i32) -> (value: i32)
    requires
        low < high,
    ensures
        low <= value < high,
{
    rand::rng().random_range(low..high)
}

} // verus!
