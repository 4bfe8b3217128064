//! The random draws the generator makes. Nothing is known of a draw but its
//! type and, for a pick from a list, that it comes from the list.
//!
//! All draws come from the generator that `rand` keeps for the thread, which
//! stops the program if the system cannot seed it.

use vstd::prelude::*;
use rand::seq::SliceRandom;

verus! {

/// A fair coin, from `rand::random::<bool>`. Either outcome can come back, so
/// nothing is stated of the result.
#[verifier::external_body]
pub(crate) fn random_bool() -> bool {
    rand::random::<bool>()
}

/// A random 32-bit word, from `rand::random::<i32>`. Every value can come
/// back, so nothing is stated of the result.
#[verifier::external_body]
pub(crate) fn random_i32() -> i32 {
    rand::random::<i32>()
}

/// One entry of `items`, from `SliceRandom::choose` on the thread's generator.
/// The call returns `None` exactly for an empty list and otherwise the entry
/// at an index below the length; which one is left open.
#[verifier::external_body]
pub(crate) fn pick_one<T: Copy>(items: &Vec<T>) -> (picked: Option<T>)
    ensures
        items@.len() == 0 ==> picked is None,
        items@.len() > 0 ==> picked is Some && items@.contains(picked->Some_0),
{
    items.choose(&mut rand::thread_rng()).copied()
}

} // verus!
