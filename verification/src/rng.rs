//! Randomness, kept behind two small trusted wrappers around `rand`.

use rand::prelude::SliceRandom;
use rand::seq::IteratorRandom;
use vstd::prelude::*;

use crate::card::Card;

verus! {

/// Relies on `rand::seq::SliceRandom::shuffle`: it permutes the slice in
/// place (a sequence of element swaps), so the deck afterwards holds
/// exactly the cards it held before, in some order.
#[verifier::external_body]
pub(crate) fn shuffle_cards(v: &mut Vec<Card>)
    ensures
        final(v)@.to_multiset() == old(v)@.to_multiset(),
        final(v)@.len() == old(v)@.len(),
{
    v[..].shuffle(&mut rand::thread_rng());
}

/// Relies on `rand::seq::IteratorRandom::choose`: on a nonempty iterator it
/// returns `Some` of one of the yielded items, so on `0..n` with `n >= 1`
/// the result is an index below `n`.
#[verifier::external_body]
pub(crate) fn pick_seat(n: usize) -> (r: usize)
    requires
        n >= 1,
    ensures
        r < n,
{
    (0..n).choose(&mut rand::thread_rng()).unwrap()
}

} // verus!
