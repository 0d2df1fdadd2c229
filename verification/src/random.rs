//! Chance, as far as the engine uses it.

use vstd::prelude::*;

verus! {

/// `rand::Rng::gen_range` from 0 to `n` on the thread's generator: a number
/// below `n`.
#[verifier::external_body]
pub(crate) fn random_below(n: usize) -> (picked: usize)
    requires
        n > 0,
    ensures
        picked < n,
{
    rand::Rng::gen_range(&mut rand::thread_rng(), 0, n)
}

/// `rand::seq::IteratorRandom::choose` over the numbers below `n`: one of
/// them, or `None` if and only if there is none.
#[verifier::external_body]
pub(crate) fn choose_below(n: usize) -> (picked: Option<usize>)
    ensures
        picked is None <==> n == 0,
        picked is Some ==> picked->0 < n,
{
    rand::seq::IteratorRandom::choose(0..n, &mut rand::thread_rng())
}

/// `rand::seq::SliceRandom::shuffle`: the same items in some order.
#[verifier::external_body]
pub(crate) fn shuffle(items: &mut Vec<u32>)
    ensures
        final(items)@.to_multiset() == old(items)@.to_multiset(),
{
    rand::seq::SliceRandom::shuffle(items.as_mut_slice(), &mut rand::thread_rng())
}

} // verus!
