use vstd::prelude::*;
use rand::Rng;
use rand::seq::SliceRandom;

verus! {

/// Relies on rand::Rng::gen_range over `0..n`: the sample lies in the given
/// non-empty range.
#[verifier::external_body]
pub(crate) fn rand_below(n: usize) -> (r: usize)
    requires
        n >= 1,
    ensures
        r < n,
{
    rand::thread_rng().gen_range(0..n)
}

/// Relies on rand::seq::SliceRandom::shuffle: it permutes the slice in
/// place, so the length and the multiset of elements are kept.
#[verifier::external_body]
pub(crate) fn shuffle_ids(v: &mut Vec<usize>)
    ensures
        final(v)@.len() == old(v)@.len(),
        final(v)@.to_multiset() == old(v)@.to_multiset(),
{
    v.shuffle(&mut rand::thread_rng());
}

} // verus!
