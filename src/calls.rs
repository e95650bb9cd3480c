use vstd::prelude::*;

verus! {

/// `a` comes no later than `b` in the lexicographic order of pairs.
pub open spec fn pair_le(a: (u128, u64), b: (u128, u64)) -> bool {
    a.0 < b.0 || (a.0 == b.0 && a.1 <= b.1)
}

/// Relies on `rand::Rng::gen_range` on `rand::thread_rng()`: a value of the
/// half-open range `0..n`, which must not be empty.
#[verifier::external_body]
pub(crate) fn random_index(n: usize) -> (r: usize)
    requires
        n > 0,
    ensures
        r < n,
{
    rand::Rng::gen_range(&mut rand::thread_rng(), 0..n)
}

/// Relies on `quicksort::quicksort`: sorts the items in place, ascending by
/// their `Ord`, which for tuples of integers is the lexicographic order.
#[verifier::external_body]
pub(crate) fn sort_pairs(v: &mut Vec<(u128, u64)>)
    ensures
        final(v)@.to_multiset() == old(v)@.to_multiset(),
        forall|i: int, j: int| 0 <= i < j < final(v)@.len() ==> pair_le(final(v)@[i], final(v)@[j]),
{
    quicksort::quicksort(&mut v[..])
}

} // verus!
