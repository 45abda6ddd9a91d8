//! Lazy enumeration of the combinations of one size, by itertools.

use vstd::prelude::*;
use itertools::Itertools;
use crate::model::k_subsets;

verus! {

/// A lazy stream of the combinations of one size drawn from a list of
/// positions. Only one combination exists in memory at a time.
#[verifier::external_body]
pub struct ComboStream {
    inner: itertools::structs::Combinations<std::vec::IntoIter<usize>>,
}

/// The combinations that a stream has still to yield, in order.
pub uninterp spec fn pending(s: ComboStream) -> Seq<Seq<usize>>;

/// Relies on `Itertools::combinations`: the stream yields every `k`-element
/// subset of `items`, each as a vector in the order of `items`, in
/// lexicographic order of positions (indices `[0, 1] -> [0, 2] -> ... -> [1, 2]`);
/// none when `k` exceeds the number of items.
#[verifier::external_body]
pub(crate) fn combinations_of(items: &Vec<usize>, k: usize) -> (r: ComboStream)
    ensures
        pending(r) == k_subsets(items@, k as nat),
{
    ComboStream { inner: items.clone().into_iter().combinations(k) }
}

/// Relies on `Iterator::next` of itertools' `Combinations`: it hands out the
/// next pending combination, and `None` once there is none left.
#[verifier::external_body]
pub(crate) fn next_combination(s: &mut ComboStream) -> (r: Option<Vec<usize>>)
    ensures
        pending(*old(s)).len() == 0 ==> r is None && pending(*final(s)) == pending(*old(s)),
        pending(*old(s)).len() > 0 ==> r is Some && r->0@ == pending(*old(s))[0] && pending(
            *final(s),
        ) == pending(*old(s)).drop_first(),
{
    s.inner.next()
}

} // verus!
