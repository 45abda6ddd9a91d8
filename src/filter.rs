//! Dropping the zero-valued items while keeping their original positions.

use vstd::prelude::*;
use crate::model::nonzero_indices;

verus! {

/// The positions whose flag is set, in increasing order: the items that can
/// take part in a combination.
pub fn nonzero_positions(nonzero: &Vec<bool>) -> (r: Vec<usize>)
    ensures
        r@ == nonzero_indices(nonzero@),
{
    let mut r: Vec<usize> = Vec::new();
    let mut i: usize = 0;
    while i < nonzero.len()
        invariant
            i <= nonzero.len(),
            r@ == nonzero_indices(nonzero@.take(i as int)),
        decreases nonzero.len() - i,
    {
        assert(nonzero@.take(i + 1).drop_last() == nonzero@.take(i as int));
        if nonzero[i] {
            r.push(i);
        }
        i = i + 1;
    }
    assert(nonzero@.take(i as int) == nonzero@);
    r
}

} // verus!
