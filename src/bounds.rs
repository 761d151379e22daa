//! Binary searches on sorted slices, taken from `superslice`.
use vstd::prelude::*;
use crate::utils::nondecreasing;

verus! {

/// Relies on superslice's `Ext::upper_bound`: on an ordered slice, the index
/// of the first element greater than `x` (the length when there is none).
#[verifier::external_body]
pub(crate) fn upper_bound(s: &[u64], x: u64) -> (r: usize)
    requires
        nondecreasing(s@),
    ensures
        r <= s@.len(),
        forall|i: int| 0 <= i < r ==> s@[i] <= x,
        forall|i: int| r <= i < s@.len() ==> s@[i] > x,
{
    superslice::Ext::upper_bound(s, &x)
}

/// Relies on superslice's `Ext::lower_bound`: on an ordered slice, the index
/// of the first element not less than `x` (the length when there is none).
#[verifier::external_body]
pub(crate) fn lower_bound(s: &[u64], x: u64) -> (r: usize)
    requires
        nondecreasing(s@),
    ensures
        r <= s@.len(),
        forall|i: int| 0 <= i < r ==> s@[i] < x,
        forall|i: int| r <= i < s@.len() ==> s@[i] >= x,
{
    superslice::Ext::lower_bound(s, &x)
}

} // verus!
