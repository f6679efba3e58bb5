//! The smallest and largest key of a slice, as itertools computes them.

use vstd::prelude::*;
use itertools::Itertools;

verus! {

/// Relies on itertools' `Itertools::minmax`: `None` for an empty slice, otherwise the
/// least and the greatest key of the slice.
#[verifier::external_body]
pub(crate) fn key_range(slice: &[usize]) -> (r: Option<(usize, usize)>)
    ensures
        r is None <==> slice@.len() == 0,
        r matches Some((lo, hi)) ==> {
            &&& slice@.contains(lo)
            &&& slice@.contains(hi)
            &&& forall|i: int| 0 <= i < slice@.len() ==> lo <= #[trigger] slice@[i] <= hi
        },
{
    slice.iter().minmax().into_option().map(|(lo, hi)| (*lo, *hi))
}

/// Relies on itertools' `Itertools::minmax_by_key`, keyed by the first field of each
/// pair: `None` for an empty slice, otherwise the least and the greatest key.
#[verifier::external_body]
pub(crate) fn pair_key_range<T>(slice: &[(usize, T)]) -> (r: Option<(usize, usize)>)
    ensures
        r is None <==> slice@.len() == 0,
        r matches Some((lo, hi)) ==> {
            &&& exists|i: int| 0 <= i < slice@.len() && #[trigger] slice@[i].0 == lo
            &&& exists|i: int| 0 <= i < slice@.len() && #[trigger] slice@[i].0 == hi
            &&& forall|i: int| 0 <= i < slice@.len() ==> lo <= #[trigger] slice@[i].0 <= hi
        },
{
    slice.iter().minmax_by_key(|p| p.0).into_option().map(|(lo, hi)| (lo.0, hi.0))
}

} // verus!
