//! A wrapper that turns a partially ordered value into a totally
//! ordered one: where the underlying order is undefined, the wrapper
//! reports equality instead of failing, so ordering-dependent
//! containers and sorts never misbehave on incomparable inputs.

use core::cmp::Ordering;
use vstd::prelude::*;
use vstd::std_specs::cmp::PartialOrdSpec;

verus! {

/// Adapts a `PartialOrd` value to a total order: incomparable pairs
/// compare as equal.  This guarantees a valid total order exists for
/// sorting and priority structures; it does not give incomparable
/// inputs a meaningful relative position.
#[derive(Debug, PartialEq, PartialOrd)]
pub struct TotalOrd<T>(pub T);

impl<T: PartialOrd> TotalOrd<T> {
    /// Compare by the wrapped values' partial order; an incomparable
    /// pair is reported as `Equal`.
    pub fn cmp(&self, other: &Self) -> (r: Ordering)
        ensures
            T::obeys_partial_cmp_spec() ==> r == (match self.0.partial_cmp_spec(&other.0) {
                Some(o) => o,
                None => Ordering::Equal,
            }),
    {
        match self.0.partial_cmp(&other.0) {
            Some(o) => o,
            None => Ordering::Equal,
        }
    }
}

} // verus!
