//! Equality of two `PartitionVec`s: equal values and the same sets.
use vstd::prelude::*;
use vstd::std_specs::cmp::PartialEqSpec;

use crate::partition_vec::PartitionVec;

verus! {

impl<T> PartitionVec<T> {
    /// Returns `true` if `other` holds equal values and divides them into the same sets. Two
    /// vectors with equal values but other sets are not equal.
    pub fn eq(&self, other: &Self) -> (r: bool) where T: PartialEq
        requires
            self.wf(),
            other.wf(),
        ensures
            T::obeys_eq_spec() ==> r == (self.same_partition(other) && forall|i: int|
                0 <= i < self.size() ==> #[trigger] self.values()[i].eq_spec(&other.values()[i])),
    {
        if !self.same_partition_as(other) {
            return false;
        }
        let len = self.len();
        let mut i: usize = 0;
        while i < len
            invariant
                self.same_partition(other),
                len == self.size() == other.size(),
                i <= len,
                T::obeys_eq_spec() ==> forall|k: int|
                    0 <= k < i ==> #[trigger] self.values()[k].eq_spec(&other.values()[k]),
            decreases len - i,
        {
            if !self.get(i).eq(other.get(i)) {
                return false;
            }
            i = i + 1;
        }
        true
    }
}

} // verus!
