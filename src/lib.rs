//! A vector partitioned into disjoint sets (union-find), whose sets can be walked member by
//! member without any structure beside the vector.
//!
//! Every operation is verified against a model in which each element has a representative:
//! two elements share a set exactly when their representatives are equal.
use vstd::prelude::*;

mod bits;
mod compare;
pub mod laws;
mod metadata;
pub mod partition_hash_map;
pub mod partition_map;
pub mod partition_vec;
mod ring;
pub mod sets;

pub use partition_hash_map::PartitionHashMap;
pub use partition_map::PartitionBTreeMap;
pub use partition_vec::PartitionVec;
pub use sets::{AllSets, AllSetsMut, SetIter, SetMut};
