//! The error of a refused insertion.

use vstd::prelude::*;

verus! {

/// Returned by [`try_insert`](crate::map::StableMap::try_insert) when the
/// key already exists: the key that collided and the value that was not
/// inserted.
#[derive(Debug)]
pub struct OccupiedError<V> {
    /// The key that was already present.
    pub key: u64,
    /// The value which was not inserted.
    pub value: V,
}

} // verus!
