//! Generation tags for slot arrays.

use vstd::prelude::*;

verus! {

/// A generation tag: an epoch marker for a slot array.
///
/// Every handle remembers the tag of the array state that issued it, and the
/// array refuses handles whose tag differs from its current one. Clearing the
/// array moves it to the next tag, which invalidates all handles at once.
#[derive(Clone, Copy, Debug, PartialEq, Eq, Structural)]
pub struct Tag(pub u64);

impl Tag {
    /// The tag of a freshly created slot array.
    pub fn first() -> (r: Tag)
        ensures
            r == (Tag(0)),
    {
        Tag(0)
    }

    /// The tag of the next epoch. It always differs from the current one.
    pub fn next(&self) -> (r: Tag)
        ensures
            r != *self,
    {
        if self.0 == u64::MAX {
            Tag(0)
        } else {
            Tag(self.0 + 1)
        }
    }
}

} // verus!
