//! Merging of tables.

use vstd::prelude::*;

verus! {

/// A table into which another table of the same kind can be merged.
pub trait AppendableMap: Sized {
    /// Merges `other` into `self`: every key of `other` ends up in `self`, and a
    /// key held by both gets the union of the two value sets.
    fn append(&mut self, other: Self) -> Result<(), ()>;
}

} // verus!
