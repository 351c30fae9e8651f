//! What an entry has to offer to be filed in a time index.

use crate::calendar::TimePoint;
use crate::errors::IndexResult;
use vstd::prelude::*;

verus! {

/// An entry that can be added to a time index.
pub trait IndexableEntry {
    /// The time that an entry of this type is filed under.
    spec fn entry_time_spec(&self) -> TimePoint;

    /// Time that the entry type this trait is implemented on should be indexed
    /// under.
    fn entry_time(&self) -> (t: TimePoint)
        ensures
            t == self.entry_time_spec(),
    ;

    /// The address of the entry in the store.
    fn hash(&self) -> IndexResult<Vec<u8>>;
}

} // verus!
