//! What is kept beside the key and the value of an entry.
use vstd::prelude::*;

use crate::entry::EntryId;

verus! {

/// What the expiration policy keeps of an entry, the id of the entry, and whether the entry has
/// been reported as expired.
pub struct Storage<S> {
    pub storage: S,
    pub entry_id: EntryId,
    pub removed: bool,
}

impl<S> Storage<S> {
    /// The storage of an entry that has not been reported.
    pub fn new(storage: S, entry_id: EntryId) -> (s: Storage<S>)
        ensures
            s == (Storage { storage, entry_id, removed: false }),
    {
        Storage { storage, entry_id, removed: false }
    }

    /// Notes that the entry has been reported as expired.
    pub fn mark_as_removed(&mut self)
        ensures
            *final(self) == (Storage { removed: true, ..*old(self) }),
    {
        self.removed = true;
    }

    /// Whether the entry has been reported as expired.
    pub fn is_removed(&self) -> (removed: bool)
        ensures
            removed == self.removed,
    {
        self.removed
    }
}

} // verus!
