//! The ids that entries are known by, and the table that leads from an id to a bucket.
use slotmap::{DefaultKey, SlotMap};
use vstd::prelude::*;

verus! {

/// The declaration of `slotmap::DefaultKey`, whose value stays unread.
#[verifier::external_type_specification]
#[verifier::external_body]
pub struct ExDefaultKey(slotmap::DefaultKey);

/// The name of one entry, from its insertion until it is released.
#[derive(Clone, Copy, Debug, PartialEq, Eq, PartialOrd, Ord, Hash, Default)]
pub struct EntryId {
    key: DefaultKey,
}

/// How many ids can be in use at one time.
pub const MAX_IDS: usize = 0xFFFF_FFFE;

/// A `slotmap::SlotMap` from ids to the buckets of their entries. An id without a bucket is one
/// whose entry is gone.
#[verifier::external_body]
pub struct EntryIdTable {
    table: SlotMap<DefaultKey, Option<usize>>,
}

/// The ids in use, each with its bucket.
pub uninterp spec fn ids_of(table: EntryIdTable) -> Map<EntryId, Option<usize>>;

impl View for EntryIdTable {
    type V = Map<EntryId, Option<usize>>;

    /// The ids in use, each with its bucket.
    open spec fn view(&self) -> Map<EntryId, Option<usize>> {
        ids_of(*self)
    }
}

impl EntryIdTable {
    /// `SlotMap::with_key`: a table without ids.
    #[verifier::external_body]
    pub(crate) fn new() -> (table: EntryIdTable)
        ensures
            (ids_of(table) == Map::<EntryId, Option<usize>>::empty()),
    {
        EntryIdTable { table: SlotMap::with_key() }
    }

    /// `SlotMap::remove`: gives the id up and returns its bucket. An id that is not in use has
    /// none, and nothing changes.
    #[verifier::external_body]
    pub(crate) fn remove(&mut self, id: EntryId) -> (bucket: Option<Option<usize>>)
        ensures
            bucket == ids_of(*old(self)).get(id),
            ids_of(*final(self)) == ids_of(*old(self)).remove(id),
    {
        self.table.remove(id.key)
    }

    /// `SlotMap::insert` of no bucket: an id that was not in use. `SlotMap` panics where all ids
    /// are.
    #[verifier::external_body]
    pub(crate) fn acquire_slot(&mut self) -> (id: EntryId)
        requires
            ids_of(*old(self)).dom().len() < MAX_IDS,
        ensures
            !ids_of(*old(self)).contains_key(id),
            ids_of(*final(self)) == ids_of(*old(self)).insert(id, None),
    {
        EntryId { key: self.table.insert(None) }
    }

    /// `SlotMap::get`: the bucket of an id that is in use.
    #[verifier::external_body]
    pub(crate) fn look_up(&self, id: EntryId) -> (bucket: Option<Option<usize>>)
        ensures
            bucket == ids_of(*self).get(id),
    {
        self.table.get(id.key).copied()
    }

    /// `SlotMap::get_mut`: the place where the bucket of an id in use is noted.
    #[verifier::external_body]
    pub(crate) fn look_up_mut(&mut self, id: EntryId) -> (bucket: Option<&mut Option<usize>>)
        ensures
            match bucket {
                Some(b) => {
                    &&& ids_of(*old(self)).contains_key(id)
                    &&& *b == ids_of(*old(self))[id]
                    &&& ids_of(*final(self)) == ids_of(*old(self)).insert(id, *final(b))
                },
                None => {
                    &&& !ids_of(*old(self)).contains_key(id)
                    &&& ids_of(*final(self)) == ids_of(*old(self))
                },
            },
    {
        self.table.get_mut(id.key)
    }

    /// `SlotMap::len`: the number of ids in use.
    #[verifier::external_body]
    pub(crate) fn len(&self) -> (n: usize)
        ensures
            n == ids_of(*self).dom().len(),
    {
        self.table.len()
    }

    /// `SlotMap::clear`: gives every id up.
    #[verifier::external_body]
    pub(crate) fn clear(&mut self)
        ensures
            (ids_of(*final(self)) == Map::<EntryId, Option<usize>>::empty()),
    {
        self.table.clear()
    }

    /// Gives the id up. The result is the bucket of its entry, if it has one still.
    pub fn release_slot(&mut self, id: EntryId) -> (bucket: Option<usize>)
        ensures
            bucket == (if old(self)@.contains_key(id) {
                old(self)@[id]
            } else {
                None
            }),
            final(self)@ == old(self)@.remove(id),
    {
        match self.remove(id) {
            Some(bucket) => bucket,
            None => None,
        }
    }

    /// Notes the bucket of an id in use.
    pub fn set_bucket(&mut self, slot: EntryId, bucket: Option<usize>)
        requires
            old(self)@.contains_key(slot),
        ensures
            final(self)@ == old(self)@.insert(slot, bucket),
    {
        if let Some(b) = self.look_up_mut(slot) {
            *b = bucket;
        }
    }

    /// The bucket of the entry with this id, if it has one still.
    pub fn get(&self, id: EntryId) -> (bucket: Option<usize>)
        ensures
            bucket == (if self@.contains_key(id) {
                self@[id]
            } else {
                None
            }),
    {
        match self.look_up(id) {
            Some(bucket) => bucket,
            None => None,
        }
    }
}

} // verus!
