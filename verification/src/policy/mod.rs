//! Expiration policies: what decides when an entry of a map is too old.
use vstd::prelude::*;

use crate::entry::EntryId;

pub mod align;
pub mod lazy_fixed_ttl_policy;
pub mod mixed_policy;
pub mod tti_policy;
pub mod ttl_policy;

pub use align::{align_instant, Precision};
pub use lazy_fixed_ttl_policy::LazyFixedTTLPolicy;
pub use mixed_policy::{Expiration, MixedPolicy};
pub use tti_policy::{Record, TTIPolicy, TTIState, TTIStorage};
pub use ttl_policy::{TTLPolicy, TTLState};

verus! {

/// What a policy wants done.
pub enum Command {
    /// One entry has expired.
    Remove(EntryId),
    /// Some entries have expired.
    RemoveBulk(Vec<Option<EntryId>>),
    /// No entry has been found expired.
    Noop,
}

impl Command {
    /// The ids that a command lists. `Noop` has no list, which is not the same as an empty one.
    pub open spec fn listed(self) -> Option<Seq<Option<EntryId>>> {
        match self {
            Command::Remove(id) => Some(seq![Some(id)]),
            Command::RemoveBulk(ids) => Some(ids@),
            Command::Noop => None,
        }
    }

    /// The command lists this id.
    pub open spec fn lists(self, id: EntryId) -> bool {
        self.listed() matches Some(ids) && ids.contains(Some(id))
    }

    /// The command lists these ids in bulk, or none at all.
    pub open spec fn is_bulk(self, list: Option<Seq<Option<EntryId>>>) -> bool {
        match self {
            Command::Remove(_) => false,
            Command::RemoveBulk(ids) => list == Some(ids@),
            Command::Noop => list is None,
        }
    }
}

/// An expiration policy. Each method has a relation beside it that says between which states of
/// the policy, and with which answers, the method can move; a policy defines the relations as it
/// defines the methods. Of a policy that leaves a relation out, nothing is known but that the
/// method answers.
pub trait ExpirePolicy: Sized {
    /// What is said about an entry when it is inserted.
    type Info;

    /// What is kept of an entry.
    type Storage;

    /// `init_storage` can lead from `pre` to `post` and give `storage`.
    open spec fn inits(pre: Self, info: Self::Info, post: Self, storage: Self::Storage) -> bool {
        true
    }

    /// `clear` can lead from `pre` to `post`.
    open spec fn clears(pre: Self, post: Self) -> bool {
        true
    }

    /// `is_expired` can lead from `pre` to `post` and say `expired`.
    open spec fn judges(
        pre: Self,
        entry: EntryId,
        storage: Self::Storage,
        post: Self,
        expired: bool,
    ) -> bool {
        true
    }

    /// `on_access` can lead from `pre` to `post` and give `command`.
    open spec fn accessed(
        pre: Self,
        entry: EntryId,
        storage: Self::Storage,
        post: Self,
        command: Command,
    ) -> bool {
        true
    }

    /// `on_insert` can lead from `pre` to `post` and give `command`.
    open spec fn inserted(
        pre: Self,
        entry: EntryId,
        storage: Self::Storage,
        post: Self,
        command: Command,
    ) -> bool {
        true
    }

    /// `on_resize` can lead from `pre` to `post` and give `command`.
    open spec fn resized(pre: Self, post: Self, command: Command) -> bool {
        true
    }

    /// What to keep of a new entry.
    fn init_storage(&mut self, info: Self::Info) -> (storage: Self::Storage)
        ensures
            Self::inits(*old(self), info, *final(self), storage),
    ;

    /// Forgets all entries.
    fn clear(&mut self)
        ensures
            Self::clears(*old(self), *final(self)),
    ;

    /// Whether an entry is too old.
    fn is_expired(&mut self, entry: EntryId, storage: &Self::Storage) -> (expired: bool)
        ensures
            Self::judges(*old(self), entry, *storage, *final(self), expired),
    ;

    /// Takes note that an entry is being used.
    fn on_access(&mut self, entry: EntryId, storage: &Self::Storage) -> (command: Command)
        ensures
            Self::accessed(*old(self), entry, *storage, *final(self), command),
    ;

    /// Takes note of a new entry.
    fn on_insert(&mut self, entry: EntryId, storage: &Self::Storage) -> (command: Command)
        ensures
            Self::inserted(*old(self), entry, *storage, *final(self), command),
    ;

    /// Takes note that the table is being resized.
    fn on_resize(&mut self) -> (command: Command)
        ensures
            Self::resized(*old(self), *final(self), command),
    ;
}

} // verus!
