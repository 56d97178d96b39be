//! Caches in memory whose entries expire.
//!
//! [`HashMap`] and [`HashSet`] expire their entries by a policy. Four policies are at hand, and
//! more can be written by [`policy::ExpirePolicy`]:
//!
//! - [`policy::LazyFixedTTLPolicy`]: all entries live for the same time, which is checked when an
//!   entry is looked at;
//! - [`policy::TTLPolicy`]: each entry lives for a time of its own;
//! - [`policy::TTIPolicy`]: each entry lives as long as it is looked at;
//! - [`policy::MixedPolicy`]: some entries are of the one kind, some of the other.
//!
//! [`unsync::UnsyncCache`] is a simpler cache, whose values live for a given time.
pub mod backlog;
pub mod entry;
pub mod hash;
pub mod index;
pub mod laws;
pub mod life;
pub mod map;
pub mod model;
pub mod policy;
pub mod records;
pub mod set;
pub mod storage;
pub mod table;
pub mod time;
pub mod unsync;

pub use entry::EntryId;
pub use map::HashMap;
pub use set::HashSet;
pub use storage::Storage;
