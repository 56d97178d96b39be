//! Entries that live for a given time, and entries that live as long as they are looked at, in
//! one map.
use vstd::prelude::*;

use crate::entry::EntryId;
use crate::life::{Recording, Timely};
use crate::policy::{Command, ExpirePolicy, Record, TTIPolicy, TTIStorage, TTLPolicy};
use crate::time::{Duration, Instant};

verus! {

/// What is said about an entry when it is inserted.
#[derive(Clone, Copy, Debug, PartialEq, Eq, Structural)]
pub enum Expiration {
    /// It lives for this long.
    TTL(Duration),
    /// It may be left alone for this long.
    TTI(Duration),
}

/// What is kept of an entry.
pub enum Storage {
    /// It lives until this point in time.
    TTL(Instant),
    /// It lives as long as it is looked at.
    TTI(TTIStorage),
}

/// A policy that has some entries live for a given time, and some as long as they are looked at.
pub struct MixedPolicy {
    ttl: TTLPolicy,
    tti: TTIPolicy,
}

impl MixedPolicy {
    /// The part for the entries that live for a given time.
    pub closed spec fn ttl(&self) -> TTLPolicy {
        self.ttl
    }

    /// The part for the entries that live as long as they are looked at.
    pub closed spec fn tti(&self) -> TTIPolicy {
        self.tti
    }

    /// A policy whose slots are a tenth of a second wide.
    pub fn new() -> (policy: MixedPolicy)
        ensures
            policy.ttl()@.records == Map::<Instant, Seq<Option<EntryId>>>::empty(),
            policy.ttl()@.last_update == policy.ttl()@.time,
            policy.ttl()@.presision.nanos == 100_000_000,
            policy.tti()@.records == Map::<Instant, Seq<Option<Record>>>::empty(),
            policy.tti()@.deadlines == Map::<u64, Instant>::empty(),
            policy.tti()@.last_update == policy.tti()@.time,
            policy.tti()@.next_id == 0,
            policy.tti()@.presision.nanos == 100_000_000,
    {
        MixedPolicy::with_presision(Duration::from_millis(100))
    }

    /// A policy with slots of a given width, a millisecond at least.
    pub fn with_presision(presision: Duration) -> (policy: MixedPolicy)
        requires
            presision.nanos >= crate::time::NANOS_PER_MILLI,
        ensures
            policy.ttl()@.records == Map::<Instant, Seq<Option<EntryId>>>::empty(),
            policy.ttl()@.last_update == policy.ttl()@.time,
            policy.ttl()@.presision == presision,
            policy.tti()@.records == Map::<Instant, Seq<Option<Record>>>::empty(),
            policy.tti()@.deadlines == Map::<u64, Instant>::empty(),
            policy.tti()@.last_update == policy.tti()@.time,
            policy.tti()@.next_id == 0,
            policy.tti()@.presision == presision,
    {
        MixedPolicy {
            ttl: TTLPolicy::with_presision(presision),
            tti: TTIPolicy::with_presision(presision),
        }
    }
}

impl ExpirePolicy for MixedPolicy {
    type Info = Expiration;

    type Storage = Storage;

    open spec fn inits(pre: Self, info: Expiration, post: Self, storage: Storage) -> bool {
        match (info, storage) {
            (Expiration::TTL(ttl), Storage::TTL(s)) => {
                &&& TTLPolicy::inits(pre.ttl(), ttl, post.ttl(), s)
                &&& post.tti() == pre.tti()
            },
            (Expiration::TTI(tti), Storage::TTI(s)) => {
                &&& TTIPolicy::inits(pre.tti(), tti, post.tti(), s)
                &&& post.ttl() == pre.ttl()
            },
            _ => false,
        }
    }

    open spec fn clears(pre: Self, post: Self) -> bool {
        &&& TTLPolicy::clears(pre.ttl(), post.ttl())
        &&& TTIPolicy::clears(pre.tti(), post.tti())
    }

    open spec fn judges(
        pre: Self,
        entry: EntryId,
        storage: Storage,
        post: Self,
        expired: bool,
    ) -> bool {
        match storage {
            Storage::TTL(s) => {
                &&& TTLPolicy::judges(pre.ttl(), entry, s, post.ttl(), expired)
                &&& post.tti() == pre.tti()
            },
            Storage::TTI(s) => {
                &&& TTIPolicy::judges(pre.tti(), entry, s, post.tti(), expired)
                &&& post.ttl() == pre.ttl()
            },
        }
    }

    open spec fn accessed(
        pre: Self,
        entry: EntryId,
        storage: Storage,
        post: Self,
        command: Command,
    ) -> bool {
        match storage {
            Storage::TTL(s) => {
                &&& TTLPolicy::accessed(pre.ttl(), entry, s, post.ttl(), command)
                &&& post.tti() == pre.tti()
            },
            Storage::TTI(s) => {
                &&& TTIPolicy::accessed(pre.tti(), entry, s, post.tti(), command)
                &&& post.ttl() == pre.ttl()
            },
        }
    }

    open spec fn inserted(
        pre: Self,
        entry: EntryId,
        storage: Storage,
        post: Self,
        command: Command,
    ) -> bool {
        match storage {
            Storage::TTL(s) => {
                &&& TTLPolicy::inserted(pre.ttl(), entry, s, post.ttl(), command)
                &&& post.tti() == pre.tti()
            },
            Storage::TTI(s) => {
                &&& TTIPolicy::inserted(pre.tti(), entry, s, post.tti(), command)
                &&& post.ttl() == pre.ttl()
            },
        }
    }

    open spec fn resized(pre: Self, post: Self, command: Command) -> bool {
        post == pre && command is Noop
    }

    fn init_storage(&mut self, info: Expiration) -> (storage: Storage) {
        match info {
            Expiration::TTL(ttl) => Storage::TTL(self.ttl.init_storage(ttl)),
            Expiration::TTI(tti) => Storage::TTI(self.tti.init_storage(tti)),
        }
    }

    fn clear(&mut self) {
        self.ttl.clear();
        self.tti.clear();
    }

    fn is_expired(&mut self, entry: EntryId, storage: &Storage) -> (expired: bool) {
        match storage {
            Storage::TTL(s) => self.ttl.is_expired(entry, s),
            Storage::TTI(s) => self.tti.is_expired(entry, s),
        }
    }

    fn on_access(&mut self, entry: EntryId, storage: &Storage) -> (command: Command) {
        match storage {
            Storage::TTL(s) => self.ttl.on_access(entry, s),
            Storage::TTI(s) => self.tti.on_access(entry, s),
        }
    }

    fn on_insert(&mut self, entry: EntryId, storage: &Storage) -> (command: Command) {
        match storage {
            Storage::TTL(s) => self.ttl.on_insert(entry, s),
            Storage::TTI(s) => self.tti.on_insert(entry, s),
        }
    }

    fn on_resize(&mut self) -> (command: Command) {
        Command::Noop
    }
}

/// What happens to entries of one kind leaves the part for the other kind as it was.
pub proof fn kinds_stay_apart(
    pre: MixedPolicy,
    entry: EntryId,
    storage: Storage,
    post: MixedPolicy,
    expired: bool,
    command: Command,
)
    requires
        ({
            ||| MixedPolicy::judges(pre, entry, storage, post, expired)
            ||| MixedPolicy::accessed(pre, entry, storage, post, command)
            ||| MixedPolicy::inserted(pre, entry, storage, post, command)
        }),
    ensures
        storage is TTL ==> post.tti() == pre.tti(),
        storage is TTI ==> post.ttl() == pre.ttl(),
{
}

/// An entry with a time to live is begun, judged, looked at and inserted as by a `TTLPolicy`, and one
/// that may be left alone for a time as by a `TTIPolicy`.
pub proof fn each_goes_by_its_kind(
    pre: MixedPolicy,
    info: Expiration,
    entry: EntryId,
    storage: Storage,
    post: MixedPolicy,
    expired: bool,
    command: Command,
)
    ensures
        MixedPolicy::inits(pre, info, post, storage) ==> match info {
            Expiration::TTL(ttl) => storage matches Storage::TTL(s) && TTLPolicy::inits(
                pre.ttl(),
                ttl,
                post.ttl(),
                s,
            ),
            Expiration::TTI(tti) => storage matches Storage::TTI(s) && TTIPolicy::inits(
                pre.tti(),
                tti,
                post.tti(),
                s,
            ),
        },
        MixedPolicy::judges(pre, entry, storage, post, expired) ==> match storage {
            Storage::TTL(s) => TTLPolicy::judges(pre.ttl(), entry, s, post.ttl(), expired),
            Storage::TTI(s) => TTIPolicy::judges(pre.tti(), entry, s, post.tti(), expired),
        },
        MixedPolicy::accessed(pre, entry, storage, post, command) ==> match storage {
            Storage::TTL(s) => TTLPolicy::accessed(pre.ttl(), entry, s, post.ttl(), command),
            Storage::TTI(s) => TTIPolicy::accessed(pre.tti(), entry, s, post.tti(), command),
        },
        MixedPolicy::inserted(pre, entry, storage, post, command) ==> match storage {
            Storage::TTL(s) => TTLPolicy::inserted(pre.ttl(), entry, s, post.ttl(), command),
            Storage::TTI(s) => TTIPolicy::inserted(pre.tti(), entry, s, post.tti(), command),
        },
{
}

impl Timely for MixedPolicy {
    open spec fn read_at(self, storage: Storage) -> Instant {
        match storage {
            Storage::TTL(s) => self.ttl().read_at(s),
            Storage::TTI(s) => self.tti().read_at(s),
        }
    }

    open spec fn is_sound(self) -> bool {
        &&& self.ttl().is_sound()
        &&& self.tti().is_sound()
        &&& self.ttl().recorded().disjoint(self.tti().recorded())
    }

    open spec fn can_begin(self) -> bool {
        self.tti().can_begin()
    }

    open spec fn recorded(self) -> Set<EntryId> {
        self.ttl().recorded() + self.tti().recorded()
    }

    open spec fn knows(self, storage: Storage) -> bool {
        match storage {
            Storage::TTL(s) => self.ttl().knows(s),
            Storage::TTI(s) => self.tti().knows(s),
        }
    }

    open spec fn are_apart(a: Storage, b: Storage) -> bool {
        match (a, b) {
            (Storage::TTI(x), Storage::TTI(y)) => TTIPolicy::are_apart(x, y),
            _ => true,
        }
    }

    open spec fn deadline(self, storage: Storage) -> Instant {
        match storage {
            Storage::TTL(s) => self.ttl().deadline(s),
            Storage::TTI(s) => self.tti().deadline(s),
        }
    }

    open spec fn minds(self, entry: EntryId, storage: Storage) -> bool {
        match storage {
            Storage::TTL(s) => self.ttl().minds(entry, s) && !self.tti().recorded().contains(entry),
            Storage::TTI(s) => self.tti().minds(entry, s) && !self.ttl().recorded().contains(entry),
        }
    }

    open spec fn follows(self, storage: Storage) -> bool {
        match storage {
            Storage::TTL(s) => self.ttl().follows(s),
            Storage::TTI(s) => self.tti().follows(s),
        }
    }

    proof fn inits_timely(
        pre: Self,
        info: Expiration,
        post: Self,
        made: Storage,
        id: EntryId,
        s: Storage,
    ) {
        match (info, made) {
            (Expiration::TTL(ttl), Storage::TTL(m)) => {
                TTLPolicy::inits_timely(pre.ttl(), ttl, post.ttl(), m, id, m);
                if let Storage::TTL(t) = s {
                    TTLPolicy::inits_timely(pre.ttl(), ttl, post.ttl(), m, id, t);
                }
            },
            (Expiration::TTI(tti), Storage::TTI(m)) => {
                TTIPolicy::inits_timely(pre.tti(), tti, post.tti(), m, id, m);
                if let Storage::TTI(t) = s {
                    TTIPolicy::inits_timely(pre.tti(), tti, post.tti(), m, id, t);
                }
            },
            _ => {},
        }
    }

    proof fn judges_timely(
        pre: Self,
        entry: EntryId,
        storage: Storage,
        post: Self,
        expired: bool,
        id: EntryId,
        s: Storage,
    ) {
        match storage {
            Storage::TTL(m) => {
                TTLPolicy::judges_timely(pre.ttl(), entry, m, post.ttl(), expired, id, m);
                if let Storage::TTL(t) = s {
                    TTLPolicy::judges_timely(pre.ttl(), entry, m, post.ttl(), expired, id, t);
                }
            },
            Storage::TTI(m) => {
                TTIPolicy::judges_timely(pre.tti(), entry, m, post.tti(), expired, id, m);
                if let Storage::TTI(t) = s {
                    TTIPolicy::judges_timely(pre.tti(), entry, m, post.tti(), expired, id, t);
                }
            },
        }
    }

    proof fn accessed_timely(
        pre: Self,
        entry: EntryId,
        storage: Storage,
        post: Self,
        command: Command,
        id: EntryId,
        s: Storage,
    ) {
        match storage {
            Storage::TTL(m) => {
                TTLPolicy::accessed_timely(pre.ttl(), entry, m, post.ttl(), command, id, m);
                TTLPolicy::accessed_recorded(pre.ttl(), entry, m, post.ttl(), command);
                if let Storage::TTL(t) = s {
                    TTLPolicy::accessed_timely(pre.ttl(), entry, m, post.ttl(), command, id, t);
                }
            },
            Storage::TTI(m) => {
                TTIPolicy::accessed_timely(pre.tti(), entry, m, post.tti(), command, id, m);
                TTIPolicy::accessed_recorded(pre.tti(), entry, m, post.tti(), command);
                if let Storage::TTI(t) = s {
                    TTIPolicy::accessed_timely(pre.tti(), entry, m, post.tti(), command, id, t);
                }
            },
        }
    }

    proof fn inserted_timely(
        pre: Self,
        entry: EntryId,
        storage: Storage,
        post: Self,
        command: Command,
        id: EntryId,
        s: Storage,
    ) {
        match storage {
            Storage::TTL(m) => {
                TTLPolicy::inserted_timely(pre.ttl(), entry, m, post.ttl(), command, id, m);
                TTLPolicy::inserted_recorded(pre.ttl(), entry, m, post.ttl(), command);
                if let Storage::TTL(t) = s {
                    TTLPolicy::inserted_timely(pre.ttl(), entry, m, post.ttl(), command, id, t);
                }
            },
            Storage::TTI(m) => {
                TTIPolicy::inserted_timely(pre.tti(), entry, m, post.tti(), command, id, m);
                TTIPolicy::inserted_recorded(pre.tti(), entry, m, post.tti(), command);
                if let Storage::TTI(t) = s {
                    TTIPolicy::inserted_timely(pre.tti(), entry, m, post.tti(), command, id, t);
                }
            },
        }
    }

    proof fn clears_timely(pre: Self, post: Self, s: Storage) {
        let at: Instant = arbitrary();
        let idle: TTIStorage = arbitrary();
        match s {
            Storage::TTL(t) => {
                TTLPolicy::clears_timely(pre.ttl(), post.ttl(), t);
                TTIPolicy::clears_timely(pre.tti(), post.tti(), idle);
            },
            Storage::TTI(t) => {
                TTLPolicy::clears_timely(pre.ttl(), post.ttl(), at);
                TTIPolicy::clears_timely(pre.tti(), post.tti(), t);
            },
        }
    }
}

impl Recording for MixedPolicy {
    proof fn accessed_recorded(
        pre: Self,
        entry: EntryId,
        storage: Storage,
        post: Self,
        command: Command,
    ) {
        match storage {
            Storage::TTL(m) => TTLPolicy::accessed_recorded(
                pre.ttl(),
                entry,
                m,
                post.ttl(),
                command,
            ),
            Storage::TTI(m) => TTIPolicy::accessed_recorded(
                pre.tti(),
                entry,
                m,
                post.tti(),
                command,
            ),
        }
    }

    proof fn inserted_recorded(
        pre: Self,
        entry: EntryId,
        storage: Storage,
        post: Self,
        command: Command,
    ) {
        match storage {
            Storage::TTL(m) => TTLPolicy::inserted_recorded(
                pre.ttl(),
                entry,
                m,
                post.ttl(),
                command,
            ),
            Storage::TTI(m) => TTIPolicy::inserted_recorded(
                pre.tti(),
                entry,
                m,
                post.tti(),
                command,
            ),
        }
    }
}

/// A new policy has nothing on record, and is in order.
pub proof fn new_is_sound(policy: MixedPolicy)
    requires
        policy.ttl()@.records == Map::<Instant, Seq<Option<EntryId>>>::empty(),
        policy.ttl()@.presision.nanos >= crate::time::NANOS_PER_MILLI,
        policy.tti()@.records == Map::<Instant, Seq<Option<Record>>>::empty(),
        policy.tti()@.presision.nanos >= crate::time::NANOS_PER_MILLI,
    ensures
        policy.is_sound(),
        policy.recorded() =~= Set::<EntryId>::empty(),
{
    crate::policy::ttl_policy::new_is_sound(policy.ttl());
    crate::policy::tti_policy::new_is_sound(policy.tti());
}

} // verus!
