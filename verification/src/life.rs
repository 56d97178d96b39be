//! How long entries stay in a map, whatever is done to the map in between.
use vstd::prelude::*;

use crate::entry::EntryId;
use crate::model::{AccessTrace, InsertTrace, MapModel, ResetTrace, SweepTrace};
use crate::policy::{Command, ExpirePolicy};

verus! {

/// Something that is done to a map.
#[allow(inconsistent_fields)]
pub enum Step<K, V, P: ExpirePolicy> {
    /// A value is inserted.
    Insert { key: K, value: V, info: P::Info, trace: InsertTrace<P>, out: Option<V> },
    /// The entry for a key is looked at.
    Look { key: K, trace: AccessTrace<P> },
    /// The entry for a key is taken out.
    Remove { key: K, expired: bool },
    /// The policy is asked about every entry.
    Sweep { trace: SweepTrace<P> },
    /// The policy is asked about one entry.
    Ask { id: EntryId, expired: bool },
    /// The entry for a key is opened.
    Open { key: K, expired: bool },
    /// The policy is told of an access to an entry.
    Touch { id: EntryId, command: Command },
    /// An entry in hand gets a new value and begins anew.
    Reset { at: EntryId, value: V, info: P::Info, trace: ResetTrace<P> },
    /// An entry in hand gets a new value, or is taken out, by what the old value was.
    Turn { id: EntryId, out: Option<V>, command: Command },
    /// An entry in hand is taken out.
    RemoveAt { id: EntryId, expired: bool },
    /// The value of an entry is written in place, and maybe its key.
    Write { id: EntryId, key: K, value: V },
    /// Every entry is taken out.
    Clear,
}

impl<K: Eq, V, P: ExpirePolicy, H> MapModel<K, V, P, H> {
    /// The step leads from this map to `post`.
    pub open spec fn takes(self, step: Step<K, V, P>, post: Self) -> bool {
        match step {
            Step::Insert { key, value, info, trace, out } => self.inserts(
                key,
                value,
                info,
                trace,
                post,
                out,
            ),
            Step::Look { key, trace } => self.looks_up(key, trace, post),
            Step::Remove { key, expired } => self.removes(key, expired, post),
            Step::Sweep { trace } => self.sweeps(trace, post),
            Step::Ask { id, expired } => {
                &&& self.entries.contains_key(id)
                &&& P::judges(
                    self.policy,
                    id,
                    self.entries[id].storage.storage,
                    post.policy,
                    expired,
                )
                &&& post == self.with_policy(post.policy)
            },
            Step::Open { key, expired } => self.opens(key, expired, post),
            Step::Touch { id, command } => {
                &&& self.entries.contains_key(id)
                &&& self.touches(id, command, post)
            },
            Step::Reset { at, value, info, trace } => {
                &&& self.entries.contains_key(at)
                &&& self.resets(at, value, info, trace, post)
            },
            Step::Turn { id, out, command } => {
                &&& self.entries.contains_key(id)
                &&& self.turns(id, out, command, post)
            },
            Step::RemoveAt { id, expired } => {
                &&& self.entries.contains_key(id)
                &&& self.removes_at(id, expired, post)
            },
            Step::Write { id, key, value } => {
                &&& self.holds(id, key)
                &&& post == self.set_pair(id, key, value)
            },
            Step::Clear => {
                &&& P::clears(self.policy, post.policy)
                &&& post == Self::vacant(post.policy, self.hash_builder)
            },
        }
    }

    /// The step does not itself take this entry out, replace it or write it.
    pub open spec fn spares(self, step: Step<K, V, P>, entry: EntryId) -> bool {
        match step {
            Step::Insert { key, .. } => self.release_first().locate(key) != Some(entry),
            Step::Remove { key, .. } => self.release_first().locate(key) != Some(entry),
            Step::Reset { at, .. } => at != entry,
            Step::Turn { id, .. } => id != entry,
            Step::RemoveAt { id, .. } => id != entry,
            Step::Write { id, .. } => id != entry,
            Step::Clear => false,
            _ => true,
        }
    }

    /// The id stands in a list of the backlog.
    pub open spec fn waits(self, id: EntryId) -> bool {
        exists|i: int|
            0 <= i < self.backlog.len() && (#[trigger] self.backlog[i]).contains(Some(id))
    }

    /// There is an entry for the key, it goes by this id, and it has not been reported.
    pub open spec fn stays(self, id: EntryId, key: K) -> bool {
        &&& self.holds(id, key)
        &&& !self.entries[id].storage.removed
        &&& !self.waits(id)
    }

    /// A command that does not list an entry leaves it where it is.
    pub proof fn told_stays(self, command: Command, id: EntryId, key: K)
        requires
            self.stays(id, key),
            !command.lists(id),
        ensures
            self.told(command).stays(id, key),
            self.told(command).entries[id] == self.entries[id],
    {
        let told = self.told(command);
        assert forall|i: int| 0 <= i < told.backlog.len() implies !(
        #[trigger] told.backlog[i]).contains(Some(id)) by {
            if i < self.backlog.len() {
                assert(!self.backlog[i].contains(Some(id)));
            }
        }
    }

    /// Dealing with a list of the backlog leaves an entry where it is that does not wait.
    pub proof fn release_stays(self, id: EntryId, key: K)
        requires
            self.stays(id, key),
        ensures
            self.release_first().stays(id, key),
            self.release_first().entries[id] == self.entries[id],
    {
        let next = self.release_first();
        if self.backlog.len() > 0 {
            assert(!self.backlog[0].contains(Some(id)));
        }
        assert forall|i: int| 0 <= i < next.backlog.len() implies !(
        #[trigger] next.backlog[i]).contains(Some(id)) by {
            if self.backlog.len() > 0 {
                assert(!self.backlog[i + 1].contains(Some(id)));
            } else {
                assert(!self.backlog[i].contains(Some(id)));
            }
        }
    }

    /// Dealing with the whole backlog leaves an entry where it is that does not wait.
    pub proof fn release_all_stays(self, id: EntryId, key: K)
        requires
            self.stays(id, key),
        ensures
            self.release_all().stays(id, key),
            self.release_all().entries[id] == self.entries[id],
        decreases self.backlog.len(),
    {
        if self.backlog.len() > 0 {
            self.release_stays(id, key);
            self.release_first().release_all_stays(id, key);
        }
    }

    /// Dealing with the backlog takes nothing into use and puts nothing on it.
    pub proof fn release_all_shrinks(self)
        ensures
            self.release_all().entries.submap_of(self.entries),
            self.release_all().ids().subset_of(self.ids()),
            self.release_all().backlog.len() == 0,
            self.release_all().policy == self.policy,
            self.release_all().hash_builder == self.hash_builder,
        decreases self.backlog.len(),
    {
        if self.backlog.len() > 0 {
            let next = self.release_first();
            next.release_all_shrinks();
            assert(next.entries.submap_of(self.entries));
            assert(next.ids().subset_of(self.ids()));
            assert forall|id: EntryId| #[trigger]
                self.release_all().entries.dom().contains(id) implies self.entries.dom().contains(
                id,
            ) && self.release_all().entries[id] == self.entries[id] by {
                assert(next.entries.dom().contains(id));
            }
        }
    }
}

/// A policy by which each entry has a deadline, and keeps to it. Its proof functions say so of
/// each method; `id` and `s` stand for any entry and what is kept of it.
pub trait Timely: ExpirePolicy {
    /// The time that was read last, by the clock that the entry goes by.
    spec fn read_at(self, storage: Self::Storage) -> crate::time::Instant;

    /// What the policy has on record is in order.
    spec fn is_sound(self) -> bool;

    /// There is a number left for one more entry.
    spec fn can_begin(self) -> bool;

    /// The ids that the policy has on record.
    spec fn recorded(self) -> Set<EntryId>;

    /// The policy has made this storage.
    spec fn knows(self, storage: Self::Storage) -> bool;

    /// The two storages are of different entries.
    spec fn are_apart(a: Self::Storage, b: Self::Storage) -> bool;

    /// When the entry expires, as things stand.
    spec fn deadline(self, storage: Self::Storage) -> crate::time::Instant;

    /// Nothing on record has the entry reported before its deadline.
    spec fn minds(self, entry: EntryId, storage: Self::Storage) -> bool;

    /// The policy has made this storage, and what it takes for the deadline is not earlier than
    /// the first one.
    spec fn follows(self, storage: Self::Storage) -> bool;

    /// A new storage is apart from those that there are, and its entry is minded unless its id is
    /// on record.
    proof fn inits_timely(
        pre: Self,
        info: Self::Info,
        post: Self,
        made: Self::Storage,
        id: EntryId,
        s: Self::Storage,
    )
        requires
            Self::inits(pre, info, post, made),
            pre.is_sound(),
            pre.can_begin(),
        ensures
            post.is_sound(),
            post.recorded() == pre.recorded(),
            pre.read_at(s).nanos <= post.read_at(s).nanos,
            post.knows(made),
            pre.knows(s) ==> post.knows(s) && Self::are_apart(made, s) && Self::are_apart(s, made),
            pre.minds(id, s) ==> post.minds(id, s) && post.deadline(s) == pre.deadline(s),
            pre.minds(id, s) ==> pre.follows(s),
            pre.follows(s) ==> post.follows(s) && post.deadline(s) == pre.deadline(s)
                && Self::are_apart(made, s),
            !pre.recorded().contains(id) ==> post.minds(id, made),
    ;

    /// A question is answered by the deadline of the entry, and brings no deadline forward.
    proof fn judges_timely(
        pre: Self,
        entry: EntryId,
        storage: Self::Storage,
        post: Self,
        expired: bool,
        id: EntryId,
        s: Self::Storage,
    )
        requires
            Self::judges(pre, entry, storage, post, expired),
            pre.is_sound(),
        ensures
            post.is_sound(),
            post.recorded() == pre.recorded(),
            pre.read_at(s).nanos <= post.read_at(s).nanos,
            pre.knows(s) ==> post.knows(s),
            pre.minds(id, s) && (storage == s || Self::are_apart(storage, s)) ==> post.minds(id, s)
                && pre.deadline(s).nanos <= post.deadline(s).nanos,
            pre.minds(id, s) ==> pre.follows(s),
            pre.follows(s) && (storage == s || Self::are_apart(storage, s)) ==> post.follows(s) && (
            pre.deadline(s).nanos < post.read_at(s).nanos ==> post.deadline(s).nanos
                <= pre.deadline(s).nanos),
            post.read_at(storage).nanos < pre.deadline(storage).nanos ==> !expired,
            post.read_at(storage).nanos > pre.deadline(storage).nanos ==> expired,
    ;

    /// An access has no entry reported before its deadline, and brings no deadline forward before
    /// it is over, nor moves one back that is over.
    proof fn accessed_timely(
        pre: Self,
        entry: EntryId,
        storage: Self::Storage,
        post: Self,
        command: Command,
        id: EntryId,
        s: Self::Storage,
    )
        requires
            Self::accessed(pre, entry, storage, post, command),
            pre.is_sound(),
        ensures
            post.is_sound(),
            pre.read_at(s).nanos <= post.read_at(s).nanos,
            pre.knows(s) ==> post.knows(s),
            pre.minds(id, s) ==> pre.follows(s),
            pre.follows(s) ==> post.follows(s) && (pre.deadline(s).nanos < post.read_at(s).nanos
                ==> post.deadline(s).nanos <= pre.deadline(s).nanos),
            pre.minds(id, s) && (entry == id ==> storage == s) && post.read_at(s).nanos
                < pre.deadline(s).nanos ==> post.minds(id, s) && pre.deadline(s).nanos
                <= post.deadline(s).nanos && !command.lists(id),
    ;

    /// An insertion has no entry reported before its deadline, and brings no deadline forward
    /// before it is over, nor moves one back that is over.
    proof fn inserted_timely(
        pre: Self,
        entry: EntryId,
        storage: Self::Storage,
        post: Self,
        command: Command,
        id: EntryId,
        s: Self::Storage,
    )
        requires
            Self::inserted(pre, entry, storage, post, command),
            pre.is_sound(),
            pre.knows(storage),
            !pre.recorded().contains(entry),
        ensures
            post.is_sound(),
            pre.read_at(s).nanos <= post.read_at(s).nanos,
            pre.knows(s) ==> post.knows(s),
            pre.follows(s) && (storage == s || Self::are_apart(storage, s)) ==> post.follows(s) && (
            pre.deadline(s).nanos < post.read_at(s).nanos ==> post.deadline(s).nanos
                <= pre.deadline(s).nanos),
            pre.minds(id, s) && (if id == entry {
                s == storage
            } else {
                Self::are_apart(storage, s)
            }) && post.read_at(s).nanos < pre.deadline(s).nanos ==> post.minds(id, s)
                && pre.deadline(s).nanos <= post.deadline(s).nanos && !command.lists(id),
    ;

    /// To forget all entries leaves nothing on record.
    proof fn clears_timely(pre: Self, post: Self, s: Self::Storage)
        requires
            Self::clears(pre, post),
            pre.is_sound(),
        ensures
            post.is_sound(),
            post.recorded() =~= Set::<EntryId>::empty(),
            pre.read_at(s).nanos <= post.read_at(s).nanos,
    ;
}

impl<K: Eq, V, P: Timely, H> MapModel<K, V, P, H> {
    /// The policy has made what is kept of each entry, and no two entries share it.
    pub open spec fn is_told_apart(self) -> bool {
        &&& self.policy.is_sound()
        &&& forall|id: EntryId| #[trigger]
            self.entries.contains_key(id) ==> self.policy.knows(self.entries[id].storage.storage)
        &&& forall|a: EntryId, b: EntryId| #[trigger]
            self.entries.contains_key(a) && #[trigger] self.entries.contains_key(b) && a != b
                ==> P::are_apart(
                self.entries[a].storage.storage,
                self.entries[b].storage.storage,
            )
    }

    /// A step that inserts has a number for its entry, and an id that is not on record.
    pub open spec fn is_fresh(self, step: Step<K, V, P>) -> bool {
        match step {
            Step::Insert { trace, .. } => self.policy.can_begin()
                && !self.policy.recorded().contains(trace.id),
            Step::Reset { trace, .. } => self.policy.can_begin()
                && !self.policy.recorded().contains(trace.id),
            _ => true,
        }
    }

    /// There is an entry for the key, it goes by this id, it has not been reported, and it will
    /// not be before its deadline.
    pub open spec fn keeps(self, id: EntryId, key: K) -> bool {
        &&& self.stays(id, key)
        &&& self.policy.minds(id, self.entries[id].storage.storage)
    }

    /// The deadline of an entry, as things stand.
    pub open spec fn deadline_of(self, id: EntryId) -> crate::time::Instant {
        self.policy.deadline(self.entries[id].storage.storage)
    }

    /// The step is over before the deadline of an entry.
    pub open spec fn in_time(self, post: Self, id: EntryId) -> bool {
        post.policy.read_at(self.entries[id].storage.storage).nanos < self.deadline_of(id).nanos
    }

    /// A map with no entries but those of this one, and maybe a new one, is told apart.
    proof fn carries(self, post: Self, id: EntryId)
        requires
            self.is_told_apart(),
            post.policy.is_sound(),
            forall|a: EntryId| #[trigger]
                post.entries.contains_key(a) && a != id ==> {
                    &&& self.entries.contains_key(a)
                    &&& post.entries[a].storage.storage == self.entries[a].storage.storage
                    &&& post.policy.knows(post.entries[a].storage.storage)
                    &&& post.entries.contains_key(id) ==> {
                        &&& P::are_apart(
                            post.entries[a].storage.storage,
                            post.entries[id].storage.storage,
                        )
                        &&& P::are_apart(
                            post.entries[id].storage.storage,
                            post.entries[a].storage.storage,
                        )
                    }
                },
            post.entries.contains_key(id) ==> post.policy.knows(post.entries[id].storage.storage),
        ensures
            post.is_told_apart(),
    {
        assert forall|a: EntryId, b: EntryId| #[trigger]
            post.entries.contains_key(a) && #[trigger] post.entries.contains_key(b) && a
                != b implies P::are_apart(
            post.entries[a].storage.storage,
            post.entries[b].storage.storage,
        ) by {
            if a != id && b != id {
                assert(self.entries.contains_key(a) && self.entries.contains_key(b));
            }
        }
    }

    /// A map with no entries but those of this one is told apart.
    proof fn carries_on(self, post: Self)
        requires
            self.is_told_apart(),
            post.policy.is_sound(),
            forall|a: EntryId| #[trigger]
                post.entries.contains_key(a) ==> {
                    &&& self.entries.contains_key(a)
                    &&& post.entries[a].storage.storage == self.entries[a].storage.storage
                    &&& post.policy.knows(post.entries[a].storage.storage)
                },
        ensures
            post.is_told_apart(),
    {
        assert forall|a: EntryId, b: EntryId| #[trigger]
            post.entries.contains_key(a) && #[trigger] post.entries.contains_key(b) && a
                != b implies P::are_apart(
            post.entries[a].storage.storage,
            post.entries[b].storage.storage,
        ) by {
            assert(self.entries.contains_key(a) && self.entries.contains_key(b));
        }
    }

    /// What a walk leaves as it was, after `n` questions.
    proof fn sweep_goes(
        self,
        trace: SweepTrace<P>,
        post: Self,
        n: int,
        id: EntryId,
        key: K,
        s: P::Storage,
    )
        requires
            self.is_told_apart(),
            self.sweeps(trace, post),
            0 <= n <= trace.order.len(),
        ensures
            trace.policies[n].is_sound(),
            trace.policies[n].recorded() == self.policy.recorded(),
            self.policy.read_at(s).nanos <= trace.policies[n].read_at(s).nanos,
            forall|a: EntryId| #[trigger]
                self.entries.contains_key(a) ==> trace.policies[n].knows(
                    self.entries[a].storage.storage,
                ),
            self.keeps(id, key) ==> {
                let s = self.entries[id].storage.storage;
                &&& trace.policies[n].minds(id, s)
                &&& self.policy.deadline(s).nanos <= trace.policies[n].deadline(s).nanos
            },
        decreases n,
    {
        if n > 0 {
            self.sweep_goes(trace, post, n - 1, id, key, s);
            let p = trace.policies[n - 1];
            let q = trace.policies[n];
            let e = trace.order[n - 1];
            assert(self.sweeps_at(trace, n - 1));
            assert(trace.order.to_set().contains(e));
            assert(self.entries.contains_key(e));
            let se = self.entries[e].storage.storage;
            P::judges_timely(p, e, se, q, trace.expired[n - 1], id, s);
            P::judges_timely(
                p,
                e,
                se,
                q,
                trace.expired[n - 1],
                id,
                self.entries[id].storage.storage,
            );
            assert forall|a: EntryId| #[trigger] self.entries.contains_key(a) implies q.knows(
                self.entries[a].storage.storage,
            ) by {
                P::judges_timely(
                    p,
                    e,
                    se,
                    q,
                    trace.expired[n - 1],
                    a,
                    self.entries[a].storage.storage,
                );
            }
            if self.keeps(id, key) && e != id {
                assert(self.entries.contains_key(e) && self.entries.contains_key(id));
            }
        }
    }

    /// Any step leaves the entries told apart.
    #[verifier::rlimit(60)]
    #[verifier::spinoff_prover]
    pub proof fn step_tells_apart(self, step: Step<K, V, P>, post: Self)
        requires
            self.wf(),
            post.wf(),
            self.is_told_apart(),
            self.takes(step, post),
            self.is_fresh(step),
        ensures
            post.is_told_apart(),
    {
        match step {
            Step::Insert { key, value, info, trace, out } => {
                self.insertion_tells_apart(key, value, info, trace, post, out);
            },
            Step::Look { key, trace } => {
                if let Some(id) = self.locate(key) {
                    assert(self.holds(id, key));
                    let e = self.entries[id].storage.storage;
                    P::accessed_timely(self.policy, id, e, trace.accessed, trace.command, id, e);
                    P::judges_timely(trace.accessed, id, e, post.policy, trace.expired, id, e);
                    assert forall|a: EntryId| #[trigger] post.entries.contains_key(a) implies {
                        &&& self.entries.contains_key(a)
                        &&& post.entries[a].storage.storage == self.entries[a].storage.storage
                        &&& post.policy.knows(post.entries[a].storage.storage)
                    } by {
                        let s = self.entries[a].storage.storage;
                        P::accessed_timely(self.policy, id, e, trace.accessed, trace.command, a, s);
                        P::judges_timely(trace.accessed, id, e, post.policy, trace.expired, a, s);
                    }
                    self.carries_on(post);
                }
            },
            Step::Remove { key, expired } => {
                let start = self.release_first();
                self.carries_on(start);
                if let Some(id) = start.locate(key) {
                    assert(start.holds(id, key));
                    let e = start.entries[id].storage.storage;
                    P::judges_timely(start.policy, id, e, post.policy, expired, id, e);
                    assert forall|a: EntryId| #[trigger] post.entries.contains_key(a) implies {
                        &&& start.entries.contains_key(a)
                        &&& post.entries[a].storage.storage == start.entries[a].storage.storage
                        &&& post.policy.knows(post.entries[a].storage.storage)
                    } by {
                        let s = start.entries[a].storage.storage;
                        P::judges_timely(start.policy, id, e, post.policy, expired, a, s);
                    }
                    start.carries_on(post);
                }
            },
            Step::Sweep { trace } => {
                self.sweep_goes(
                    trace,
                    post,
                    trace.order.len() as int,
                    arbitrary(),
                    arbitrary(),
                    arbitrary(),
                );
                self.carries_on(post);
            },
            Step::Ask { id, expired } => {
                self.question_tells_apart(id, expired, post);
            },
            Step::Open { key, expired } => {
                if let Some(id) = self.locate(key) {
                    assert(self.holds(id, key));
                    self.question_tells_apart(id, expired, post);
                }
            },
            Step::Touch { id, command } => {
                self.access_tells_apart(id, command, self, post);
            },
            Step::Reset { at, value, info, trace } => {
                self.reset_tells_apart(at, value, info, trace, post);
            },
            Step::Turn { id, out, command } => {
                let changed = match out {
                    Some(value) => self.set_value(id, value),
                    None => self.retire(id),
                };
                self.access_tells_apart(id, command, changed, post);
            },
            Step::RemoveAt { id, expired } => {
                let mid = self.retire(id).with_policy(post.policy);
                let e = self.entries[id].storage.storage;
                P::judges_timely(self.policy, id, e, post.policy, expired, id, e);
                assert forall|a: EntryId| #[trigger] post.entries.contains_key(a) implies {
                    &&& self.entries.contains_key(a)
                    &&& post.entries[a].storage.storage == self.entries[a].storage.storage
                    &&& post.policy.knows(post.entries[a].storage.storage)
                } by {
                    let s = self.entries[a].storage.storage;
                    P::judges_timely(self.policy, id, e, post.policy, expired, a, s);
                }
                self.carries_on(post);
            },
            Step::Write { id, key, value } => {
                self.carries_on(post);
            },
            Step::Clear => {
                P::clears_timely(self.policy, post.policy, arbitrary());
            },
        }
    }

    /// Any step reads no time that lies before one read earlier.
    pub proof fn step_takes_time(self, step: Step<K, V, P>, post: Self, s: P::Storage)
        requires
            self.wf(),
            self.is_told_apart(),
            self.takes(step, post),
            self.is_fresh(step),
        ensures
            self.policy.read_at(s).nanos <= post.policy.read_at(s).nanos,
    {
        match step {
            Step::Insert { key, value, info, trace, out } => {
                let start = self.release_first();
                let made = trace.storage;
                P::inits_timely(start.policy, info, trace.ready, made, trace.id, s);
                if let Some(e) = start.locate(key) {
                    let was = start.entries[e].storage.storage;
                    P::judges_timely(trace.ready, e, was, trace.judged, trace.expired, e, s);
                    P::judges_timely(trace.ready, e, was, trace.judged, trace.expired, e, made);
                }
                P::inserted_timely(
                    trace.judged,
                    trace.id,
                    made,
                    post.policy,
                    trace.command,
                    trace.id,
                    s,
                );
            },
            Step::Look { key, trace } => {
                if let Some(e) = self.locate(key) {
                    let se = self.entries[e].storage.storage;
                    P::accessed_timely(self.policy, e, se, trace.accessed, trace.command, e, s);
                    P::judges_timely(trace.accessed, e, se, post.policy, trace.expired, e, s);
                }
            },
            Step::Remove { key, expired } => {
                let start = self.release_first();
                if let Some(e) = start.locate(key) {
                    let se = start.entries[e].storage.storage;
                    P::judges_timely(start.policy, e, se, post.policy, expired, e, s);
                }
            },
            Step::Sweep { trace } => {
                self.sweep_goes(
                    trace,
                    post,
                    trace.order.len() as int,
                    arbitrary(),
                    arbitrary(),
                    s,
                );
            },
            Step::Ask { id, expired } => {
                let se = self.entries[id].storage.storage;
                P::judges_timely(self.policy, id, se, post.policy, expired, id, s);
            },
            Step::Open { key, expired } => {
                if let Some(e) = self.locate(key) {
                    let se = self.entries[e].storage.storage;
                    P::judges_timely(self.policy, e, se, post.policy, expired, e, s);
                }
            },
            Step::Touch { id, command } => {
                let se = self.entries[id].storage.storage;
                P::accessed_timely(self.policy, id, se, post.policy, command, id, s);
            },
            Step::Reset { at, value, info, trace } => {
                let made = trace.storage;
                P::inits_timely(self.policy, info, trace.ready, made, trace.id, s);
                P::inserted_timely(
                    trace.ready,
                    trace.id,
                    made,
                    post.policy,
                    trace.command,
                    trace.id,
                    s,
                );
            },
            Step::Turn { id, out, command } => {
                let se = self.entries[id].storage.storage;
                P::accessed_timely(self.policy, id, se, post.policy, command, id, s);
            },
            Step::RemoveAt { id, expired } => {
                let se = self.entries[id].storage.storage;
                P::judges_timely(self.policy, id, se, post.policy, expired, id, s);
            },
            Step::Write { id, key, value } => {},
            Step::Clear => {
                P::clears_timely(self.policy, post.policy, s);
            },
        }
    }

    /// A question about an entry leaves the entries told apart.
    proof fn question_tells_apart(self, id: EntryId, expired: bool, post: Self)
        requires
            self.is_told_apart(),
            self.entries.contains_key(id),
            P::judges(
                self.policy,
                id,
                self.entries[id].storage.storage,
                post.policy,
                expired,
            ),
            post == self.with_policy(post.policy),
        ensures
            post.is_told_apart(),
    {
        let e = self.entries[id].storage.storage;
        P::judges_timely(self.policy, id, e, post.policy, expired, id, e);
        assert forall|a: EntryId| #[trigger] post.entries.contains_key(a) implies {
            &&& self.entries.contains_key(a)
            &&& post.entries[a].storage.storage == self.entries[a].storage.storage
            &&& post.policy.knows(post.entries[a].storage.storage)
        } by {
            let s = self.entries[a].storage.storage;
            P::judges_timely(self.policy, id, e, post.policy, expired, a, s);
        }
        self.carries_on(post);
    }

    /// An access to an entry leaves the entries told apart, where they have changed in nothing that
    /// the policy keeps of them.
    proof fn access_tells_apart(self, id: EntryId, command: Command, changed: Self, post: Self)
        requires
            self.is_told_apart(),
            self.entries.contains_key(id),
            P::accessed(
                self.policy,
                id,
                self.entries[id].storage.storage,
                post.policy,
                command,
            ),
            forall|a: EntryId| #[trigger]
                changed.entries.contains_key(a) ==> {
                    &&& self.entries.contains_key(a)
                    &&& changed.entries[a].storage.storage == self.entries[a].storage.storage
                },
            post == changed.told(command).with_policy(post.policy),
        ensures
            post.is_told_apart(),
    {
        let e = self.entries[id].storage.storage;
        P::accessed_timely(self.policy, id, e, post.policy, command, id, e);
        assert forall|a: EntryId| #[trigger] post.entries.contains_key(a) implies {
            &&& self.entries.contains_key(a)
            &&& post.entries[a].storage.storage == self.entries[a].storage.storage
            &&& post.policy.knows(post.entries[a].storage.storage)
        } by {
            assert(changed.entries.contains_key(a));
            let s = self.entries[a].storage.storage;
            P::accessed_timely(self.policy, id, e, post.policy, command, a, s);
        }
        self.carries_on(post);
    }

    /// An insertion leaves the entries told apart.
    proof fn insertion_tells_apart(
        self,
        key: K,
        value: V,
        info: P::Info,
        trace: InsertTrace<P>,
        post: Self,
        out: Option<V>,
    )
        requires
            self.wf(),
            self.is_told_apart(),
            self.inserts(key, value, info, trace, post, out),
            self.policy.can_begin(),
            !self.policy.recorded().contains(trace.id),
        ensures
            post.is_told_apart(),
    {
        let start = self.release_first();
        let made = trace.storage;
        start.release_all_shrinks();
        P::inits_timely(start.policy, info, trace.ready, made, trace.id, made);
        if let Some(old_id) = start.locate(key) {
            assert(start.holds(old_id, key));
            let was = start.entries[old_id].storage.storage;
            P::judges_timely(trace.ready, old_id, was, trace.judged, trace.expired, old_id, made);
        }
        P::inserted_timely(
            trace.judged,
            trace.id,
            made,
            post.policy,
            trace.command,
            trace.id,
            made,
        );
        assert forall|a: EntryId| #[trigger] post.entries.contains_key(a) && a != trace.id implies {
            &&& self.entries.contains_key(a)
            &&& post.entries[a].storage.storage == self.entries[a].storage.storage
            &&& post.policy.knows(post.entries[a].storage.storage)
            &&& P::are_apart(post.entries[a].storage.storage, made)
            &&& P::are_apart(made, post.entries[a].storage.storage)
        } by {
            assert(trace.placed(start, key, value).entries.contains_key(a));
            assert(start.entries.contains_key(a));
            let s = self.entries[a].storage.storage;
            P::inits_timely(start.policy, info, trace.ready, made, a, s);
            if let Some(old_id) = start.locate(key) {
                let was = start.entries[old_id].storage.storage;
                P::judges_timely(trace.ready, old_id, was, trace.judged, trace.expired, a, s);
            }
            P::inserted_timely(trace.judged, trace.id, made, post.policy, trace.command, a, s);
        }
        assert(post.entries.contains_key(trace.id));
        assert(post.entries[trace.id].storage.storage == made);
        self.carries(post, trace.id);
    }

    /// A new value for an entry in hand leaves the entries told apart.
    proof fn reset_tells_apart(
        self,
        at: EntryId,
        value: V,
        info: P::Info,
        trace: ResetTrace<P>,
        post: Self,
    )
        requires
            self.wf(),
            self.is_told_apart(),
            self.entries.contains_key(at),
            self.resets(at, value, info, trace, post),
            self.policy.can_begin(),
            !self.policy.recorded().contains(trace.id),
        ensures
            post.is_told_apart(),
    {
        let made = trace.storage;
        P::inits_timely(self.policy, info, trace.ready, made, trace.id, made);
        P::inserted_timely(trace.ready, trace.id, made, post.policy, trace.command, trace.id, made);
        assert forall|a: EntryId| #[trigger] post.entries.contains_key(a) && a != trace.id implies {
            &&& self.entries.contains_key(a)
            &&& post.entries[a].storage.storage == self.entries[a].storage.storage
            &&& post.policy.knows(post.entries[a].storage.storage)
            &&& P::are_apart(post.entries[a].storage.storage, made)
            &&& P::are_apart(made, post.entries[a].storage.storage)
        } by {
            let s = self.entries[a].storage.storage;
            P::inits_timely(self.policy, info, trace.ready, made, a, s);
            P::inserted_timely(trace.ready, trace.id, made, post.policy, trace.command, a, s);
        }
        assert(post.entries.contains_key(trace.id));
        self.carries(post, trace.id);
    }
}

impl<K: Eq, V, P: Timely, H> MapModel<K, V, P, H> {
    /// A question about an entry leaves every entry kept.
    proof fn question_keeps(
        self,
        e: EntryId,
        before: P,
        after: P,
        expired: bool,
        id: EntryId,
        key: K,
    )
        requires
            self.is_told_apart(),
            self.entries.contains_key(e),
            self.entries.contains_key(id),
            before.is_sound(),
            before.minds(id, self.entries[id].storage.storage),
            P::judges(before, e, self.entries[e].storage.storage, after, expired),
        ensures
            after.is_sound(),
            after.minds(id, self.entries[id].storage.storage),
            before.deadline(self.entries[id].storage.storage).nanos <= after.deadline(
                self.entries[id].storage.storage,
            ).nanos,
    {
        let s = self.entries[id].storage.storage;
        P::judges_timely(before, e, self.entries[e].storage.storage, after, expired, id, s);
        if e != id {
            assert(self.entries.contains_key(e) && self.entries.contains_key(id));
        }
    }

    /// An insertion keeps every other entry that is there in time.
    proof fn insertion_keeps(
        self,
        key: K,
        value: V,
        info: P::Info,
        trace: InsertTrace<P>,
        post: Self,
        out: Option<V>,
        id: EntryId,
        own: K,
    )
        requires
            self.wf(),
            self.is_told_apart(),
            self.inserts(key, value, info, trace, post, out),
            self.policy.can_begin(),
            !self.policy.recorded().contains(trace.id),
            self.keeps(id, own),
            self.release_first().locate(key) != Some(id),
            self.in_time(post, id),
        ensures
            post.keeps(id, own),
            post.entries[id] == self.entries[id],
            self.deadline_of(id).nanos <= post.deadline_of(id).nanos,
    {
        let start = self.release_first();
        let made = trace.storage;
        let s = self.entries[id].storage.storage;
        self.release_stays(id, own);
        start.release_all_stays(id, own);
        self.carries_on(start);
        P::inits_timely(start.policy, info, trace.ready, made, id, s);
        if let Some(old_id) = start.locate(key) {
            assert(start.holds(old_id, key));
            P::inits_timely(
                start.policy,
                info,
                trace.ready,
                made,
                old_id,
                start.entries[old_id].storage.storage,
            );
            start.question_keeps(old_id, trace.ready, trace.judged, trace.expired, id, own);
            P::judges_timely(
                trace.ready,
                old_id,
                start.entries[old_id].storage.storage,
                trace.judged,
                trace.expired,
                trace.id,
                made,
            );
        }
        let from = trace.placed_from(start, key);
        assert(from.stays(id, own));
        assert(from.ids().contains(id));
        assert(trace.id != id);
        P::inserted_timely(trace.judged, trace.id, made, post.policy, trace.command, id, s);
        let placed = trace.placed(start, key, value).with_policy(post.policy);
        assert(placed.backlog == from.backlog);
        assert(placed.entries[id] == self.entries[id]);
        assert(placed.stays(id, own)) by {
            assert forall|i: int| 0 <= i < placed.backlog.len() implies !(
            #[trigger] placed.backlog[i]).contains(Some(id)) by {
                assert(!from.backlog[i].contains(Some(id)));
            }
        }
        placed.told_stays(trace.command, id, own);
    }

    /// A new entry is kept, if its id does not wait in the backlog and its time is not over at
    /// once.
    pub proof fn inserted_is_kept(
        self,
        key: K,
        value: V,
        info: P::Info,
        trace: InsertTrace<P>,
        post: Self,
        out: Option<V>,
    )
        requires
            self.wf(),
            self.is_told_apart(),
            self.inserts(key, value, info, trace, post, out),
            self.policy.can_begin(),
            !self.policy.recorded().contains(trace.id),
            !trace.placed_from(self.release_first(), key).waits(trace.id),
            post.policy.read_at(trace.storage).nanos < trace.ready.deadline(trace.storage).nanos,
        ensures
            post.keeps(trace.id, key),
            post.entries[trace.id].value == value,
            post.entries[trace.id].storage.storage == trace.storage,
            trace.ready.deadline(trace.storage).nanos <= post.deadline_of(trace.id).nanos,
    {
        let start = self.release_first();
        let made = trace.storage;
        let id = trace.id;
        self.carries_on(start);
        start.release_all_shrinks();
        P::inits_timely(start.policy, info, trace.ready, made, id, made);
        if let Some(old_id) = start.locate(key) {
            assert(start.holds(old_id, key));
            let was = start.entries[old_id].storage.storage;
            P::inits_timely(start.policy, info, trace.ready, made, old_id, was);
            P::judges_timely(trace.ready, old_id, was, trace.judged, trace.expired, id, made);
        }
        P::inserted_timely(trace.judged, id, made, post.policy, trace.command, id, made);
        let placed = trace.placed(start, key, value).with_policy(post.policy);
        let from = trace.placed_from(start, key);
        crate::hash::same_key_is_equivalence(self.hash_builder, key, key, key);
        assert(placed.stays(id, key)) by {
            assert forall|i: int| 0 <= i < placed.backlog.len() implies !(
            #[trigger] placed.backlog[i]).contains(Some(id)) by {
                assert(!from.backlog[i].contains(Some(id)));
            }
        }
        placed.told_stays(trace.command, id, key);
    }

    /// A new value for an entry in hand keeps every other entry that is there in time.
    proof fn reset_keeps(
        self,
        at: EntryId,
        value: V,
        info: P::Info,
        trace: ResetTrace<P>,
        post: Self,
        id: EntryId,
        own: K,
    )
        requires
            self.wf(),
            self.is_told_apart(),
            self.entries.contains_key(at),
            self.resets(at, value, info, trace, post),
            self.policy.can_begin(),
            !self.policy.recorded().contains(trace.id),
            self.keeps(id, own),
            at != id,
            self.in_time(post, id),
        ensures
            post.keeps(id, own),
            post.entries[id] == self.entries[id],
            self.deadline_of(id).nanos <= post.deadline_of(id).nanos,
    {
        let made = trace.storage;
        let s = self.entries[id].storage.storage;
        assert(self.ids().contains(id));
        P::inits_timely(self.policy, info, trace.ready, made, id, s);
        P::inserted_timely(trace.ready, trace.id, made, post.policy, trace.command, id, s);
        let acquired = self.acquire(trace.id).with_policy(post.policy);
        assert(acquired.stays(id, own)) by {
            assert forall|i: int| 0 <= i < acquired.backlog.len() implies !(
            #[trigger] acquired.backlog[i]).contains(Some(id)) by {
                assert(!self.backlog[i].contains(Some(id)));
            }
        }
        acquired.told_stays(trace.command, id, own);
        let told = acquired.told(trace.command);
        assert forall|i: int| 0 <= i < post.backlog.len() implies !(
        #[trigger] post.backlog[i]).contains(Some(id)) by {
            assert(!told.backlog[i].contains(Some(id)));
        }
    }

    /// An entry that is there in time is still there after any step that spares it, as it was,
    /// and its deadline has not come nearer.
    pub proof fn step_keeps(self, step: Step<K, V, P>, post: Self, id: EntryId, own: K)
        requires
            self.wf(),
            post.wf(),
            self.is_told_apart(),
            self.takes(step, post),
            self.is_fresh(step),
            self.keeps(id, own),
            self.spares(step, id),
            self.in_time(post, id),
        ensures
            post.keeps(id, own),
            post.entries[id] == self.entries[id],
            self.deadline_of(id).nanos <= post.deadline_of(id).nanos,
    {
        let s = self.entries[id].storage.storage;
        match step {
            Step::Insert { key, value, info, trace, out } => {
                self.insertion_keeps(key, value, info, trace, post, out, id, own);
            },
            Step::Look { key, trace } => {
                if let Some(e) = self.locate(key) {
                    assert(self.holds(e, key));
                    let se = self.entries[e].storage.storage;
                    P::accessed_timely(self.policy, e, se, trace.accessed, trace.command, id, s);
                    P::judges_timely(trace.accessed, e, se, post.policy, trace.expired, id, s);
                    self.question_keeps(e, trace.accessed, post.policy, trace.expired, id, own);
                    self.told_stays(trace.command, id, own);
                    let told = self.told(trace.command);
                    assert(post.backlog == told.backlog);
                    self.same_stay(told, post, id, own);
                }
            },
            Step::Remove { key, expired } => {
                let start = self.release_first();
                self.release_stays(id, own);
                self.carries_on(start);
                if let Some(e) = start.locate(key) {
                    assert(start.holds(e, key));
                    start.question_keeps(e, start.policy, post.policy, expired, id, own);
                    self.same_stay(start, post, id, own);
                }
            },
            Step::Sweep { trace } => {
                self.sweep_goes(trace, post, trace.order.len() as int, id, own, s);
                self.same_stay(self, post, id, own);
            },
            Step::Ask { id: e, expired } => {
                self.question_keeps(e, self.policy, post.policy, expired, id, own);
                self.same_stay(self, post, id, own);
            },
            Step::Open { key, expired } => {
                if let Some(e) = self.locate(key) {
                    assert(self.holds(e, key));
                    self.question_keeps(e, self.policy, post.policy, expired, id, own);
                    self.same_stay(self, post, id, own);
                }
            },
            Step::Touch { id: e, command } => {
                let se = self.entries[e].storage.storage;
                P::accessed_timely(self.policy, e, se, post.policy, command, id, s);
                self.told_stays(command, id, own);
                self.same_stay(self.told(command), post, id, own);
            },
            Step::Reset { at, value, info, trace } => {
                self.reset_keeps(at, value, info, trace, post, id, own);
            },
            Step::Turn { id: e, out, command } => {
                let se = self.entries[e].storage.storage;
                P::accessed_timely(self.policy, e, se, post.policy, command, id, s);
                let changed = match out {
                    Some(value) => self.set_value(e, value),
                    None => self.retire(e),
                };
                self.same_stay(self, changed, id, own);
                changed.told_stays(command, id, own);
                self.same_stay(changed.told(command), post, id, own);
            },
            Step::RemoveAt { id: e, expired } => {
                self.question_keeps(e, self.policy, post.policy, expired, id, own);
                let mid = self.retire(e).with_policy(post.policy);
                self.same_stay(self, mid, id, own);
                mid.release_stays(id, own);
            },
            Step::Write { id: e, key, value } => {
                self.same_stay(self, post, id, own);
            },
            Step::Clear => {},
        }
    }

    /// An entry stays in a map that has the same entry and the same backlog.
    proof fn same_stay(self, from: Self, to: Self, id: EntryId, key: K)
        requires
            from.stays(id, key),
            to.entries.contains_key(id),
            to.entries[id] == from.entries[id],
            to.backlog == from.backlog,
            to.hash_builder == from.hash_builder,
        ensures
            to.stays(id, key),
    {
        assert forall|i: int| 0 <= i < to.backlog.len() implies !(
        #[trigger] to.backlog[i]).contains(Some(id)) by {
            assert(!from.backlog[i].contains(Some(id)));
        }
    }

    /// An entry that is kept is shown by a look that is over before its deadline, and by none that
    /// begins after it.
    pub proof fn kept_is_shown(self, id: EntryId, key: K, access: AccessTrace<P>, post: Self)
        requires
            self.wf(),
            self.is_told_apart(),
            self.keeps(id, key),
            self.looks_up(key, access, post),
        ensures
            self.locate(key) == Some(id),
            post.policy.read_at(self.entries[id].storage.storage).nanos < self.deadline_of(id).nanos
                ==> self.shown(key, access) == Some(id),
            access.accessed.read_at(self.entries[id].storage.storage).nanos > self.deadline_of(
                id,
            ).nanos ==> self.shown(key, access) is None,
    {
        self.locate_is(id, key);
        let s = self.entries[id].storage.storage;
        P::accessed_timely(self.policy, id, s, access.accessed, access.command, id, s);
        P::judges_timely(access.accessed, id, s, post.policy, access.expired, id, s);
        if post.policy.read_at(self.entries[id].storage.storage).nanos < self.deadline_of(id).nanos {
            self.told_stays(access.command, id, key);
        }
    }
}

impl<K: Eq, V, P: Timely, H> MapModel<K, V, P, H> {
    /// What is kept of each entry is `s`, or of another entry than `s`.
    pub open spec fn knows_apart(self, s: P::Storage) -> bool {
        forall|id: EntryId| #[trigger]
            self.entries.contains_key(id) ==> self.entries[id].storage.storage == s
                || P::are_apart(self.entries[id].storage.storage, s)
    }

    /// The deadline of an entry of which `s` is kept is over, whether the entry is there or not.
    pub open spec fn is_late(self, s: P::Storage) -> bool {
        &&& self.policy.is_sound()
        &&& self.policy.follows(s)
        &&& self.knows_apart(s)
        &&& self.policy.deadline(s).nanos < self.policy.read_at(s).nanos
    }

    /// A question about an entry leaves a deadline over that is over.
    proof fn question_is_late(
        self,
        e: EntryId,
        before: P,
        after: P,
        expired: bool,
        s: P::Storage,
    )
        requires
            self.entries.contains_key(e),
            self.knows_apart(s),
            before.is_sound(),
            before.follows(s),
            before.deadline(s).nanos < before.read_at(s).nanos,
            P::judges(before, e, self.entries[e].storage.storage, after, expired),
        ensures
            after.is_sound(),
            after.follows(s),
            after.deadline(s).nanos < after.read_at(s).nanos,
    {
        P::judges_timely(before, e, self.entries[e].storage.storage, after, expired, e, s);
    }

    /// What a walk leaves over that is over, after `n` questions.
    proof fn sweep_is_late(self, trace: SweepTrace<P>, post: Self, n: int, s: P::Storage)
        requires
            self.is_late(s),
            self.sweeps(trace, post),
            0 <= n <= trace.order.len(),
        ensures
            trace.policies[n].is_sound(),
            trace.policies[n].follows(s),
            trace.policies[n].deadline(s).nanos < trace.policies[n].read_at(s).nanos,
        decreases n,
    {
        if n > 0 {
            self.sweep_is_late(trace, post, n - 1, s);
            let e = trace.order[n - 1];
            assert(self.sweeps_at(trace, n - 1));
            assert(trace.order.to_set().contains(e));
            assert(self.entries.contains_key(e));
            self.question_is_late(
                e,
                trace.policies[n - 1],
                trace.policies[n],
                trace.expired[n - 1],
                s,
            );
        }
    }

    /// A deadline that is over stays so, whatever is done.
    pub proof fn step_is_late(self, step: Step<K, V, P>, post: Self, s: P::Storage)
        requires
            self.wf(),
            self.is_late(s),
            self.takes(step, post),
            self.is_fresh(step),
            step !is Clear,
        ensures
            post.is_late(s),
    {
        match step {
            Step::Insert { key, value, info, trace, out } => {
                let start = self.release_first();
                let made = trace.storage;
                start.release_all_shrinks();
                assert(start.knows_apart(s)) by {
                    assert forall|id: EntryId| #[trigger]
                        start.entries.contains_key(id) implies start.entries[id].storage.storage
                        == s || P::are_apart(start.entries[id].storage.storage, s) by {
                        assert(self.entries.contains_key(id));
                    }
                }
                P::inits_timely(start.policy, info, trace.ready, made, trace.id, s);
                if let Some(e) = start.locate(key) {
                    assert(start.holds(e, key));
                    let was = start.entries[e].storage.storage;
                    start.question_is_late(e, trace.ready, trace.judged, trace.expired, s);
                    P::judges_timely(trace.ready, e, was, trace.judged, trace.expired, e, made);
                }
                P::inserted_timely(
                    trace.judged,
                    trace.id,
                    made,
                    post.policy,
                    trace.command,
                    trace.id,
                    s,
                );
                assert forall|id: EntryId| #[trigger]
                    post.entries.contains_key(id) implies post.entries[id].storage.storage == s
                    || P::are_apart(post.entries[id].storage.storage, s) by {
                    if id != trace.id {
                        assert(trace.placed(start, key, value).entries.contains_key(id));
                        assert(start.entries.contains_key(id));
                    }
                }
            },
            Step::Look { key, trace } => {
                if let Some(e) = self.locate(key) {
                    assert(self.holds(e, key));
                    let se = self.entries[e].storage.storage;
                    P::accessed_timely(self.policy, e, se, trace.accessed, trace.command, e, s);
                    self.question_is_late(e, trace.accessed, post.policy, trace.expired, s);
                    self.stays_apart(post, s);
                }
            },
            Step::Remove { key, expired } => {
                let start = self.release_first();
                self.stays_apart(start, s);
                if let Some(e) = start.locate(key) {
                    assert(start.holds(e, key));
                    start.question_is_late(e, start.policy, post.policy, expired, s);
                    self.stays_apart(post, s);
                }
            },
            Step::Sweep { trace } => {
                self.sweep_is_late(trace, post, trace.order.len() as int, s);
                self.stays_apart(post, s);
            },
            Step::Ask { id, expired } => {
                self.question_is_late(id, self.policy, post.policy, expired, s);
                self.stays_apart(post, s);
            },
            Step::Open { key, expired } => {
                if let Some(e) = self.locate(key) {
                    assert(self.holds(e, key));
                    self.question_is_late(e, self.policy, post.policy, expired, s);
                    self.stays_apart(post, s);
                }
            },
            Step::Touch { id, command } => {
                let se = self.entries[id].storage.storage;
                P::accessed_timely(self.policy, id, se, post.policy, command, id, s);
                self.stays_apart(post, s);
            },
            Step::Reset { at, value, info, trace } => {
                let made = trace.storage;
                P::inits_timely(self.policy, info, trace.ready, made, trace.id, s);
                P::inserted_timely(
                    trace.ready,
                    trace.id,
                    made,
                    post.policy,
                    trace.command,
                    trace.id,
                    s,
                );
                assert forall|id: EntryId| #[trigger]
                    post.entries.contains_key(id) implies post.entries[id].storage.storage == s
                    || P::are_apart(post.entries[id].storage.storage, s) by {
                    if id != trace.id {
                        assert(self.entries.contains_key(id));
                    }
                }
            },
            Step::Turn { id, out, command } => {
                let se = self.entries[id].storage.storage;
                P::accessed_timely(self.policy, id, se, post.policy, command, id, s);
                self.stays_apart(post, s);
            },
            Step::RemoveAt { id, expired } => {
                self.question_is_late(id, self.policy, post.policy, expired, s);
                self.stays_apart(post, s);
            },
            Step::Write { id, key, value } => {
                self.stays_apart(post, s);
            },
            Step::Clear => {},
        }
    }

    /// A map with no entries but those of this one knows `s` apart as well.
    proof fn stays_apart(self, post: Self, s: P::Storage)
        requires
            self.knows_apart(s),
            forall|id: EntryId| #[trigger]
                post.entries.contains_key(id) ==> self.entries.contains_key(id)
                    && post.entries[id].storage.storage == self.entries[id].storage.storage,
        ensures
            post.knows_apart(s),
    {
    }

    /// After a look at an entry that begins past its deadline, the deadline is over.
    pub proof fn late_look_is_late(self, id: EntryId, key: K, access: AccessTrace<P>, post: Self)
        requires
            self.wf(),
            self.is_told_apart(),
            self.keeps(id, key),
            self.looks_up(key, access, post),
            access.accessed.read_at(self.entries[id].storage.storage).nanos > self.deadline_of(
                id,
            ).nanos,
        ensures
            post.is_late(self.entries[id].storage.storage),
    {
        self.locate_is(id, key);
        let s = self.entries[id].storage.storage;
        P::accessed_timely(self.policy, id, s, access.accessed, access.command, id, s);
        P::judges_timely(access.accessed, id, s, post.policy, access.expired, id, s);
        assert forall|e: EntryId| #[trigger]
            self.entries.contains_key(e) implies self.entries[e].storage.storage == s
            || P::are_apart(self.entries[e].storage.storage, s) by {
            assert(self.entries.contains_key(e) && self.entries.contains_key(id));
        }
        self.stays_apart(post, s);
    }

    /// An entry whose deadline is over is shown by no look.
    pub proof fn late_is_hidden(self, id: EntryId, key: K, access: AccessTrace<P>, post: Self)
        requires
            self.is_late(self.entries[id].storage.storage),
            self.locate(key) == Some(id),
            self.looks_up(key, access, post),
        ensures
            self.shown(key, access) is None,
    {
        let s = self.entries[id].storage.storage;
        P::accessed_timely(self.policy, id, s, access.accessed, access.command, id, s);
        P::judges_timely(access.accessed, id, s, post.policy, access.expired, id, s);
    }
}

/// The steps lead from each map to the next, all of which are sound.
pub open spec fn runs<K: Eq, V, P: ExpirePolicy, H>(
    maps: Seq<MapModel<K, V, P, H>>,
    steps: Seq<Step<K, V, P>>,
) -> bool {
    &&& maps.len() == steps.len() + 1
    &&& forall|i: int| 0 <= i < maps.len() ==> (#[trigger] maps[i]).wf()
    &&& forall|i: int| 0 <= i < steps.len() ==> maps[i].takes(#[trigger] steps[i], maps[i + 1])
}

/// Each of the steps spares an entry, and is over before the deadline that the entry has then.
pub open spec fn is_spared<K: Eq, V, P: Timely, H>(
    maps: Seq<MapModel<K, V, P, H>>,
    steps: Seq<Step<K, V, P>>,
    id: EntryId,
) -> bool {
    forall|i: int|
        0 <= i < steps.len() ==> {
            &&& maps[i].spares(#[trigger] steps[i], id)
            &&& maps[i].in_time(maps[i + 1], id)
        }
}

/// Whatever is done to a map, an entry that is kept is kept until its deadline, as long as no
/// step takes it out or writes it; and its deadline does not come nearer. No insertion meets an
/// id that is still on record.
pub proof fn run_keeps<K: Eq, V, P: Timely, H>(
    maps: Seq<MapModel<K, V, P, H>>,
    steps: Seq<Step<K, V, P>>,
    id: EntryId,
    key: K,
)
    requires
        runs(maps, steps),
        maps[0].is_told_apart(),
        maps[0].keeps(id, key),
        is_spared(maps, steps, id),
        forall|i: int| 0 <= i < steps.len() ==> maps[i].is_fresh(#[trigger] steps[i]),
    ensures
        maps.last().is_told_apart(),
        maps.last().keeps(id, key),
        maps.last().entries[id] == maps[0].entries[id],
        maps[0].deadline_of(id).nanos <= maps.last().deadline_of(id).nanos,
    decreases steps.len(),
{
    if steps.len() > 0 {
        let n = steps.len() - 1;
        let maps_before = maps.drop_last();
        let steps_before = steps.drop_last();
        assert forall|i: int| 0 <= i < n implies maps_before[i].takes(
            #[trigger] steps_before[i],
            maps_before[i + 1],
        ) && maps_before[i].is_fresh(steps_before[i]) && maps_before[i].spares(
            steps_before[i],
            id,
        ) && maps_before[i].in_time(maps_before[i + 1], id) by {
            assert(steps[i] == steps_before[i]);
        }
        assert forall|i: int| 0 <= i < maps_before.len() implies (#[trigger] maps_before[i]).wf() by {
            assert(maps[i].wf());
        }
        run_keeps(maps_before, steps_before, id, key);
        assert(steps[n] == steps.last());
        assert(maps[n].wf() && maps[n + 1].wf());
        maps[n].step_tells_apart(steps[n], maps[n + 1]);
        maps[n].step_keeps(steps[n], maps[n + 1], id, key);
    }
}

/// Whatever is done to a map, no time is read that lies before one read earlier, and the entries
/// stay told apart.
pub proof fn run_takes_time<K: Eq, V, P: Timely, H>(
    maps: Seq<MapModel<K, V, P, H>>,
    steps: Seq<Step<K, V, P>>,
    i: int,
    j: int,
    s: P::Storage,
)
    requires
        runs(maps, steps),
        maps[0].is_told_apart(),
        forall|n: int| 0 <= n < steps.len() ==> maps[n].is_fresh(#[trigger] steps[n]),
        0 <= i <= j < maps.len(),
    ensures
        maps[j].is_told_apart(),
        maps[i].policy.read_at(s).nanos <= maps[j].policy.read_at(s).nanos,
    decreases j,
{
    if j > 0 {
        run_takes_time(
            maps,
            steps,
            if i < j {
                i
            } else {
                j - 1
            },
            j - 1,
            s,
        );
        assert(maps[j - 1].wf() && maps[j].wf());
        assert(maps[j - 1].takes(steps[j - 1], maps[j]));
        maps[j - 1].step_tells_apart(steps[j - 1], maps[j]);
        maps[j - 1].step_takes_time(steps[j - 1], maps[j], s);
    }
}

/// Once the deadline of an entry is over, no look shows it, whatever is done before the look.
pub proof fn run_is_late<K: Eq, V, P: Timely, H>(
    maps: Seq<MapModel<K, V, P, H>>,
    steps: Seq<Step<K, V, P>>,
    s: P::Storage,
    key: K,
    access: AccessTrace<P>,
    post: MapModel<K, V, P, H>,
)
    requires
        runs(maps, steps),
        maps[0].is_late(s),
        forall|i: int|
            0 <= i < steps.len() ==> maps[i].is_fresh(#[trigger] steps[i]) && steps[i] !is Clear,
        maps.last().looks_up(key, access, post),
    ensures
        maps.last().is_late(s),
        maps.last().shown(key, access) matches Some(id) ==> maps.last().entries[id].storage.storage
            != s,
    decreases steps.len(),
{
    if steps.len() > 0 {
        let n = steps.len() - 1;
        late_goes_on(maps, steps, s, n + 1);
    }
    if let Some(id) = maps.last().shown(key, access) {
        if maps.last().entries[id].storage.storage == s {
            maps.last().late_is_hidden(id, key, access, post);
        }
    }
}

/// A deadline that is over stays so over any steps.
proof fn late_goes_on<K: Eq, V, P: Timely, H>(
    maps: Seq<MapModel<K, V, P, H>>,
    steps: Seq<Step<K, V, P>>,
    s: P::Storage,
    n: int,
)
    requires
        runs(maps, steps),
        maps[0].is_late(s),
        forall|i: int|
            0 <= i < steps.len() ==> maps[i].is_fresh(#[trigger] steps[i]) && steps[i] !is Clear,
        0 <= n < maps.len(),
    ensures
        maps[n].is_late(s),
    decreases n,
{
    if n > 0 {
        late_goes_on(maps, steps, s, n - 1);
        assert(maps[n - 1].wf());
        assert(maps[n - 1].takes(steps[n - 1], maps[n]));
        maps[n - 1].step_is_late(steps[n - 1], maps[n], s);
    }
}

/// Where all is over before a point that is not past the deadline of an entry, each step is in
/// time.
pub proof fn until_is_in_time<K: Eq, V, P: Timely, H>(
    maps: Seq<MapModel<K, V, P, H>>,
    steps: Seq<Step<K, V, P>>,
    id: EntryId,
    key: K,
    until: crate::time::Instant,
    n: int,
)
    requires
        runs(maps, steps),
        maps[0].is_told_apart(),
        maps[0].keeps(id, key),
        forall|i: int| 0 <= i < steps.len() ==> maps[i].is_fresh(#[trigger] steps[i]),
        forall|i: int| 0 <= i < steps.len() ==> maps[i].spares(#[trigger] steps[i], id),
        until.nanos <= maps[0].deadline_of(id).nanos,
        maps.last().policy.read_at(maps[0].entries[id].storage.storage).nanos < until.nanos,
        0 <= n < maps.len(),
    ensures
        maps[n].keeps(id, key),
        maps[n].entries[id] == maps[0].entries[id],
        until.nanos <= maps[n].deadline_of(id).nanos,
        n < steps.len() ==> maps[n].in_time(maps[n + 1], id),
    decreases n,
{
    if n > 0 {
        until_is_in_time(maps, steps, id, key, until, n - 1);
        run_takes_time(maps, steps, n - 1, n - 1, maps[0].entries[id].storage.storage);
        assert(maps[n - 1].wf() && maps[n].wf());
        assert(maps[n - 1].takes(steps[n - 1], maps[n]));
        assert(maps[n - 1].is_fresh(steps[n - 1]));
        assert(maps[n - 1].spares(steps[n - 1], id));
        maps[n - 1].step_keeps(steps[n - 1], maps[n], id, key);
    }
    if n < steps.len() {
        run_takes_time(
            maps,
            steps,
            n + 1,
            maps.len() - 1,
            maps[0].entries[id].storage.storage,
        );
    }
}

/// A policy that reports entries by what it has on record, each of them once.
pub trait Recording: Timely {
    /// What an access has reported was on record, and is so no more.
    proof fn accessed_recorded(
        pre: Self,
        entry: EntryId,
        storage: Self::Storage,
        post: Self,
        command: Command,
    )
        requires
            Self::accessed(pre, entry, storage, post, command),
            pre.is_sound(),
        ensures
            post.recorded().subset_of(pre.recorded()),
            forall|e: EntryId| #[trigger]
                command.lists(e) ==> pre.recorded().contains(e) && !post.recorded().contains(e),
            command.listed() matches Some(list) ==> list.no_duplicates(),
    ;

    /// What an insertion has reported was on record or is the new entry, and is on record no
    /// more.
    proof fn inserted_recorded(
        pre: Self,
        entry: EntryId,
        storage: Self::Storage,
        post: Self,
        command: Command,
    )
        requires
            Self::inserted(pre, entry, storage, post, command),
            pre.is_sound(),
            pre.knows(storage),
            !pre.recorded().contains(entry),
        ensures
            post.recorded().subset_of(pre.recorded().insert(entry)),
            forall|e: EntryId| #[trigger]
                command.lists(e) ==> pre.recorded().insert(entry).contains(e)
                    && !post.recorded().contains(e),
            command.listed() matches Some(list) ==> list.no_duplicates(),
    ;
}

impl<K: Eq, V, P: ExpirePolicy, H> MapModel<K, V, P, H> {
    /// The id stands in this list of the backlog.
    pub open spec fn waits_at(self, i: int, id: EntryId) -> bool {
        0 <= i < self.backlog.len() && self.backlog[i].contains(Some(id))
    }

    /// The ids on record and those in the backlog are in use. None is in both, and none in two
    /// lists of the backlog.
    pub open spec fn is_in_line(self, recorded: Set<EntryId>) -> bool {
        &&& forall|id: EntryId| #[trigger] recorded.contains(id) ==> self.ids().contains(id)
        &&& forall|i: int, id: EntryId| #[trigger]
            self.waits_at(i, id) ==> self.ids().contains(id) && !recorded.contains(id)
        &&& forall|i: int, j: int, id: EntryId| #[trigger]
            self.waits_at(i, id) && #[trigger] self.waits_at(j, id) ==> i == j
    }

    /// To wait is to stand in some list.
    proof fn waits_somewhere(self, id: EntryId) -> (i: int)
        requires
            self.waits(id),
        ensures
            self.waits_at(i, id),
    {
        choose|i: int|
            0 <= i < self.backlog.len() && (#[trigger] self.backlog[i]).contains(Some(id))
    }

    /// Dealing with a list of the backlog keeps the rest in line.
    proof fn release_in_line(self, recorded: Set<EntryId>)
        requires
            self.is_in_line(recorded),
        ensures
            self.release_first().is_in_line(recorded),
    {
        if self.backlog.len() > 0 {
            let next = self.release_first();
            assert forall|id: EntryId| #[trigger] recorded.contains(id) implies next.ids().contains(
                id,
            ) by {
                assert(!self.waits_at(0, id));
            }
            assert forall|i: int, id: EntryId| #[trigger] next.waits_at(i, id) implies {
                &&& next.ids().contains(id)
                &&& !recorded.contains(id)
                &&& self.waits_at(i + 1, id)
            } by {
                assert(self.waits_at(i + 1, id));
                assert(!self.waits_at(0, id));
            }
        }
    }

    /// Dealing with the whole backlog keeps the rest in line.
    proof fn release_all_in_line(self, recorded: Set<EntryId>)
        requires
            self.is_in_line(recorded),
        ensures
            self.release_all().is_in_line(recorded),
        decreases self.backlog.len(),
    {
        if self.backlog.len() > 0 {
            self.release_in_line(recorded);
            self.release_first().release_all_in_line(recorded);
        }
    }

    /// A command that takes ids off the record keeps all in line.
    proof fn told_in_line(self, recorded: Set<EntryId>, command: Command, after: Set<EntryId>)
        requires
            self.is_in_line(recorded),
            after.subset_of(recorded),
            forall|e: EntryId| #[trigger]
                command.lists(e) ==> recorded.contains(e) && !after.contains(e),
        ensures
            self.told(command).is_in_line(after),
    {
        let told = self.told(command);
        let n = self.backlog.len() as int;
        assert(told.ids() =~= self.ids());
        assert forall|i: int, id: EntryId| #[trigger] told.waits_at(i, id) implies {
            &&& told.ids().contains(id)
            &&& !after.contains(id)
            &&& if i < n {
                self.waits_at(i, id)
            } else {
                i == n && command.lists(id)
            }
        } by {
            if i < n {
                assert(self.waits_at(i, id));
            } else {
                assert(command.lists(id));
            }
        }
        assert forall|i: int, j: int, id: EntryId| #[trigger]
            told.waits_at(i, id) && #[trigger] told.waits_at(j, id) implies i == j by {
            if i < n {
                assert(self.waits_at(i, id));
            }
            if j < n {
                assert(self.waits_at(j, id));
            }
        }
    }

    /// A map with the same backlog, and more ids in use, is in line as well.
    proof fn grown_in_line(self, post: Self, recorded: Set<EntryId>)
        requires
            self.is_in_line(recorded),
            post.backlog == self.backlog,
            self.ids().subset_of(post.ids()),
        ensures
            post.is_in_line(recorded),
    {
        assert forall|i: int, id: EntryId| #[trigger] post.waits_at(i, id) implies {
            &&& post.ids().contains(id)
            &&& !recorded.contains(id)
            &&& self.waits_at(i, id)
        } by {
            assert(self.waits_at(i, id));
        }
    }

    /// A new id can go on record.
    proof fn filed_in_line(self, recorded: Set<EntryId>, post: Self, id: EntryId)
        requires
            self.is_in_line(recorded),
            !self.ids().contains(id),
            post.backlog == self.backlog,
            self.ids().insert(id).subset_of(post.ids()),
        ensures
            post.is_in_line(recorded.insert(id)),
            !self.waits(id),
    {
        self.grown_in_line(post, recorded);
        if self.waits(id) {
            let i = self.waits_somewhere(id);
        }
        assert forall|i: int, e: EntryId| #[trigger] post.waits_at(i, e) implies e != id by {
            assert(self.waits_at(i, e));
        }
    }
}

impl<K: Eq, V, P: Recording, H> MapModel<K, V, P, H> {
    /// The policy and the map are in step: the entries are told apart, and what the policy has on
    /// record and what waits in the backlog is in line with the ids in use.
    pub open spec fn is_in_step(self) -> bool {
        &&& self.is_told_apart()
        &&& self.is_in_line(self.policy.recorded())
    }

    /// A step that inserts has a number for its entry.
    pub open spec fn can_take(self, step: Step<K, V, P>) -> bool {
        match step {
            Step::Insert { .. } => self.policy.can_begin(),
            Step::Reset { .. } => self.policy.can_begin(),
            _ => true,
        }
    }

    /// A new map is in step.
    pub proof fn vacant_is_in_step(policy: P, hash_builder: H)
        requires
            policy.is_sound(),
            policy.recorded() =~= Set::<EntryId>::empty(),
        ensures
            Self::vacant(policy, hash_builder).is_in_step(),
    {
        let m = Self::vacant(policy, hash_builder);
        assert forall|i: int, id: EntryId| !(#[trigger] m.waits_at(i, id)) by {}
    }

    /// An insertion keeps policy and map in step. The id of the new entry is neither on record
    /// nor in the backlog.
    pub proof fn insertion_in_step(
        self,
        key: K,
        value: V,
        info: P::Info,
        trace: InsertTrace<P>,
        post: Self,
        out: Option<V>,
    )
        requires
            self.wf(),
            self.is_in_step(),
            self.inserts(key, value, info, trace, post, out),
            self.policy.can_begin(),
        ensures
            post.is_in_step(),
            !self.policy.recorded().contains(trace.id),
            !trace.placed_from(self.release_first(), key).waits(trace.id),
    {
        let start = self.release_first();
        let rec = self.policy.recorded();
        let made = trace.storage;
        self.release_in_line(rec);
        start.release_all_in_line(rec);
        let from = trace.placed_from(start, key);
        assert(from.is_in_line(rec));
        self.insertion_tells_apart(key, value, info, trace, post, out);
        P::inits_timely(start.policy, info, trace.ready, made, trace.id, made);
        if let Some(old_id) = start.locate(key) {
            assert(start.holds(old_id, key));
            let was = start.entries[old_id].storage.storage;
            P::judges_timely(trace.ready, old_id, was, trace.judged, trace.expired, old_id, made);
        }
        let placed = trace.placed(start, key, value).with_policy(post.policy);
        from.filed_in_line(rec, placed, trace.id);
        P::inserted_recorded(trace.judged, trace.id, made, post.policy, trace.command);
        placed.told_in_line(rec.insert(trace.id), trace.command, post.policy.recorded());
    }

    /// A new value for an entry in hand keeps policy and map in step.
    proof fn reset_in_step(
        self,
        at: EntryId,
        value: V,
        info: P::Info,
        trace: ResetTrace<P>,
        post: Self,
    )
        requires
            self.wf(),
            self.is_in_step(),
            self.entries.contains_key(at),
            self.resets(at, value, info, trace, post),
            self.policy.can_begin(),
        ensures
            post.is_in_step(),
            !self.policy.recorded().contains(trace.id),
    {
        let rec = self.policy.recorded();
        let made = trace.storage;
        self.reset_tells_apart(at, value, info, trace, post);
        P::inits_timely(self.policy, info, trace.ready, made, trace.id, made);
        let acquired = self.acquire(trace.id).with_policy(post.policy);
        self.filed_in_line(rec, acquired, trace.id);
        P::inserted_recorded(trace.ready, trace.id, made, post.policy, trace.command);
        acquired.told_in_line(rec.insert(trace.id), trace.command, post.policy.recorded());
        acquired.told(trace.command).grown_in_line(post, post.policy.recorded());
    }

    /// Any step keeps policy and map in step, and an insertion meets an id that is not on
    /// record.
    pub proof fn step_in_step(self, step: Step<K, V, P>, post: Self)
        requires
            self.wf(),
            post.wf(),
            self.is_in_step(),
            self.takes(step, post),
            self.can_take(step),
        ensures
            post.is_in_step(),
            self.is_fresh(step),
    {
        let rec = self.policy.recorded();
        match step {
            Step::Insert { key, value, info, trace, out } => {
                self.insertion_in_step(key, value, info, trace, post, out);
            },
            Step::Reset { at, value, info, trace } => {
                self.reset_in_step(at, value, info, trace, post);
            },
            _ => {
                self.step_tells_apart(step, post);
            },
        }
        match step {
            Step::Look { key, trace } => {
                if let Some(e) = self.locate(key) {
                    assert(self.holds(e, key));
                    let s = self.entries[e].storage.storage;
                    P::accessed_recorded(self.policy, e, s, trace.accessed, trace.command);
                    P::accessed_timely(self.policy, e, s, trace.accessed, trace.command, e, s);
                    P::judges_timely(trace.accessed, e, s, post.policy, trace.expired, e, s);
                    self.told_in_line(rec, trace.command, post.policy.recorded());
                    self.told(trace.command).grown_in_line(post, post.policy.recorded());
                }
            },
            Step::Remove { key, expired } => {
                let start = self.release_first();
                self.release_in_line(rec);
                if let Some(e) = start.locate(key) {
                    assert(start.holds(e, key));
                    let s = start.entries[e].storage.storage;
                    P::judges_timely(start.policy, e, s, post.policy, expired, e, s);
                    start.grown_in_line(post, rec);
                }
            },
            Step::Sweep { trace } => {
                self.sweep_goes(
                    trace,
                    post,
                    trace.order.len() as int,
                    arbitrary(),
                    arbitrary(),
                    arbitrary(),
                );
                self.grown_in_line(post, rec);
            },
            Step::Ask { id, expired } => {
                let s = self.entries[id].storage.storage;
                P::judges_timely(self.policy, id, s, post.policy, expired, id, s);
                self.grown_in_line(post, rec);
            },
            Step::Open { key, expired } => {
                if let Some(e) = self.locate(key) {
                    let s = self.entries[e].storage.storage;
                    P::judges_timely(self.policy, e, s, post.policy, expired, e, s);
                    self.grown_in_line(post, rec);
                }
            },
            Step::Touch { id, command } => {
                let s = self.entries[id].storage.storage;
                P::accessed_recorded(self.policy, id, s, post.policy, command);
                self.told_in_line(rec, command, post.policy.recorded());
                self.told(command).grown_in_line(post, post.policy.recorded());
            },
            Step::Turn { id, out, command } => {
                let s = self.entries[id].storage.storage;
                let changed = match out {
                    Some(value) => self.set_value(id, value),
                    None => self.retire(id),
                };
                self.grown_in_line(changed, rec);
                P::accessed_recorded(self.policy, id, s, post.policy, command);
                changed.told_in_line(rec, command, post.policy.recorded());
                changed.told(command).grown_in_line(post, post.policy.recorded());
            },
            Step::RemoveAt { id, expired } => {
                let s = self.entries[id].storage.storage;
                P::judges_timely(self.policy, id, s, post.policy, expired, id, s);
                let mid = self.retire(id).with_policy(post.policy);
                self.grown_in_line(mid, rec);
                mid.release_in_line(rec);
            },
            Step::Write { id, key, value } => {
                self.grown_in_line(post, rec);
            },
            Step::Clear => {
                P::clears_timely(self.policy, post.policy, arbitrary());
                Self::vacant_is_in_step(post.policy, self.hash_builder);
            },
            _ => {},
        }
    }
}

/// Each step of the run has a number for its entry, if it inserts one.
pub open spec fn can_run<K: Eq, V, P: Recording, H>(
    maps: Seq<MapModel<K, V, P, H>>,
    steps: Seq<Step<K, V, P>>,
) -> bool {
    forall|i: int| 0 <= i < steps.len() ==> maps[i].can_take(#[trigger] steps[i])
}

/// Whatever is done to a map, its policy stays in step with it.
pub proof fn run_in_step<K: Eq, V, P: Recording, H>(
    maps: Seq<MapModel<K, V, P, H>>,
    steps: Seq<Step<K, V, P>>,
    n: int,
)
    requires
        runs(maps, steps),
        maps[0].is_in_step(),
        can_run(maps, steps),
        0 <= n < maps.len(),
    ensures
        maps[n].is_in_step(),
        n < steps.len() ==> maps[n].is_fresh(steps[n]),
    decreases n,
{
    if n > 0 {
        run_in_step(maps, steps, n - 1);
        assert(maps[n - 1].wf() && maps[n].wf());
        assert(maps[n - 1].takes(steps[n - 1], maps[n]));
        maps[n - 1].step_in_step(steps[n - 1], maps[n]);
    }
    if n < steps.len() {
        assert(maps[n].wf() && maps[n + 1].wf());
        assert(maps[n].takes(steps[n], maps[n + 1]));
        maps[n].step_in_step(steps[n], maps[n + 1]);
    }
}

/// A value that is inserted is shown by a look that is over before its deadline, and by none that
/// begins after it, whatever is done to the map in between that spares its entry.
pub proof fn lives_until_its_deadline<K: Eq, V, P: Recording, H>(
    pre: MapModel<K, V, P, H>,
    key: K,
    value: V,
    info: P::Info,
    trace: InsertTrace<P>,
    out: Option<V>,
    maps: Seq<MapModel<K, V, P, H>>,
    steps: Seq<Step<K, V, P>>,
    access: AccessTrace<P>,
    post: MapModel<K, V, P, H>,
)
    requires
        pre.wf(),
        pre.is_in_step(),
        pre.policy.can_begin(),
        runs(maps, steps),
        can_run(maps, steps),
        pre.inserts(key, value, info, trace, maps[0], out),
        maps[0].policy.read_at(trace.storage).nanos < trace.ready.deadline(trace.storage).nanos,
        is_spared(maps, steps, trace.id),
        maps.last().looks_up(key, access, post),
    ensures
        maps.last().entries.contains_key(trace.id),
        maps.last().locate(key) == Some(trace.id),
        maps.last().entries[trace.id].value == value,
        maps.last().entries[trace.id].storage.storage == trace.storage,
        trace.ready.deadline(trace.storage).nanos <= maps.last().deadline_of(trace.id).nanos,
        post.policy.read_at(trace.storage).nanos < maps.last().deadline_of(trace.id).nanos
            ==> maps.last().shown(key, access) == Some(trace.id),
        access.accessed.read_at(trace.storage).nanos > maps.last().deadline_of(trace.id).nanos
            ==> maps.last().shown(key, access) is None,
{
    let id = trace.id;
    pre.insertion_in_step(key, value, info, trace, maps[0], out);
    pre.inserted_is_kept(key, value, info, trace, maps[0], out);
    assert forall|i: int| 0 <= i < steps.len() implies maps[i].is_fresh(#[trigger] steps[i]) by {
        run_in_step(maps, steps, i);
    }
    run_keeps(maps, steps, id, key);
    assert(maps[maps.len() - 1].wf());
    maps.last().kept_is_shown(id, key, access, post);
}

/// A value that is inserted is shown by a look before its first deadline, and after any steps
/// before it that spare its entry.
pub proof fn lives_until<K: Eq, V, P: Recording, H>(
    pre: MapModel<K, V, P, H>,
    key: K,
    value: V,
    info: P::Info,
    trace: InsertTrace<P>,
    out: Option<V>,
    maps: Seq<MapModel<K, V, P, H>>,
    steps: Seq<Step<K, V, P>>,
    access: AccessTrace<P>,
    post: MapModel<K, V, P, H>,
)
    requires
        pre.wf(),
        pre.is_in_step(),
        pre.policy.can_begin(),
        runs(maps, steps),
        can_run(maps, steps),
        pre.inserts(key, value, info, trace, maps[0], out),
        forall|i: int| 0 <= i < steps.len() ==> maps[i].spares(#[trigger] steps[i], trace.id),
        maps.last().policy.read_at(trace.storage).nanos < trace.ready.deadline(trace.storage).nanos,
        maps.last().looks_up(key, access, post),
    ensures
        is_spared(maps, steps, trace.id),
        maps.last().entries.contains_key(trace.id),
        maps.last().locate(key) == Some(trace.id),
        maps.last().entries[trace.id].value == value,
        maps.last().entries[trace.id].storage.storage == trace.storage,
        trace.ready.deadline(trace.storage).nanos <= maps.last().deadline_of(trace.id).nanos,
        post.policy.read_at(trace.storage).nanos < maps.last().deadline_of(trace.id).nanos
            ==> maps.last().shown(key, access) == Some(trace.id),
        access.accessed.read_at(trace.storage).nanos > maps.last().deadline_of(trace.id).nanos
            ==> maps.last().shown(key, access) is None,
{
    let id = trace.id;
    let until = trace.ready.deadline(trace.storage);
    pre.insertion_in_step(key, value, info, trace, maps[0], out);
    assert forall|i: int| 0 <= i < steps.len() implies maps[i].is_fresh(#[trigger] steps[i]) by {
        run_in_step(maps, steps, i);
    }
    run_takes_time(maps, steps, 0, maps.len() - 1, trace.storage);
    pre.inserted_is_kept(key, value, info, trace, maps[0], out);
    assert forall|i: int| 0 <= i < steps.len() implies maps[i].spares(#[trigger] steps[i], id)
        && maps[i].in_time(maps[i + 1], id) by {
        until_is_in_time(maps, steps, id, key, until, i);
    }
    lives_until_its_deadline(pre, key, value, info, trace, out, maps, steps, access, post);
}

/// A call of a policy, with its answer.
#[allow(inconsistent_fields)]
pub enum Call<P: ExpirePolicy> {
    /// `init_storage`.
    Init { info: P::Info, storage: P::Storage },
    /// `is_expired`.
    Judge { entry: EntryId, storage: P::Storage, expired: bool },
    /// `on_access`.
    Access { entry: EntryId, storage: P::Storage, command: Command },
    /// `on_insert`.
    Insert { entry: EntryId, storage: P::Storage, command: Command },
    /// `clear`.
    Clear,
}

impl<P: Recording> Call<P> {
    /// The call leads from `pre` to `post`.
    pub open spec fn leads(self, pre: P, post: P) -> bool {
        match self {
            Call::Init { info, storage } => P::inits(pre, info, post, storage),
            Call::Judge { entry, storage, expired } => P::judges(
                pre,
                entry,
                storage,
                post,
                expired,
            ),
            Call::Access { entry, storage, command } => P::accessed(
                pre,
                entry,
                storage,
                post,
                command,
            ),
            Call::Insert { entry, storage, command } => P::inserted(
                pre,
                entry,
                storage,
                post,
                command,
            ),
            Call::Clear => P::clears(pre, post),
        }
    }

    /// What is inserted was made by the policy, and its id is not on record.
    pub open spec fn is_due(self, pre: P) -> bool {
        match self {
            Call::Init { .. } => pre.can_begin(),
            Call::Insert { entry, storage, .. } => pre.knows(storage) && !pre.recorded().contains(
                entry,
            ),
            _ => true,
        }
    }

    /// What the call has reported.
    pub open spec fn command(self) -> Command {
        match self {
            Call::Access { command, .. } => command,
            Call::Insert { command, .. } => command,
            _ => Command::Noop,
        }
    }

    /// The call inserts this entry.
    pub open spec fn inserts(self, id: EntryId) -> bool {
        self matches Call::Insert { entry, .. } && entry == id
    }

    /// A call reports what is on record or what it inserts, and takes it off the record.
    pub proof fn reports_once(self, pre: P, post: P, id: EntryId)
        requires
            pre.is_sound(),
            self.leads(pre, post),
            self.is_due(pre),
        ensures
            post.is_sound(),
            self.command().listed() matches Some(list) ==> list.no_duplicates(),
            self.command().lists(id) ==> (pre.recorded().contains(id) || self.inserts(id))
                && !post.recorded().contains(id),
            post.recorded().contains(id) ==> pre.recorded().contains(id) || self.inserts(id),
    {
        match self {
            Call::Init { info, storage } => {
                P::inits_timely(pre, info, post, storage, id, storage);
            },
            Call::Judge { entry, storage, expired } => {
                P::judges_timely(pre, entry, storage, post, expired, id, storage);
            },
            Call::Access { entry, storage, command } => {
                P::accessed_timely(pre, entry, storage, post, command, id, storage);
                P::accessed_recorded(pre, entry, storage, post, command);
            },
            Call::Insert { entry, storage, command } => {
                P::inserted_timely(pre, entry, storage, post, command, id, storage);
                P::inserted_recorded(pre, entry, storage, post, command);
            },
            Call::Clear => {
                P::clears_timely(pre, post, arbitrary());
            },
        }
    }
}

/// Over all calls of a policy, each insertion is reported once at most: an entry that one call
/// has reported is reported by no later one, unless it is inserted again in between.
pub proof fn reported_at_most_once<P: Recording>(
    policies: Seq<P>,
    calls: Seq<Call<P>>,
    a: int,
    b: int,
    id: EntryId,
)
    requires
        policies.len() == calls.len() + 1,
        policies[0].is_sound(),
        forall|i: int|
            0 <= i < calls.len() ==> (#[trigger] calls[i]).leads(policies[i], policies[i + 1])
                && calls[i].is_due(policies[i]),
        0 <= a < b < calls.len(),
        calls[a].command().lists(id),
        forall|i: int| a < i <= b ==> !(#[trigger] calls[i]).inserts(id),
    ensures
        !calls[b].command().lists(id),
        calls[a].command().listed() matches Some(list) && list.no_duplicates(),
{
    stays_off_record(policies, calls, a, b, id);
    calls_stay_sound(policies, calls, a);
    calls_stay_sound(policies, calls, b);
    calls[a].reports_once(policies[a], policies[a + 1], id);
    calls[b].reports_once(policies[b], policies[b + 1], id);
}

/// The records stay in order over all calls.
proof fn calls_stay_sound<P: Recording>(policies: Seq<P>, calls: Seq<Call<P>>, n: int)
    requires
        policies.len() == calls.len() + 1,
        policies[0].is_sound(),
        forall|i: int|
            0 <= i < calls.len() ==> (#[trigger] calls[i]).leads(policies[i], policies[i + 1])
                && calls[i].is_due(policies[i]),
        0 <= n < policies.len(),
    ensures
        policies[n].is_sound(),
    decreases n,
{
    if n > 0 {
        calls_stay_sound(policies, calls, n - 1);
        assert(calls[n - 1].leads(policies[n - 1], policies[n]));
        calls[n - 1].reports_once(policies[n - 1], policies[n], arbitrary());
    }
}

/// An entry that has been reported is off the record until it is inserted again.
proof fn stays_off_record<P: Recording>(
    policies: Seq<P>,
    calls: Seq<Call<P>>,
    a: int,
    n: int,
    id: EntryId,
)
    requires
        policies.len() == calls.len() + 1,
        policies[0].is_sound(),
        forall|i: int|
            0 <= i < calls.len() ==> (#[trigger] calls[i]).leads(policies[i], policies[i + 1])
                && calls[i].is_due(policies[i]),
        0 <= a < n < policies.len(),
        calls[a].command().lists(id),
        forall|i: int| a < i < n ==> !(#[trigger] calls[i]).inserts(id),
    ensures
        !policies[n].recorded().contains(id),
    decreases n,
{
    calls_stay_sound(policies, calls, n - 1);
    assert(calls[n - 1].leads(policies[n - 1], policies[n]));
    calls[n - 1].reports_once(policies[n - 1], policies[n], id);
    if a < n - 1 {
        stays_off_record(policies, calls, a, n - 1, id);
    }
}

} // verus!
