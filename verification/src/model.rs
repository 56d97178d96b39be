//! What a map is, apart from how it is laid out in memory.
use vstd::prelude::*;

use crate::entry::EntryId;
use crate::policy::{Command, ExpirePolicy};
use crate::storage::Storage;

verus! {

/// An entry of a map.
pub struct Item<K, V, S> {
    pub key: K,
    pub value: V,
    pub storage: Storage<S>,
}

/// The state of a map.
#[verifier::ext_equal]
pub struct MapModel<K, V, P: ExpirePolicy, H> {
    /// The entries by id, those among them that have been reported as expired and wait to be
    /// taken out.
    pub entries: Map<EntryId, Item<K, V, P::Storage>>,
    /// The ids in use whose entries are gone.
    pub retired: Set<EntryId>,
    /// The lists of ids to take out, the oldest first.
    pub backlog: Seq<Seq<Option<EntryId>>>,
    /// The policy.
    pub policy: P,
    /// What hashes the keys.
    pub hash_builder: H,
}

/// How an insertion went: the answers of the policy, the states that it was in between them,
/// the id that the entry got, whether the table had to grow, and whether it got memory for more
/// than the one entry then.
pub struct InsertTrace<P: ExpirePolicy> {
    pub ready: P,
    pub storage: P::Storage,
    pub grew: bool,
    pub ahead: bool,
    pub id: EntryId,
    pub judged: P,
    pub expired: bool,
    pub command: Command,
}

/// How it went to set a new value for an entry in hand: the storage that the policy made and the
/// state that it was in then, the id that the entry got, and the command that the policy gave.
pub struct ResetTrace<P: ExpirePolicy> {
    pub ready: P,
    pub storage: P::Storage,
    pub id: EntryId,
    pub command: Command,
}

/// How a look at an entry went: the command that the policy gave, the state that it was in
/// then, and whether it found the entry expired.
pub struct AccessTrace<P: ExpirePolicy> {
    pub accessed: P,
    pub command: Command,
    pub expired: bool,
}

/// How a walk over all entries went: the order in which they were met, the states that the policy
/// was in from the first question on, and its answers.
pub struct SweepTrace<P: ExpirePolicy> {
    pub order: Seq<EntryId>,
    pub policies: Seq<P>,
    pub expired: Seq<bool>,
}

/// The ids in a list.
pub open spec fn named(list: Seq<Option<EntryId>>) -> Set<EntryId> {
    Set::new(|id: EntryId| list.contains(Some(id)))
}

impl<K: Eq, V, P: ExpirePolicy, H> MapModel<K, V, P, H> {
    /// A map without entries.
    pub open spec fn vacant(policy: P, hash_builder: H) -> Self {
        MapModel {
            entries: Map::empty(),
            retired: Set::empty(),
            backlog: Seq::empty(),
            policy,
            hash_builder,
        }
    }

    /// The ids in use.
    pub open spec fn ids(self) -> Set<EntryId> {
        self.entries.dom() + self.retired
    }

    /// The entry with this id is the one for this key.
    pub open spec fn holds(self, id: EntryId, key: K) -> bool {
        &&& self.entries.contains_key(id)
        &&& crate::hash::same_key(self.hash_builder, key, self.entries[id].key)
    }

    /// The id of the entry for a key.
    pub open spec fn locate(self, key: K) -> Option<EntryId> {
        if exists|id: EntryId| self.holds(id, key) {
            Some(choose|id: EntryId| self.holds(id, key))
        } else {
            None
        }
    }

    /// The keys can be hashed and told apart, there is one entry to a key, each entry knows its
    /// id, no id of an entry is retired, and the ids in use can be counted.
    pub open spec fn wf(self) -> bool {
        &&& crate::hash::lawful_key::<K>()
        &&& crate::hash::is_steady(self.hash_builder)
        &&& forall|id: EntryId| #[trigger]
            self.entries.contains_key(id) ==> self.entries[id].storage.entry_id == id
        &&& forall|a: EntryId, b: EntryId| #[trigger]
            self.entries.contains_key(a) && #[trigger] self.entries.contains_key(b)
                && crate::hash::same_key(
                self.hash_builder,
                self.entries[a].key,
                self.entries[b].key,
            ) ==> a == b
        &&& self.entries.dom().disjoint(self.retired)
        &&& self.entries.dom().finite()
        &&& self.retired.finite()
    }

    /// There is an id left for one more entry, and room to index it.
    pub open spec fn has_room(self) -> bool {
        &&& self.ids().len() < crate::entry::MAX_IDS
        &&& self.ids().len() < usize::MAX / 160
    }

    /// The map with another policy.
    pub open spec fn with_policy(self, policy: P) -> Self {
        MapModel { policy, ..self }
    }

    /// The map after the ids of a list were given up, and their entries with them.
    pub open spec fn release(self, list: Seq<Option<EntryId>>) -> Self {
        MapModel {
            entries: self.entries.remove_keys(named(list)),
            retired: self.retired.difference(named(list)),
            ..self
        }
    }

    /// The map after the oldest list of the backlog was dealt with.
    pub open spec fn release_first(self) -> Self {
        if self.backlog.len() > 0 {
            MapModel { backlog: self.backlog.drop_first(), ..self.release(self.backlog[0]) }
        } else {
            self
        }
    }

    /// The map after the whole backlog was dealt with.
    pub open spec fn release_all(self) -> Self
        decreases self.backlog.len(),
    {
        if self.backlog.len() > 0 {
            self.release_first().release_all()
        } else {
            self
        }
    }

    /// The entry as it is after a list of expired ids came in.
    pub open spec fn marked(
        item: Item<K, V, P::Storage>,
        listed: bool,
    ) -> Item<K, V, P::Storage> {
        if listed {
            Item { storage: Storage { removed: true, ..item.storage }, ..item }
        } else {
            item
        }
    }

    /// The map after the entries of a list were marked as expired.
    pub open spec fn mark(self, list: Seq<Option<EntryId>>) -> Self {
        MapModel {
            entries: self.entries.map_entries(
                |id: EntryId, item: Item<K, V, P::Storage>|
                    Self::marked(item, list.contains(Some(id))),
            ),
            ..self
        }
    }

    /// The map after the policy gave a command: the entries that it lists are marked, and the
    /// list waits in the backlog.
    pub open spec fn told(self, command: Command) -> Self {
        match command.listed() {
            Some(list) => MapModel { backlog: self.backlog.push(list), ..self.mark(list) },
            None => self,
        }
    }

    /// The map with one more id in use, which has no entry yet.
    pub open spec fn acquire(self, id: EntryId) -> Self {
        MapModel { retired: self.retired.insert(id), ..self }
    }

    /// The map with one more entry, under an id that had none.
    pub open spec fn add(self, id: EntryId, key: K, value: V, storage: P::Storage) -> Self {
        MapModel {
            entries: self.entries.insert(
                id,
                Item { key, value, storage: Storage { storage, entry_id: id, removed: false } },
            ),
            retired: self.retired.remove(id),
            ..self
        }
    }

    /// The map after the entry `old` got a new value and a new storage. It keeps its key, and
    /// goes by an id that had no entry; its old id stays in use without one.
    pub open spec fn replace(
        self,
        old_id: EntryId,
        id: EntryId,
        value: V,
        storage: P::Storage,
    ) -> Self {
        self.retire(old_id).add(id, self.entries[old_id].key, value, storage)
    }

    /// The map without an entry, whose id stays in use.
    pub open spec fn retire(self, id: EntryId) -> Self {
        MapModel {
            entries: self.entries.remove(id),
            retired: self.retired.insert(id),
            ..self
        }
    }

    /// The insertion of a value that went as the trace says leads from this map to `post` and
    /// gives `out`.
    ///
    /// The oldest list of the backlog is dealt with first, and the whole backlog where the table
    /// had to grow. A value that was there before is given out, unless its entry has expired.
    pub open spec fn inserts(
        self,
        key: K,
        value: V,
        info: P::Info,
        trace: InsertTrace<P>,
        post: Self,
        out: Option<V>,
    ) -> bool {
        let start = self.release_first();
        &&& P::inits(start.policy, info, trace.ready, trace.storage)
        &&& !trace.placed_from(start, key).ids().contains(trace.id)
        &&& match start.locate(key) {
            Some(old_id) => {
                let was = start.entries[old_id];
                &&& P::judges(
                    trace.ready,
                    old_id,
                    was.storage.storage,
                    trace.judged,
                    trace.expired,
                )
                &&& out == if trace.expired || was.storage.removed {
                    None
                } else {
                    Some(was.value)
                }
            },
            None => trace.judged == trace.ready && out is None,
        }
        &&& P::inserted(trace.judged, trace.id, trace.storage, post.policy, trace.command)
        &&& post == trace.placed(start, key, value).with_policy(post.policy).told(trace.command)
    }

    /// Some insertion of a value leads from this map to `post`, where its entry has the key `got`.
    pub open spec fn gets(self, key: K, value: V, info: P::Info, post: Self, got: K) -> bool {
        exists|trace: InsertTrace<P>, out: Option<V>| #[trigger]
            self.inserts(key, value, info, trace, post, out) && post.entries.contains_key(trace.id)
                && got == post.entries[trace.id].key
    }

    /// A look at the entry for a key that went as the trace says leads from this map to `post`.
    ///
    /// The policy is told of the access, its command is noted, and it is asked whether the entry
    /// has expired. Nothing happens where there is no entry for the key.
    pub open spec fn looks_up(self, key: K, trace: AccessTrace<P>, post: Self) -> bool {
        match self.locate(key) {
            Some(id) => {
                let storage = self.entries[id].storage.storage;
                &&& P::accessed(self.policy, id, storage, trace.accessed, trace.command)
                &&& P::judges(trace.accessed, id, storage, post.policy, trace.expired)
                &&& post == self.told(trace.command).with_policy(post.policy)
            },
            None => post == self,
        }
    }

    /// The entry that such a look shows: the one for the key, unless it has expired.
    pub open spec fn shown(self, key: K, trace: AccessTrace<P>) -> Option<EntryId> {
        match self.locate(key) {
            Some(id) => if trace.expired || self.told(trace.command).entries[id].storage.removed {
                None
            } else {
                Some(id)
            },
            None => None,
        }
    }

    /// The removal of the entry for a key, of which the policy said whether it has expired,
    /// leads from this map to `post`. The oldest list of the backlog is dealt with first.
    pub open spec fn removes(self, key: K, expired: bool, post: Self) -> bool {
        let start = self.release_first();
        match start.locate(key) {
            Some(id) => {
                let storage = start.entries[id].storage.storage;
                &&& P::judges(start.policy, id, storage, post.policy, expired)
                &&& post == start.retire(id).with_policy(post.policy)
            },
            None => post == start,
        }
    }

    /// The entry that such a removal gives out: the one for the key, unless it has expired.
    pub open spec fn taken(self, key: K, expired: bool) -> Option<Item<K, V, P::Storage>> {
        let start = self.release_first();
        match start.locate(key) {
            Some(id) => if expired || start.entries[id].storage.removed {
                None
            } else {
                Some(start.entries[id])
            },
            None => None,
        }
    }

    /// A walk that met each entry once and went as the trace says leads from this map to `post`.
    pub open spec fn sweeps(self, trace: SweepTrace<P>, post: Self) -> bool {
        &&& trace.order.no_duplicates()
        &&& trace.order.to_set() == self.entries.dom()
        &&& self.sweeps_part(trace)
        &&& post == self.with_policy(trace.policies.last())
    }

    /// The policy was asked about the entries of the trace, one after the other.
    pub open spec fn sweeps_part(self, trace: SweepTrace<P>) -> bool {
        &&& trace.policies.len() == trace.order.len() + 1
        &&& trace.expired.len() == trace.order.len()
        &&& trace.policies[0] == self.policy
        &&& forall|i: int| 0 <= i < trace.order.len() ==> #[trigger] self.sweeps_at(trace, i)
    }

    /// The answer that the policy gave of one entry.
    pub open spec fn sweeps_at(self, trace: SweepTrace<P>, i: int) -> bool {
        P::judges(
            trace.policies[i],
            trace.order[i],
            self.entries[trace.order[i]].storage.storage,
            trace.policies[i + 1],
            trace.expired[i],
        )
    }

    /// The entries among the first `n` of a walk that have not expired, in the order in which
    /// they were met.
    pub open spec fn live(self, trace: SweepTrace<P>, n: int) -> Seq<EntryId>
        decreases n,
    {
        if n <= 0 {
            Seq::empty()
        } else if trace.expired[n - 1] || self.entries[trace.order[n - 1]].storage.removed {
            self.live(trace, n - 1)
        } else {
            self.live(trace, n - 1).push(trace.order[n - 1])
        }
    }

    /// The entries of a walk that have not expired, in the order in which they were met.
    pub open spec fn all_live(self, trace: SweepTrace<P>) -> Seq<EntryId> {
        self.live(trace, trace.order.len() as int)
    }

    /// An access to an entry that the policy answers with a command leads from this map to
    /// `post`.
    pub open spec fn touches(self, id: EntryId, command: Command, post: Self) -> bool {
        let storage = self.entries[id].storage.storage;
        &&& P::accessed(self.policy, id, storage, post.policy, command)
        &&& post == self.told(command).with_policy(post.policy)
    }

    /// The entry for a key is opened, of which the policy said whether it has expired: this
    /// leads from this map to `post`.
    pub open spec fn opens(self, key: K, expired: bool, post: Self) -> bool {
        match self.locate(key) {
            Some(id) => {
                let storage = self.entries[id].storage.storage;
                &&& P::judges(self.policy, id, storage, post.policy, expired)
                &&& post == self.with_policy(post.policy)
            },
            None => post == self,
        }
    }

    /// The entry that is open then: the one for the key, unless it has expired.
    pub open spec fn opened(self, key: K, expired: bool) -> Option<EntryId> {
        match self.locate(key) {
            Some(id) => if expired || self.entries[id].storage.removed {
                None
            } else {
                Some(id)
            },
            None => None,
        }
    }

    /// A new value for the entry `at` that was set as the trace says leads from this map to
    /// `post`. The policy's command is noted before the entry gets its new id.
    pub open spec fn resets(
        self,
        at: EntryId,
        value: V,
        info: P::Info,
        trace: ResetTrace<P>,
        post: Self,
    ) -> bool {
        let told = self.acquire(trace.id).with_policy(post.policy).told(trace.command);
        &&& P::inits(self.policy, info, trace.ready, trace.storage)
        &&& !self.ids().contains(trace.id)
        &&& P::inserted(trace.ready, trace.id, trace.storage, post.policy, trace.command)
        &&& post == told.replace(at, trace.id, value, trace.storage)
    }

    /// A new value for an entry, or none, and an access to the entry that the policy answers
    /// with a command lead from this map to `post`.
    pub open spec fn turns(
        self,
        id: EntryId,
        out: Option<V>,
        command: Command,
        post: Self,
    ) -> bool {
        let storage = self.entries[id].storage.storage;
        let changed = match out {
            Some(value) => self.set_value(id, value),
            None => self.retire(id),
        };
        &&& P::accessed(self.policy, id, storage, post.policy, command)
        &&& post == changed.told(command).with_policy(post.policy)
    }

    /// The removal of an entry in hand, of which the policy said whether it has expired, leads
    /// from this map to `post`. The oldest list of the backlog is dealt with too.
    pub open spec fn removes_at(self, id: EntryId, expired: bool, post: Self) -> bool {
        let storage = self.entries[id].storage.storage;
        &&& P::judges(self.policy, id, storage, post.policy, expired)
        &&& post == self.retire(id).with_policy(post.policy).release_first()
    }

    /// The map after the key and the value of an entry were set.
    pub open spec fn set_pair(self, id: EntryId, key: K, value: V) -> Self {
        MapModel {
            entries: self.entries.insert(id, Item { key, value, ..self.entries[id] }),
            ..self
        }
    }

    /// The map after the value of an entry was set.
    pub open spec fn set_value(self, id: EntryId, value: V) -> Self {
        MapModel {
            entries: self.entries.insert(id, Item { value, ..self.entries[id] }),
            ..self
        }
    }

    /// Giving ids up leaves a sound map sound.
    pub proof fn release_keeps_wf(self, list: Seq<Option<EntryId>>)
        requires
            self.wf(),
        ensures
            self.release(list).wf(),
    {
        assert(self.release(list).entries.dom() =~= self.entries.dom().difference(named(list)));
    }

    /// Dealing with the backlog leaves a sound map sound.
    pub proof fn release_all_keeps_wf(self)
        requires
            self.wf(),
        ensures
            self.release_all().wf(),
            self.release_all().backlog.len() == 0,
            self.release_all().policy == self.policy,
            self.release_all().hash_builder == self.hash_builder,
            self.release_all().entries.submap_of(self.entries),
            self.release_all().retired.subset_of(self.retired),
        decreases self.backlog.len(),
    {
        if self.backlog.len() > 0 {
            self.release_keeps_wf(self.backlog[0]);
            let next = self.release_first();
            next.release_all_keeps_wf();
            assert(next.entries.submap_of(self.entries));
            assert forall|id: EntryId| #[trigger]
                self.release_all().entries.dom().contains(id) implies self.entries.dom().contains(
                id,
            ) && self.release_all().entries[id] == self.entries[id] by {
                assert(next.entries.dom().contains(id));
            }
        }
    }

    /// The entries of a walk that have not expired are among those met, each once.
    pub proof fn live_is_met(self, trace: SweepTrace<P>, n: int)
        requires
            0 <= n <= trace.order.len(),
            trace.order.no_duplicates(),
        ensures
            self.live(trace, n).no_duplicates(),
            forall|id: EntryId| #[trigger]
                self.live(trace, n).contains(id) ==> trace.order.take(n).contains(id),
            self.live(trace, n).len() <= n,
        decreases n,
    {
        if n > 0 {
            self.live_is_met(trace, n - 1);
            let before = self.live(trace, n - 1);
            let id = trace.order[n - 1];
            assert(!before.contains(id)) by {
                if before.contains(id) {
                    assert(trace.order.take(n - 1).contains(id));
                    let i = trace.order.take(n - 1).index_of(id);
                    assert(trace.order[i] == id);
                }
            }
            assert forall|other: EntryId| #[trigger]
                self.live(trace, n).contains(other) implies trace.order.take(n).contains(other) by {
                if before.contains(other) {
                    assert(trace.order.take(n - 1).contains(other));
                    let i = trace.order.take(n - 1).index_of(other);
                    assert(trace.order.take(n)[i] == other);
                } else {
                    assert(trace.order.take(n)[n - 1] == other);
                }
            }
        }
    }

    /// The entries of a walk that have not expired are there.
    pub proof fn live_are_entries(self, trace: SweepTrace<P>, post: Self)
        requires
            self.sweeps(trace, post),
        ensures
            forall|i: int|
                0 <= i < self.all_live(trace).len() ==> self.entries.contains_key(
                    #[trigger] self.all_live(trace)[i],
                ),
    {
        let n = trace.order.len() as int;
        let live = self.all_live(trace);
        self.live_is_met(trace, n);
        assert(trace.order.take(n) =~= trace.order);
        assert forall|i: int| 0 <= i < live.len() implies self.entries.contains_key(
            #[trigger] live[i],
        ) by {
            assert(live.contains(live[i]));
            assert(trace.order.to_set().contains(live[i]));
        }
    }

    /// A removal takes no id into use.
    pub proof fn removes_keeps_room(self, key: K, expired: bool, post: Self)
        requires
            self.wf(),
            self.removes(key, expired, post),
        ensures
            post.wf(),
            post.ids().subset_of(self.ids()),
            post.ids().len() <= self.ids().len(),
    {
        let start = self.release_first();
        if self.backlog.len() > 0 {
            self.release_keeps_wf(self.backlog[0]);
        }
        if start.locate(key) is Some {
            let id = start.locate(key).unwrap();
            assert(start.holds(id, key));
            start.retire_keeps_wf(id);
        }
        assert(post.ids() =~= start.ids());
        vstd::set_lib::lemma_len_subset(post.ids(), self.ids());
    }

    /// The policy has no part in dealing with the backlog.
    pub proof fn release_all_with_policy(self, policy: P)
        ensures
            self.with_policy(policy).release_all() == self.release_all().with_policy(policy),
        decreases self.backlog.len(),
    {
        if self.backlog.len() > 0 {
            assert(self.with_policy(policy).release_first() =~= self.release_first().with_policy(
                policy,
            ));
            self.release_first().release_all_with_policy(policy);
        }
    }

    /// Marking entries leaves a sound map sound, with the same keys.
    pub proof fn mark_keeps_wf(self, list: Seq<Option<EntryId>>)
        requires
            self.wf(),
        ensures
            self.mark(list).wf(),
            self.mark(list).entries.dom() == self.entries.dom(),
    {
        assert(self.mark(list).entries.dom() =~= self.entries.dom());
    }

    /// A command of the policy leaves a sound map sound, with the same keys.
    pub proof fn told_keeps_wf(self, command: Command)
        requires
            self.wf(),
        ensures
            self.told(command).wf(),
            self.told(command).entries.dom() == self.entries.dom(),
            self.told(command).retired == self.retired,
    {
        match command.listed() {
            Some(list) => self.mark_keeps_wf(list),
            None => {},
        }
    }

    /// The entries of this map and of `other` are for the same keys.
    pub open spec fn same_keys(self, other: Self) -> bool {
        &&& self.entries.dom() == other.entries.dom()
        &&& forall|id: EntryId| #[trigger]
            self.entries.contains_key(id) ==> self.entries[id].key == other.entries[id].key
    }

    /// A look at an entry leaves the keys as they are.
    pub proof fn looks_up_keeps_keys(self, key: K, trace: AccessTrace<P>, post: Self)
        requires
            self.looks_up(key, trace, post),
        ensures
            post.same_keys(self),
    {
        assert(self.told(trace.command).entries.dom() =~= self.entries.dom());
    }

    /// The entry for a key is found, whichever name it goes by.
    pub proof fn locate_is(self, id: EntryId, key: K)
        requires
            self.wf(),
            self.holds(id, key),
        ensures
            self.locate(key) == Some(id),
    {
        let found = choose|id: EntryId| self.holds(id, key);
        assert(self.holds(found, key));
        let a = self.entries[found].key;
        let b = self.entries[id].key;
        crate::hash::same_key_is_equivalence(self.hash_builder, key, a, key);
        crate::hash::same_key_is_equivalence(self.hash_builder, a, key, b);
        assert(self.entries.contains_key(found) && self.entries.contains_key(id));
    }

    /// Where the entry for a key is found rests on the entries and the hashes alone.
    pub proof fn locate_same(self, other: Self, key: K)
        requires
            self.wf(),
            other.entries == self.entries,
            other.hash_builder == self.hash_builder,
        ensures
            other.locate(key) == self.locate(key),
    {
        if exists|id: EntryId| self.holds(id, key) {
            let id = choose|id: EntryId| self.holds(id, key);
            let found = choose|id: EntryId| other.holds(id, key);
            assert(other.holds(id, key));
            assert(self.holds(found, key));
            self.locate_is(found, key);
        } else {
            assert forall|id: EntryId| !other.holds(id, key) by {
                assert(!self.holds(id, key));
            }
        }
    }

    /// Setting a value leaves a sound map sound.
    pub proof fn set_value_keeps_wf(self, id: EntryId, value: V)
        requires
            self.wf(),
            self.entries.contains_key(id),
        ensures
            self.set_value(id, value).wf(),
            self.set_value(id, value).entries.dom() == self.entries.dom(),
    {
        assert(self.set_value(id, value).entries.dom() =~= self.entries.dom());
    }

    /// Setting a key that stands for the same entry leaves a sound map sound.
    pub proof fn set_pair_keeps_wf(self, id: EntryId, key: K, value: V)
        requires
            self.wf(),
            self.holds(id, key),
        ensures
            self.set_pair(id, key, value).wf(),
            self.set_pair(id, key, value).entries.dom() == self.entries.dom(),
    {
        let post = self.set_pair(id, key, value);
        assert(post.entries.dom() =~= self.entries.dom());
        let was = self.entries[id].key;
        assert forall|a: EntryId, b: EntryId| #[trigger]
            post.entries.contains_key(a) && #[trigger] post.entries.contains_key(b)
                && crate::hash::same_key(
                self.hash_builder,
                post.entries[a].key,
                post.entries[b].key,
            ) implies a == b by {
            let x = self.entries[a].key;
            let y = self.entries[b].key;
            crate::hash::same_key_is_equivalence(self.hash_builder, key, was, key);
            crate::hash::same_key_is_equivalence(self.hash_builder, was, key, y);
            crate::hash::same_key_is_equivalence(self.hash_builder, x, key, was);
            assert(self.entries.contains_key(a) && self.entries.contains_key(b));
        }
    }

    /// An id more in use leaves a sound map sound.
    pub proof fn acquire_keeps_wf(self, id: EntryId)
        requires
            self.wf(),
            !self.ids().contains(id),
        ensures
            self.acquire(id).wf(),
    {
    }

    /// A new entry for a key that has none leaves a sound map sound.
    pub proof fn add_keeps_wf(self, id: EntryId, key: K, value: V, storage: P::Storage)
        requires
            self.wf(),
            self.retired.contains(id),
            self.locate(key) is None,
        ensures
            self.add(id, key, value, storage).wf(),
            self.add(id, key, value, storage).holds(id, key),
            self.add(id, key, value, storage).ids() == self.ids(),
    {
        let post = self.add(id, key, value, storage);
        crate::hash::same_key_is_equivalence(self.hash_builder, key, key, key);
        assert forall|other: EntryId| self.entries.contains_key(other) implies {
            &&& !crate::hash::same_key(self.hash_builder, key, self.entries[other].key)
            &&& !crate::hash::same_key(self.hash_builder, self.entries[other].key, key)
        } by {
            assert(!self.holds(other, key));
            crate::hash::same_key_is_equivalence(
                self.hash_builder,
                self.entries[other].key,
                key,
                key,
            );
        }
        assert(post.ids() =~= self.ids());
    }

    /// Taking an entry out leaves a sound map sound.
    pub proof fn retire_keeps_wf(self, id: EntryId)
        requires
            self.wf(),
            self.entries.contains_key(id),
        ensures
            self.retire(id).wf(),
            self.retire(id).ids() == self.ids(),
            self.retire(id).locate(self.entries[id].key) is None,
    {
        let post = self.retire(id);
        assert(post.ids() =~= self.ids());
        assert forall|other: EntryId| !post.holds(other, self.entries[id].key) by {
            if post.holds(other, self.entries[id].key) {
                assert(self.entries.contains_key(other) && self.entries.contains_key(id));
            }
        }
    }

    /// A new value for an entry leaves a sound map sound.
    pub proof fn replace_keeps_wf(
        self,
        old_id: EntryId,
        id: EntryId,
        value: V,
        storage: P::Storage,
    )
        requires
            self.wf(),
            self.entries.contains_key(old_id),
            self.retired.contains(id),
        ensures
            self.replace(old_id, id, value, storage).wf(),
            self.replace(old_id, id, value, storage).ids() == self.ids(),
    {
        self.retire_keeps_wf(old_id);
        self.retire(old_id).add_keeps_wf(id, self.entries[old_id].key, value, storage);
    }
}

impl<P: ExpirePolicy> SweepTrace<P> {
    /// A walk that has not begun.
    pub open spec fn begin(policy: P) -> Self {
        SweepTrace { order: Seq::empty(), policies: seq![policy], expired: Seq::empty() }
    }

    /// The walk with one more step.
    pub open spec fn step(self, id: EntryId, policy: P, expired: bool) -> Self {
        SweepTrace {
            order: self.order.push(id),
            policies: self.policies.push(policy),
            expired: self.expired.push(expired),
        }
    }

    /// One more step leaves what was met before as it was.
    pub proof fn step_extends<K: Eq, V, H>(
        self,
        map: MapModel<K, V, P, H>,
        id: EntryId,
        policy: P,
        expired: bool,
        n: int,
    )
        requires
            map.sweeps_part(self),
            P::judges(
                self.policies.last(),
                id,
                map.entries[id].storage.storage,
                policy,
                expired,
            ),
            0 <= n <= self.order.len(),
        ensures
            map.sweeps_part(self.step(id, policy, expired)),
            map.live(self.step(id, policy, expired), n) == map.live(self, n),
        decreases n,
    {
        let next = self.step(id, policy, expired);
        assert forall|i: int| 0 <= i < next.order.len() implies #[trigger] map.sweeps_at(
            next,
            i,
        ) by {
            if i < self.order.len() {
                assert(map.sweeps_at(self, i));
            }
        }
        if n > 0 {
            self.step_extends(map, id, policy, expired, n - 1);
        }
    }
}

impl<P: ExpirePolicy> InsertTrace<P> {
    /// The map that the entry is put in: without its backlog, where the table had to grow for a
    /// new key.
    pub open spec fn placed_from<K: Eq, V, H>(
        self,
        start: MapModel<K, V, P, H>,
        key: K,
    ) -> MapModel<K, V, P, H> {
        if start.locate(key) is None && self.grew {
            start.release_all()
        } else {
            start
        }
    }

    /// The map after the entry was put in.
    pub open spec fn placed<K: Eq, V, H>(
        self,
        start: MapModel<K, V, P, H>,
        key: K,
        value: V,
    ) -> MapModel<K, V, P, H> {
        match start.locate(key) {
            Some(old_id) => start.replace(old_id, self.id, value, self.storage),
            None => self.placed_from(start, key).add(self.id, key, value, self.storage),
        }
    }
}

} // verus!
