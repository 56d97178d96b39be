//! A hash map whose entries expire.
use std::hash::{BuildHasher, Hash};

use crossbeam::queue::SegQueue;
use hashbrown::hash_map::DefaultHashBuilder;
use vstd::prelude::*;
use vstd::std_specs::cmp::PartialEqSpec;

use crate::backlog;
use crate::entry::{EntryId, EntryIdTable, MAX_IDS};
use crate::hash::{default_hash_builder, equivalent_key, make_hash, make_insert_hash};
use crate::model::{AccessTrace, InsertTrace, Item, MapModel, SweepTrace};
use crate::policy::{Command, ExpirePolicy};
use crate::storage::Storage;
use crate::table::{Filed, Table};

mod compare;
mod entry;
mod iter;

pub use compare::CompareTrace;
pub use entry::{Entry, OccupiedEntry, VacantEntry};
pub use iter::{Drain, Iter, IterMut, Keys, StepTrace, Values, ValuesMut, WalkTrace};

verus! {

/// A hash map whose entries expire by the policy that it was made with.
///
/// An entry that the policy reports is hidden at once and taken out later, a list of entries at
/// a time, by the operations that change the map.
pub struct HashMap<K, V, P: ExpirePolicy, H = DefaultHashBuilder> {
    exp_bucket_table: EntryIdTable,
    exp_policy: P,
    exp_backlog: SegQueue<Vec<Option<EntryId>>>,
    hash_builder: H,
    table: Table<Item<K, V, P::Storage>>,
}

impl<K, V, P: ExpirePolicy, H> View for HashMap<K, V, P, H> {
    type V = MapModel<K, V, P, H>;

    /// The state of the map.
    closed spec fn view(&self) -> MapModel<K, V, P, H> {
        MapModel {
            entries: Map::new(
                |id: EntryId| self.bucket_of(id) is Some,
                |id: EntryId| self.table@[self.bucket_of(id).unwrap()].item,
            ),
            retired: Set::new(
                |id: EntryId|
                    self.exp_bucket_table@.contains_key(id) && self.bucket_of(id) is None,
            ),
            backlog: backlog::queued(self.exp_backlog),
            policy: self.exp_policy,
            hash_builder: self.hash_builder,
        }
    }
}

/// The bucket that an id leads to.
spec fn bucket_in(ids: Map<EntryId, Option<usize>>, id: EntryId) -> Option<usize> {
    if ids.contains_key(id) {
        ids[id]
    } else {
        None
    }
}

/// The id leads to the bucket of its entry, if it leads anywhere.
spec fn leads<K, V, S>(
    ids: Map<EntryId, Option<usize>>,
    table: Map<usize, Filed<Item<K, V, S>>>,
    id: EntryId,
) -> bool {
    bucket_in(ids, id) matches Some(b) ==> table.contains_key(b)
        && table[b].item.storage.entry_id == id
}

/// The entry in a bucket knows its id and is filed under the hash of its key.
spec fn is_filed<K, V, S, H>(
    ids: Map<EntryId, Option<usize>>,
    table: Map<usize, Filed<Item<K, V, S>>>,
    hash_builder: H,
    b: usize,
) -> bool {
    table.contains_key(b) ==> {
        &&& bucket_in(ids, table[b].item.storage.entry_id) == Some(b)
        &&& table[b].hash == crate::hash::hash_of(hash_builder, table[b].item.key)
    }
}

impl<K, V, P: ExpirePolicy, H> HashMap<K, V, P, H> {
    /// The bucket of the entry with this id.
    spec fn bucket_of(&self, id: EntryId) -> Option<usize> {
        bucket_in(self.exp_bucket_table@, id)
    }

    /// The entry with this id lies in this bucket.
    pub(crate) closed spec fn is_at(&self, bucket: usize, id: EntryId) -> bool {
        self.bucket_of(id) == Some(bucket)
    }

    /// Each entry lies in the bucket in which it lies in the other map.
    pub closed spec fn same_places(&self, other: Self) -> bool {
        self.exp_bucket_table == other.exp_bucket_table
    }

    /// How many entries there can be before more memory is got to index them, those among them
    /// that are there.
    pub closed spec fn room(&self) -> nat {
        self.table.room()
    }

    /// How many slots there is memory for to index entries.
    pub closed spec fn slots(&self) -> nat {
        self.table.slots()
    }

    /// How many more entries there can be before more memory is got to index them.
    pub open spec fn spare(&self) -> int {
        self.room() - self@.entries.dom().len()
    }

    /// What an insertion does with the memory. It gets none to index the entry where there is room
    /// for one more. Where it gets some ahead, there is room for the entries that were kept and
    /// for one and a half times as many more as those and the new one are.
    pub open spec fn makes_room(&self, trace: InsertTrace<P>, post: Self) -> bool {
        let kept = post@.entries.dom().len() - 1;
        &&& self.spare() > 0 ==> {
            &&& !trace.grew
            &&& post.slots() == self.slots()
            &&& post.spare() >= self.spare() - 1
        }
        &&& trace.ahead ==> trace.grew && kept + (kept + 1) * 3 / 2 <= post.room()
    }

    /// The ids lead to the buckets of their entries and the entries know their ids; each entry
    /// is filed under the hash of its key.
    pub closed spec fn inv(&self) -> bool {
        let ids = self.exp_bucket_table@;
        let table = self.table@;
        &&& self.table.wf()
        &&& forall|id: EntryId| #![trigger bucket_in(ids, id)] leads(ids, table, id)
        &&& forall|b: usize|
            #![trigger table.contains_key(b)]
            is_filed(ids, table, self.hash_builder, b)
        &&& ids.dom().finite()
        &&& table.dom().len() == self@.entries.dom().len()
    }
}

impl<K: Hash + Eq, V, P: ExpirePolicy> HashMap<K, V, P, DefaultHashBuilder> {
    /// An empty map.
    pub fn new(policy: P) -> (map: Self)
        requires
            crate::hash::lawful_key::<K>(),
        ensures
            map.wf(),
            map@ == MapModel::<K, V, P, _>::vacant(policy, map@.hash_builder),
            map.room() == 0,
    {
        let map = HashMap {
            exp_bucket_table: EntryIdTable::new(),
            exp_policy: policy,
            exp_backlog: backlog::new_queue(),
            hash_builder: default_hash_builder(),
            table: Table::new(),
        };
        assert(map@ =~= MapModel::<K, V, P, _>::vacant(policy, map@.hash_builder));
        map
    }

    /// An empty map with room for `capacity` entries, and for a bounded number more.
    pub fn with_capacity(capacity: usize, policy: P) -> (map: Self)
        requires
            crate::hash::lawful_key::<K>(),
            capacity < usize::MAX / 79,
        ensures
            map.wf(),
            map@ == MapModel::<K, V, P, _>::vacant(policy, map@.hash_builder),
            capacity <= map.room() <= 2 * capacity + 7,
    {
        let map = HashMap {
            exp_bucket_table: EntryIdTable::new(),
            exp_policy: policy,
            exp_backlog: backlog::new_queue(),
            hash_builder: default_hash_builder(),
            table: Table::with_capacity(capacity),
        };
        assert(map@ =~= MapModel::<K, V, P, _>::vacant(policy, map@.hash_builder));
        map
    }
}

impl<K: Hash + Eq, V, P: ExpirePolicy, H: BuildHasher> HashMap<K, V, P, H> {
    /// The map is laid out as its state says, and its state is sound.
    pub open spec fn wf(&self) -> bool {
        &&& self.inv()
        &&& self@.wf()
    }

    /// Gives one id up, and its entry with it.
    fn release_one(&mut self, id: EntryId)
        requires
            old(self).wf(),
        ensures
            final(self).wf(),
            final(self)@ == old(self)@.release(seq![Some(id)]),
            final(self).slots() == old(self).slots(),
            final(self).room() <= old(self).room(),
            old(self).spare() <= final(self).spare(),
            !old(self)@.entries.contains_key(id) ==> final(self).room() == old(self).room(),
    {
        let ghost pre = *self;
        if let Some(bucket) = self.exp_bucket_table.release_slot(id) {
            let _ = self.table.remove(bucket);
        }
        proof {
            let list = seq![Some(id)];
            assert(list[0] == Some(id));
            assert forall|other: EntryId| list.contains(Some(other)) <==> other == id by {}
            let ids = self.exp_bucket_table@;
            assert forall|other: EntryId|
                #![trigger bucket_in(ids, other)]
                leads(ids, self.table@, other) by {
                assert(other != id ==> self.bucket_of(other) == pre.bucket_of(other));
            }
            assert(forall|other: EntryId|
                other != id ==> self.bucket_of(other) == #[trigger] pre.bucket_of(other));
            assert(self@.entries =~= pre@.release(list).entries);
            assert(self@.retired =~= pre@.release(list).retired);
            pre@.release_keeps_wf(list);
            pre.table.is_finite();
            if pre.bucket_of(id) is Some {
                assert(pre.table@.contains_key(pre.bucket_of(id).unwrap()));
                assert(self@.entries.dom() =~= pre@.entries.dom().remove(id));
            } else {
                assert(self@.entries.dom() =~= pre@.entries.dom());
            }
        }
    }

    /// Gives the ids of a list up, and their entries with them.
    fn release_list(&mut self, list: Vec<Option<EntryId>>)
        requires
            old(self).wf(),
        ensures
            final(self).wf(),
            final(self)@ == old(self)@.release(list@),
            final(self).slots() == old(self).slots(),
            final(self).room() <= old(self).room(),
            old(self).spare() <= final(self).spare(),
    {
        let ghost pre = self@;
        assert(pre.release(list@.take(0)) =~= pre);
        let mut i: usize = 0;
        while i < list.len()
            invariant
                i <= list.len(),
                self.wf(),
                self@ == pre.release(list@.take(i as int)),
                self.slots() == old(self).slots(),
                self.room() <= old(self).room(),
                old(self).spare() <= self.spare(),
            decreases list.len() - i,
        {
            let ghost done = list@.take(i as int);
            let ghost more = list@.take(i + 1);
            assert(more =~= done.push(list@[i as int]));
            proof {
                assert forall|id: EntryId| #[trigger] more.contains(Some(id)) <==> done.contains(
                    Some(id),
                ) || list@[i as int] == Some(id) by {
                    assert(more[i as int] == list@[i as int]);
                    if done.contains(Some(id)) {
                        let j = done.index_of(Some(id));
                        assert(more[j] == Some(id));
                    }
                }
            }
            if let Some(id) = list[i] {
                let ghost one = seq![Some(id)];
                assert(one[0] == Some(id));
                self.release_one(id);
            }
            assert(self@.entries =~= pre.release(more).entries);
            assert(self@.retired =~= pre.release(more).retired);
            i += 1;
        }
        assert(list@.take(list@.len() as int) =~= list@);
    }

    /// Deals with the oldest list of the backlog.
    fn process_single_backlog(&mut self)
        requires
            old(self).wf(),
        ensures
            final(self).wf(),
            final(self)@ == old(self)@.release_first(),
            final(self).slots() == old(self).slots(),
            final(self).room() <= old(self).room(),
            old(self).spare() <= final(self).spare(),
    {
        if backlog::is_empty(&self.exp_backlog) {
            return;
        }
        let ghost pre = *self;
        if let Some(list) = backlog::pop(&mut self.exp_backlog) {
            assert(self@.entries =~= pre@.entries);
            assert(self@.retired =~= pre@.retired);
            self.release_list(list);
        }
    }

    /// Deals with the whole backlog. Says whether there was any.
    fn process_backlog(&mut self) -> (has_backlog: bool)
        requires
            old(self).wf(),
        ensures
            final(self).wf(),
            final(self)@ == old(self)@.release_all(),
            has_backlog == (old(self)@.backlog.len() > 0),
            final(self).slots() == old(self).slots(),
            final(self).room() <= old(self).room(),
            old(self).spare() <= final(self).spare(),
            !has_backlog ==> final(self).room() == old(self).room(),
    {
        let mut has_backlog = false;
        let ghost pre = self@;
        while !backlog::is_empty(&self.exp_backlog)
            invariant
                self.wf(),
                self@.release_all() == pre.release_all(),
                self@.backlog.len() <= pre.backlog.len(),
                has_backlog <==> self@.backlog.len() < pre.backlog.len(),
                self.slots() == old(self).slots(),
                self.room() <= old(self).room(),
                old(self).spare() <= self.spare(),
                !has_backlog ==> self.room() == old(self).room(),
            decreases self@.backlog.len(),
        {
            self.process_single_backlog();
            has_backlog = true;
        }
        has_backlog
    }

    /// Marks one entry as expired, if it is there still.
    fn mark_one(&mut self, id: EntryId)
        requires
            old(self).wf(),
        ensures
            final(self).wf(),
            final(self)@ == old(self)@.mark(seq![Some(id)]),
            final(self).room() == old(self).room(),
            final(self).slots() == old(self).slots(),
            final(self).exp_bucket_table == old(self).exp_bucket_table,
    {
        let ghost pre = *self;
        let ghost list = seq![Some(id)];
        if let Some(bucket) = self.exp_bucket_table.get(id) {
            assert(self.bucket_of(id) == Some(bucket));
            self.table.get_mut(bucket).storage.mark_as_removed();
        }
        proof {
            assert(list[0] == Some(id));
            assert forall|other: EntryId| list.contains(Some(other)) <==> other == id by {}
            let ids = self.exp_bucket_table@;
            assert forall|other: EntryId|
                #![trigger bucket_in(ids, other)]
                leads(ids, self.table@, other) by {
                assert(pre.bucket_of(other) == self.bucket_of(other));
            }
            assert(self@.entries.dom() =~= pre@.entries.dom());
            assert(self.table@.dom() =~= pre.table@.dom());
            assert forall|other: EntryId| pre@.entries.contains_key(other) implies (
            #[trigger] self@.entries[other]) == pre@.mark(list).entries[other] by {
                assert(pre.bucket_of(other) is Some);
            }
            assert(self@.entries =~= pre@.mark(list).entries);
            assert(self@.retired =~= pre@.retired);
            pre@.mark_keeps_wf(list);
        }
    }

    /// Marks the entries that a command lists, and lets the list wait in the backlog.
    fn handle_status(&mut self, status: Command)
        requires
            old(self).wf(),
        ensures
            final(self).wf(),
            final(self)@ == old(self)@.told(status),
            final(self).room() == old(self).room(),
            final(self).slots() == old(self).slots(),
            final(self).exp_bucket_table == old(self).exp_bucket_table,
    {
        let removed: Vec<Option<EntryId>> = match status {
            Command::Remove(id) => {
                let mut one: Vec<Option<EntryId>> = Vec::new();
                one.push(Some(id));
                one
            },
            Command::RemoveBulk(list) => list,
            Command::Noop => {
                return ;
            },
        };
        assert(status.listed() == Some(removed@));
        let ghost pre = self@;
        assert(pre.mark(removed@.take(0)).entries =~= pre.entries);
        let mut i: usize = 0;
        while i < removed.len()
            invariant
                i <= removed.len(),
                self.wf(),
                self@ == pre.mark(removed@.take(i as int)),
                self.room() == old(self).room(),
                self.slots() == old(self).slots(),
                self.exp_bucket_table == old(self).exp_bucket_table,
            decreases removed.len() - i,
        {
            let ghost done = removed@.take(i as int);
            let ghost more = removed@.take(i + 1);
            assert(more =~= done.push(removed@[i as int]));
            proof {
                assert forall|id: EntryId| #[trigger] more.contains(Some(id)) <==> done.contains(
                    Some(id),
                ) || removed@[i as int] == Some(id) by {
                    assert(more[i as int] == removed@[i as int]);
                    if done.contains(Some(id)) {
                        let j = done.index_of(Some(id));
                        assert(more[j] == Some(id));
                    }
                }
            }
            if let Some(id) = removed[i] {
                let ghost one = seq![Some(id)];
                assert(one[0] == Some(id));
                self.mark_one(id);
            }
            assert(self@.entries =~= pre.mark(more).entries);
            i += 1;
        }
        assert(removed@.take(removed@.len() as int) =~= removed@);
        let ghost marked = *self;
        backlog::push(&mut self.exp_backlog, removed);
        assert(self@.entries =~= marked@.entries);
        assert(self@.retired =~= marked@.retired);
    }

    /// The bucket of the entry for a key.
    fn find(&self, hash: u64, k: &K) -> (found: Option<usize>)
        requires
            self.wf(),
            hash == crate::hash::hash_of(self@.hash_builder, *k),
        ensures
            match found {
                Some(b) => {
                    &&& self.table@.contains_key(b)
                    &&& self@.locate(*k) == Some(self.table@[b].item.storage.entry_id)
                    &&& self.bucket_of(self.table@[b].item.storage.entry_id) == Some(b)
                },
                None => self@.locate(*k) is None,
            },
    {
        let eq = |item: &Item<K, V, P::Storage>| -> (equal: bool)
            ensures
                equal == k.eq_spec(&item.key),
            { equivalent_key(k, item) };
        let found = self.table.find(hash, &eq);
        proof {
            match found {
                Some(b) => {
                    let id = self.table@[b].item.storage.entry_id;
                    assert(is_filed(self.exp_bucket_table@, self.table@, self.hash_builder, b));
                    self@.locate_is(id, *k);
                },
                None => {
                    assert forall|id: EntryId| !self@.holds(id, *k) by {
                        if self@.holds(id, *k) {
                            let b = self.bucket_of(id).unwrap();
                            assert(leads(self.exp_bucket_table@, self.table@, id));
                            assert(is_filed(
                                self.exp_bucket_table@,
                                self.table@,
                                self.hash_builder,
                                b,
                            ));
                        }
                    }
                },
            }
        }
        found
    }

    /// The ids in use are those that the state says.
    proof fn ids_agree(&self)
        requires
            self.inv(),
        ensures
            self.exp_bucket_table@.dom() == self@.ids(),
            self.table@.dom().len() == self@.entries.dom().len(),
            self@.entries.dom().len() <= self@.ids().len(),
            self@.ids().finite(),
    {
        assert(self.exp_bucket_table@.dom() =~= self@.ids());
        vstd::set_lib::lemma_len_subset(self@.entries.dom(), self@.ids());
    }

    /// A map whose table has one more entry, with its id leading to it, has one more entry.
    proof fn placed(
        pre: Self,
        post: Self,
        id: EntryId,
        bucket: usize,
        item: Item<K, V, P::Storage>,
    )
        requires
            pre.wf(),
            pre@.retired.contains(id),
            pre@.locate(item.key) is None,
            item.storage.entry_id == id,
            !item.storage.removed,
            !pre.table@.contains_key(bucket),
            post.table.wf(),
            post.table@ == pre.table@.insert(
                bucket,
                Filed { hash: crate::hash::hash_of(pre.hash_builder, item.key), item },
            ),
            post.exp_bucket_table@ == pre.exp_bucket_table@.insert(id, Some(bucket)),
            post.exp_policy == pre.exp_policy,
            post.exp_backlog == pre.exp_backlog,
            post.hash_builder == pre.hash_builder,
        ensures
            post.wf(),
            post@ == pre@.add(id, item.key, item.value, item.storage.storage),
            post.bucket_of(id) == Some(bucket),
    {
        let ids = post.exp_bucket_table@;
        let table = post.table@;
        pre.table.is_finite();
        assert forall|other: EntryId|
            #![trigger bucket_in(ids, other)]
            leads(ids, table, other) by {
            assert(other != id ==> bucket_in(ids, other) == pre.bucket_of(other));
        }
        assert forall|b: usize|
            #![trigger table.contains_key(b)]
            is_filed(ids, table, post.hash_builder, b) by {
            if b != bucket && table.contains_key(b) {
                assert(pre.table@.contains_key(b));
                let other = table[b].item.storage.entry_id;
                assert(pre.bucket_of(other) == Some(b));
                assert(other != id);
                assert(bucket_in(ids, other) == pre.bucket_of(other));
            }
        }
        let expected = pre@.add(id, item.key, item.value, item.storage.storage);
        assert forall|other: EntryId| #[trigger]
            post@.entries.contains_key(other) <==> expected.entries.contains_key(other) by {
            assert(other != id ==> bucket_in(ids, other) == pre.bucket_of(other));
        }
        assert forall|other: EntryId| expected.entries.contains_key(other) implies (
        #[trigger] post@.entries[other]) == expected.entries[other] by {
            assert(other != id ==> bucket_in(ids, other) == pre.bucket_of(other));
            assert(leads(pre.exp_bucket_table@, pre.table@, other)) by {
                assert(other != id ==> pre.bucket_of(other) is Some);
                let _ = bucket_in(pre.exp_bucket_table@, other);
            }
        }
        assert(post@.entries =~= expected.entries);
        assert(post@.retired =~= expected.retired);
        assert(!pre@.entries.contains_key(id));
        pre@.add_keeps_wf(id, item.key, item.value, item.storage.storage);
    }

    /// Takes an id into use.
    fn acquire(&mut self) -> (id: EntryId)
        requires
            old(self).wf(),
            old(self)@.has_room(),
        ensures
            final(self).wf(),
            !old(self)@.ids().contains(id),
            final(self)@ == old(self)@.acquire(id),
            final(self).table == old(self).table,
    {
        let ghost pre = *self;
        proof {
            pre.ids_agree();
        }
        let id = self.exp_bucket_table.acquire_slot();
        proof {
            let ids = self.exp_bucket_table@;
            assert forall|other: EntryId|
                #![trigger bucket_in(ids, other)]
                leads(ids, self.table@, other) by {
                assert(bucket_in(ids, other) == pre.bucket_of(other));
            }
            assert forall|b: usize|
                #![trigger self.table@.contains_key(b)]
                is_filed(ids, self.table@, self.hash_builder, b) by {
                if self.table@.contains_key(b) {
                    let other = self.table@[b].item.storage.entry_id;
                    assert(bucket_in(ids, other) == pre.bucket_of(other));
                }
            }
            assert(forall|other: EntryId| self.bucket_of(other) == #[trigger] pre.bucket_of(other));
            assert(self@.entries =~= pre@.entries);
            assert(self@.retired =~= pre@.retired.insert(id));
            pre@.acquire_keeps_wf(id);
        }
        id
    }

    /// Adds an entry for a key that has none, if that takes no more memory for the index, and
    /// hands it back otherwise.
    fn try_place(&mut self, hash: u64, item: Item<K, V, P::Storage>) -> (placed: Result<
        usize,
        Item<K, V, P::Storage>,
    >)
        requires
            old(self).wf(),
            old(self)@.retired.contains(item.storage.entry_id),
            old(self)@.locate(item.key) is None,
            !item.storage.removed,
            hash == crate::hash::hash_of(old(self)@.hash_builder, item.key),
        ensures
            final(self).wf(),
            match placed {
                Ok(bucket) => {
                    let id = item.storage.entry_id;
                    &&& final(self)@ == old(self)@.add(
                        id,
                        item.key,
                        item.value,
                        item.storage.storage,
                    )
                    &&& final(self).bucket_of(id) == Some(bucket)
                    &&& old(self).room() <= final(self).room() <= old(self).room() + 1
                    &&& final(self).spare() >= old(self).spare() - 1
                },
                Err(back) => {
                    &&& back == item
                    &&& final(self)@ == old(self)@
                    &&& final(self).room() == old(self).room()
                    &&& old(self).room() <= old(self)@.entries.dom().len()
                },
            },
            final(self).slots() == old(self).slots(),
    {
        let ghost pre = *self;
        let id = item.storage.entry_id;
        let ghost given = item;
        match self.table.try_insert_no_grow(hash, item) {
            Ok(bucket) => {
                self.exp_bucket_table.set_bucket(id, Some(bucket));
                proof {
                    Self::placed(pre, *self, id, bucket, given);
                    assert(self@.entries.dom() =~= pre@.entries.dom().insert(id));
                }
                Ok(bucket)
            },
            Err(back) => {
                assert(self@.entries =~= pre@.entries);
                assert(self@.retired =~= pre@.retired);
                Err(back)
            },
        }
    }

    /// Adds an entry for a key that has none, in more memory if need be.
    fn place(&mut self, hash: u64, item: Item<K, V, P::Storage>) -> (bucket: usize)
        requires
            old(self).wf(),
            old(self)@.retired.contains(item.storage.entry_id),
            old(self)@.locate(item.key) is None,
            !item.storage.removed,
            hash == crate::hash::hash_of(old(self)@.hash_builder, item.key),
            old(self)@.entries.dom().len() < usize::MAX / 160,
        ensures
            final(self).wf(),
            final(self)@ == old(self)@.add(
                item.storage.entry_id,
                item.key,
                item.value,
                item.storage.storage,
            ),
            final(self).bucket_of(item.storage.entry_id) == Some(bucket),
            old(self).room() <= final(self).room(),
            old(self).slots() <= final(self).slots(),
    {
        let ghost pre = *self;
        let id = item.storage.entry_id;
        let ghost given = item;
        let bucket = self.table.insert(hash, item);
        self.exp_bucket_table.set_bucket(id, Some(bucket));
        proof {
            Self::placed(pre, *self, id, bucket, given);
        }
        bucket
    }

    /// Gives the entry in a bucket a new value and a new storage, under an id that had no entry.
    fn swap_in(&mut self, bucket: usize, id: EntryId, value: V, storage: P::Storage) -> (was: (
        V,
        Storage<P::Storage>,
    ))
        requires
            old(self).wf(),
            old(self).table@.contains_key(bucket),
            old(self)@.retired.contains(id),
        ensures
            final(self).wf(),
            ({
                let old_id = old(self).table@[bucket].item.storage.entry_id;
                &&& old(self)@.entries.contains_key(old_id)
                &&& final(self)@ == old(self)@.replace(old_id, id, value, storage)
                &&& was.0 == old(self)@.entries[old_id].value
                &&& was.1 == old(self)@.entries[old_id].storage
            }),
            final(self).bucket_of(id) == Some(bucket),
            final(self).room() == old(self).room(),
            final(self).slots() == old(self).slots(),
            final(self)@.entries.dom().len() == old(self)@.entries.dom().len(),
    {
        let ghost pre = *self;
        let ghost new_storage = storage;
        let ghost new_value = value;
        let old_id = self.table.get(bucket).storage.entry_id;
        assert(is_filed(pre.exp_bucket_table@, pre.table@, pre.hash_builder, bucket));
        self.exp_bucket_table.set_bucket(old_id, None);
        self.exp_bucket_table.set_bucket(id, Some(bucket));
        let item = self.table.get_mut(bucket);
        let mut value = value;
        let mut storage = Storage::new(storage, id);
        core::mem::swap(&mut item.value, &mut value);
        core::mem::swap(&mut item.storage, &mut storage);
        proof {
            let ids = self.exp_bucket_table@;
            let table = self.table@;
            assert(pre@.entries.contains_key(old_id));
            assert(!pre@.entries.contains_key(id));
            assert forall|other: EntryId|
                #![trigger bucket_in(ids, other)]
                leads(ids, table, other) by {
                if other != id && other != old_id {
                    assert(bucket_in(ids, other) == pre.bucket_of(other));
                }
            }
            assert forall|b: usize|
                #![trigger table.contains_key(b)]
                is_filed(ids, table, self.hash_builder, b) by {
                if b != bucket && table.contains_key(b) {
                    assert(pre.table@.contains_key(b));
                    let other = table[b].item.storage.entry_id;
                    assert(pre.bucket_of(other) == Some(b));
                    assert(other != id && other != old_id);
                    assert(bucket_in(ids, other) == pre.bucket_of(other));
                }
            }
            let expected = pre@.replace(old_id, id, new_value, new_storage);
            assert forall|other: EntryId| #[trigger]
                self@.entries.contains_key(other) <==> expected.entries.contains_key(other) by {
                if other != id && other != old_id {
                    assert(bucket_in(ids, other) == pre.bucket_of(other));
                }
            }
            assert forall|other: EntryId| expected.entries.contains_key(other) implies (
            #[trigger] self@.entries[other]) == expected.entries[other] by {
                if other != id && other != old_id {
                    assert(bucket_in(ids, other) == pre.bucket_of(other));
                    assert(leads(pre.exp_bucket_table@, pre.table@, other));
                }
            }
            assert(self@.entries =~= expected.entries);
            assert(self@.retired =~= expected.retired);
            assert(self.table@.dom() =~= pre.table@.dom());
            assert(self@.entries.dom() =~= pre@.entries.dom().remove(old_id).insert(id));
            pre@.replace_keeps_wf(old_id, id, new_value, new_storage);
        }
        (value, storage)
    }

    /// Dealing with the backlog leads from this map to `cleared`: it gets no memory, and what
    /// falls empty may have to stay out of use for now.
    spec fn clears_to(&self, cleared: Self) -> bool {
        &&& cleared.wf()
        &&& cleared@ == self@.release_all()
        &&& cleared.slots() == self.slots()
        &&& cleared.room() <= self.room()
        &&& self.spare() <= cleared.spare()
    }

    /// Deals with the backlog, and adds an entry for a key that has none, in more memory if
    /// need be: it gets none where taking the entries of the backlog out has made room, and
    /// otherwise half as much again as there is room for, if that is to be had. The result is the
    /// id and the bucket of the entry, and whether that memory was asked for and got.
    fn grow_and_insert(&mut self, hash: u64, key: K, value: V, storage: P::Storage) -> (at: (
        EntryId,
        usize,
        bool,
    ))
        requires
            old(self).wf(),
            old(self)@.has_room(),
            old(self)@.locate(key) is None,
            hash == crate::hash::hash_of(old(self)@.hash_builder, key),
        ensures
            final(self).wf(),
            !old(self)@.release_all().ids().contains(at.0),
            final(self)@ == old(self)@.release_all().add(at.0, key, value, storage),
            final(self).bucket_of(at.0) == Some(at.1),
            exists|cleared: Self| #[trigger]
                old(self).clears_to(cleared) && cleared.room() <= final(self).room() && (
                old(self)@.backlog.len() > 0 && cleared.spare() > 0 ==> !at.2
                    && final(self).slots() == old(self).slots() && final(self).room()
                    <= old(self).room() + 1) && (at.2 ==> cleared.spare() >= 0
                    && cleared@.entries.dom().len() + (cleared.room() + 1) * 3 / 2
                    <= final(self).room()),
    {
        let ghost pre = *self;
        proof {
            pre.ids_agree();
            pre@.release_all_keeps_wf();
        }
        let has_backlog = self.process_backlog();
        let ghost cleared = *self;
        assert(old(self).clears_to(cleared));
        proof {
            cleared.ids_agree();
            vstd::set_lib::lemma_len_subset(cleared@.ids(), pre@.ids());
            assert forall|other: EntryId| !cleared@.holds(other, key) by {
                assert(!pre@.holds(other, key));
            }
        }
        let id = self.acquire();
        assert forall|other: EntryId| !self@.holds(other, key) by {
            assert(!cleared@.holds(other, key));
        }
        assert(self@.add(id, key, value, storage) =~= cleared@.add(id, key, value, storage)) by {
            assert(cleared@.retired.insert(id).remove(id) =~= cleared@.retired.remove(id));
        }
        let mut item = Item { key, value, storage: Storage::new(storage, id) };
        if has_backlog {
            match self.try_place(hash, item) {
                Ok(bucket) => {
                    return (id, bucket, false);
                },
                Err(back) => {
                    item = back;
                },
            }
        }
        let additional = (self.table.capacity() + 1) * 3 / 2;
        let ghost before = *self;
        let reserved = self.table.try_reserve(additional);
        assert(self@.entries =~= before@.entries);
        assert(self@.retired =~= before@.retired);
        let bucket = self.place(hash, item);
        (id, bucket, reserved)
    }

    /// The entry in a bucket is the one that the state has under its id.
    proof fn bucket_agrees(&self, bucket: usize)
        requires
            self.inv(),
            self.table@.contains_key(bucket),
        ensures
            self.bucket_of(self.table@[bucket].item.storage.entry_id) == Some(bucket),
            self@.entries.contains_key(self.table@[bucket].item.storage.entry_id),
            self@.entries[self.table@[bucket].item.storage.entry_id] == self.table@[bucket].item,
    {
        assert(is_filed(self.exp_bucket_table@, self.table@, self.hash_builder, bucket));
    }

    /// An id that leads to a bucket leads to its entry.
    proof fn id_agrees(&self, id: EntryId)
        requires
            self.inv(),
            self.bucket_of(id) is Some,
        ensures
            self.table@.contains_key(self.bucket_of(id).unwrap()),
            self.table@[self.bucket_of(id).unwrap()].item.storage.entry_id == id,
            self@.entries.contains_key(id),
            self@.entries[id] == self.table@[self.bucket_of(id).unwrap()].item,
    {
        assert(leads(self.exp_bucket_table@, self.table@, id));
    }

    /// A map that differs in its policy alone is laid out as well.
    proof fn policy_changed(pre: Self, post: Self)
        requires
            pre.wf(),
            post.table == pre.table,
            post.exp_bucket_table == pre.exp_bucket_table,
            post.exp_backlog == pre.exp_backlog,
            post.hash_builder == pre.hash_builder,
        ensures
            post.wf(),
            post@ == pre@.with_policy(post.exp_policy),
    {
        assert(post@.entries =~= pre@.entries);
        assert(post@.retired =~= pre@.retired);
    }

    /// Inserts a value. The result is the bucket of the entry and the value that was there
    /// before, unless its entry has expired.
    fn raw_insert(&mut self, k: K, v: V, init: P::Info) -> (placed: (
        usize,
        Option<V>,
        Ghost<InsertTrace<P>>,
    ))
        requires
            old(self).wf(),
            old(self)@.has_room(),
        ensures
            final(self).wf(),
            old(self)@.inserts(k, v, init, placed.2@, final(self)@, placed.1),
            final(self).bucket_of(placed.2@.id) == Some(placed.0),
            old(self).makes_room(placed.2@, *final(self)),
    {
        let ghost pre = self@;
        self.process_single_backlog();
        let ghost start = *self;
        proof {
            start.ids_agree();
            if pre.backlog.len() > 0 {
                assert(start@.ids().subset_of(pre.ids()));
            }
            vstd::set_lib::lemma_len_subset(start@.ids(), pre.ids());
        }
        let hash = make_insert_hash(&self.hash_builder, &k);
        let ghost key = k;
        let ghost value = v;
        let storage = self.exp_policy.init_storage(init);
        let ghost ready = self.exp_policy;
        let ghost given = storage;
        proof {
            Self::policy_changed(start, *self);
        }
        let ghost inited = *self;
        proof {
            start@.locate_same(inited@, key);
        }
        let (id, bucket, old_v, grew, ahead, expired, judged): (
            EntryId,
            usize,
            Option<V>,
            Ghost<bool>,
            Ghost<bool>,
            Ghost<bool>,
            Ghost<P>,
        );
        match self.find(hash, &k) {
            Some(found) => {
                id = self.acquire();
                bucket = found;
                let ghost old_id = start@.locate(key).unwrap();
                let (was_v, was_s) = self.swap_in(found, id, v, storage);
                let ghost swapped = *self;
                let is_expired = self.exp_policy.is_expired(was_s.entry_id, &was_s.storage);
                proof {
                    Self::policy_changed(swapped, *self);
                }
                old_v =
                if is_expired || was_s.is_removed() {
                    None
                } else {
                    Some(was_v)
                };
                grew = Ghost(false);
                ahead = Ghost(false);
                expired = Ghost(is_expired);
                judged = Ghost(self.exp_policy);
                assert(self@ =~= start@.replace(old_id, id, value, given).with_policy(judged@));
            },
            None => {
                let first = self.acquire();
                proof {
                    inited@.locate_same(self@, key);
                }
                let item = Item { key: k, value: v, storage: Storage::new(storage, first) };
                match self.try_place(hash, item) {
                    Ok(at) => {
                        id = first;
                        bucket = at;
                        grew = Ghost(false);
                        ahead = Ghost(false);
                        assert(self@ =~= start@.add(id, key, value, given).with_policy(ready));
                    },
                    Err(back) => {
                        let Item { key: k, value: v, storage } = back;
                        self.release_one(first);
                        proof {
                            let one = seq![Some(first)];
                            assert(one[0] == Some(first));
                            assert(self@ =~= inited@);
                        }
                        let at = self.grow_and_insert(hash, k, v, storage.storage);
                        id = at.0;
                        bucket = at.1;
                        grew = Ghost(true);
                        ahead = Ghost(at.2);
                        proof {
                            let kept = inited@.release_all();
                            assert(self@.entries.dom() =~= kept.entries.dom().insert(id));
                            inited@.release_all_keeps_wf();
                            start@.release_all_with_policy(ready);
                            assert(self@ =~= start@.release_all().add(
                                id,
                                key,
                                value,
                                given,
                            ).with_policy(ready));
                        }
                    },
                }
                old_v = None;
                expired = Ghost(false);
                judged = Ghost(ready);
            },
        }
        let ghost settled = *self;
        let ghost partial = InsertTrace {
            ready,
            storage: given,
            grew: grew@,
            ahead: ahead@,
            id,
            judged: judged@,
            expired: expired@,
            command: Command::Noop,
        };
        assert(self@ == partial.placed(start@, key, value).with_policy(judged@));
        assert(old(self).makes_room(partial, settled));
        proof {
            self.id_agrees(id);
        }
        let command = self.exp_policy.on_insert(id, &self.table.get(bucket).storage.storage);
        let ghost trace = InsertTrace { command, ..partial };
        proof {
            Self::policy_changed(settled, *self);
        }
        let ghost informed = self@;
        self.handle_status(command);
        proof {
            informed.told_keeps_wf(trace.command);
        }
        (bucket, old_v, Ghost(trace))
    }

    /// Tells the policy of an access to the entry in a bucket.
    fn touch(&mut self, bucket: usize) -> (command: Ghost<Command>)
        requires
            old(self).wf(),
            old(self).table@.contains_key(bucket),
        ensures
            final(self).wf(),
            final(self).exp_bucket_table == old(self).exp_bucket_table,
            final(self).table@.contains_key(bucket),
            final(self).table@[bucket].item.storage.entry_id
                == old(self).table@[bucket].item.storage.entry_id,
            old(self)@.touches(
                old(self).table@[bucket].item.storage.entry_id,
                command@,
                final(self)@,
            ),
    {
        let ghost pre = *self;
        proof {
            pre.bucket_agrees(bucket);
        }
        let id = self.table.get(bucket).storage.entry_id;
        let command = self.exp_policy.on_access(id, &self.table.get(bucket).storage.storage);
        let ghost given = command;
        let ghost accessed = *self;
        proof {
            Self::policy_changed(pre, *self);
        }
        self.handle_status(command);
        proof {
            self.id_agrees(id);
            assert(accessed@.told(given) =~= pre@.told(given).with_policy(accessed@.policy));
        }
        Ghost(given)
    }

    /// Tells the policy of an access to the entry in a bucket, and asks it whether the entry has
    /// expired. Says whether the entry may be shown.
    fn visit(&mut self, bucket: usize) -> (visited: (bool, Ghost<AccessTrace<P>>))
        requires
            old(self).wf(),
            old(self).table@.contains_key(bucket),
        ensures
            final(self).wf(),
            final(self).exp_bucket_table == old(self).exp_bucket_table,
            ({
                let id = old(self).table@[bucket].item.storage.entry_id;
                let storage = old(self)@.entries[id].storage.storage;
                let trace = visited.1@;
                let told = old(self)@.told(trace.command);
                &&& P::accessed(old(self)@.policy, id, storage, trace.accessed, trace.command)
                &&& P::judges(trace.accessed, id, storage, final(self)@.policy, trace.expired)
                &&& final(self)@ == told.with_policy(final(self)@.policy)
                &&& visited.0 == !(trace.expired || told.entries[id].storage.removed)
            }),
    {
        let ghost pre = *self;
        proof {
            pre.bucket_agrees(bucket);
        }
        let Ghost(command) = self.touch(bucket);
        let ghost told = *self;
        proof {
            self.bucket_agrees(bucket);
        }
        let item = self.table.get(bucket);
        let is_expired = self.exp_policy.is_expired(
            item.storage.entry_id,
            &item.storage.storage,
        );
        let removed = item.storage.is_removed();
        proof {
            Self::policy_changed(told, *self);
            assert(self@ =~= pre@.told(command).with_policy(self@.policy));
        }
        (
            !is_expired && !removed,
            Ghost(AccessTrace { accessed: told.exp_policy, command, expired: is_expired }),
        )
    }

    /// Looks for the entry for a key. The result is its bucket, unless it has expired.
    fn seek(&mut self, k: &K) -> (found: (Option<usize>, Ghost<AccessTrace<P>>))
        requires
            old(self).wf(),
        ensures
            final(self).wf(),
            final(self).exp_bucket_table == old(self).exp_bucket_table,
            old(self)@.looks_up(*k, found.1@, final(self)@),
            found.0 == match old(self)@.shown(*k, found.1@) {
                Some(id) => old(self).bucket_of(id),
                None => None,
            },
            old(self)@.shown(*k, found.1@) matches Some(id) ==> old(self).bucket_of(id) is Some,
    {
        let hash = make_hash(&self.hash_builder, k);
        match self.find(hash, k) {
            Some(bucket) => {
                let (visible, trace) = self.visit(bucket);
                if visible {
                    (Some(bucket), trace)
                } else {
                    (None, trace)
                }
            },
            None => (None, Ghost(arbitrary())),
        }
    }

    /// The value for a key, unless its entry has expired.
    pub fn get(&mut self, k: &K) -> (value: Option<&V>)
        requires
            old(self).wf(),
        ensures
            final(self).wf(),
            exists|trace: AccessTrace<P>| #[trigger]
                old(self)@.looks_up(*k, trace, final(self)@) && value == match old(self)@.shown(
                    *k,
                    trace,
                ) {
                    Some(id) => Some(&old(self)@.entries[id].value),
                    None => None,
                },
    {
        match self.get_key_value(k) {
            Some((_, v)) => Some(v),
            None => None,
        }
    }

    /// The key and the value of the entry for a key, unless it has expired.
    pub fn get_key_value(&mut self, k: &K) -> (pair: Option<(&K, &V)>)
        requires
            old(self).wf(),
        ensures
            final(self).wf(),
            exists|trace: AccessTrace<P>| #[trigger]
                old(self)@.looks_up(*k, trace, final(self)@) && pair == match old(self)@.shown(
                    *k,
                    trace,
                ) {
                    Some(id) => Some(
                        (&old(self)@.entries[id].key, &old(self)@.entries[id].value),
                    ),
                    None => None,
                },
    {
        let (found, Ghost(trace)) = self.seek(k);
        assert(old(self)@.looks_up(*k, trace, self@));
        match found {
            Some(bucket) => {
                proof {
                    self.id_agrees(old(self)@.shown(*k, trace).unwrap());
                }
                let item = self.table.get(bucket);
                Some((&item.key, &item.value))
            },
            None => None,
        }
    }

    /// The key in a bucket, and the value for change in place.
    fn pair_mut(&mut self, bucket: usize) -> (pair: (&K, &mut V))
        requires
            old(self).wf(),
            old(self).table@.contains_key(bucket),
        ensures
            final(self).wf(),
            final(self).exp_bucket_table == old(self).exp_bucket_table,
            final(self).room() == old(self).room(),
            final(self).slots() == old(self).slots(),
            final(self).table@ == old(self).table@.insert(bucket, final(self).table@[bucket]),
            ({
                let id = old(self).table@[bucket].item.storage.entry_id;
                &&& *pair.0 == old(self)@.entries[id].key
                &&& *pair.1 == old(self)@.entries[id].value
                &&& final(self)@ == old(self)@.set_value(id, *final(pair.1))
            }),
    {
        proof {
            self.bucket_agrees(bucket);
        }
        let ghost id = self.table@[bucket].item.storage.entry_id;
        assert forall|t: Self|
            {
                &&& t.exp_bucket_table == self.exp_bucket_table
                &&& t.exp_policy == self.exp_policy
                &&& t.exp_backlog == self.exp_backlog
                &&& t.hash_builder == self.hash_builder
                &&& t.table.wf()
                &&& t.table@ == self.table@.insert(bucket, t.table@[bucket])
                &&& t.table@[bucket] == (Filed {
                    hash: self.table@[bucket].hash,
                    item: Item {
                        value: t.table@[bucket].item.value,
                        ..self.table@[bucket].item
                    },
                })
            } implies #[trigger] t.wf() && t@ == self@.set_value(
            id,
            t.table@[bucket].item.value,
        ) by {
            let key = self.table@[bucket].item.key;
            crate::hash::same_key_is_equivalence(self.hash_builder, key, key, key);
            self.pair_changed(t, bucket, key, t.table@[bucket].item.value);
        }
        let item = self.table.get_mut(bucket);
        (&item.key, &mut item.value)
    }

    /// A map that differs in the key and the value in one bucket alone, where the new key stands
    /// for the same entry.
    proof fn pair_changed(self, post: Self, bucket: usize, key: K, value: V)
        requires
            self.wf(),
            self.table@.contains_key(bucket),
            self@.holds(self.table@[bucket].item.storage.entry_id, key),
            post.exp_bucket_table == self.exp_bucket_table,
            post.exp_policy == self.exp_policy,
            post.exp_backlog == self.exp_backlog,
            post.hash_builder == self.hash_builder,
            post.table.wf(),
            post.table@ == self.table@.insert(
                bucket,
                Filed {
                    hash: self.table@[bucket].hash,
                    item: Item { key, value, ..self.table@[bucket].item },
                },
            ),
        ensures
            post.wf(),
            post@ == self@.set_pair(self.table@[bucket].item.storage.entry_id, key, value),
    {
        let id = self.table@[bucket].item.storage.entry_id;
        let ids = self.exp_bucket_table@;
        self.bucket_agrees(bucket);
        assert(is_filed(ids, self.table@, self.hash_builder, bucket));
        assert forall|other: EntryId|
            #![trigger bucket_in(ids, other)]
            leads(ids, post.table@, other) by {
            assert(leads(ids, self.table@, other));
        }
        assert forall|b: usize|
            #![trigger post.table@.contains_key(b)]
            is_filed(ids, post.table@, self.hash_builder, b) by {
            assert(is_filed(ids, self.table@, self.hash_builder, b)) by {
                assert(self.table@.contains_key(b) || !self.table@.contains_key(b));
            }
        }
        assert(post.table@.dom() =~= self.table@.dom());
        let expected = self@.set_pair(id, key, value);
        assert(post@.entries.dom() =~= expected.entries.dom());
        assert forall|other: EntryId| expected.entries.contains_key(other) implies (
        #[trigger] post@.entries[other]) == expected.entries[other] by {
            assert(leads(ids, self.table@, other)) by {
                let _ = bucket_in(ids, other);
            }
        }
        assert(post@.entries =~= expected.entries);
        assert(post@.retired =~= expected.retired);
        self@.set_pair_keeps_wf(id, key, value);
    }

    /// The value for a key, for change in place, unless its entry has expired.
    pub fn get_mut(&mut self, k: &K) -> (value: Option<&mut V>)
        requires
            old(self).wf(),
        ensures
            final(self).wf(),
            exists|trace: AccessTrace<P>, seen: MapModel<K, V, P, H>| #[trigger]
                old(self)@.looks_up(*k, trace, seen) && match old(self)@.shown(*k, trace) {
                    Some(id) => {
                        &&& value matches Some(v) && *v == old(self)@.entries[id].value
                            && final(self)@ == seen.set_value(id, *final(v))
                    },
                    None => value is None && final(self)@ == seen,
                },
    {
        let (found, Ghost(trace)) = self.seek(k);
        let ghost seen = self@;
        assert(old(self)@.looks_up(*k, trace, seen));
        match found {
            Some(bucket) => {
                proof {
                    self.id_agrees(old(self)@.shown(*k, trace).unwrap());
                }
                Some(self.pair_mut(bucket).1)
            },
            None => None,
        }
    }

    /// Whether there is an entry for a key that has not expired.
    pub fn contains_key(&mut self, k: &K) -> (found: bool)
        requires
            old(self).wf(),
        ensures
            final(self).wf(),
            exists|trace: AccessTrace<P>| #[trigger]
                old(self)@.looks_up(*k, trace, final(self)@) && found == (old(self)@.shown(
                    *k,
                    trace,
                ) is Some),
            final(self).same_places(*old(self)),
    {
        let (found, Ghost(trace)) = self.seek(k);
        assert(old(self)@.looks_up(*k, trace, self@));
        found.is_some()
    }

    /// Inserts a value. The result is the value that was there before, unless its entry has
    /// expired. No memory is got to index it where there is room for one more entry.
    pub fn insert(&mut self, k: K, v: V, init: P::Info) -> (old_v: Option<V>)
        requires
            old(self).wf(),
            old(self)@.has_room(),
        ensures
            final(self).wf(),
            exists|trace: InsertTrace<P>| #[trigger]
                old(self)@.inserts(k, v, init, trace, final(self)@, old_v) && old(self).makes_room(
                    trace,
                    *final(self),
                ),
    {
        let (_, old_v, Ghost(trace)) = self.raw_insert(k, v, init);
        assert(old(self)@.inserts(k, v, init, trace, self@, old_v));
        old_v
    }

    /// A look at an entry takes no id into use and gives none up.
    proof fn look_keeps_room(pre: MapModel<K, V, P, H>, k: K, trace: AccessTrace<P>, post: Self)
        requires
            pre.wf(),
            pre.looks_up(k, trace, post@),
        ensures
            post@.ids() == pre.ids(),
    {
        pre.told_keeps_wf(trace.command);
        assert(post@.ids() =~= pre.ids());
    }

    /// The key of the entry for a key, after one was inserted where none was to be shown.
    pub(crate) fn key_or_insert(&mut self, k: K, v: V, init: P::Info) -> (key: &K)
        requires
            old(self).wf(),
            old(self)@.has_room(),
        ensures
            final(self).wf(),
            exists|access: AccessTrace<P>, seen: MapModel<K, V, P, H>| #[trigger]
                old(self)@.looks_up(k, access, seen) && match old(self)@.shown(k, access) {
                    Some(id) => *key == old(self)@.entries[id].key && final(self)@ == seen,
                    None => seen.gets(k, v, init, final(self)@, *key),
                },
    {
        let (found, Ghost(access)) = self.seek(&k);
        let ghost seen = *self;
        assert(old(self)@.looks_up(k, access, seen@));
        match found {
            Some(bucket) => {
                proof {
                    self.id_agrees(old(self)@.shown(k, access).unwrap());
                }
                &self.table.get(bucket).key
            },
            None => {
                proof {
                    Self::look_keeps_room(old(self)@, k, access, seen);
                }
                let (bucket, out, Ghost(trace)) = self.raw_insert(k, v, init);
                proof {
                    self.id_agrees(trace.id);
                    assert(seen@.inserts(k, v, init, trace, self@, out));
                }
                &self.table.get(bucket).key
            },
        }
    }

    /// The key of the entry for a key, after one that `f` makes was inserted where none was to be
    /// shown.
    pub(crate) fn key_or_insert_with<F: FnOnce(&K) -> K>(
        &mut self,
        k: &K,
        f: F,
        v: V,
        init: P::Info,
    ) -> (key: &K)
        requires
            old(self).wf(),
            old(self)@.has_room(),
            call_requires(f, (k,)),
        ensures
            final(self).wf(),
            exists|access: AccessTrace<P>, seen: MapModel<K, V, P, H>| #[trigger]
                old(self)@.looks_up(*k, access, seen) && match old(self)@.shown(*k, access) {
                    Some(id) => *key == old(self)@.entries[id].key && final(self)@ == seen,
                    None => exists|made: K| #[trigger]
                        call_ensures(f, (k,), made) && seen.gets(
                            made,
                            v,
                            init,
                            final(self)@,
                            *key,
                        ),
                },
    {
        let (found, Ghost(access)) = self.seek(k);
        let ghost seen = *self;
        assert(old(self)@.looks_up(*k, access, seen@));
        match found {
            Some(bucket) => {
                proof {
                    self.id_agrees(old(self)@.shown(*k, access).unwrap());
                }
                &self.table.get(bucket).key
            },
            None => {
                proof {
                    Self::look_keeps_room(old(self)@, *k, access, seen);
                }
                let made = f(k);
                let ghost given = made;
                assert(call_ensures(f, (k,), given));
                let (bucket, out, Ghost(trace)) = self.raw_insert(made, v, init);
                proof {
                    self.id_agrees(trace.id);
                    assert(seen@.inserts(given, v, init, trace, self@, out));
                }
                &self.table.get(bucket).key
            },
        }
    }

    /// Takes the entry out of a bucket. Its id stays in use.
    fn take_out(&mut self, bucket: usize) -> (item: Item<K, V, P::Storage>)
        requires
            old(self).wf(),
            old(self).table@.contains_key(bucket),
        ensures
            final(self).wf(),
            ({
                let id = old(self).table@[bucket].item.storage.entry_id;
                &&& item == old(self)@.entries[id]
                &&& final(self)@ == old(self)@.retire(id)
            }),
    {
        let ghost pre = *self;
        proof {
            pre.bucket_agrees(bucket);
        }
        let item = self.table.remove(bucket);
        self.exp_bucket_table.set_bucket(item.storage.entry_id, None);
        proof {
            pre.taken_out(*self, bucket);
        }
        item
    }

    /// A map whose table is without one entry, with its id leading nowhere, is without the
    /// entry.
    proof fn taken_out(self, post: Self, bucket: usize)
        requires
            self.wf(),
            self.table@.contains_key(bucket),
            post.table.wf(),
            post.table@ == self.table@.remove(bucket),
            post.exp_bucket_table@ == self.exp_bucket_table@.insert(
                self.table@[bucket].item.storage.entry_id,
                None,
            ),
            post.exp_policy == self.exp_policy,
            post.exp_backlog == self.exp_backlog,
            post.hash_builder == self.hash_builder,
        ensures
            post.wf(),
            post@ == self@.retire(self.table@[bucket].item.storage.entry_id),
    {
        let id = self.table@[bucket].item.storage.entry_id;
        let ids = post.exp_bucket_table@;
        let table = post.table@;
        self.bucket_agrees(bucket);
        self.table.is_finite();
        assert(ids.dom() =~= self.exp_bucket_table@.dom());
        assert forall|other: EntryId|
            #![trigger bucket_in(ids, other)]
            leads(ids, table, other) by {
            if other != id {
                assert(bucket_in(ids, other) == self.bucket_of(other));
            }
        }
        assert forall|b: usize|
            #![trigger table.contains_key(b)]
            is_filed(ids, table, post.hash_builder, b) by {
            if table.contains_key(b) {
                assert(self.table@.contains_key(b));
                let other = table[b].item.storage.entry_id;
                assert(self.bucket_of(other) == Some(b));
                assert(other != id);
                assert(bucket_in(ids, other) == self.bucket_of(other));
            }
        }
        let expected = self@.retire(id);
        assert forall|other: EntryId| #[trigger]
            post@.entries.contains_key(other) <==> expected.entries.contains_key(other) by {
            assert(other != id ==> bucket_in(ids, other) == self.bucket_of(other));
        }
        assert forall|other: EntryId| expected.entries.contains_key(other) implies (
        #[trigger] post@.entries[other]) == expected.entries[other] by {
            assert(bucket_in(ids, other) == self.bucket_of(other));
            assert(leads(self.exp_bucket_table@, self.table@, other));
        }
        assert(post@.entries =~= expected.entries);
        assert(post@.retired =~= expected.retired);
        assert(post@.entries.dom() =~= self@.entries.dom().remove(id));
        self@.retire_keeps_wf(id);
    }

    /// Takes the entry for a key out. The result is its value, unless it has expired.
    pub fn remove(&mut self, k: &K) -> (value: Option<V>)
        requires
            old(self).wf(),
        ensures
            final(self).wf(),
            exists|expired: bool| #[trigger]
                old(self)@.removes(*k, expired, final(self)@) && value == match old(self)@.taken(
                    *k,
                    expired,
                ) {
                    Some(item) => Some(item.value),
                    None => None,
                },
    {
        match self.remove_entry(k) {
            Some((_, v)) => Some(v),
            None => None,
        }
    }

    /// Takes the entry for a key out. The result is its key and its value, unless it has
    /// expired.
    pub fn remove_entry(&mut self, k: &K) -> (pair: Option<(K, V)>)
        requires
            old(self).wf(),
        ensures
            final(self).wf(),
            exists|expired: bool| #[trigger]
                old(self)@.removes(*k, expired, final(self)@) && pair == match old(self)@.taken(
                    *k,
                    expired,
                ) {
                    Some(item) => Some((item.key, item.value)),
                    None => None,
                },
    {
        self.process_single_backlog();
        let hash = make_hash(&self.hash_builder, k);
        match self.find(hash, k) {
            Some(bucket) => {
                let item = self.take_out(bucket);
                let ghost taken = *self;
                let is_expired = self.exp_policy.is_expired(
                    item.storage.entry_id,
                    &item.storage.storage,
                );
                proof {
                    Self::policy_changed(taken, *self);
                    assert(old(self)@.removes(*k, is_expired, self@));
                }
                if is_expired || item.storage.is_removed() {
                    None
                } else {
                    Some((item.key, item.value))
                }
            },
            None => {
                assert(old(self)@.removes(*k, false, self@));
                None
            },
        }
    }

    /// Asks the policy about every entry. The result is the buckets of the entries that have not
    /// expired.
    fn sweep(&mut self) -> (live: (Vec<usize>, Ghost<SweepTrace<P>>))
        requires
            old(self).wf(),
        ensures
            final(self).wf(),
            final(self).exp_bucket_table == old(self).exp_bucket_table,
            final(self).table == old(self).table,
            old(self)@.sweeps(live.1@, final(self)@),
            live.0@.len() == old(self)@.all_live(live.1@).len(),
            forall|i: int|
                0 <= i < live.0@.len() ==> old(self).bucket_of(
                    #[trigger] old(self)@.all_live(live.1@)[i],
                ) == Some(live.0@[i]),
    {
        let ghost pre = *self;
        let mut trace: Ghost<SweepTrace<P>> = Ghost(SweepTrace::begin(self.exp_policy));
        let mut live: Vec<usize> = Vec::new();
        let n = self.table.bucket_count();
        let mut b: usize = 0;
        while b < n
            invariant
                b <= n,
                pre.wf(),
                forall|c: usize| pre.table@.contains_key(c) ==> c < n,
                self.table == pre.table,
                self.exp_bucket_table == pre.exp_bucket_table,
                self.exp_backlog == pre.exp_backlog,
                self.hash_builder == pre.hash_builder,
                pre@.sweeps_part(trace@),
                self.exp_policy == trace@.policies.last(),
                trace@.order.no_duplicates(),
                forall|i: int|
                    #![trigger trace@.order[i]]
                    0 <= i < trace@.order.len() ==> {
                        &&& pre.bucket_of(trace@.order[i]) matches Some(c)
                        &&& c < b
                    },
                forall|c: usize|
                    c < b && #[trigger] pre.table@.contains_key(c) ==> trace@.order.contains(
                        pre.table@[c].item.storage.entry_id,
                    ),
                live@.len() == pre@.all_live(trace@).len(),
                forall|i: int|
                    0 <= i < live@.len() ==> pre.bucket_of(#[trigger] pre@.all_live(trace@)[i])
                        == Some(live@[i]),
            decreases n - b,
        {
            if let Some(item) = self.table.peek(b) {
                let id = item.storage.entry_id;
                let is_expired = self.exp_policy.is_expired(id, &item.storage.storage);
                let ghost before = trace@;
                proof {
                    pre.bucket_agrees(b);
                    before.step_extends(
                        pre@,
                        id,
                        self.exp_policy,
                        is_expired,
                        before.order.len() as int,
                    );
                    trace@ = before.step(id, self.exp_policy, is_expired);
                    assert(!before.order.contains(id)) by {
                        if before.order.contains(id) {
                            let i = before.order.index_of(id);
                            assert(before.order[i] == id);
                        }
                    }
                    assert forall|c: usize|
                        c <= b && #[trigger] pre.table@.contains_key(
                            c,
                        ) implies trace@.order.contains(pre.table@[c].item.storage.entry_id) by {
                        let other = pre.table@[c].item.storage.entry_id;
                        if c == b {
                            assert(trace@.order.last() == id);
                        } else {
                            let i = before.order.index_of(other);
                            assert(trace@.order[i] == other);
                        }
                    }
                }
                if !is_expired && !item.storage.is_removed() {
                    live.push(b);
                }
            }
            b += 1;
        }
        proof {
            Self::policy_changed(pre, *self);
            assert forall|id: EntryId| trace@.order.to_set().contains(id)
                <==> pre@.entries.contains_key(id) by {
                if trace@.order.contains(id) {
                    let i = trace@.order.index_of(id);
                    assert(trace@.order[i] == id);
                }
                if pre@.entries.contains_key(id) {
                    pre.id_agrees(id);
                }
            }
            assert(trace@.order.to_set() =~= pre@.entries.dom());
        }
        (live, trace)
    }

    /// The number of entries that have not expired.
    pub fn len(&mut self) -> (n: usize)
        requires
            old(self).wf(),
        ensures
            final(self).wf(),
            exists|trace: SweepTrace<P>| #[trigger]
                old(self)@.sweeps(trace, final(self)@) && n == old(self)@.all_live(trace).len(),
    {
        let (live, Ghost(trace)) = self.sweep();
        assert(old(self)@.sweeps(trace, self@));
        live.len()
    }

    /// Whether every entry has expired.
    pub fn is_empty(&mut self) -> (empty: bool)
        requires
            old(self).wf(),
        ensures
            final(self).wf(),
            exists|trace: SweepTrace<P>| #[trigger]
                old(self)@.sweeps(trace, final(self)@) && empty == (old(self)@.all_live(trace).len()
                    == 0),
    {
        self.len() == 0
    }

    /// Gets memory for `additional` more entries. Where there is room for them already, none is
    /// needed.
    pub fn reserve(&mut self, additional: usize)
        requires
            old(self).wf(),
            old(self)@.entries.dom().len() + additional < usize::MAX / 160,
        ensures
            final(self).wf(),
            final(self)@ == old(self)@,
            old(self)@.entries.dom().len() + additional <= final(self).room(),
            old(self).room() <= final(self).room(),
            old(self)@.entries.dom().len() + additional <= old(self).room() ==> final(self).room()
                == old(self).room() && final(self).slots() == old(self).slots(),
    {
        self.table.reserve(additional);
        assert(self@.entries =~= old(self)@.entries);
        assert(self@.retired =~= old(self)@.retired);
    }

    /// Gives memory back, down to what the entries need: all of it where there is none, and else
    /// down to some twice as much at most.
    pub fn shrink_to_fit(&mut self)
        requires
            old(self).wf(),
        ensures
            final(self).wf(),
            final(self)@ == old(self)@,
            old(self)@.entries.dom().len() <= final(self).room(),
            old(self)@.entries.dom().len() == 0 ==> final(self).room() == 0,
            final(self).room() <= 2 * old(self)@.entries.dom().len() + 7,
            final(self).slots() <= old(self).slots(),
    {
        self.shrink_to(0)
    }

    /// Gives memory back, down to what the entries and `min_capacity` entries need: all of it
    /// where that is none, and else down to some twice as much at most. Room for `min_capacity`
    /// entries stays.
    pub fn shrink_to(&mut self, min_capacity: usize)
        requires
            old(self).wf(),
        ensures
            final(self).wf(),
            final(self)@ == old(self)@,
            old(self)@.entries.dom().len() <= final(self).room(),
            min_capacity <= old(self).room() ==> min_capacity <= final(self).room(),
            old(self)@.entries.dom().len() == 0 && min_capacity == 0 ==> final(self).room() == 0,
            final(self).room() <= 2 * old(self)@.entries.dom().len() + 7 || final(self).room() <= 2
                * min_capacity + 7,
            final(self).slots() <= old(self).slots(),
    {
        self.table.shrink_to(min_capacity);
        assert(self@.entries =~= old(self)@.entries);
        assert(self@.retired =~= old(self)@.retired);
    }

    /// Takes every entry out, gives every id up and has the policy forget them. The memory is
    /// kept.
    pub fn clear(&mut self)
        requires
            old(self).wf(),
        ensures
            final(self).wf(),
            P::clears(old(self)@.policy, final(self)@.policy),
            final(self)@ == MapModel::<K, V, P, H>::vacant(
                final(self)@.policy,
                old(self)@.hash_builder,
            ),
            old(self).room() <= final(self).room(),
            final(self).slots() == old(self).slots(),
    {
        self.clear_out();
    }

    /// Empties the table and all that goes with it.
    fn clear_out(&mut self)
        requires
            old(self).table.wf(),
            crate::hash::lawful_key::<K>(),
            crate::hash::is_steady(old(self)@.hash_builder),
        ensures
            final(self).wf(),
            P::clears(old(self)@.policy, final(self)@.policy),
            final(self)@ == MapModel::<K, V, P, H>::vacant(
                final(self)@.policy,
                old(self)@.hash_builder,
            ),
            old(self).room() <= final(self).room(),
            final(self).slots() == old(self).slots(),
    {
        self.table.clear();
        self.exp_backlog = backlog::new_queue();
        self.exp_policy.clear();
        self.exp_bucket_table.clear();
        assert(self@ =~= MapModel::<K, V, P, H>::vacant(self@.policy, old(self)@.hash_builder));
    }

    /// The number of entries, those among them that have expired and wait to be taken out.
    pub fn len_approx(&self) -> (n: usize)
        requires
            self.wf(),
        ensures
            n == self@.entries.dom().len(),
    {
        self.table.len()
    }

    /// Whether there is an id left for one more entry, and room to index it.
    pub fn has_room(&self) -> (room: bool)
        requires
            self.wf(),
        ensures
            room == self@.has_room(),
    {
        proof {
            self.ids_agree();
        }
        let n = self.exp_bucket_table.len();
        n < MAX_IDS && n < usize::MAX / 160
    }

    /// How many entries there can be before more memory is got.
    pub fn capacity(&self) -> (n: usize)
        requires
            self.wf(),
        ensures
            n == self.room(),
            self@.entries.dom().len() <= n,
    {
        self.table.capacity()
    }
}

} // verus!
