//! A single entry of a map in hand.
use std::hash::{BuildHasher, Hash};

use vstd::prelude::*;

use crate::entry::EntryId;
use crate::hash::make_insert_hash;
use crate::map::HashMap;
use crate::model::{InsertTrace, Item, MapModel, ResetTrace};
use crate::policy::{Command, ExpirePolicy};
use crate::table::Filed;

verus! {

/// The place for a key in a map.
pub enum Entry<'a, K, V, P: ExpirePolicy, H> {
    /// There is an entry that has not expired.
    Occupied(OccupiedEntry<'a, K, V, P, H>),
    /// There is none.
    Vacant(VacantEntry<'a, K, V, P, H>),
}

/// The place for a key in a map, with the entry that is there.
pub struct OccupiedEntry<'a, K, V, P: ExpirePolicy, H> {
    /// The key that the entry was opened with.
    pub key: Option<K>,
    /// The bucket of the entry.
    pub bucket: usize,
    /// The map.
    pub table: &'a mut HashMap<K, V, P, H>,
}

/// The place for a key in a map, where there is no entry.
pub struct VacantEntry<'a, K, V, P: ExpirePolicy, H> {
    /// The key.
    pub key: K,
    /// The map.
    pub table: &'a mut HashMap<K, V, P, H>,
}

impl<'a, K: Eq + Hash, V, P: ExpirePolicy, H: BuildHasher> OccupiedEntry<'a, K, V, P, H> {
    /// The map as it is now.
    pub open spec fn current(&self) -> HashMap<K, V, P, H> {
        *self.table
    }

    /// The id of the entry.
    pub closed spec fn id(&self) -> EntryId {
        self.table.table@[self.bucket].item.storage.entry_id
    }

    /// The entry as it is now.
    pub open spec fn item(&self) -> Item<K, V, P::Storage> {
        self.current()@.entries[self.id()]
    }

    /// There is an entry in the bucket.
    pub closed spec fn is_placed(&self) -> bool {
        self.table.table@.contains_key(self.bucket)
    }

    /// The map is sound, the entry is there, and the key that it was opened with stands for it.
    pub open spec fn wf(&self) -> bool {
        &&& self.current().wf()
        &&& self.is_placed()
        &&& self.current()@.entries.contains_key(self.id())
        &&& self.key matches Some(k) ==> self.current()@.holds(self.id(), k)
    }

    /// The key of the entry.
    pub fn key(&self) -> (key: &K)
        requires
            self.wf(),
        ensures
            *key == self.item().key,
    {
        proof {
            self.table.bucket_agrees(self.bucket);
        }
        &self.table.table.get(self.bucket).key
    }

    /// Takes the entry out of the map.
    pub fn remove_entry(self) -> (pair: (K, V))
        requires
            self.wf(),
        ensures
            pair == (self.item().key, self.item().value),
            final(self.table).wf(),
            exists|expired: bool| #[trigger]
                self.current()@.removes_at(self.id(), expired, final(self.table)@),
    {
        let ghost pre = self.current();
        let ghost id = self.id();
        proof {
            pre.bucket_agrees(self.bucket);
        }
        let table = self.table;
        let item = table.take_out(self.bucket);
        let ghost taken = *table;
        let is_expired = table.exp_policy.is_expired(item.storage.entry_id, &item.storage.storage);
        proof {
            HashMap::policy_changed(taken, *table);
        }
        table.process_single_backlog();
        assert(pre@.removes_at(id, is_expired, table@));
        (item.key, item.value)
    }

    /// Takes the entry out of the map. The result is its value.
    pub fn remove(self) -> (value: V)
        requires
            self.wf(),
        ensures
            value == self.item().value,
            final(self.table).wf(),
            exists|expired: bool| #[trigger]
                self.current()@.removes_at(self.id(), expired, final(self.table)@),
    {
        self.remove_entry().1
    }

    /// The value of the entry.
    pub fn get(&mut self) -> (value: &V)
        requires
            old(self).wf(),
        ensures
            final(self).wf(),
            final(self).key == old(self).key,
            final(self).id() == old(self).id(),
            *final(final(self).table) == *final(old(self).table),
            *value == old(self).item().value,
            exists|command: Command| #[trigger]
                old(self).current()@.touches(old(self).id(), command, final(self).current()@),
    {
        let Ghost(command) = self.table.touch(self.bucket);
        proof {
            self.table.bucket_agrees(self.bucket);
            assert(old(self).current()@.touches(old(self).id(), command, self.current()@));
        }
        &self.table.table.get(self.bucket).value
    }

    /// The value of the entry, for change in place.
    pub fn get_mut(&mut self) -> (value: &mut V)
        requires
            old(self).wf(),
        ensures
            final(self).wf(),
            final(self).key == old(self).key,
            final(self).id() == old(self).id(),
            *final(final(self).table) == *final(old(self).table),
            *value == old(self).item().value,
            exists|command: Command, seen: MapModel<K, V, P, H>| #[trigger]
                old(self).current()@.touches(old(self).id(), command, seen)
                    && final(self).current()@ == seen.set_value(old(self).id(), *final(value)),
    {
        let Ghost(command) = self.table.touch(self.bucket);
        proof {
            self.table.bucket_agrees(self.bucket);
            assert(old(self).current()@.touches(old(self).id(), command, self.current()@));
        }
        self.table.pair_mut(self.bucket).1
    }

    /// The value of the entry, for change in place as long as the map is in hand.
    pub fn into_mut(self) -> (value: &'a mut V)
        requires
            self.wf(),
        ensures
            final(self.table).wf(),
            *value == self.item().value,
            exists|command: Command, seen: MapModel<K, V, P, H>| #[trigger]
                self.current()@.touches(self.id(), command, seen) && final(self.table)@
                    == seen.set_value(self.id(), *final(value)),
    {
        let ghost pre = self.current();
        let ghost id = self.id();
        let bucket = self.bucket;
        let table = self.table;
        let Ghost(command) = table.touch(bucket);
        proof {
            table.bucket_agrees(bucket);
            assert(pre@.touches(id, command, table@));
        }
        table.pair_mut(bucket).1
    }

    /// Sets the value of the entry. The result is the value that was there before.
    pub fn insert(&mut self, value: V, init: P::Info) -> (old_v: V)
        requires
            old(self).wf(),
            old(self).current()@.has_room(),
        ensures
            final(self).wf(),
            final(self).key == old(self).key,
            *final(final(self).table) == *final(old(self).table),
            old_v == old(self).item().value,
            exists|trace: ResetTrace<P>| #[trigger]
                old(self).current()@.resets(
                    old(self).id(),
                    value,
                    init,
                    trace,
                    final(self).current()@,
                ) && final(self).id() == trace.id,
    {
        let ghost pre = *self.table;
        let ghost old_id = self.id();
        proof {
            pre.bucket_agrees(self.bucket);
        }
        let storage = self.table.exp_policy.init_storage(init);
        let ghost ready = self.table.exp_policy;
        let ghost given = storage;
        proof {
            HashMap::policy_changed(pre, *self.table);
        }
        let ghost inited = *self.table;
        let id = self.table.acquire();
        let ghost acquired = *self.table;
        let command = self.table.exp_policy.on_insert(id, &storage);
        let ghost given_command = command;
        proof {
            HashMap::policy_changed(acquired, *self.table);
        }
        let ghost informed = *self.table;
        self.table.handle_status(command);
        let ghost told = *self.table;
        proof {
            assert(told.bucket_of(old_id) == pre.bucket_of(old_id));
            told.id_agrees(old_id);
            assert(informed@ =~= pre@.acquire(id).with_policy(informed@.policy));
        }
        let (old_v, _) = self.table.swap_in(self.bucket, id, value, storage);
        proof {
            let trace = ResetTrace { ready, storage: given, id, command: given_command };
            self.table.id_agrees(id);
            assert(old(self).current()@.resets(
                old(self).id(),
                value,
                init,
                trace,
                self.current()@,
            ));
            assert(self.id() == trace.id);
        }
        old_v
    }

    /// Sets the key of the entry to the one that it was opened with, and its value. The result
    /// is the key and the value that were there before.
    pub fn replace_entry(self, value: V) -> (was: (K, V))
        requires
            self.wf(),
            self.key is Some,
        ensures
            was == (self.item().key, self.item().value),
            final(self.table).wf(),
            exists|command: Command, seen: MapModel<K, V, P, H>| #[trigger]
                self.current()@.touches(self.id(), command, seen) && final(self.table)@
                    == seen.set_pair(self.id(), self.key.unwrap(), value),
    {
        let ghost pre = self.current();
        let ghost id = self.id();
        let bucket = self.bucket;
        let table = self.table;
        let key = self.key.unwrap();
        let Ghost(command) = table.touch(bucket);
        let ghost seen = *table;
        let ghost given = (key, value);
        proof {
            pre.bucket_agrees(bucket);
            seen.bucket_agrees(bucket);
            assert(pre@.touches(id, command, seen@));
            assert(seen@.holds(id, key));
        }
        let mut key = key;
        let mut value = value;
        let item = table.table.get_mut(bucket);
        core::mem::swap(&mut item.key, &mut key);
        core::mem::swap(&mut item.value, &mut value);
        proof {
            seen.pair_changed(*table, bucket, given.0, given.1);
        }
        (key, value)
    }

    /// Sets the key of the entry to the one that it was opened with. The result is the key that
    /// was there before.
    pub fn replace_key(self) -> (was: K)
        requires
            self.wf(),
            self.key is Some,
        ensures
            was == self.item().key,
            final(self.table).wf(),
            exists|command: Command, seen: MapModel<K, V, P, H>| #[trigger]
                self.current()@.touches(self.id(), command, seen) && final(self.table)@
                    == seen.set_pair(self.id(), self.key.unwrap(), self.item().value),
    {
        let ghost pre = self.current();
        let ghost id = self.id();
        let bucket = self.bucket;
        let table = self.table;
        let key = self.key.unwrap();
        let Ghost(command) = table.touch(bucket);
        let ghost seen = *table;
        let ghost given = key;
        proof {
            pre.bucket_agrees(bucket);
            seen.bucket_agrees(bucket);
            assert(pre@.touches(id, command, seen@));
            assert(seen@.holds(id, key));
        }
        let mut key = key;
        let item = table.table.get_mut(bucket);
        core::mem::swap(&mut item.key, &mut key);
        proof {
            seen.pair_changed(*table, bucket, given, pre@.entries[id].value);
        }
        key
    }

    /// Has `f` make a new value out of the old one, or none, in which case the entry is taken
    /// out of the map.
    pub fn replace_entry_with<F: FnOnce(&K, V) -> Option<V>>(self, f: F) -> (entry: Entry<
        'a,
        K,
        V,
        P,
        H,
    >)
        requires
            self.wf(),
            call_requires(f, (&self.item().key, self.item().value)),
        ensures
            entry.wf(),
            match entry {
                Entry::Occupied(o) => {
                    &&& o.key == self.key
                    &&& o.id() == self.id()
                    &&& *final(o.table) == *final(self.table)
                },
                Entry::Vacant(v) => {
                    &&& v.key == self.item().key
                    &&& *final(v.table) == *final(self.table)
                },
            },
            exists|out: Option<V>, command: Command| #[trigger]
                self.current()@.turns(self.id(), out, command, entry.current()@) && call_ensures(
                    f,
                    (&self.item().key, self.item().value),
                    out,
                ) && (out is Some <==> entry is Occupied),
    {
        let ghost pre = self.current();
        let ghost id = self.id();
        let OccupiedEntry { key: given, bucket, table } = self;
        proof {
            pre.bucket_agrees(bucket);
        }
        let Filed { hash, item } = table.table.lift(bucket);
        let Item { key, value, storage } = item;
        let ghost was = (key, value);
        let out = f(&key, value);
        let ghost made = out;
        assert(call_ensures(f, (&was.0, was.1), made));
        match out {
            Some(value) => {
                table.table.put_back(bucket, Filed { hash, item: Item { key, value, storage } });
                let ghost changed = *table;
                proof {
                    crate::hash::same_key_is_equivalence(pre@.hash_builder, key, key, key);
                    assert(changed.table@ =~= pre.table@.insert(
                        bucket,
                        Filed { hash, item: Item { key, value, storage } },
                    ));
                    pre.pair_changed(changed, bucket, key, value);
                    assert(changed@ == pre@.set_value(id, value));
                }
                let Ghost(command) = table.touch(bucket);
                proof {
                    table.bucket_agrees(bucket);
                }
                let entry = Entry::Occupied(OccupiedEntry { key: given, bucket, table });
                assert(pre@.turns(id, made, command, entry.current()@));
                entry
            },
            None => {
                table.table.set_free(bucket, hash);
                table.exp_bucket_table.set_bucket(storage.entry_id, None);
                proof {
                    pre.taken_out(*table, bucket);
                }
                let ghost changed = *table;
                let command = table.exp_policy.on_access(storage.entry_id, &storage.storage);
                let ghost given_command = command;
                proof {
                    HashMap::policy_changed(changed, *table);
                }
                let ghost accessed = *table;
                table.handle_status(command);
                proof {
                    assert(accessed@.told(given_command) =~= changed@.told(
                        given_command,
                    ).with_policy(accessed@.policy));
                }
                let entry = Entry::Vacant(VacantEntry { key, table });
                assert(pre@.turns(id, made, given_command, entry.current()@));
                entry
            },
        }
    }
}

impl<'a, K: Eq + Hash, V, P: ExpirePolicy, H: BuildHasher> VacantEntry<'a, K, V, P, H> {
    /// The map as it is now.
    pub open spec fn current(&self) -> HashMap<K, V, P, H> {
        *self.table
    }

    /// The key.
    pub fn key(&self) -> (key: &K)
        ensures
            *key == self.key,
    {
        &self.key
    }

    /// The key, handed out.
    pub fn into_key(self) -> (key: K)
        ensures
            key == self.key,
            *final(self.table) == self.current(),
    {
        self.key
    }

    /// Inserts a value for the key. The result is the value, for change in place.
    pub fn insert(self, value: V, init: P::Info) -> (v: &'a mut V)
        requires
            self.current().wf(),
            self.current()@.has_room(),
        ensures
            final(self.table).wf(),
            *v == value,
            exists|trace: InsertTrace<P>, seen: MapModel<K, V, P, H>, out: Option<V>| #[trigger]
                self.current()@.inserts(self.key, value, init, trace, seen, out)
                    && final(self.table)@ == seen.set_value(trace.id, *final(v))
                    && self.current().makes_room(trace, *final(self.table)),
    {
        let ghost pre = self.current();
        let ghost key = self.key;
        let table = self.table;
        let (bucket, out, Ghost(trace)) = table.raw_insert(self.key, value, init);
        proof {
            assert(pre@.inserts(key, value, init, trace, table@, out));
            table.id_agrees(trace.id);
        }
        table.pair_mut(bucket).1
    }

    /// Inserts a value for the key. The result is the entry.
    pub fn insert_entry(self, value: V, init: P::Info) -> (entry: OccupiedEntry<'a, K, V, P, H>)
        requires
            self.current().wf(),
            self.current()@.has_room(),
        ensures
            entry.wf(),
            entry.key is None,
            *final(entry.table) == *final(self.table),
            entry.item().value == value,
            exists|trace: InsertTrace<P>, out: Option<V>| #[trigger]
                self.current()@.inserts(
                    self.key,
                    value,
                    init,
                    trace,
                    entry.current()@,
                    out,
                ) && entry.id() == trace.id && self.current().makes_room(trace, entry.current()),
    {
        let ghost pre = self.current();
        let ghost key = self.key;
        let table = self.table;
        let (bucket, out, Ghost(trace)) = table.raw_insert(self.key, value, init);
        proof {
            assert(pre@.inserts(key, value, init, trace, table@, out));
            table.id_agrees(trace.id);
        }
        OccupiedEntry { key: None, bucket, table }
    }
}

impl<'a, K: Eq + Hash, V, P: ExpirePolicy, H: BuildHasher> Entry<'a, K, V, P, H> {
    /// The map as it is now.
    pub open spec fn current(&self) -> HashMap<K, V, P, H> {
        match self {
            Entry::Occupied(o) => o.current(),
            Entry::Vacant(v) => v.current(),
        }
    }

    /// The map is sound, and the entry is there if there is said to be one.
    pub open spec fn wf(&self) -> bool {
        match self {
            Entry::Occupied(o) => o.wf(),
            Entry::Vacant(v) => v.current().wf(),
        }
    }

    /// Sets the value of the entry, or inserts one. The result is the entry, without the key that
    /// it was opened with.
    pub fn insert(self, value: V, init: P::Info) -> (entry: OccupiedEntry<'a, K, V, P, H>)
        requires
            self.wf(),
            self.current()@.has_room(),
        ensures
            entry.wf(),
            entry.key is None,
            entry.item().value == value,
            match self {
                Entry::Occupied(o) => {
                    &&& *final(entry.table) == *final(o.table)
                    &&& exists|trace: ResetTrace<P>| #[trigger]
                        o.current()@.resets(o.id(), value, init, trace, entry.current()@)
                            && entry.id() == trace.id
                },
                Entry::Vacant(v) => {
                    &&& *final(entry.table) == *final(v.table)
                    &&& exists|trace: InsertTrace<P>, out: Option<V>| #[trigger]
                        v.current()@.inserts(v.key, value, init, trace, entry.current()@, out)
                            && entry.id() == trace.id && v.current().makes_room(
                            trace,
                            entry.current(),
                        )
                },
            },
    {
        match self {
            Entry::Occupied(mut entry) => {
                let _ = entry.insert(value, init);
                entry.key = None;
                entry
            },
            Entry::Vacant(entry) => entry.insert_entry(value, init),
        }
    }

    /// The value of the entry, after `default` was inserted where there was none, for change in
    /// place.
    pub fn or_insert(self, default: V, init: P::Info) -> (value: &'a mut V)
        requires
            self.wf(),
            self is Vacant ==> self.current()@.has_room(),
        ensures
            match self {
                Entry::Occupied(o) => {
                    &&& final(o.table).wf()
                    &&& *value == o.item().value
                    &&& exists|command: Command, seen: MapModel<K, V, P, H>| #[trigger]
                        o.current()@.touches(o.id(), command, seen) && final(o.table)@
                            == seen.set_value(o.id(), *final(value))
                },
                Entry::Vacant(v) => {
                    &&& final(v.table).wf()
                    &&& *value == default
                    &&& exists|
                        trace: InsertTrace<P>,
                        seen: MapModel<K, V, P, H>,
                        out: Option<V>,
                    | #[trigger]
                        v.current()@.inserts(v.key, default, init, trace, seen, out)
                            && final(v.table)@ == seen.set_value(trace.id, *final(value))
                            && v.current().makes_room(trace, *final(v.table))
                },
            },
    {
        match self {
            Entry::Occupied(entry) => entry.into_mut(),
            Entry::Vacant(entry) => entry.insert(default, init),
        }
    }

    /// The value of the entry, after what `default` makes was inserted where there was none, for
    /// change in place.
    pub fn or_insert_with<F: FnOnce() -> V>(self, default: F, init: P::Info) -> (value: &'a mut V)
        requires
            self.wf(),
            self is Vacant ==> self.current()@.has_room() && call_requires(default, ()),
        ensures
            match self {
                Entry::Occupied(o) => {
                    &&& final(o.table).wf()
                    &&& *value == o.item().value
                    &&& exists|command: Command, seen: MapModel<K, V, P, H>| #[trigger]
                        o.current()@.touches(o.id(), command, seen) && final(o.table)@
                            == seen.set_value(o.id(), *final(value))
                },
                Entry::Vacant(v) => {
                    &&& final(v.table).wf()
                    &&& call_ensures(default, (), *value)
                    &&& exists|
                        trace: InsertTrace<P>,
                        seen: MapModel<K, V, P, H>,
                        out: Option<V>,
                    | #[trigger]
                        v.current()@.inserts(v.key, *value, init, trace, seen, out)
                            && final(v.table)@ == seen.set_value(trace.id, *final(value))
                            && v.current().makes_room(trace, *final(v.table))
                },
            },
    {
        match self {
            Entry::Occupied(entry) => entry.into_mut(),
            Entry::Vacant(entry) => entry.insert(default(), init),
        }
    }

    /// The value of the entry, after what `default` makes of the key was inserted where there
    /// was none, for change in place.
    pub fn or_insert_with_key<F: FnOnce(&K) -> V>(self, default: F, init: P::Info) -> (value:
        &'a mut V)
        requires
            self.wf(),
            self matches Entry::Vacant(v) ==> v.current()@.has_room() && call_requires(
                default,
                (&v.key,),
            ),
        ensures
            match self {
                Entry::Occupied(o) => {
                    &&& final(o.table).wf()
                    &&& *value == o.item().value
                    &&& exists|command: Command, seen: MapModel<K, V, P, H>| #[trigger]
                        o.current()@.touches(o.id(), command, seen) && final(o.table)@
                            == seen.set_value(o.id(), *final(value))
                },
                Entry::Vacant(v) => {
                    &&& final(v.table).wf()
                    &&& call_ensures(default, (&v.key,), *value)
                    &&& exists|
                        trace: InsertTrace<P>,
                        seen: MapModel<K, V, P, H>,
                        out: Option<V>,
                    | #[trigger]
                        v.current()@.inserts(v.key, *value, init, trace, seen, out)
                            && final(v.table)@ == seen.set_value(trace.id, *final(value))
                            && v.current().makes_room(trace, *final(v.table))
                },
            },
    {
        match self {
            Entry::Occupied(entry) => entry.into_mut(),
            Entry::Vacant(entry) => {
                let value = default(entry.key());
                entry.insert(value, init)
            },
        }
    }

    /// The key of the entry, or the one that the entry was opened with where there is none.
    pub fn key(&self) -> (key: &K)
        requires
            self.wf(),
        ensures
            match self {
                Entry::Occupied(o) => *key == o.item().key,
                Entry::Vacant(v) => *key == v.key,
            },
    {
        match self {
            Entry::Occupied(entry) => entry.key(),
            Entry::Vacant(entry) => entry.key(),
        }
    }

    /// Has `f` change the value of the entry, if there is one.
    pub fn and_modify<F: FnOnce(&mut V)>(self, f: F) -> (entry: Self)
        requires
            self.wf(),
            self matches Entry::Occupied(o) ==> forall|r: &mut V|
                *r == o.item().value ==> call_requires(f, (r,)),
        ensures
            entry.wf(),
            match (self, entry) {
                (Entry::Occupied(o), Entry::Occupied(e)) => {
                    &&& e.key == o.key
                    &&& e.id() == o.id()
                    &&& *final(e.table) == *final(o.table)
                    &&& exists|command: Command, seen: MapModel<K, V, P, H>, r: &mut V|
                        #![trigger o.current()@.touches(o.id(), command, seen), call_ensures(f, (r,), ())]
                        o.current()@.touches(o.id(), command, seen) && call_ensures(f, (r,), ())
                            && *r == o.item().value && e.current()@ == seen.set_value(
                            o.id(),
                            *final(r),
                        )
                },
                (Entry::Vacant(v), Entry::Vacant(e)) => {
                    &&& e.key == v.key
                    &&& e.current() == v.current()
                    &&& *final(e.table) == *final(v.table)
                },
                _ => false,
            },
    {
        match self {
            Entry::Occupied(mut entry) => {
                f(entry.get_mut());
                Entry::Occupied(entry)
            },
            Entry::Vacant(entry) => Entry::Vacant(entry),
        }
    }

    /// Has `f` make a new value out of the value of the entry, if there is one, or none, in
    /// which case the entry is taken out of the map.
    pub fn and_replace_entry_with<F: FnOnce(&K, V) -> Option<V>>(self, f: F) -> (entry: Self)
        requires
            self.wf(),
            self matches Entry::Occupied(o) ==> call_requires(f, (&o.item().key, o.item().value)),
        ensures
            entry.wf(),
            match self {
                Entry::Occupied(o) => {
                    &&& match entry {
                        Entry::Occupied(e) => {
                            &&& e.key == o.key
                            &&& e.id() == o.id()
                            &&& *final(e.table) == *final(o.table)
                        },
                        Entry::Vacant(e) => {
                            &&& e.key == o.item().key
                            &&& *final(e.table) == *final(o.table)
                        },
                    }
                    &&& exists|out: Option<V>, command: Command| #[trigger]
                        o.current()@.turns(o.id(), out, command, entry.current()@) && call_ensures(
                            f,
                            (&o.item().key, o.item().value),
                            out,
                        ) && (out is Some <==> entry is Occupied)
                },
                Entry::Vacant(_) => entry == self,
            },
    {
        match self {
            Entry::Occupied(entry) => entry.replace_entry_with(f),
            Entry::Vacant(entry) => Entry::Vacant(entry),
        }
    }
}

impl<'a, K: Eq + Hash, V: Default, P: ExpirePolicy, H: BuildHasher> Entry<'a, K, V, P, H> {
    /// The value of the entry, after the default of its type was inserted where there was none,
    /// for change in place.
    pub fn or_default(self, init: P::Info) -> (value: &'a mut V)
        requires
            self.wf(),
            self is Vacant ==> self.current()@.has_room() && call_requires(V::default, ()),
        ensures
            match self {
                Entry::Occupied(o) => {
                    &&& final(o.table).wf()
                    &&& *value == o.item().value
                    &&& exists|command: Command, seen: MapModel<K, V, P, H>| #[trigger]
                        o.current()@.touches(o.id(), command, seen) && final(o.table)@
                            == seen.set_value(o.id(), *final(value))
                },
                Entry::Vacant(v) => {
                    &&& final(v.table).wf()
                    &&& call_ensures(V::default, (), *value)
                    &&& exists|
                        trace: InsertTrace<P>,
                        seen: MapModel<K, V, P, H>,
                        out: Option<V>,
                    | #[trigger]
                        v.current()@.inserts(v.key, *value, init, trace, seen, out)
                            && final(v.table)@ == seen.set_value(trace.id, *final(value))
                            && v.current().makes_room(trace, *final(v.table))
                },
            },
    {
        match self {
            Entry::Occupied(entry) => entry.into_mut(),
            Entry::Vacant(entry) => entry.insert(V::default(), init),
        }
    }
}

impl<K: Hash + Eq, V, P: ExpirePolicy, H: BuildHasher> HashMap<K, V, P, H> {
    /// Opens the entry for a key. An entry that has expired counts for none.
    pub fn entry(&mut self, key: K) -> (entry: Entry<'_, K, V, P, H>)
        requires
            old(self).wf(),
        ensures
            entry.wf(),
            match entry {
                Entry::Occupied(o) => o.key == Some(key) && *final(o.table) == *final(self),
                Entry::Vacant(v) => v.key == key && *final(v.table) == *final(self),
            },
            exists|expired: bool| #[trigger]
                old(self)@.opens(key, expired, entry.current()@) && old(self)@.opened(key, expired)
                    == match entry {
                    Entry::Occupied(o) => Some(o.id()),
                    Entry::Vacant(_) => None,
                },
    {
        let ghost pre = *self;
        let hash = make_insert_hash(&self.hash_builder, &key);
        if let Some(bucket) = self.find(hash, &key) {
            proof {
                pre.bucket_agrees(bucket);
            }
            let item = self.table.get(bucket);
            let is_expired = self.exp_policy.is_expired(
                item.storage.entry_id,
                &item.storage.storage,
            );
            let removed = item.storage.is_removed();
            proof {
                Self::policy_changed(pre, *self);
                assert(pre@.opens(key, is_expired, self@));
            }
            if !is_expired && !removed {
                let entry = Entry::Occupied(OccupiedEntry { key: Some(key), bucket, table: self });
                assert(pre@.opens(key, is_expired, entry.current()@));
                return entry;
            }
            let entry = Entry::Vacant(VacantEntry { key, table: self });
            assert(pre@.opens(key, is_expired, entry.current()@));
            return entry;
        }
        let entry = Entry::Vacant(VacantEntry { key, table: self });
        assert(pre@.opens(key, false, entry.current()@));
        entry
    }
}

} // verus!
