//! The cache itself.
use std::hash::Hash;

use hashbrown::hash_map::DefaultHashBuilder;
use vstd::prelude::*;
use vstd::std_specs::cmp::PartialEqSpec;

use crate::hash::{default_hash_builder, equivalent, make_hash};
use crate::table::{Filed, Table};
use crate::time::{Clock, Duration, Instant};
use crate::unsync::{CacheItem, CacheModel, CleanUp, TTLTracer, Tick, TickTrace, ValueEntry};

verus! {

/// A cache whose values live for a given time. Values that have expired are taken out once in a
/// while.
pub struct UnsyncCacheInternal<K, V> {
    base: Table<CacheItem<K, V>>,
    hash_builder: DefaultHashBuilder,
    tick: Tick<65536>,
    ttl_tracer: TTLTracer,
    clock: Clock,
}

/// What to do when `len` values lie in memory for `cap`, `expired` of which have expired by the
/// count.
pub fn plan(fires: bool, len: usize, cap: usize, expired: usize) -> (plan: CleanUp)
    requires
        len <= cap <= usize::MAX / 8,
    ensures
        plan == crate::unsync::model::planned(fires, len as int, cap as int, expired as int),
{
    if fires {
        if expired > len {
            return CleanUp::Leave;
        }
        let cur_len = len - expired;
        if cur_len * 3 > cap {
            return CleanUp::Retain;
        }
        CleanUp::Resize(cur_len * 2)
    } else if len + 1 >= cap {
        CleanUp::Resize(cap * 2)
    } else {
        CleanUp::Leave
    }
}

impl<K, V> View for UnsyncCacheInternal<K, V> {
    type V = CacheModel<K, V, DefaultHashBuilder>;

    /// The state of the cache.
    closed spec fn view(&self) -> CacheModel<K, V, DefaultHashBuilder> {
        CacheModel {
            places: self.base@.map_values(|filed: Filed<CacheItem<K, V>>| filed.item),
            count: self.tick.count(),
            counts: self.ttl_tracer.counts(),
            start: self.ttl_tracer.start(),
            time: self.clock.time(),
            clock: self.clock,
            hash_builder: self.hash_builder,
        }
    }
}

impl<K: Eq + Hash, V> UnsyncCacheInternal<K, V> {
    /// How many values there can be before more memory is got to index them, those among them
    /// that are there.
    pub closed spec fn room(&self) -> nat {
        self.base.room()
    }

    /// Each value is filed under the hash of its key, and there are not too many to index.
    pub closed spec fn inv(&self) -> bool {
        &&& self.base.wf()
        &&& forall|b: usize| #[trigger]
            self.base@.contains_key(b) ==> self.base@[b].hash == crate::hash::hash_of(
                self.hash_builder,
                self.base@[b].item.key,
            )
        &&& self.base@.dom().len() <= usize::MAX / 160
    }

    /// The cache is laid out as its state says, and its state is sound.
    pub open spec fn wf(&self) -> bool {
        &&& self.inv()
        &&& self@.wf()
    }

    /// An empty cache.
    pub fn new() -> (cache: Self)
        requires
            crate::hash::lawful_key::<K>(),
        ensures
            cache.wf(),
            cache@ == (CacheModel {
                places: Map::<usize, CacheItem<K, V>>::empty(),
                count: 1,
                counts: Map::<Instant, u64>::empty(),
                start: cache@.time,
                time: cache@.time,
                clock: cache@.clock,
                hash_builder: cache@.hash_builder,
            }),
            cache@.time == cache@.clock.time(),
            cache@.clock.is_started(),
            cache.room() == 0,
    {
        let mut clock = Clock::start();
        let now = clock.now();
        let cache = UnsyncCacheInternal {
            base: Table::new(),
            hash_builder: default_hash_builder(),
            tick: Tick::new(),
            ttl_tracer: TTLTracer::new(now),
            clock,
        };
        assert(cache@.places =~= Map::<usize, CacheItem<K, V>>::empty());
        cache
    }

    /// The place of a key.
    fn find(&self, hash: u64, k: &K) -> (found: Option<usize>)
        requires
            self.wf(),
            hash == crate::hash::hash_of(self@.hash_builder, *k),
        ensures
            found == self@.locate(*k),
            found matches Some(b) ==> self.base@.contains_key(b),
    {
        let eq = |item: &CacheItem<K, V>| -> (equal: bool)
            ensures
                equal == k.eq_spec(&item.key),
            { equivalent(k, &item.key) };
        let found = self.base.find(hash, &eq);
        proof {
            match found {
                Some(b) => {
                    self@.locate_is(b, *k);
                },
                None => {
                    assert forall|b: usize| !self@.holds(b, *k) by {}
                },
            }
        }
        found
    }

    /// Takes the values out that have expired.
    fn retain_at(&mut self, now: Instant)
        requires
            old(self).wf(),
        ensures
            final(self).wf(),
            old(self)@.sifts(now, final(self)@),
            final(self)@ == (CacheModel { places: final(self)@.places, ..old(self)@ }),
            final(self).room() <= old(self).room(),
    {
        let ghost pre = *self;
        let n = self.base.bucket_count();
        let mut b: usize = 0;
        proof {
            self.base.is_finite();
        }
        while b < n
            invariant
                b <= n,
                pre.wf(),
                self.inv(),
                self.room() <= pre.room(),
                self.hash_builder == pre.hash_builder,
                self.tick == pre.tick,
                self.ttl_tracer == pre.ttl_tracer,
                self.clock == pre.clock,
                forall|c: usize| pre.base@.contains_key(c) ==> c < n,
                forall|c: usize| #[trigger]
                    self.base@.contains_key(c) <==> pre.base@.contains_key(c) && (c >= b
                        || !pre.base@[c].item.entry.is_over(now)),
                forall|c: usize| #[trigger]
                    self.base@.contains_key(c) ==> self.base@[c] == pre.base@[c],
            decreases n - b,
        {
            let expired = match self.base.peek(b) {
                Some(item) => item.entry.is_expired(now),
                None => false,
            };
            if expired {
                proof {
                    self.base.is_finite();
                }
                let _ = self.base.remove(b);
            }
            b += 1;
        }
        proof {
            self.base.is_finite();
            let origin = Map::new(|c: usize| self.base@.contains_key(c), |c: usize| c);
            assert(origin.dom() =~= self@.places.dom());
            assert(self@.places.dom() =~= self.base@.dom());
            assert forall|c: usize| #[trigger] pre@.live_places(now).contains(c) implies exists|
                d: usize,
            | #[trigger]
                origin.contains_key(d) && origin[d] == c by {
                assert(origin.contains_key(c));
            }
            pre@.sifts_by(now, self@, origin);
        }
    }

    /// Takes the values out that have expired, and moves the rest to memory for `cap` values.
    pub fn cleanup_resize_at(&mut self, cap: usize, now: Instant)
        requires
            old(self).wf(),
            cap < usize::MAX / 79,
        ensures
            final(self).wf(),
            cap <= final(self).room(),
            old(self)@.sifts(now, final(self)@),
            final(self)@ == (CacheModel { places: final(self)@.places, count: 1, ..old(self)@ }),
    {
        let ghost pre = *self;
        let mut old_base = Table::with_capacity(cap);
        core::mem::swap(&mut self.base, &mut old_base);
        let n = old_base.bucket_count();
        let mut origin: Ghost<Map<usize, usize>> = Ghost(Map::empty());
        let mut b: usize = 0;
        proof {
            old_base.is_finite();
        }
        while b < n
            invariant
                b <= n,
                pre.wf(),
                old_base.wf(),
                self.inv(),
                cap <= self.room(),
                self.hash_builder == pre.hash_builder,
                self.tick == pre.tick,
                self.ttl_tracer == pre.ttl_tracer,
                self.clock == pre.clock,
                forall|c: usize| pre.base@.contains_key(c) ==> c < n,
                forall|c: usize| #[trigger]
                    old_base@.contains_key(c) <==> pre.base@.contains_key(c) && c >= b,
                forall|c: usize| #[trigger]
                    old_base@.contains_key(c) ==> old_base@[c] == pre.base@[c],
                self.base@.dom().len() + old_base@.dom().len() <= pre.base@.dom().len(),
                origin@.dom() == self.base@.dom(),
                forall|c: usize| #[trigger]
                    origin@.contains_key(c) ==> {
                        &&& origin@[c] < b
                        &&& pre@.live_places(now).contains(origin@[c])
                        &&& self.base@[c].item == pre.base@[origin@[c]].item
                    },
                forall|c: usize, d: usize|
                    origin@.contains_key(c) && origin@.contains_key(d) && #[trigger] origin@[c]
                        == #[trigger] origin@[d] ==> c == d,
                forall|a: usize| #[trigger]
                    pre@.live_places(now).contains(a) && a < b ==> exists|c: usize| #[trigger]
                        origin@.contains_key(c) && origin@[c] == a,
            decreases n - b,
        {
            if old_base.peek(b).is_some() {
                proof {
                    old_base.is_finite();
                    self.base.is_finite();
                }
                let item = old_base.remove(b);
                if !item.entry.is_expired(now) {
                    let hash = make_hash(&self.hash_builder, &item.key);
                    let ghost before = origin@;
                    let place = self.base.insert(hash, item);
                    proof {
                        origin@ = before.insert(place, b);
                        assert(origin@.dom() =~= self.base@.dom());
                        assert forall|a: usize| #[trigger]
                            pre@.live_places(now).contains(a) && a <= b implies exists|c: usize|
                            #[trigger] origin@.contains_key(c) && origin@[c] == a by {
                            if a == b {
                                assert(origin@.contains_key(place));
                            } else {
                                let c = choose|c: usize| #[trigger]
                                    before.contains_key(c) && before[c] == a;
                                assert(origin@.contains_key(c));
                            }
                        }
                    }
                }
            }
            b += 1;
        }
        self.tick.clear();
        proof {
            self.base.is_finite();
            assert(origin@.dom() =~= self@.places.dom());
            pre@.sifts_by(now, self@, origin@);
        }
    }

    /// Takes the values out that have expired, and moves the rest to memory for `cap` values.
    pub fn cleanup_resize(&mut self, cap: usize)
        requires
            old(self).wf(),
            cap < usize::MAX / 79,
        ensures
            final(self).wf(),
            cap <= final(self).room(),
            old(self)@.waits(final(self)@),
            old(self)@.time.nanos <= final(self)@.time.nanos,
            old(self)@.sifts(final(self)@.time, final(self)@),
            final(self)@ == (CacheModel {
                places: final(self)@.places,
                count: 1,
                time: final(self)@.time,
                clock: final(self)@.clock,
                ..old(self)@
            }),
    {
        let now = self.clock.now();
        assert(self@ =~= old(self)@.at(self.clock));
        proof {
            self@.lookups_agree(old(self)@);
        }
        self.cleanup_resize_at(cap, now);
    }

    /// Counts a call, and cleans up if it is time for that or if memory runs short.
    pub fn tick(&mut self)
        requires
            old(self).wf(),
        ensures
            final(self).wf(),
            exists|trace: TickTrace| #[trigger]
                old(self)@.ticks(trace, final(self)@) && trace.cap == old(self).room() && match old(self)@.tick_plan(trace) {
                    CleanUp::Leave => final(self).room() == old(self).room(),
                    CleanUp::Retain => final(self).room() <= old(self).room(),
                    CleanUp::Resize(cap) => cap <= final(self).room(),
                },
    {
        let ghost pre = self@;
        let len = self.base.len();
        let cap = self.base.capacity();
        proof {
            assert(pre.places.dom() =~= self.base@.dom());
        }
        let fires = self.tick.tick();
        let mut now = Instant { nanos: 0 };
        let mut expired_cnt: usize = 0;
        if fires || len + 1 >= cap {
            now = self.clock.now();
            expired_cnt = self.ttl_tracer.expire_trace(now) as usize;
        }
        let ghost trace = TickTrace {
            cap,
            now: if fires || len + 1 >= cap {
                now
            } else {
                pre.time
            },
        };
        let ghost ready = self@;
        proof {
            assert(ready.places =~= pre.places);
            pre.lookups_agree(ready);
        }
        match plan(fires, len, cap, expired_cnt) {
            CleanUp::Leave => {},
            CleanUp::Retain => self.retain_at(now),
            CleanUp::Resize(new_cap) => self.cleanup_resize_at(new_cap, now),
        }
        assert(pre.ticks(trace, self@));
    }

    /// Whether there is room to index one more value.
    pub fn has_room(&self) -> (room: bool)
        requires
            self.wf(),
        ensures
            room == self@.has_room(),
    {
        assert(self@.places.dom() =~= self.base@.dom());
        self.base.len() < usize::MAX / 160
    }

    /// Takes every value out and keeps the memory.
    pub fn clear(&mut self)
        requires
            old(self).wf(),
        ensures
            final(self).wf(),
            old(self).room() <= final(self).room(),
            final(self)@ == (CacheModel {
                places: Map::<usize, CacheItem<K, V>>::empty(),
                count: 1,
                ..old(self)@
            }),
    {
        self.base.clear();
        self.tick.clear();
        assert(self@.places =~= Map::<usize, CacheItem<K, V>>::empty());
    }

    /// A cache that differs in the value at one place alone.
    proof fn entry_changed(self, post: Self, place: usize, entry: ValueEntry<V>)
        requires
            self.wf(),
            self.base@.contains_key(place),
            post.base.wf(),
            post.base@ == self.base@.insert(
                place,
                Filed {
                    hash: self.base@[place].hash,
                    item: CacheItem { entry, ..self.base@[place].item },
                },
            ),
            post.hash_builder == self.hash_builder,
        ensures
            post.wf(),
            post@.places == self@.set_entry(place, entry).places,
    {
        assert(post.base@.dom() =~= self.base@.dom());
        assert(post@.places =~= self@.set_entry(place, entry).places);
        assert(post@.places.dom() =~= self@.places.dom());
    }

    /// Takes the value for a key out, whether it has expired or not.
    pub fn remove(&mut self, key: &K) -> (value: Option<V>)
        requires
            old(self).wf(),
        ensures
            final(self).wf(),
            old(self)@.removes(*key, final(self)@, value),
    {
        let ghost pre = *self;
        let hash = make_hash(&self.hash_builder, key);
        match self.find(hash, key) {
            Some(place) => {
                let value = self.base.get_mut(place).entry.take_inner();
                proof {
                    pre.entry_changed(
                        *self,
                        place,
                        ValueEntry { value: None, ..pre.base@[place].item.entry },
                    );
                }
                value
            },
            None => None,
        }
    }

    /// Inserts a value that lives for `ttl`. The result is the value that was there before,
    /// whether it has expired or not.
    pub fn insert(&mut self, key: K, val: V, ttl: Duration) -> (value: Option<V>)
        requires
            old(self).wf(),
            old(self)@.has_room(),
        ensures
            final(self).wf(),
            exists|entry: ValueEntry<V>| #[trigger]
                old(self)@.inserts(key, val, ttl, entry, final(self)@, value),
    {
        let ghost pre = *self;
        let now = self.clock.now();
        let exp_at = now.plus(ttl);
        let entry = ValueEntry::new(val, exp_at);
        let ghost given = entry;
        let ghost given_key = key;
        let hash = make_hash(&self.hash_builder, &key);
        proof {
            assert(self@ =~= pre@.at(self.clock));
            pre@.lookups_agree(self@);
            assert(pre@.places.dom() =~= pre.base@.dom());
        }
        let ghost ready = *self;
        let value = match self.find(hash, &key) {
            Some(place) => {
                let mut entry = entry;
                core::mem::swap(&mut self.base.get_mut(place).entry, &mut entry);
                proof {
                    ready.entry_changed(*self, place, given);
                }
                entry.into_inner()
            },
            None => {
                proof {
                    self.base.is_finite();
                }
                let place = self.base.insert(hash, CacheItem { key, entry });
                proof {
                    let item = CacheItem { key: given_key, entry: given };
                    assert(self@.places =~= pre@.places.insert(place, item));
                    ready@.added(place, item, self@);
                }
                None
            },
        };
        self.ttl_tracer.trace_ttl(exp_at);
        assert(pre@.inserts(given_key, val, ttl, given, self@, value));
        value
    }

    /// The value for a key, unless it has expired.
    pub fn get(&mut self, key: &K) -> (value: Option<&V>)
        requires
            old(self).wf(),
        ensures
            final(self).wf(),
            old(self)@.time.nanos <= final(self)@.time.nanos,
            if old(self)@.locate(*key) is Some {
                old(self)@.waits(final(self)@)
            } else {
                old(self)@.rests(final(self)@)
            },
            final(self)@ == old(self)@.at(final(self)@.clock),
            value == match old(self)@.live(*key, final(self)@.time) {
                Some(entry) => Some(&entry.value.unwrap()),
                None => None,
            },
    {
        let hash = make_hash(&self.hash_builder, key);
        match self.find(hash, key) {
            Some(place) => {
                let now = self.clock.now();
                assert(self@ =~= old(self)@.at(self.clock));
                proof {
                    old(self)@.lookups_agree(self@);
                }
                self.base.get(place).entry.get(now)
            },
            None => None,
        }
    }

    /// The value for a key, for change in place, unless it has expired.
    pub fn get_mut(&mut self, key: &K) -> (value: Option<&mut V>)
        requires
            old(self).wf(),
        ensures
            final(self).wf(),
            old(self)@.time.nanos <= final(self)@.time.nanos,
            if old(self)@.locate(*key) is Some {
                old(self)@.waits(final(self)@)
            } else {
                old(self)@.rests(final(self)@)
            },
            match (value, old(self)@.live(*key, final(self)@.time)) {
                (Some(v), Some(entry)) => {
                    &&& *v == entry.value.unwrap()
                    &&& final(self)@ == old(self)@.at(final(self)@.clock).set_entry(
                        old(self)@.locate(*key).unwrap(),
                        ValueEntry { value: Some(*final(v)), ..entry },
                    )
                },
                (None, None) => final(self)@ == old(self)@.at(final(self)@.clock),
                _ => false,
            },
    {
        let hash = make_hash(&self.hash_builder, key);
        match self.find(hash, key) {
            Some(place) => {
                let now = self.clock.now();
                let ghost ready = *self;
                proof {
                    assert(self@ =~= old(self)@.at(self.clock));
                    old(self)@.lookups_agree(self@);
                    assert forall|t: Self|
                        {
                            let entry = t.base@[place].item.entry;
                            &&& t.hash_builder == ready.hash_builder
                            &&& t.tick == ready.tick
                            &&& t.ttl_tracer == ready.ttl_tracer
                            &&& t.clock == ready.clock
                            &&& t.base.wf()
                            &&& t.base@ == ready.base@.insert(
                                place,
                                Filed {
                                    hash: ready.base@[place].hash,
                                    item: CacheItem { entry, ..ready.base@[place].item },
                                },
                            )
                        } implies #[trigger] t.wf() && t@ == ready@.set_entry(
                        place,
                        t.base@[place].item.entry,
                    ) by {
                        ready.entry_changed(t, place, t.base@[place].item.entry);
                    }
                    assert(ready@.set_entry(place, ready.base@[place].item.entry) =~= ready@);
                }
                self.base.get_mut(place).entry.get_mut(now)
            },
            None => None,
        }
    }
}

} // verus!
