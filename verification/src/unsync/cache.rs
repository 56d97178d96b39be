//! The cache that users see.
use std::hash::Hash;

use hashbrown::hash_map::DefaultHashBuilder;
use vstd::prelude::*;

use crate::time::{Duration, Instant};
use crate::unsync::{CacheItem, CacheModel, TickTrace, UnsyncCacheInternal, ValueEntry};

verus! {

/// A cache for one thread, whose values live for a given time. Each call counts as a tick.
pub struct UnsyncCache<K, V> {
    base: UnsyncCacheInternal<K, V>,
}

impl<K, V> View for UnsyncCache<K, V> {
    type V = CacheModel<K, V, DefaultHashBuilder>;

    /// The state of the cache.
    closed spec fn view(&self) -> CacheModel<K, V, DefaultHashBuilder> {
        self.base@
    }
}

impl<K: Eq + Hash, V> UnsyncCache<K, V> {
    /// The cache is laid out as its state says.
    pub closed spec fn inv(&self) -> bool {
        self.base.inv()
    }

    /// The cache is laid out as its state says, and its state is sound.
    pub open spec fn wf(&self) -> bool {
        &&& self.inv()
        &&& self@.wf()
    }

    /// An empty cache.
    pub fn new() -> (cache: Self)
        requires
            crate::hash::lawful_key::<K>(),
        ensures
            cache.wf(),
            cache@ == (CacheModel {
                places: Map::<usize, CacheItem<K, V>>::empty(),
                count: 1,
                counts: Map::<Instant, u64>::empty(),
                start: cache@.time,
                time: cache@.time,
                clock: cache@.clock,
                hash_builder: cache@.hash_builder,
            }),
            cache@.time == cache@.clock.time(),
            cache@.clock.is_started(),
    {
        UnsyncCache { base: UnsyncCacheInternal::new() }
    }

    /// Whether there is room to index one more value.
    pub fn has_room(&self) -> (room: bool)
        requires
            self.wf(),
        ensures
            room == self@.has_room(),
    {
        self.base.has_room()
    }

    /// Takes every value out.
    pub fn clear(&mut self)
        requires
            old(self).wf(),
        ensures
            final(self).wf(),
            exists|trace: TickTrace, ticked: CacheModel<K, V, DefaultHashBuilder>| #[trigger]
                old(self)@.ticks(trace, ticked) && final(self)@ == (CacheModel {
                    places: Map::<usize, CacheItem<K, V>>::empty(),
                    count: 1,
                    ..ticked
                }),
    {
        self.base.tick();
        let ghost trace = choose|trace: TickTrace| #[trigger] old(self)@.ticks(trace, self@);
        assert(old(self)@.ticks(trace, self@));
        self.base.clear();
    }

    /// Takes the value for a key out, whether it has expired or not.
    pub fn remove(&mut self, key: &K) -> (value: Option<V>)
        requires
            old(self).wf(),
        ensures
            final(self).wf(),
            exists|trace: TickTrace, ticked: CacheModel<K, V, DefaultHashBuilder>| #[trigger]
                old(self)@.ticks(trace, ticked) && ticked.removes(*key, final(self)@, value),
    {
        self.base.tick();
        let ghost trace = choose|trace: TickTrace| #[trigger] old(self)@.ticks(trace, self@);
        assert(old(self)@.ticks(trace, self@));
        self.base.remove(key)
    }

    /// Inserts a value that lives for `ttl`. The result is the value that was there before,
    /// whether it has expired or not, unless the clean-up before has taken it out.
    pub fn insert(&mut self, key: K, val: V, ttl: Duration) -> (value: Option<V>)
        requires
            old(self).wf(),
            old(self)@.has_room(),
        ensures
            final(self).wf(),
            exists|
                trace: TickTrace,
                ticked: CacheModel<K, V, DefaultHashBuilder>,
                entry: ValueEntry<V>,
            |
                #![trigger old(self)@.ticks(trace, ticked), ticked.inserts(key, val, ttl, entry, final(self)@, value)]
                old(self)@.ticks(trace, ticked) && ticked.inserts(
                    key,
                    val,
                    ttl,
                    entry,
                    final(self)@,
                    value,
                ),
    {
        self.base.tick();
        let ghost ticked = self@;
        let ghost trace = choose|trace: TickTrace| #[trigger] old(self)@.ticks(trace, ticked);
        proof {
            assert(old(self)@.ticks(trace, ticked));
            old(self)@.ticks_keep_room(trace, ticked);
        }
        self.base.insert(key, val, ttl)
    }

    /// The value for a key, unless it has expired.
    pub fn get(&mut self, key: &K) -> (value: Option<&V>)
        requires
            old(self).wf(),
        ensures
            final(self).wf(),
            exists|trace: TickTrace, ticked: CacheModel<K, V, DefaultHashBuilder>| #[trigger]
                old(self)@.ticks(trace, ticked) && ticked.time.nanos <= final(self)@.time.nanos && (
                if ticked.locate(*key) is Some {
                    ticked.waits(final(self)@)
                } else {
                    ticked.rests(final(self)@)
                }) && final(self)@ == ticked.at(final(self)@.clock) && value == match ticked.live(
                    *key,
                    final(self)@.time,
                ) {
                    Some(entry) => Some(&entry.value.unwrap()),
                    None => None,
                },
    {
        self.base.tick();
        let ghost trace = choose|trace: TickTrace| #[trigger] old(self)@.ticks(trace, self@);
        assert(old(self)@.ticks(trace, self@));
        self.base.get(key)
    }

    /// The value for a key, for change in place, unless it has expired.
    pub fn get_mut(&mut self, key: &K) -> (value: Option<&mut V>)
        requires
            old(self).wf(),
        ensures
            final(self).wf(),
            exists|trace: TickTrace, ticked: CacheModel<K, V, DefaultHashBuilder>| #[trigger]
                old(self)@.ticks(trace, ticked) && ticked.time.nanos <= final(self)@.time.nanos && (
                if ticked.locate(*key) is Some {
                    ticked.waits(final(self)@)
                } else {
                    ticked.rests(final(self)@)
                }) && match (value, ticked.live(*key, final(self)@.time)) {
                    (Some(v), Some(entry)) => {
                        &&& *v == entry.value.unwrap()
                        &&& final(self)@ == ticked.at(final(self)@.clock).set_entry(
                            ticked.locate(*key).unwrap(),
                            ValueEntry { value: Some(*final(v)), ..entry },
                        )
                    },
                    (None, None) => final(self)@ == ticked.at(final(self)@.clock),
                    _ => false,
                },
    {
        self.base.tick();
        let ghost trace = choose|trace: TickTrace| #[trigger] old(self)@.ticks(trace, self@);
        assert(old(self)@.ticks(trace, self@));
        self.base.get_mut(key)
    }
}

} // verus!
