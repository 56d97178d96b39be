//! What a cache is, apart from how it is laid out in memory.
use vstd::prelude::*;

use crate::time::{Clock, Duration, Instant};
use crate::unsync::{Tick, ValueEntry};

verus! {

/// A key and its value.
pub struct CacheItem<K, V> {
    pub key: K,
    pub entry: ValueEntry<V>,
}

/// The state of a cache.
#[verifier::ext_equal]
pub struct CacheModel<K, V, H> {
    /// The keys and values by the places that they lie at.
    pub places: Map<usize, CacheItem<K, V>>,
    /// The number of the next tick.
    pub count: u32,
    /// How many values will have expired by which point in time.
    pub counts: Map<Instant, u64>,
    /// The point in time from which those are counted.
    pub start: Instant,
    /// The time that was read last.
    pub time: Instant,
    /// The clock that it was read from.
    pub clock: Clock,
    /// What hashes the keys.
    pub hash_builder: H,
}

/// What is done to get rid of expired values.
#[derive(Clone, Copy, Debug, PartialEq, Eq, Structural)]
pub enum CleanUp {
    /// Nothing.
    Leave,
    /// They are taken out.
    Retain,
    /// They are taken out, and the rest moves to memory for this many.
    Resize(usize),
}

/// What to do when `len` values lie in memory for `cap`, `expired` of which have expired by the
/// count. `fires` says whether it is time to clean up; if it is not, that is done all the same
/// when memory runs short.
pub open spec fn planned(fires: bool, len: int, cap: int, expired: int) -> CleanUp {
    if fires {
        if expired > len {
            CleanUp::Leave
        } else if (len - expired) * 3 > cap {
            CleanUp::Retain
        } else {
            CleanUp::Resize(((len - expired) * 2) as usize)
        }
    } else if len + 1 >= cap {
        CleanUp::Resize((cap * 2) as usize)
    } else {
        CleanUp::Leave
    }
}

/// New memory is for no fewer than there will be. It is taken when fewer than two more have room,
/// and is then for twice as many as before; or at a sign, if at least a third of the memory can be
/// given back, and is then for twice as many as stay.
pub proof fn plan_is_worth_it(fires: bool, len: int, cap: int, expired: int)
    requires
        0 <= len <= cap,
        0 <= expired,
        cap * 2 <= usize::MAX,
    ensures
        ({
            let plan = planned(fires, len, cap, expired);
            let stay = len - expired;
            &&& plan is Retain ==> fires
            &&& plan is Leave && fires ==> stay < 0
            &&& plan is Leave && !fires ==> cap - len >= 2
            &&& plan is Retain ==> 0 <= stay && cap - stay * 2 < stay
            &&& plan matches CleanUp::Resize(room) ==> if fires {
                room == stay + stay && 0 <= stay && stay <= cap - room
            } else {
                room == cap + cap && cap - len < 2
            }
        }),
{
}

/// What a clean-up went by: the memory that there was, and the time.
pub struct TickTrace {
    pub cap: usize,
    pub now: Instant,
}

impl<K: Eq, V, H> CacheModel<K, V, H> {
    /// What lies at this place is for this key.
    pub open spec fn holds(self, place: usize, key: K) -> bool {
        &&& self.places.contains_key(place)
        &&& crate::hash::same_key(self.hash_builder, key, self.places[place].key)
    }

    /// The place of a key.
    pub open spec fn locate(self, key: K) -> Option<usize> {
        if exists|place: usize| self.holds(place, key) {
            Some(choose|place: usize| self.holds(place, key))
        } else {
            None
        }
    }

    /// The value for a key, whether it has expired or not.
    pub open spec fn lookup(self, key: K) -> Option<ValueEntry<V>> {
        match self.locate(key) {
            Some(place) => Some(self.places[place].entry),
            None => None,
        }
    }

    /// The keys can be hashed and told apart, there is one place to a key, and the places can be
    /// counted.
    pub open spec fn wf(self) -> bool {
        &&& crate::hash::lawful_key::<K>()
        &&& crate::hash::is_steady(self.hash_builder)
        &&& forall|a: usize, b: usize| #[trigger]
            self.places.contains_key(a) && #[trigger] self.places.contains_key(b)
                && crate::hash::same_key(
                self.hash_builder,
                self.places[a].key,
                self.places[b].key,
            ) ==> a == b
        &&& self.places.dom().finite()
    }

    /// There is room to index one more value.
    pub open spec fn has_room(self) -> bool {
        self.places.dom().len() < usize::MAX / 160
    }

    /// The state at the time that a clock shows.
    pub open spec fn at(self, clock: Clock) -> Self {
        CacheModel { time: clock.time(), clock, ..self }
    }

    /// From this cache to `post` the clock was looked at once, and the time that was read last is
    /// the one that it showed.
    pub open spec fn waits(self, post: Self) -> bool {
        &&& self.time == self.clock.time()
        &&& post.time == post.clock.time()
        &&& Clock::ticks(self.clock, post.clock)
    }

    /// From this cache to `post` the clock was not looked at.
    pub open spec fn rests(self, post: Self) -> bool {
        &&& post.time == self.time
        &&& post.clock == self.clock
    }

    /// The places of the values that have not expired.
    pub open spec fn live_places(self, now: Instant) -> Set<usize> {
        self.places.dom().filter(|place: usize| !self.places[place].entry.is_over(now))
    }

    /// The value for a key, unless it has expired.
    pub open spec fn live(self, key: K, now: Instant) -> Option<ValueEntry<V>> {
        match self.lookup(key) {
            Some(entry) => if entry.is_over(now) {
                None
            } else {
                Some(entry)
            },
            None => None,
        }
    }

    /// The values that have expired are gone in `post`, and all others are there still, though
    /// maybe at other places.
    pub open spec fn sifts(self, now: Instant, post: Self) -> bool {
        &&& forall|key: K| #[trigger] post.lookup(key) == self.live(key, now)
        &&& post.places.dom().len() == self.live_places(now).len()
    }

    /// What a tick does that goes by what the trace says.
    pub open spec fn tick_plan(self, trace: TickTrace) -> CleanUp {
        let len = self.places.dom().len();
        let expired = crate::unsync::ttl_tracer::total_before(self.counts, trace.now)
            % 0x1_0000_0000_0000_0000;
        planned(
            Tick::<65536>::fires(self.count),
            len as int,
            trace.cap as int,
            (expired as u64) as usize as int,
        )
    }

    /// A tick that went by what the trace says leads from this cache to `post`.
    pub open spec fn ticks(self, trace: TickTrace, post: Self) -> bool {
        let fires = Tick::<65536>::fires(self.count);
        let len = self.places.dom().len();
        let plan = self.tick_plan(trace);
        &&& len <= trace.cap
        &&& self.time.nanos <= trace.now.nanos
        &&& post.time == trace.now
        &&& if fires || len + 1 >= trace.cap {
            self.waits(post)
        } else {
            self.rests(post)
        }
        &&& post.hash_builder == self.hash_builder
        &&& post.start == self.start
        &&& post.counts == if fires || plan is Resize {
            crate::unsync::ttl_tracer::from_now(self.counts, trace.now)
        } else {
            self.counts
        }
        &&& post.count == if plan is Resize {
            1
        } else {
            Tick::<65536>::next(self.count)
        }
        &&& match plan {
            CleanUp::Leave => post.places == self.places,
            _ => self.sifts(trace.now, post),
        }
    }

    /// The cache with a new value at a place.
    pub open spec fn set_entry(self, place: usize, entry: ValueEntry<V>) -> Self {
        CacheModel {
            places: self.places.insert(place, CacheItem { entry, ..self.places[place] }),
            ..self
        }
    }

    /// The insertion of a value that lives for `ttl` leads from this cache to `post` and gives
    /// `out`, the value that was there before, whether it has expired or not.
    pub open spec fn inserts(
        self,
        key: K,
        val: V,
        ttl: Duration,
        entry: ValueEntry<V>,
        post: Self,
        out: Option<V>,
    ) -> bool {
        let exp_at = post.time.later(ttl);
        &&& self.waits(post)
        &&& self.time.nanos <= post.time.nanos
        &&& entry.value == Some(val)
        &&& entry.value_exp == exp_at
        &&& post == (CacheModel {
            places: post.places,
            counts: crate::unsync::ttl_tracer::traced(self.counts, self.start, exp_at),
            time: post.time,
            clock: post.clock,
            ..self
        })
        &&& match self.locate(key) {
            Some(place) => {
                &&& post.places == self.set_entry(place, entry).places
                &&& out == self.places[place].entry.value
            },
            None => {
                &&& exists|place: usize|
                    !self.places.contains_key(place) && post.places
                        == #[trigger] self.places.insert(place, CacheItem { key, entry })
                &&& out is None
            },
        }
    }

    /// The removal of the value for a key leads from this cache to `post` and gives `out`, the
    /// value, whether it has expired or not. The place of the value stays taken.
    pub open spec fn removes(self, key: K, post: Self, out: Option<V>) -> bool {
        match self.locate(key) {
            Some(place) => {
                let entry = self.places[place].entry;
                &&& post == self.set_entry(place, ValueEntry { value: None, ..entry })
                &&& out == entry.value
            },
            None => post == self && out is None,
        }
    }

    /// The place for a key is found, whichever name it goes by.
    pub proof fn locate_is(self, place: usize, key: K)
        requires
            self.wf(),
            self.holds(place, key),
        ensures
            self.locate(key) == Some(place),
    {
        let found = choose|place: usize| self.holds(place, key);
        assert(self.holds(found, key));
        let a = self.places[found].key;
        let b = self.places[place].key;
        crate::hash::same_key_is_equivalence(self.hash_builder, key, a, key);
        crate::hash::same_key_is_equivalence(self.hash_builder, a, key, b);
        assert(self.places.contains_key(found) && self.places.contains_key(place));
    }

    /// What is found for a key rests on the places and the hashes alone.
    pub proof fn lookups_agree(self, other: Self)
        requires
            self.wf(),
            other.places == self.places,
            other.hash_builder == self.hash_builder,
        ensures
            forall|key: K| #[trigger] other.locate(key) == self.locate(key),
            forall|now: Instant| #[trigger] other.live_places(now) == self.live_places(now),
            other.wf(),
    {
        assert forall|key: K| #[trigger] other.locate(key) == self.locate(key) by {
            if exists|place: usize| self.holds(place, key) {
                let place = choose|place: usize| self.holds(place, key);
                let found = choose|place: usize| other.holds(place, key);
                assert(other.holds(place, key));
                assert(self.holds(found, key));
                self.locate_is(found, key);
            } else {
                assert forall|place: usize| !other.holds(place, key) by {
                    assert(!self.holds(place, key));
                }
            }
        }
        assert forall|now: Instant| #[trigger]
            other.live_places(now) == self.live_places(now) by {
            assert(other.live_places(now) =~= self.live_places(now));
        }
    }

    /// A new value for a key that has none leaves a sound cache sound.
    pub proof fn added(self, place: usize, item: CacheItem<K, V>, post: Self)
        requires
            self.wf(),
            self.locate(item.key) is None,
            !self.places.contains_key(place),
            post.places == self.places.insert(place, item),
            post.hash_builder == self.hash_builder,
        ensures
            post.wf(),
    {
        assert forall|other: usize| self.places.contains_key(other) implies {
            &&& !crate::hash::same_key(self.hash_builder, item.key, self.places[other].key)
            &&& !crate::hash::same_key(self.hash_builder, self.places[other].key, item.key)
        } by {
            assert(!self.holds(other, item.key));
            crate::hash::same_key_is_equivalence(
                self.hash_builder,
                self.places[other].key,
                item.key,
                item.key,
            );
        }
    }

    /// A tick leaves no more values than there were.
    pub proof fn ticks_keep_room(self, trace: TickTrace, post: Self)
        requires
            self.wf(),
            self.ticks(trace, post),
        ensures
            post.places.dom().len() <= self.places.dom().len(),
    {
        vstd::set_lib::lemma_len_subset(self.live_places(trace.now), self.places.dom());
    }

    /// A cache whose values came from places in this one, all that have not expired and no
    /// others, is what is left of it.
    pub proof fn sifts_by(self, now: Instant, post: Self, origin: Map<usize, usize>)
        requires
            self.wf(),
            post.hash_builder == self.hash_builder,
            origin.dom() == post.places.dom(),
            post.places.dom().finite(),
            forall|c: usize| #[trigger]
                origin.contains_key(c) ==> self.live_places(now).contains(origin[c])
                    && post.places[c] == self.places[origin[c]],
            forall|c: usize, d: usize|
                origin.contains_key(c) && origin.contains_key(d) && #[trigger] origin[c]
                    == #[trigger] origin[d] ==> c == d,
            forall|b: usize| #[trigger]
                self.live_places(now).contains(b) ==> exists|c: usize| #[trigger]
                    origin.contains_key(c) && origin[c] == b,
        ensures
            post.wf(),
            self.sifts(now, post),
    {
        assert forall|c: usize, d: usize| #[trigger]
            post.places.contains_key(c) && #[trigger] post.places.contains_key(d)
                && crate::hash::same_key(
                self.hash_builder,
                post.places[c].key,
                post.places[d].key,
            ) implies c == d by {
            assert(origin.contains_key(c) && origin.contains_key(d));
            assert(self.places.contains_key(origin[c]) && self.places.contains_key(origin[d]));
            assert(origin[c] == origin[d]);
        }
        assert forall|key: K| #[trigger] post.lookup(key) == self.live(key, now) by {
            if exists|c: usize| post.holds(c, key) {
                let c = choose|c: usize| post.holds(c, key);
                assert(origin.contains_key(c));
                assert(self.holds(origin[c], key));
                self.locate_is(origin[c], key);
                post.locate_is(c, key);
            } else if exists|b: usize| self.holds(b, key) {
                let b = choose|b: usize| self.holds(b, key);
                self.locate_is(b, key);
                if !self.places[b].entry.is_over(now) {
                    assert(self.live_places(now).contains(b));
                    let c = choose|c: usize| #[trigger] origin.contains_key(c) && origin[c] == b;
                    assert(post.holds(c, key));
                }
            }
        }
        let from = |c: usize| origin[c];
        assert(origin.dom().map(from) =~= self.live_places(now)) by {
            assert forall|b: usize| self.live_places(now).contains(b) implies #[trigger]
                origin.dom().map(from).contains(b) by {
                let c = choose|c: usize| #[trigger] origin.contains_key(c) && origin[c] == b;
                assert(from(c) == b);
            }
        }
        vstd::set_lib::lemma_map_size(origin.dom(), self.live_places(now), from);
    }

    /// After a value was inserted for a key, it is what there is for it until its time is over,
    /// and nothing is after that.
    pub proof fn inserted_is_live(
        self,
        key: K,
        val: V,
        ttl: Duration,
        entry: ValueEntry<V>,
        post: Self,
        out: Option<V>,
        later: Instant,
    )
        requires
            self.wf(),
            self.inserts(key, val, ttl, entry, post, out),
            post.time.nanos + ttl.nanos <= u128::MAX,
        ensures
            post.wf(),
            post.lookup(key) == Some(entry),
            entry.value == Some(val),
            post.live(key, later) == if later.nanos <= post.time.nanos + ttl.nanos {
                Some(entry)
            } else {
                None
            },
    {
        crate::hash::same_key_is_equivalence(self.hash_builder, key, key, key);
        let place = match self.locate(key) {
            Some(place) => {
                assert(self.holds(place, key));
                assert(post.places.dom() =~= self.places.dom());
                place
            },
            None => {
                let place = choose|place: usize|
                    !self.places.contains_key(place) && post.places
                        == #[trigger] self.places.insert(place, CacheItem { key, entry });
                self.added(place, CacheItem { key, entry }, post);
                place
            },
        };
        assert(post.holds(place, key));
        post.locate_is(place, key);
    }

    /// A value is judged by the reading of the outside clock that is taken in the look at it: one
    /// whose time is over by that is not shown, and any other is.
    pub proof fn judged_by_the_clock(self, key: K, post: Self)
        requires
            self.waits(post),
            self.lookup(key) is Some,
        ensures
            post.clock.readings().len() == self.clock.readings().len() + 1,
            post.clock.can_show(post.clock.readings().last()),
            ({
                let entry = self.lookup(key).unwrap();
                let seen_at = post.clock.readings().last();
                &&& entry.value_exp.nanos < seen_at ==> self.live(key, post.time) is None
                &&& entry.value is Some && self.clock.time().nanos <= entry.value_exp.nanos
                    && seen_at <= entry.value_exp.nanos ==> self.live(key, post.time) == Some(entry)
            }),
    {
        Clock::shows_what_has_passed(self.clock, post.clock);
    }

    /// By the readings of the outside clock that are taken in the two calls, as long as they do
    /// not go back: a value that is inserted to live for `ttl` is there until that time has passed
    /// between them, and not after.
    pub proof fn lives_by_the_clock(
        self,
        key: K,
        val: V,
        ttl: Duration,
        entry: ValueEntry<V>,
        post: Self,
        out: Option<V>,
        seen: Self,
    )
        requires
            self.wf(),
            self.inserts(key, val, ttl, entry, post, out),
            post.waits(seen),
            self.clock.time().nanos <= post.clock.readings().last(),
            post.clock.time().nanos <= seen.clock.readings().last(),
            post.clock.readings().last() + ttl.nanos <= u128::MAX,
        ensures
            post.clock.readings().len() == self.clock.readings().len() + 1,
            seen.clock.readings().len() == post.clock.readings().len() + 1,
            post.live(key, seen.time) is Some <==> seen.clock.readings().last()
                - post.clock.readings().last() <= ttl.nanos,
            post.live(key, seen.time) matches Some(found) ==> found.value == Some(val),
    {
        Clock::shows_what_has_passed(self.clock, post.clock);
        Clock::shows_what_has_passed(post.clock, seen.clock);
        self.inserted_is_live(key, val, ttl, entry, post, out, seen.time);
    }

    /// An insertion gives out the value that was there, whether it has expired or not.
    pub proof fn insertion_gives_out(
        self,
        key: K,
        val: V,
        ttl: Duration,
        entry: ValueEntry<V>,
        post: Self,
        out: Option<V>,
    )
        requires
            self.inserts(key, val, ttl, entry, post, out),
        ensures
            out == match self.lookup(key) {
                Some(was) => was.value,
                None => None,
            },
    {
    }

    /// An inserted value is counted among the expired ones once its second is over, and not before
    /// it has expired; the others are counted as they were.
    pub proof fn inserted_is_counted(
        self,
        key: K,
        val: V,
        ttl: Duration,
        entry: ValueEntry<V>,
        post: Self,
        out: Option<V>,
        now: Instant,
    )
        requires
            self.inserts(key, val, ttl, entry, post, out),
            self.counts.dom().finite(),
            forall|at: Instant| #[trigger] self.counts.contains_key(at) ==> self.counts[at] < u64::MAX,
            self.start.nanos <= post.time.nanos,
            post.time.nanos + ttl.nanos + crate::time::NANOS_PER_SEC <= u128::MAX,
        ensures
            ({
                let before = crate::unsync::ttl_tracer::total_before(self.counts, now);
                let after = crate::unsync::ttl_tracer::total_before(post.counts, now);
                let deadline = post.time.nanos + ttl.nanos;
                &&& after == before || after == before + 1
                &&& now.nanos <= deadline ==> after == before
                &&& now.nanos > deadline + crate::time::NANOS_PER_SEC ==> after == before + 1
            }),
    {
        let exp_at = post.time.later(ttl);
        crate::unsync::ttl_tracer::slot_is_near(self.start, exp_at);
        crate::unsync::ttl_tracer::traced_adds_one(self.counts, self.start, exp_at, now);
    }

    /// A removal gives out the value that was there, whether it has expired or not.
    pub proof fn removal_gives_out(self, key: K, post: Self, out: Option<V>)
        requires
            self.removes(key, post, out),
        ensures
            out == match self.lookup(key) {
                Some(was) => was.value,
                None => None,
            },
    {
    }

    /// Each tick that gives a sign, and each at which memory runs short, takes out every value
    /// that has expired by the reading of the outside clock that is taken in it, and no other;
    /// unless it gives a sign and more are counted as expired than there are.
    pub proof fn clean_up_takes_out(self, trace: TickTrace, post: Self, key: K)
        requires
            self.ticks(trace, post),
            crate::unsync::ttl_tracer::total_before(self.counts, trace.now)
                <= self.places.dom().len() <= usize::MAX,
            self.counts.dom().finite(),
            Tick::<65536>::fires(self.count) || self.places.dom().len() + 1 >= trace.cap,
        ensures
            post.clock.readings().len() == self.clock.readings().len() + 1,
            post.clock.can_show(post.clock.readings().last()),
            self.clock.time().nanos <= post.clock.readings().last() ==> trace.now.nanos
                == post.clock.readings().last(),
            post.lookup(key) == match self.lookup(key) {
                Some(was) => if was.value is None || was.value_exp.nanos < trace.now.nanos {
                    None
                } else {
                    Some(was)
                },
                None => None,
            },
    {
        Clock::shows_what_has_passed(self.clock, post.clock);
        let total = crate::unsync::ttl_tracer::total_before(self.counts, trace.now);
        crate::unsync::ttl_tracer::total_is_natural(self.counts, trace.now);
        assert(total % 0x1_0000_0000_0000_0000 == total) by {
            vstd::arithmetic::div_mod::lemma_small_mod(
                total as nat,
                0x1_0000_0000_0000_0000,
            );
        }
        assert(post.lookup(key) == self.live(key, trace.now));
    }

    /// An insertion touches no value for another key.
    pub proof fn insertion_keeps_others(
        self,
        key: K,
        val: V,
        ttl: Duration,
        entry: ValueEntry<V>,
        post: Self,
        out: Option<V>,
        other: K,
    )
        requires
            self.wf(),
            self.inserts(key, val, ttl, entry, post, out),
            post.time.nanos + ttl.nanos <= u128::MAX,
            !crate::hash::same_key(self.hash_builder, other, key),
        ensures
            post.lookup(other) == self.lookup(other),
    {
        self.inserted_is_live(key, val, ttl, entry, post, out, post.time);
        let place = post.locate(key).unwrap();
        assert(post.holds(place, key));
        let at = post.places[place].key;
        crate::hash::same_key_is_equivalence(self.hash_builder, key, at, key);
        crate::hash::same_key_is_equivalence(self.hash_builder, other, at, key);
        assert(!post.holds(place, other));
        assert(!self.holds(place, other));
        if exists|b: usize| self.holds(b, other) {
            let b = choose|b: usize| self.holds(b, other);
            assert(post.holds(b, other));
            self.locate_is(b, other);
            post.locate_is(b, other);
        } else {
            assert forall|b: usize| !post.holds(b, other) by {
                assert(!self.holds(b, other));
            }
        }
    }

    /// After the value for a key was taken out, there is none for it at any time.
    pub proof fn removed_is_gone(self, key: K, post: Self, out: Option<V>, later: Instant)
        requires
            self.wf(),
            self.removes(key, post, out),
        ensures
            post.live(key, later) is None,
    {
        if self.locate(key) is Some {
            let place = self.locate(key).unwrap();
            assert(self.holds(place, key));
            assert(post.places.dom() =~= self.places.dom());
            assert(post.holds(place, key));
            post.locate_is(place, key);
        }
    }

    /// A tick takes no value away before its time is over: from then on, what there is for a key
    /// is what there was.
    pub proof fn ticks_keep_live(self, trace: TickTrace, post: Self, key: K, later: Instant)
        requires
            self.wf(),
            self.ticks(trace, post),
            trace.now.nanos <= later.nanos,
        ensures
            post.live(key, later) == self.live(key, later),
    {
        if post.places == self.places {
            self.lookups_agree(post);
        } else {
            assert(post.lookup(key) == self.live(key, trace.now));
        }
    }

    /// A value whose time is over does not come back.
    pub proof fn expired_stays_expired(self, key: K, now: Instant, later: Instant)
        requires
            self.live(key, now) is None,
            now.nanos <= later.nanos,
        ensures
            self.live(key, later) is None,
    {
    }
}

} // verus!
