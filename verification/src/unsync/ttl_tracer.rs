//! How many values have expired, without a look at them.
use std::collections::BTreeMap;

use vstd::prelude::*;
use vstd::std_specs::iter::IteratorSpec;

use crate::records::first_key;
use crate::time::{Duration, Instant, NANOS_PER_SEC};

verus! {

broadcast use {vstd::laws_cmp::group_laws_cmp, vstd::std_specs::btree::group_btree_axioms};

/// The sum of the counts that are filed under points in time before `now`.
pub open spec fn total_before(counts: Map<Instant, u64>, now: Instant) -> int
    decreases counts.dom().len(),
    when counts.dom().finite()
{
    let at = crate::records::earliest(counts);
    if counts =~= Map::<Instant, u64>::empty() || !counts.contains_key(at) || at.nanos
        >= now.nanos {
        0
    } else {
        counts[at] + total_before(counts.remove(at), now)
    }
}

/// No count is below zero, nor is the sum.
pub proof fn total_is_natural(counts: Map<Instant, u64>, now: Instant)
    requires
        counts.dom().finite(),
    ensures
        total_before(counts, now) >= 0,
    decreases counts.dom().len(),
{
    let at = crate::records::earliest(counts);
    if counts.contains_key(at) {
        total_is_natural(counts.remove(at), now);
    }
}

/// The counts without those that are filed under points in time before `now`.
pub open spec fn from_now(counts: Map<Instant, u64>, now: Instant) -> Map<Instant, u64> {
    counts.restrict(Set::new(|at: Instant| at.nanos >= now.nanos))
}

/// The point in time that a value is counted under: the next whole second after it expires,
/// counted from `start` on.
pub open spec fn slot(start: Instant, exp_at: Instant) -> Instant {
    let secs = (exp_at.nanos - start.nanos) / NANOS_PER_SEC as int + 1;
    Instant { nanos: crate::time::capped(start.nanos + secs * NANOS_PER_SEC) }
}

/// The counts with one more value, unless it expires before `start`.
pub open spec fn traced(counts: Map<Instant, u64>, start: Instant, exp_at: Instant) -> Map<
    Instant,
    u64,
> {
    let at = slot(start, exp_at);
    if start.nanos > exp_at.nanos {
        counts
    } else if counts.contains_key(at) && counts[at] < u64::MAX {
        counts.insert(at, (counts[at] + 1) as u64)
    } else if counts.contains_key(at) {
        counts.insert(at, 0)
    } else {
        counts.insert(at, 1)
    }
}

/// A value is not counted among the expired ones before it has expired, and is counted among
/// them a second later at the latest.
pub proof fn slot_is_near(start: Instant, exp_at: Instant)
    requires
        start.nanos <= exp_at.nanos,
        exp_at.nanos + NANOS_PER_SEC <= u128::MAX,
    ensures
        exp_at.nanos < slot(start, exp_at).nanos <= exp_at.nanos + NANOS_PER_SEC,
{
    let ttl = exp_at.nanos - start.nanos;
    vstd::arithmetic::div_mod::lemma_fundamental_div_mod(ttl, NANOS_PER_SEC as int);
}

/// Any one count is part of the sum where its point in time lies before `now`, and has no part in
/// it otherwise.
proof fn total_splits(counts: Map<Instant, u64>, now: Instant, at: Instant)
    requires
        counts.dom().finite(),
        counts.contains_key(at),
    ensures
        total_before(counts, now) == total_before(counts.remove(at), now) + if at.nanos
            < now.nanos {
            counts[at] as int
        } else {
            0int
        },
    decreases counts.dom().len(),
{
    crate::records::earliest_exists(counts);
    let first = crate::records::earliest(counts);
    let rest = counts.remove(at);
    if first == at {
        if at.nanos >= now.nanos && rest.dom().len() > 0 {
            crate::records::earliest_exists(rest);
            let second = crate::records::earliest(rest);
            assert(counts.contains_key(second));
        }
    } else {
        assert(rest.contains_key(first));
        assert(crate::records::is_earliest(rest, first)) by {
            assert forall|other: Instant| #[trigger] rest.contains_key(other) implies first.nanos
                <= other.nanos by {
                assert(counts.contains_key(other));
            }
        }
        crate::records::earliest_is(rest, first);
        if first.nanos < now.nanos {
            assert(counts.remove(first).remove(at) =~= rest.remove(first));
            total_splits(counts.remove(first), now, at);
        } else {
            assert(counts.contains_key(at));
        }
    }
}

/// One more value is counted once its point in time has come, and not before; the other values are
/// counted as they were. One that expires before `start` is never counted, and one that expires
/// at `start` is.
pub proof fn traced_adds_one(
    counts: Map<Instant, u64>,
    start: Instant,
    exp_at: Instant,
    now: Instant,
)
    requires
        counts.dom().finite(),
        counts.contains_key(slot(start, exp_at)) ==> counts[slot(start, exp_at)] < u64::MAX,
    ensures
        traced(counts, start, exp_at).dom().finite(),
        total_before(traced(counts, start, exp_at), now) == total_before(counts, now) + if start.nanos
            <= exp_at.nanos && slot(start, exp_at).nanos < now.nanos {
            1int
        } else {
            0int
        },
{
    let at = slot(start, exp_at);
    let after = traced(counts, start, exp_at);
    if start.nanos <= exp_at.nanos {
        assert(after.contains_key(at));
        total_splits(after, now, at);
        assert(after.remove(at) =~= counts.remove(at));
        if counts.contains_key(at) {
            total_splits(counts, now, at);
        } else {
            assert(counts.remove(at) =~= counts);
        }
    }
}

/// Forgetting the values that are counted under points in time before `now` takes just those out
/// of every later count, and leaves none for `now` or an earlier point in time. What is counted
/// under `now` itself stays.
pub proof fn from_now_takes_the_past(counts: Map<Instant, u64>, now: Instant, by: Instant)
    requires
        counts.dom().finite(),
    ensures
        from_now(counts, now).dom().finite(),
        by.nanos >= now.nanos ==> total_before(from_now(counts, now), by) == total_before(counts, by)
            - total_before(counts, now),
        by.nanos <= now.nanos ==> total_before(from_now(counts, now), by) == 0,
        from_now(counts, now).contains_key(now) == counts.contains_key(now),
    decreases counts.dom().len(),
{
    let rest = from_now(counts, now);
    assert(rest.dom() =~= counts.dom().intersect(Set::new(|at: Instant| at.nanos >= now.nanos)));
    let first = crate::records::earliest(rest);
    if rest.contains_key(first) {
        assert(first.nanos >= now.nanos);
    }
    if counts.dom().len() > 0 {
        crate::records::earliest_exists(counts);
        let at = crate::records::earliest(counts);
        if at.nanos < now.nanos {
            from_now_takes_the_past(counts.remove(at), now, by);
            assert(from_now(counts.remove(at), now) =~= rest);
        } else {
            assert(rest =~= counts) by {
                assert forall|other: Instant| #[trigger] counts.contains_key(other) implies
                    rest.contains_key(other) by {
                    assert(at.nanos <= other.nanos);
                }
            }
        }
    } else {
        assert(counts =~= Map::<Instant, u64>::empty());
        assert(rest =~= counts);
    }
}

/// The counts after the first `n` values were counted.
pub open spec fn all_traced(start: Instant, exps: Seq<Instant>, n: int) -> Map<Instant, u64>
    decreases n,
{
    if n <= 0 {
        Map::empty()
    } else {
        traced(all_traced(start, exps, n - 1), start, exps[n - 1])
    }
}

/// How many of the first `n` points in time lie before `by`.
pub open spec fn how_many(exps: Seq<Instant>, n: int, by: int) -> nat
    decreases n,
{
    if n <= 0 {
        0
    } else {
        how_many(exps, n - 1, by) + if exps[n - 1].nanos < by {
            1nat
        } else {
            0nat
        }
    }
}

/// The points in time that the values are counted under.
pub open spec fn slots(start: Instant, exps: Seq<Instant>) -> Seq<Instant> {
    exps.map_values(|exp_at: Instant| slot(start, exp_at))
}

/// The number of values that are found to have expired is that of those whose points in time have
/// come, in whichever order they were counted. It is at least the number of those that have been
/// expired for more than a second, and at most the number of those that have expired.
pub proof fn none_early_none_missed(start: Instant, exps: Seq<Instant>, n: int, now: Instant)
    requires
        0 <= n <= exps.len(),
        n < u64::MAX,
        forall|i: int|
            0 <= i < exps.len() ==> start.nanos <= (#[trigger] exps[i]).nanos && exps[i].nanos
                + NANOS_PER_SEC <= u128::MAX,
    ensures
        all_traced(start, exps, n).dom().finite(),
        total_before(all_traced(start, exps, n), now) == how_many(
            slots(start, exps),
            n,
            now.nanos as int,
        ),
        how_many(exps, n, now.nanos - NANOS_PER_SEC) <= total_before(
            all_traced(start, exps, n),
            now,
        ) <= how_many(exps, n, now.nanos as int) <= n,
        forall|at: Instant| #[trigger]
            all_traced(start, exps, n).contains_key(at) ==> all_traced(start, exps, n)[at] <= n,
    decreases n,
{
    if n > 0 {
        none_early_none_missed(start, exps, n - 1, now);
        let before = all_traced(start, exps, n - 1);
        let after = all_traced(start, exps, n);
        let at = slot(start, exps[n - 1]);
        slot_is_near(start, exps[n - 1]);
        assert(slots(start, exps)[n - 1] == at);
        assert(after.contains_key(at));
        total_splits(after, now, at);
        assert(after.remove(at) =~= before.remove(at));
        if before.contains_key(at) {
            total_splits(before, now, at);
        } else {
            assert(before.remove(at) =~= before);
        }
    }
}

/// Counts the values by the point in time at which they will have expired, in whole seconds from
/// a first point in time on.
pub struct TTLTracer {
    base: BTreeMap<u128, u64>,
    base_time: Instant,
}

impl TTLTracer {
    /// The counts by point in time.
    pub closed spec fn counts(&self) -> Map<Instant, u64> {
        Map::new(|at: Instant| self.base@.contains_key(at.nanos), |at: Instant| self.base@[at.nanos])
    }

    /// The first point in time.
    pub closed spec fn start(&self) -> Instant {
        self.base_time
    }

    /// Nothing is counted.
    pub fn new(base_time: Instant) -> (tracer: TTLTracer)
        ensures
            tracer.counts() == Map::<Instant, u64>::empty(),
            tracer.start() == base_time,
    {
        let tracer = TTLTracer { base: BTreeMap::new(), base_time };
        assert(tracer.counts() =~= Map::<Instant, u64>::empty());
        tracer
    }

    /// Counts a value that expires at `exp_at`, unless that is before the first point in time.
    pub fn trace_ttl(&mut self, exp_at: Instant)
        ensures
            final(self).start() == old(self).start(),
            final(self).counts() == traced(old(self).counts(), old(self).start(), exp_at),
            ({
                let at = slot(old(self).start(), exp_at);
                (old(self).counts().contains_key(at) ==> old(self).counts()[at] < u64::MAX)
                    ==> forall|now: Instant| #[trigger]
                    total_before(final(self).counts(), now) == total_before(old(self).counts(), now)
                        + if old(self).start().nanos <= exp_at.nanos && at.nanos < now.nanos {
                        1int
                    } else {
                        0int
                    }
            }),
    {
        proof {
            self.is_finite();
            let at = slot(self.start(), exp_at);
            if self.counts().contains_key(at) ==> self.counts()[at] < u64::MAX {
                assert forall|now: Instant| #[trigger]
                    total_before(traced(self.counts(), self.start(), exp_at), now) == total_before(
                        self.counts(),
                        now,
                    ) + if self.start().nanos <= exp_at.nanos && at.nanos < now.nanos {
                        1int
                    } else {
                        0int
                    } by {
                    traced_adds_one(self.counts(), self.start(), exp_at, now);
                }
            }
        }
        if self.base_time.nanos > exp_at.nanos {
            return;
        }
        let ttl = exp_at.nanos - self.base_time.nanos;
        let whole = ttl / NANOS_PER_SEC * NANOS_PER_SEC;
        let aligned_exp_at = self.base_time.plus(
            Duration { nanos: whole.saturating_add(NANOS_PER_SEC) },
        );
        let ghost pre = self.counts();
        assert(aligned_exp_at == slot(self.base_time, exp_at)) by {
            let q = ttl as int / NANOS_PER_SEC as int;
            assert((q + 1) * NANOS_PER_SEC == q * NANOS_PER_SEC + NANOS_PER_SEC) by (nonlinear_arith);
        }
        let count: u64 = match self.base.get(&aligned_exp_at.nanos) {
            Some(count) => count.wrapping_add(1),
            None => 1,
        };
        self.base.insert(aligned_exp_at.nanos, count);
        assert(self.counts() =~= pre.insert(aligned_exp_at, count));
    }

    /// The points in time that something is counted under can be counted themselves.
    pub proof fn is_finite(&self)
        ensures
            self.counts().dom().finite(),
    {
        let at = |nanos: u128| Instant { nanos };
        assert(self.counts().dom() =~= self.base@.dom().map(at)) by {
            assert forall|t: Instant| self.counts().contains_key(t) implies #[trigger]
                self.base@.dom().map(at).contains(t) by {
                assert(at(t.nanos) == t);
            }
        }
        self.base@.dom().lemma_map_finite(at);
    }

    /// Forgets the values that are counted under points in time before `now`. The result is how
    /// many they were, as far as that can be told in so many bits.
    pub fn expire_trace(&mut self, now: Instant) -> (n: u64)
        ensures
            final(self).start() == old(self).start(),
            final(self).counts() == from_now(old(self).counts(), now),
            n == total_before(old(self).counts(), now) % 0x1_0000_0000_0000_0000,
            forall|by: Instant|
                now.nanos <= by.nanos ==> #[trigger] total_before(final(self).counts(), by)
                    == total_before(old(self).counts(), by) - total_before(
                    old(self).counts(),
                    now,
                ),
            forall|by: Instant|
                by.nanos <= now.nanos ==> #[trigger] total_before(final(self).counts(), by) == 0,
    {
        let ghost pre = self.counts();
        let ghost total = total_before(pre, now);
        let mut n: u64 = 0;
        proof {
            self.is_finite();
        }
        loop
            invariant
                self.base_time == old(self).base_time,
                from_now(self.counts(), now) == from_now(pre, now),
                (n + total_before(self.counts(), now)) % 0x1_0000_0000_0000_0000 == total
                    % 0x1_0000_0000_0000_0000,
            ensures
                self.base_time == old(self).base_time,
                self.counts() == from_now(pre, now),
                n == total % 0x1_0000_0000_0000_0000,
            decreases self.counts().dom().len(),
        {
            let ghost before = self.counts();
            proof {
                self.is_finite();
            }
            match first_key(&self.base) {
                Some(at) => {
                    let ghost first = Instant { nanos: at };
                    proof {
                        assert(crate::records::is_earliest(before, first));
                        crate::records::earliest_is(before, first);
                    }
                    if at >= now.nanos {
                        assert(before =~= from_now(before, now));
                        break;
                    }
                    if let Some(count) = self.base.remove(&at) {
                        assert(self.counts() =~= before.remove(first));
                        assert(from_now(self.counts(), now) =~= from_now(before, now));
                        n = n.wrapping_add(count);
                    }
                },
                None => {
                    assert(before =~= Map::<Instant, u64>::empty());
                    assert(before =~= from_now(before, now));
                    break;
                },
            }
        }
        proof {
            old(self).is_finite();
            assert forall|by: Instant|
                now.nanos <= by.nanos implies #[trigger] total_before(self.counts(), by)
                == total_before(pre, by) - total_before(pre, now) by {
                from_now_takes_the_past(pre, now, by);
            }
            assert forall|by: Instant| by.nanos <= now.nanos implies #[trigger] total_before(
                self.counts(),
                by,
            ) == 0 by {
                from_now_takes_the_past(pre, now, by);
            }
        }
        n
    }

    /// How many values are counted under points in time before `now`, as far as that can be told
    /// in so many bits.
    pub fn approx_count(&self, now: Instant) -> (n: u64)
        ensures
            n == total_before(self.counts(), now) % 0x1_0000_0000_0000_0000,
    {
        let iter = self.base.iter();
        let ghost all = iter.remaining();
        let ghost keys = all.map_values(|kv: (&u128, &u64)| *kv.0);
        let ghost total = total_before(self.counts(), now);
        let mut rest: Ghost<Map<Instant, u64>> = Ghost(self.counts());
        let mut n: u64 = 0;
        proof {
            self.is_finite();
            crate::records::increasing_means(keys);
            assert forall|at: Instant| #[trigger] self.counts().contains_key(at) implies exists|
                i: int,
            |
                0 <= i < all.len() && #[trigger] keys[i] == at.nanos by {
                let i = all.index_of((&at.nanos, &self.base@[at.nanos]));
                assert(keys[i] == at.nanos);
            }
            assert forall|i: int| 0 <= i < all.len() implies {
                &&& self.counts().contains_key(Instant { nanos: #[trigger] keys[i] })
                &&& self.counts()[Instant { nanos: keys[i] }] == *all[i].1
            } by {
                assert(self.base@.contains_key(*all[i].0));
            }
        }
        for entry in entries: iter
            invariant
                entries.seq() == all,
                total == total_before(self.counts(), now),
                keys == all.map_values(|kv: (&u128, &u64)| *kv.0),
                rest@.dom().finite(),
                (n + total_before(rest@, now)) % 0x1_0000_0000_0000_0000 == total
                    % 0x1_0000_0000_0000_0000,
                forall|i: int|
                    entries.index() <= i < all.len() ==> {
                        &&& rest@.contains_key(Instant { nanos: #[trigger] keys[i] })
                        &&& rest@[Instant { nanos: keys[i] }] == *all[i].1
                    },
                forall|at: Instant| #[trigger]
                    rest@.contains_key(at) ==> exists|i: int|
                        entries.index() <= i < all.len() && #[trigger] keys[i] == at.nanos,
                forall|i: int, j: int| 0 <= i < j < keys.len() ==> keys[i] < keys[j],
        {
            let ghost first = Instant { nanos: *entry.0 };
            proof {
                assert(keys[entries.index() as int] == *entry.0);
                assert(crate::records::is_earliest(rest@, first));
                crate::records::earliest_is(rest@, first);
            }
            if *entry.0 >= now.nanos {
                return n;
            }
            n = n.wrapping_add(*entry.1);
            proof {
                rest@ = rest@.remove(first);
            }
        }
        assert(rest@ =~= Map::<Instant, u64>::empty());
        n
    }
}

} // verus!
