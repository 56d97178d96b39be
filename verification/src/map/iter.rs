//! Walks over the entries of a map.
use std::hash::{BuildHasher, Hash};

use vstd::prelude::*;

use crate::entry::EntryId;
use crate::map::HashMap;
use crate::model::{Item, MapModel, SweepTrace};
use crate::policy::ExpirePolicy;
use crate::table::{Filed, Table};

verus! {

/// How one step of a walk went: the states that the policy was in from the first question on, and
/// its answers.
pub struct StepTrace<P> {
    pub policies: Seq<P>,
    pub expired: Seq<bool>,
}

impl<P: ExpirePolicy> StepTrace<P> {
    /// In a step that went as the trace says, the policy is asked about the first of the entries
    /// `rest` that are ahead, one after the other.
    pub open spec fn skims<K, V>(self, rest: Seq<Item<K, V, P::Storage>>) -> bool {
        let n = self.expired.len();
        &&& self.policies.len() == n + 1
        &&& n <= rest.len()
        &&& forall|i: int|
            0 <= i < n ==> P::judges(
                self.policies[i],
                rest[i].storage.entry_id,
                rest[i].storage.storage,
                self.policies[i + 1],
                #[trigger] self.expired[i],
            )
    }

    /// Such a step leads from the entries and the policy before it to those after it.
    pub open spec fn steps<K, V>(
        self,
        rest: Seq<Item<K, V, P::Storage>>,
        policy: P,
        rest_after: Seq<Item<K, V, P::Storage>>,
        policy_after: P,
    ) -> bool {
        &&& self.skims(rest)
        &&& self.policies[0] == policy
        &&& self.policies.last() == policy_after
        &&& rest_after == rest.skip(self.expired.len() as int)
    }

    /// The last entry that the policy is asked about.
    pub open spec fn met<K, V>(self, rest: Seq<Item<K, V, P::Storage>>) -> Item<
        K,
        V,
        P::Storage,
    > {
        rest[self.expired.len() - 1]
    }

    /// The step goes on until an entry that has not expired is `found`, or none is left.
    pub open spec fn stops<K, V>(self, rest: Seq<Item<K, V, P::Storage>>, found: bool) -> bool {
        let n = self.expired.len();
        &&& forall|i: int|
            0 <= i < n - (if found {
                1int
            } else {
                0int
            }) ==> #[trigger] self.expired[i] || rest[i].storage.removed
        &&& if found {
            n > 0 && !self.expired[n - 1] && !rest[n - 1].storage.removed
        } else {
            n == rest.len()
        }
    }
}

/// The items in the buckets from `from` on up to `to`, in the order of the buckets.
spec fn items_between<T>(table: Map<usize, Filed<T>>, from: int, to: int) -> Seq<T>
    decreases to - from,
{
    if from >= to {
        Seq::empty()
    } else if table.contains_key(from as usize) {
        seq![table[from as usize].item] + items_between(table, from + 1, to)
    } else {
        items_between(table, from + 1, to)
    }
}

/// What lies before `from` has no part in the items from there on.
proof fn items_between_same<T>(
    a: Map<usize, Filed<T>>,
    b: Map<usize, Filed<T>>,
    bucket: usize,
    from: int,
    to: int,
)
    requires
        a == b.insert(bucket, a[bucket]),
        b.contains_key(bucket),
        bucket < from,
        to <= usize::MAX,
    ensures
        items_between(a, from, to) == items_between(b, from, to),
    decreases to - from,
{
    if from < to {
        assert(from as usize != bucket);
        items_between_same(a, b, bucket, from + 1, to);
    }
}

/// Each of the items lies in a bucket from `from` on, and those of later items lie further on.
proof fn items_come_from<T>(table: Map<usize, Filed<T>>, from: int, to: int) -> (at: Seq<int>)
    requires
        0 <= from <= to <= usize::MAX,
    ensures
        at.len() == items_between(table, from, to).len(),
        forall|i: int|
            0 <= i < at.len() ==> {
                &&& from <= #[trigger] at[i] < to
                &&& table.contains_key(at[i] as usize)
                &&& table[at[i] as usize].item == items_between(table, from, to)[i]
            },
        forall|i: int, j: int| 0 <= i < j < at.len() ==> at[i] < at[j],
        forall|b: int|
            from <= b < to && #[trigger] table.contains_key(b as usize) ==> at.contains(b),
    decreases to - from,
{
    if from >= to {
        Seq::empty()
    } else {
        let later = items_come_from(table, from + 1, to);
        if table.contains_key(from as usize) {
            let at = seq![from] + later;
            assert forall|b: int|
                from <= b < to && #[trigger] table.contains_key(b as usize) implies at.contains(
                b,
            ) by {
                if b == from {
                    assert(at[0] == b);
                } else {
                    let i = later.index_of(b);
                    assert(at[i + 1] == b);
                }
            }
            at
        } else {
            later
        }
    }
}

impl<K: Eq, V, P: ExpirePolicy, H> MapModel<K, V, P, H> {
    /// The list holds every entry, each once.
    pub open spec fn lists_all(self, items: Seq<Item<K, V, P::Storage>>) -> bool {
        &&& forall|i: int|
            0 <= i < items.len() ==> {
                &&& self.entries.contains_key((#[trigger] items[i]).storage.entry_id)
                &&& self.entries[items[i].storage.entry_id] == items[i]
            }
        &&& forall|i: int, j: int|
            0 <= i < j < items.len() ==> (#[trigger] items[i]).storage.entry_id != (
            #[trigger] items[j]).storage.entry_id
        &&& forall|id: EntryId| #[trigger]
            self.entries.contains_key(id) ==> items.contains(self.entries[id])
    }
}

/// A walk over the entries of a map that have not expired.
pub struct Iter<'a, K, V, P: ExpirePolicy> {
    /// The table of the map.
    pub table: &'a Table<Item<K, V, P::Storage>>,
    /// The policy of the map.
    pub policy: &'a mut P,
    /// The bucket that comes next.
    pub at: usize,
    /// The number of buckets.
    pub end: usize,
}

impl<'a, K, V, P: ExpirePolicy> Iter<'a, K, V, P> {
    /// The entries that the walk has not met yet, in the order in which it will.
    pub closed spec fn rest(&self) -> Seq<Item<K, V, P::Storage>> {
        items_between(self.table@, self.at as int, self.end as int)
    }

    /// The policy as it is now.
    pub open spec fn current_policy(&self) -> P {
        *self.policy
    }

    /// The next entry that has not expired.
    pub fn next(&mut self) -> (pair: Option<(&'a K, &'a V)>)
        ensures
            *final(final(self).policy) == *final(old(self).policy),
            exists|trace: StepTrace<P>| #[trigger]
                trace.steps(
                    old(self).rest(),
                    old(self).current_policy(),
                    final(self).rest(),
                    final(self).current_policy(),
                ) && trace.stops(old(self).rest(), pair is Some) && (pair matches Some((k, v)) ==> {
                    &&& *k == trace.met(old(self).rest()).key
                    &&& *v == trace.met(old(self).rest()).value
                }),
    {
        let ghost rest = self.rest();
        let mut trace: Ghost<StepTrace<P>> = Ghost(
            StepTrace { policies: seq![*self.policy], expired: Seq::empty() },
        );
        while self.at < self.end
            invariant
                *final(self.policy) == *final(old(self).policy),
                rest == old(self).rest(),
                trace@.policies[0] == old(self).current_policy(),
                trace@.policies.last() == self.current_policy(),
                trace@.skims(rest),
                self.rest() == rest.skip(trace@.expired.len() as int),
                forall|i: int|
                    0 <= i < trace@.expired.len() ==> #[trigger] trace@.expired[i]
                        || rest[i].storage.removed,
            decreases self.end - self.at,
        {
            let b = self.at;
            let ghost before = self.rest();
            self.at = b + 1;
            if let Some(item) = self.table.peek(b) {
                let ghost n = trace@.expired.len() as int;
                assert(before =~= seq![*item] + self.rest());
                assert(before[0] == *item);
                assert(rest[n] == *item);
                assert(self.rest() =~= before.skip(1));
                assert(self.rest() =~= rest.skip(n + 1));
                let is_expired = self.policy.is_expired(
                    item.storage.entry_id,
                    &item.storage.storage,
                );
                proof {
                    trace@ = StepTrace {
                        policies: trace@.policies.push(*self.policy),
                        expired: trace@.expired.push(is_expired),
                    };
                }
                if !is_expired && !item.storage.is_removed() {
                    assert(trace@.steps(
                        rest,
                        old(self).current_policy(),
                        self.rest(),
                        self.current_policy(),
                    ));
                    assert(trace@.stops(rest, true));
                    return Some((&item.key, &item.value));
                }
            }
        }
        assert(self.rest().len() == 0);
        assert(trace@.steps(
            rest,
            old(self).current_policy(),
            self.rest(),
            self.current_policy(),
        ));
        assert(trace@.stops(rest, false));
        None
    }
}

/// A walk over the keys of a map.
pub struct Keys<'a, K, V, P: ExpirePolicy> {
    /// The walk over the entries.
    pub inner: Iter<'a, K, V, P>,
}

impl<'a, K, V, P: ExpirePolicy> Keys<'a, K, V, P> {
    /// The key of the next entry that has not expired.
    pub fn next(&mut self) -> (key: Option<&'a K>)
        ensures
            *final(final(self).inner.policy) == *final(old(self).inner.policy),
            exists|trace: StepTrace<P>| #[trigger]
                trace.steps(
                    old(self).inner.rest(),
                    old(self).inner.current_policy(),
                    final(self).inner.rest(),
                    final(self).inner.current_policy(),
                ) && trace.stops(old(self).inner.rest(), key is Some) && (key matches Some(k) ==> *k
                    == trace.met(old(self).inner.rest()).key),
    {
        let ghost pre = self.inner.rest();
        let ghost policy = self.inner.current_policy();
        let pair = self.inner.next();
        proof {
            let trace = choose|trace: StepTrace<P>| #[trigger]
                trace.steps(pre, policy, self.inner.rest(), self.inner.current_policy())
                    && trace.stops(pre, pair is Some) && (pair matches Some((k, v)) ==> {
                    &&& *k == trace.met(pre).key
                    &&& *v == trace.met(pre).value
                });
            assert(trace.steps(pre, policy, self.inner.rest(), self.inner.current_policy()));
        }
        match pair {
            Some((k, _)) => Some(k),
            None => None,
        }
    }
}

/// A walk over the values of a map.
pub struct Values<'a, K, V, P: ExpirePolicy> {
    /// The walk over the entries.
    pub inner: Iter<'a, K, V, P>,
}

impl<'a, K, V, P: ExpirePolicy> Values<'a, K, V, P> {
    /// The value of the next entry that has not expired.
    pub fn next(&mut self) -> (value: Option<&'a V>)
        ensures
            *final(final(self).inner.policy) == *final(old(self).inner.policy),
            exists|trace: StepTrace<P>| #[trigger]
                trace.steps(
                    old(self).inner.rest(),
                    old(self).inner.current_policy(),
                    final(self).inner.rest(),
                    final(self).inner.current_policy(),
                ) && trace.stops(old(self).inner.rest(), value is Some) && (value matches Some(v)
                    ==> *v == trace.met(old(self).inner.rest()).value),
    {
        let ghost pre = self.inner.rest();
        let ghost policy = self.inner.current_policy();
        let pair = self.inner.next();
        proof {
            let trace = choose|trace: StepTrace<P>| #[trigger]
                trace.steps(pre, policy, self.inner.rest(), self.inner.current_policy())
                    && trace.stops(pre, pair is Some) && (pair matches Some((k, v)) ==> {
                    &&& *k == trace.met(pre).key
                    &&& *v == trace.met(pre).value
                });
            assert(trace.steps(pre, policy, self.inner.rest(), self.inner.current_policy()));
        }
        match pair {
            Some((_, v)) => Some(v),
            None => None,
        }
    }
}

impl<K, V, P: ExpirePolicy, H> MapModel<K, V, P, H> {
    /// The entries as they are now.
    pub open spec fn items_now(self, items: Seq<Item<K, V, P::Storage>>) -> Seq<
        Item<K, V, P::Storage>,
    > {
        items.map_values(|item: Item<K, V, P::Storage>| self.entries[item.storage.entry_id])
    }
}

impl<K: Hash + Eq, V, P: ExpirePolicy, H: BuildHasher> HashMap<K, V, P, H> {
    /// The entries in the buckets from `at` on up to `end`, in the order of the buckets.
    pub closed spec fn items_from(&self, at: usize, end: usize) -> Seq<Item<K, V, P::Storage>> {
        items_between(self.table@, at as int, end as int)
    }

    /// In a map that is left alone each entry stays in its place.
    pub(crate) proof fn places_begin(a: Self)
        ensures
            a.same_places(a),
    {
    }

    /// What stays in its place twice stays in its place.
    pub(crate) proof fn places_stay(a: Self, b: Self, c: Self)
        requires
            b.same_places(a),
            c.same_places(b),
        ensures
            c.same_places(a),
    {
    }

    /// No entries are left where the buckets are at an end.
    pub(crate) proof fn none_past_the_end(&self, at: usize, end: usize)
        requires
            at >= end,
        ensures
            self.items_from(at, end) == Seq::<Item<K, V, P::Storage>>::empty(),
    {
    }

    /// Where each entry stays in its place, a walk meets the same entries in the same order.
    proof fn items_follow(pre: Self, post: Self, at: int, end: usize)
        requires
            pre.inv(),
            post.inv(),
            post.same_places(pre),
            0 <= at,
        ensures
            items_between(post.table@, at, end as int) == post@.items_now(
                items_between(pre.table@, at, end as int),
            ),
        decreases end - at,
    {
        if at < end {
            Self::items_follow(pre, post, at + 1, end);
            let b = at as usize;
            let later = items_between(pre.table@, at + 1, end as int);
            if pre.table@.contains_key(b) {
                pre.bucket_agrees(b);
                post.id_agrees(pre.table@[b].item.storage.entry_id);
                assert(items_between(post.table@, at, end as int) =~= post@.items_now(
                    seq![pre.table@[b].item] + later,
                ));
            } else if post.table@.contains_key(b) {
                post.bucket_agrees(b);
                pre.id_agrees(post.table@[b].item.storage.entry_id);
            }
        } else {
            assert(items_between(post.table@, at, end as int) =~= post@.items_now(
                items_between(pre.table@, at, end as int),
            ));
        }
    }

    /// Where each entry stays in its place, what is ahead of a walk is what was.
    pub(crate) proof fn walk_follows(pre: Self, post: Self, at: usize, end: usize)
        requires
            pre.inv(),
            post.inv(),
            post.same_places(pre),
        ensures
            post.items_from(at, end) == post@.items_now(pre.items_from(at, end)),
    {
        Self::items_follow(pre, post, at as int, end);
    }
}

/// A walk over the entries of a map that have not expired, with their values for change in
/// place. What it hands out is held until the next step.
pub struct IterMut<'a, K, V, P: ExpirePolicy, H> {
    /// The map.
    pub map: &'a mut HashMap<K, V, P, H>,
    /// The bucket that comes next.
    pub at: usize,
    /// The number of buckets.
    pub end: usize,
}

impl<'a, K: Hash + Eq, V, P: ExpirePolicy, H: BuildHasher> IterMut<'a, K, V, P, H> {
    /// The map as it is now.
    pub open spec fn current(&self) -> HashMap<K, V, P, H> {
        *self.map
    }

    /// The entries that the walk has not met yet, in the order in which it will.
    pub open spec fn rest(&self) -> Seq<Item<K, V, P::Storage>> {
        self.map.items_from(self.at, self.end)
    }

    /// Goes on to the next entry that has not expired. The result is its bucket.
    pub(crate) fn step(&mut self) -> (found: (Option<usize>, Ghost<StepTrace<P>>))
        requires
            old(self).current().wf(),
        ensures
            final(self).current().wf(),
            *final(final(self).map) == *final(old(self).map),
            final(self).current().same_places(old(self).current()),
            final(self).end == old(self).end,
            found.0 is None ==> final(self).at >= final(self).end,
            found.1@.steps(
                old(self).rest(),
                old(self).current()@.policy,
                final(self).rest(),
                final(self).current()@.policy,
            ),
            found.1@.stops(old(self).rest(), found.0 is Some),
            final(self).current()@ == old(self).current()@.with_policy(
                found.1@.policies.last(),
            ),
            found.0 matches Some(b) ==> {
                let met = found.1@.met(old(self).rest());
                &&& b < final(self).at
                &&& final(self).current().is_at(b, met.storage.entry_id)
                &&& final(self).current()@.entries.contains_key(met.storage.entry_id)
                &&& final(self).current()@.entries[met.storage.entry_id] == met
            },
    {
        let ghost rest = self.rest();
        let ghost pre = *self.map;
        let mut trace: Ghost<StepTrace<P>> = Ghost(
            StepTrace { policies: seq![self.map.exp_policy], expired: Seq::empty() },
        );
        while self.at < self.end
            invariant
                *final(self.map) == *final(old(self).map),
                self.end == old(self).end,
                rest == old(self).rest(),
                pre == old(self).current(),
                pre.wf(),
                self.map.table == pre.table,
                self.map.exp_bucket_table == pre.exp_bucket_table,
                self.map.exp_backlog == pre.exp_backlog,
                self.map.hash_builder == pre.hash_builder,
                trace@.policies[0] == pre@.policy,
                trace@.policies.last() == self.map.exp_policy,
                trace@.skims(rest),
                self.rest() == rest.skip(trace@.expired.len() as int),
                forall|i: int|
                    0 <= i < trace@.expired.len() ==> #[trigger] trace@.expired[i]
                        || rest[i].storage.removed,
            decreases self.end - self.at,
        {
            let b = self.at;
            let ghost before = self.rest();
            self.at = b + 1;
            if let Some(item) = self.map.table.peek(b) {
                let ghost n = trace@.expired.len() as int;
                assert(before =~= seq![*item] + self.rest());
                assert(before[0] == *item);
                assert(rest[n] == *item);
                assert(self.rest() =~= before.skip(1));
                assert(self.rest() =~= rest.skip(n + 1));
                let is_expired = self.map.exp_policy.is_expired(
                    item.storage.entry_id,
                    &item.storage.storage,
                );
                let removed = item.storage.is_removed();
                proof {
                    trace@ = StepTrace {
                        policies: trace@.policies.push(self.map.exp_policy),
                        expired: trace@.expired.push(is_expired),
                    };
                }
                if !is_expired && !removed {
                    proof {
                        HashMap::policy_changed(pre, *self.map);
                        self.map.bucket_agrees(b);
                    }
                    return (Some(b), trace);
                }
            }
        }
        proof {
            HashMap::policy_changed(pre, *self.map);
            assert(self.rest().len() == 0);
        }
        (None, trace)
    }

    /// The key of the next entry that has not expired, and its value for change in place.
    pub fn next(&mut self) -> (pair: Option<(&K, &mut V)>)
        requires
            old(self).current().wf(),
        ensures
            final(self).current().wf(),
            *final(final(self).map) == *final(old(self).map),
            exists|trace: StepTrace<P>| #[trigger]
                trace.skims(old(self).rest()) && trace.stops(old(self).rest(), pair is Some) && {
                    let seen = old(self).current()@.with_policy(trace.policies.last());
                    &&& trace.policies[0] == old(self).current()@.policy
                    &&& final(self).rest() == old(self).rest().skip(trace.expired.len() as int)
                    &&& match pair {
                        Some((k, v)) => {
                            let met = trace.met(old(self).rest());
                            &&& *k == met.key
                            &&& *v == met.value
                            &&& seen.entries[met.storage.entry_id] == met
                            &&& final(self).current()@ == seen.set_value(
                                met.storage.entry_id,
                                *final(v),
                            )
                        },
                        None => final(self).current()@ == seen,
                    }
                },
    {
        let ghost rest = self.rest();
        let (found, Ghost(trace)) = self.step();
        assert(trace.skims(rest) && trace.stops(rest, found is Some));
        match found {
            Some(b) => {
                proof {
                    self.map.id_agrees(trace.met(rest).storage.entry_id);
                    let table = self.map.table@;
                    assert forall|t: Map<usize, Filed<Item<K, V, P::Storage>>>|
                        t == table.insert(b, t[b]) implies #[trigger] items_between(
                        t,
                        self.at as int,
                        self.end as int,
                    ) == self.rest() by {
                        items_between_same(t, table, b, self.at as int, self.end as int);
                    }
                }
                Some(self.map.pair_mut(b))
            },
            None => None,
        }
    }
}

/// A walk over the values of a map, for change in place.
pub struct ValuesMut<'a, K, V, P: ExpirePolicy, H> {
    /// The walk over the entries.
    pub inner: IterMut<'a, K, V, P, H>,
}

impl<'a, K: Hash + Eq, V, P: ExpirePolicy, H: BuildHasher> ValuesMut<'a, K, V, P, H> {
    /// The value of the next entry that has not expired, for change in place.
    pub fn next(&mut self) -> (value: Option<&mut V>)
        requires
            old(self).inner.current().wf(),
        ensures
            final(self).inner.current().wf(),
            *final(final(self).inner.map) == *final(old(self).inner.map),
            exists|trace: StepTrace<P>| #[trigger]
                trace.skims(old(self).inner.rest()) && trace.stops(
                    old(self).inner.rest(),
                    value is Some,
                ) && {
                    let rest = old(self).inner.rest();
                    let seen = old(self).inner.current()@.with_policy(trace.policies.last());
                    &&& trace.policies[0] == old(self).inner.current()@.policy
                    &&& final(self).inner.rest() == rest.skip(trace.expired.len() as int)
                    &&& match value {
                        Some(v) => {
                            let met = trace.met(rest);
                            &&& *v == met.value
                            &&& seen.entries[met.storage.entry_id] == met
                            &&& final(self).inner.current()@ == seen.set_value(
                                met.storage.entry_id,
                                *final(v),
                            )
                        },
                        None => final(self).inner.current()@ == seen,
                    }
                },
    {
        match self.inner.next() {
            Some((_, v)) => Some(v),
            None => None,
        }
    }
}

/// The entries that were taken out of a map. The policy is asked about each when its turn comes.
pub struct Drain<'a, K, V, P: ExpirePolicy> {
    /// The entries that have not been met yet, the next one last.
    pub items: Vec<Item<K, V, P::Storage>>,
    /// The policy of the map.
    pub policy: &'a mut P,
}

impl<'a, K, V, P: ExpirePolicy> Drain<'a, K, V, P> {
    /// The entries that have not been met yet, the next one first.
    pub open spec fn rest(&self) -> Seq<Item<K, V, P::Storage>> {
        self.items@.reverse()
    }

    /// The policy as it is now.
    pub open spec fn current_policy(&self) -> P {
        *self.policy
    }

    /// The key and the value of the next entry that has not expired.
    pub fn next(&mut self) -> (pair: Option<(K, V)>)
        ensures
            *final(final(self).policy) == *final(old(self).policy),
            exists|trace: StepTrace<P>| #[trigger]
                trace.steps(
                    old(self).rest(),
                    old(self).current_policy(),
                    final(self).rest(),
                    final(self).current_policy(),
                ) && trace.stops(old(self).rest(), pair is Some) && (pair matches Some((k, v)) ==> {
                    &&& k == trace.met(old(self).rest()).key
                    &&& v == trace.met(old(self).rest()).value
                }),
    {
        let ghost rest = self.rest();
        let mut trace: Ghost<StepTrace<P>> = Ghost(
            StepTrace { policies: seq![*self.policy], expired: Seq::empty() },
        );
        while self.items.len() > 0
            invariant
                *final(self.policy) == *final(old(self).policy),
                rest == old(self).rest(),
                trace@.policies[0] == old(self).current_policy(),
                trace@.policies.last() == self.current_policy(),
                trace@.skims(rest),
                self.rest() == rest.skip(trace@.expired.len() as int),
                forall|i: int|
                    0 <= i < trace@.expired.len() ==> #[trigger] trace@.expired[i]
                        || rest[i].storage.removed,
            decreases self.items@.len(),
        {
            let ghost before = self.rest();
            assert(before.len() == self.items@.len());
            if let Some(item) = self.items.pop() {
                let ghost n = trace@.expired.len() as int;
                assert(before[0] == item);
                assert(rest.skip(n)[0] == rest[n]);
                assert(rest[n] == item);
                assert(self.rest() =~= before.skip(1));
                assert(self.rest() =~= rest.skip(n + 1));
                let is_expired = self.policy.is_expired(
                    item.storage.entry_id,
                    &item.storage.storage,
                );
                proof {
                    trace@ = StepTrace {
                        policies: trace@.policies.push(*self.policy),
                        expired: trace@.expired.push(is_expired),
                    };
                }
                if !is_expired && !item.storage.is_removed() {
                    assert(trace@.steps(
                        rest,
                        old(self).current_policy(),
                        self.rest(),
                        self.current_policy(),
                    ));
                    assert(trace@.stops(rest, true));
                    return Some((item.key, item.value));
                }
            }
        }
        assert(self.rest().len() == 0);
        assert(trace@.steps(
            rest,
            old(self).current_policy(),
            self.rest(),
            self.current_policy(),
        ));
        assert(trace@.stops(rest, false));
        None
    }
}

impl<K: Hash + Eq, V, P: ExpirePolicy, H: BuildHasher> HashMap<K, V, P, H> {
    /// A walk over the keys and values of the entries that have not expired.
    pub fn iter(&mut self) -> (iter: Iter<'_, K, V, P>)
        requires
            old(self).wf(),
        ensures
            final(self).wf(),
            iter.current_policy() == old(self)@.policy,
            old(self)@.lists_all(iter.rest()),
            final(self)@ == old(self)@.with_policy(*final(iter.policy)),
    {
        let end = self.table.bucket_count();
        proof {
            self.all_listed(end);
            assert forall|t: Self|
                {
                    &&& t.table == self.table
                    &&& t.exp_bucket_table == self.exp_bucket_table
                    &&& t.exp_backlog == self.exp_backlog
                    &&& t.hash_builder == self.hash_builder
                } implies #[trigger] t.wf() && t@ == self@.with_policy(t.exp_policy) by {
                Self::policy_changed(*self, t);
            }
        }
        Iter { table: &self.table, policy: &mut self.exp_policy, at: 0, end }
    }

    /// A walk over the keys of the entries that have not expired.
    pub fn keys(&mut self) -> (keys: Keys<'_, K, V, P>)
        requires
            old(self).wf(),
        ensures
            final(self).wf(),
            keys.inner.current_policy() == old(self)@.policy,
            old(self)@.lists_all(keys.inner.rest()),
            final(self)@ == old(self)@.with_policy(*final(keys.inner.policy)),
    {
        Keys { inner: self.iter() }
    }

    /// A walk over the values of the entries that have not expired.
    pub fn values(&mut self) -> (values: Values<'_, K, V, P>)
        requires
            old(self).wf(),
        ensures
            final(self).wf(),
            values.inner.current_policy() == old(self)@.policy,
            old(self)@.lists_all(values.inner.rest()),
            final(self)@ == old(self)@.with_policy(*final(values.inner.policy)),
    {
        Values { inner: self.iter() }
    }

    /// A walk over the entries that have not expired, with their values for change in place.
    pub fn iter_mut(&mut self) -> (iter: IterMut<'_, K, V, P, H>)
        requires
            old(self).wf(),
        ensures
            iter.current() == *old(self),
            old(self)@.lists_all(iter.rest()),
            *final(self) == *final(iter.map),
    {
        let end = self.table.bucket_count();
        proof {
            self.all_listed(end);
        }
        IterMut { map: self, at: 0, end }
    }

    /// A walk over the values of the entries that have not expired, for change in place.
    pub fn values_mut(&mut self) -> (values: ValuesMut<'_, K, V, P, H>)
        requires
            old(self).wf(),
        ensures
            values.inner.current() == *old(self),
            old(self)@.lists_all(values.inner.rest()),
            *final(self) == *final(values.inner.map),
    {
        ValuesMut { inner: self.iter_mut() }
    }

    /// Takes every entry out, for those to be handed out that have not expired when their turn
    /// comes. Every id is given up, the policy forgets them, and the memory is kept.
    ///
    /// The policy is cleared in this call, before it is asked about the first entry, so that it
    /// is cleared just once however far the walk gets.
    pub fn drain(&mut self) -> (drain: Drain<'_, K, V, P>)
        requires
            old(self).wf(),
        ensures
            final(self).wf(),
            old(self)@.lists_all(drain.rest()),
            P::clears(old(self)@.policy, drain.current_policy()),
            final(self)@ == MapModel::<K, V, P, H>::vacant(
                *final(drain.policy),
                old(self)@.hash_builder,
            ),
            old(self).room() <= final(self).room(),
            final(self).slots() == old(self).slots(),
    {
        let ghost pre = *self;
        let (items, Ghost(at)) = self.table.take_all();
        self.exp_backlog = crate::backlog::new_queue();
        self.exp_policy.clear();
        self.exp_bucket_table.clear();
        proof {
            let rest = items@.reverse();
            assert forall|i: int| 0 <= i < rest.len() implies {
                &&& pre@.entries.contains_key((#[trigger] rest[i]).storage.entry_id)
                &&& pre@.entries[rest[i].storage.entry_id] == rest[i]
                &&& pre.bucket_of(rest[i].storage.entry_id) == Some(at[at.len() - 1 - i])
            } by {
                pre.bucket_agrees(at[at.len() - 1 - i]);
            }
            assert forall|id: EntryId| #[trigger]
                pre@.entries.contains_key(id) implies rest.contains(pre@.entries[id]) by {
                pre.id_agrees(id);
                let b = pre.bucket_of(id).unwrap();
                assert(pre.table@.contains_key(b));
                let i = at.index_of(b);
                assert(rest[at.len() - 1 - i] == pre@.entries[id]);
            }
            assert forall|t: Self|
                {
                    &&& t.table == self.table
                    &&& t.exp_bucket_table == self.exp_bucket_table
                    &&& t.exp_backlog == self.exp_backlog
                    &&& t.hash_builder == self.hash_builder
                } implies #[trigger] t.wf() && t@ == MapModel::<K, V, P, H>::vacant(
                t.exp_policy,
                self.hash_builder,
            ) by {
                assert(t@ =~= MapModel::<K, V, P, H>::vacant(t.exp_policy, self.hash_builder));
            }
        }
        Drain { items, policy: &mut self.exp_policy }
    }

    /// The items in the buckets are the entries.
    proof fn all_listed(&self, end: usize)
        requires
            self.wf(),
            forall|b: usize| self.table@.contains_key(b) ==> b < end,
        ensures
            self@.lists_all(items_between(self.table@, 0, end as int)),
    {
        let items = items_between(self.table@, 0, end as int);
        let at = items_come_from(self.table@, 0, end as int);
        assert forall|i: int| 0 <= i < items.len() implies {
            &&& self@.entries.contains_key((#[trigger] items[i]).storage.entry_id)
            &&& self@.entries[items[i].storage.entry_id] == items[i]
            &&& self.bucket_of(items[i].storage.entry_id) == Some(at[i] as usize)
        } by {
            self.bucket_agrees(at[i] as usize);
        }
        assert forall|id: EntryId| #[trigger] self@.entries.contains_key(id) implies items.contains(
            self@.entries[id],
        ) by {
            self.id_agrees(id);
            let b = self.bucket_of(id).unwrap();
            assert(self.table@.contains_key(b as int as usize));
            let i = at.index_of(b as int);
            assert(items[i] == self@.entries[id]);
        }
    }
}

/// How a whole walk went: the entries that were ahead before each step and after the last one,
/// and the steps.
pub struct WalkTrace<K, V, P: ExpirePolicy> {
    pub rests: Seq<Seq<Item<K, V, P::Storage>>>,
    pub steps: Seq<StepTrace<P>>,
}

impl<K: Eq, V, P: ExpirePolicy> WalkTrace<K, V, P> {
    /// The walk begins with the entries `items` ahead. Each step goes on where the one before it
    /// stopped; each but the last finds an entry, and the last finds none.
    pub open spec fn walks(self, items: Seq<Item<K, V, P::Storage>>, policy: P) -> bool {
        &&& self.steps.len() > 0
        &&& self.rests.len() == self.steps.len() + 1
        &&& self.rests[0] == items
        &&& self.steps[0].policies[0] == policy
        &&& forall|i: int| 0 <= i < self.steps.len() ==> #[trigger] self.goes_on(i)
    }

    /// One step of the walk.
    pub open spec fn goes_on(self, i: int) -> bool {
        let step = self.steps[i];
        &&& step.skims(self.rests[i])
        &&& step.stops(self.rests[i], i < self.steps.len() - 1)
        &&& self.rests[i + 1] == self.rests[i].skip(step.expired.len() as int)
        &&& i > 0 ==> step.policies[0] == self.steps[i - 1].policies.last()
    }

    /// The entry that a step hands out.
    pub open spec fn found(self, i: int) -> Item<K, V, P::Storage> {
        self.steps[i].met(self.rests[i])
    }

    /// The first `j` questions of one step, after those of a walk so far.
    proof fn step_part<H>(
        self,
        map: MapModel<K, V, P, H>,
        so_far: SweepTrace<P>,
        i: int,
        j: int,
    ) -> (trace: SweepTrace<P>)
        requires
            0 <= i < self.steps.len(),
            self.goes_on(i),
            map.sweeps_part(so_far),
            so_far.policies.last() == self.steps[i].policies[0],
            0 <= j <= self.steps[i].expired.len(),
            forall|k: int|
                0 <= k < self.rests[i].len() ==> map.entries[(
                #[trigger] self.rests[i][k]).storage.entry_id] == self.rests[i][k],
        ensures
            map.sweeps_part(trace),
            trace.policies.last() == self.steps[i].policies[j],
            trace.order =~= so_far.order + self.rests[i].take(j).map_values(
                |item: Item<K, V, P::Storage>| item.storage.entry_id,
            ),
            map.all_live(trace) =~= if j == self.steps[i].expired.len() && i < self.steps.len()
                - 1 {
                map.all_live(so_far).push(self.found(i).storage.entry_id)
            } else {
                map.all_live(so_far)
            },
        decreases j,
    {
        let rest = self.rests[i];
        let step = self.steps[i];
        if j == 0 {
            so_far
        } else {
            let before = self.step_part(map, so_far, i, j - 1);
            let id = rest[j - 1].storage.entry_id;
            let expired = step.expired[j - 1];
            let n = before.order.len() as int;
            before.step_extends(map, id, step.policies[j], expired, n);
            let trace = before.step(id, step.policies[j], expired);
            assert(rest.take(j) =~= rest.take(j - 1).push(rest[j - 1]));
            assert(map.entries[rest[j - 1].storage.entry_id] == rest[j - 1]);
            assert(map.live(trace, n + 1) == if expired || rest[j - 1].storage.removed {
                map.live(trace, n)
            } else {
                map.live(trace, n).push(id)
            });
            trace
        }
    }

    /// The first `k` steps of a walk.
    proof fn walk_part<H>(
        self,
        map: MapModel<K, V, P, H>,
        items: Seq<Item<K, V, P::Storage>>,
        k: int,
    ) -> (trace: SweepTrace<P>)
        requires
            map.lists_all(items),
            self.walks(items, map.policy),
            0 <= k <= self.steps.len(),
        ensures
            map.sweeps_part(trace),
            trace.policies.last() == if k == 0 {
                map.policy
            } else {
                self.steps[k - 1].policies.last()
            },
            trace.order.len() <= items.len(),
            self.rests[k] == items.skip(trace.order.len() as int),
            trace.order =~= items.take(trace.order.len() as int).map_values(
                |item: Item<K, V, P::Storage>| item.storage.entry_id,
            ),
            map.all_live(trace).len() == if k < self.steps.len() {
                k
            } else {
                k - 1
            },
            forall|i: int|
                0 <= i < map.all_live(trace).len() ==> (#[trigger] map.all_live(trace)[i])
                    == self.found(i).storage.entry_id,
        decreases k,
    {
        if k == 0 {
            let trace = SweepTrace::begin(map.policy);
            assert(items.skip(0) =~= items);
            trace
        } else {
            let before = self.walk_part(map, items, k - 1);
            assert(self.goes_on(k - 1));
            let rest = self.rests[k - 1];
            let n = before.order.len() as int;
            let m = self.steps[k - 1].expired.len() as int;
            assert forall|j: int| 0 <= j < rest.len() implies map.entries[(
            #[trigger] rest[j]).storage.entry_id] == rest[j] by {
                assert(rest[j] == items[n + j]);
            }
            let trace = self.step_part(map, before, k - 1, m);
            assert(items.skip(n).skip(m) =~= items.skip(n + m));
            assert(items.take(n + m) =~= items.take(n) + rest.take(m));
            let id_of = |item: Item<K, V, P::Storage>| item.storage.entry_id;
            assert(items.take(n + m).map_values(id_of) =~= items.take(n).map_values(id_of)
                + rest.take(m).map_values(id_of));
            trace
        }
    }
}

impl<K: Eq, V, P: ExpirePolicy, H> MapModel<K, V, P, H> {
    /// A walk from the first entry to the last hands out the entries that have not expired, each
    /// once, and no others; so their number is what `len` gives for the same answers of the policy.
    pub proof fn walk_is_a_sweep(
        self,
        items: Seq<Item<K, V, P::Storage>>,
        walk: WalkTrace<K, V, P>,
    ) -> (trace: SweepTrace<P>)
        requires
            self.wf(),
            self.lists_all(items),
            walk.walks(items, self.policy),
        ensures
            self.sweeps(trace, self.with_policy(walk.steps.last().policies.last())),
            self.all_live(trace).len() == walk.steps.len() - 1,
            self.all_live(trace).no_duplicates(),
            forall|i: int|
                0 <= i < walk.steps.len() - 1 ==> {
                    &&& self.entries.contains_key(#[trigger] self.all_live(trace)[i])
                    &&& self.entries[self.all_live(trace)[i]] == walk.found(i)
                },
    {
        let k = walk.steps.len() as int;
        let trace = walk.walk_part(self, items, k);
        assert(walk.goes_on(k - 1));
        let n = trace.order.len() as int;
        assert(n == items.len()) by {
            let before = walk.walk_part(self, items, k - 1);
            let b = before.order.len() as int;
            assert(walk.rests[k - 1].len() == walk.steps[k - 1].expired.len());
            assert(walk.rests[k].len() == 0);
        }
        assert(items.take(n) =~= items);
        assert forall|i: int| 0 <= i < n implies (#[trigger] trace.order[i])
            == items[i].storage.entry_id by {}
        assert forall|i: int, j: int| 0 <= i < j < n implies trace.order[i] != trace.order[j] by {
            assert(items[i].storage.entry_id != items[j].storage.entry_id);
        }
        assert(trace.order.no_duplicates());
        assert forall|id: EntryId| trace.order.to_set().contains(id) <==> self.entries.dom().contains(
            id,
        ) by {
            if trace.order.contains(id) {
                let i = trace.order.index_of(id);
                assert(trace.order[i] == items[i].storage.entry_id);
            }
            if self.entries.contains_key(id) {
                let i = items.index_of(self.entries[id]);
                assert(items.contains(self.entries[id]));
                assert(trace.order[i] == items[i].storage.entry_id);
            }
        }
        assert(trace.order.to_set() =~= self.entries.dom());
        self.live_is_met(trace, n);
        self.live_are_entries(trace, self.with_policy(walk.steps.last().policies.last()));
        assert forall|i: int| 0 <= i < walk.steps.len() - 1 implies {
            &&& self.entries.contains_key(#[trigger] self.all_live(trace)[i])
            &&& self.entries[self.all_live(trace)[i]] == walk.found(i)
        } by {
            assert(walk.goes_on(i));
            let before = walk.walk_part(self, items, i);
            let b = before.order.len() as int;
            let m = walk.steps[i].expired.len() as int;
            assert(walk.found(i) == items[b + m - 1]);
        }
        trace
    }
}

} // verus!
