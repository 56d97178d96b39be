//! The entries of one map against those of another.
use std::hash::{BuildHasher, Hash};

use vstd::prelude::*;

use crate::entry::EntryId;
use crate::map::HashMap;
use crate::model::{AccessTrace, MapModel, SweepTrace};
use crate::policy::ExpirePolicy;

verus! {

/// How a walk over the entries of one map went, in which each entry that had not expired was
/// looked up in another: the walk, the looks at the other map, and the states that the other map
/// was in from the first look on.
pub struct CompareTrace<K, V, P: ExpirePolicy, H> {
    pub sweep: SweepTrace<P>,
    pub accesses: Seq<AccessTrace<P>>,
    pub states: Seq<MapModel<K, V, P, H>>,
}

impl<K: Eq, V, P: ExpirePolicy, H> MapModel<K, V, P, H> {
    /// A walk over entries of this map, none of them met twice, and a look at `other` for each
    /// that had not expired, went as the trace says.
    pub open spec fn compares(self, other: Self, trace: CompareTrace<K, V, P, H>) -> bool {
        let live = self.all_live(trace.sweep);
        &&& self.sweeps_part(trace.sweep)
        &&& trace.sweep.order.no_duplicates()
        &&& forall|id: EntryId| #[trigger]
            trace.sweep.order.contains(id) ==> self.entries.contains_key(id)
        &&& trace.accesses.len() == live.len()
        &&& trace.states.len() == live.len() + 1
        &&& trace.states[0] == other
        &&& forall|i: int| 0 <= i < live.len() ==> #[trigger] self.compares_at(trace, i)
    }

    /// The look at the other map for one of the entries.
    pub open spec fn compares_at(self, trace: CompareTrace<K, V, P, H>, i: int) -> bool {
        trace.states[i].looks_up(
            self.entries[self.all_live(trace.sweep)[i]].key,
            trace.accesses[i],
            trace.states[i + 1],
        )
    }

    /// The other map showed an entry for the key of one of the entries.
    pub open spec fn is_matched(self, trace: CompareTrace<K, V, P, H>, i: int) -> bool {
        trace.states[i].shown(
            self.entries[self.all_live(trace.sweep)[i]].key,
            trace.accesses[i],
        ) is Some
    }

    /// Those among the first `n` entries that had not expired for which the other map showed an
    /// entry, or showed none, as `wanted` says.
    pub open spec fn picks(
        self,
        trace: CompareTrace<K, V, P, H>,
        wanted: bool,
        n: int,
    ) -> Seq<EntryId>
        decreases n,
    {
        if n <= 0 {
            Seq::empty()
        } else if self.is_matched(trace, n - 1) == wanted {
            self.picks(trace, wanted, n - 1).push(self.all_live(trace.sweep)[n - 1])
        } else {
            self.picks(trace, wanted, n - 1)
        }
    }

    /// All such entries of the walk.
    pub open spec fn all_picks(self, trace: CompareTrace<K, V, P, H>, wanted: bool) -> Seq<
        EntryId,
    > {
        self.picks(trace, wanted, self.all_live(trace.sweep).len() as int)
    }

    /// The walk met every entry.
    pub open spec fn compares_all(self, trace: CompareTrace<K, V, P, H>) -> bool {
        trace.sweep.order.to_set() == self.entries.dom()
    }

    /// The walk stopped at the first entry that was wanted, or met every entry where there was
    /// none.
    pub open spec fn compares_until(
        self,
        trace: CompareTrace<K, V, P, H>,
        wanted: bool,
    ) -> bool {
        let picks = self.all_picks(trace, wanted);
        if picks.len() == 0 {
            self.compares_all(trace)
        } else {
            picks.len() == 1 && picks[0] == trace.sweep.order.last()
        }
    }

    /// An entry is picked if and only if it had not expired and the other map showed an entry for
    /// its key, or showed none, as was wanted.
    pub proof fn picks_are_wanted(
        self,
        trace: CompareTrace<K, V, P, H>,
        wanted: bool,
        n: int,
        id: EntryId,
    )
        requires
            0 <= n <= self.all_live(trace.sweep).len(),
        ensures
            self.picks(trace, wanted, n).contains(id) <==> exists|i: int|
                0 <= i < n && #[trigger] self.all_live(trace.sweep)[i] == id && self.is_matched(
                    trace,
                    i,
                ) == wanted,
        decreases n,
    {
        if n > 0 {
            self.picks_are_wanted(trace, wanted, n - 1, id);
            let live = self.all_live(trace.sweep);
            let before = self.picks(trace, wanted, n - 1);
            let picks = self.picks(trace, wanted, n);
            if before.contains(id) {
                let i = before.index_of(id);
                assert(picks[i] == id);
            }
            if picks.contains(id) && !before.contains(id) {
                let i = picks.index_of(id);
                assert(i == before.len());
                assert(live[n - 1] == id);
            }
            if exists|i: int|
                0 <= i < n && #[trigger] live[i] == id && self.is_matched(trace, i) == wanted {
                let i = choose|i: int|
                    0 <= i < n && #[trigger] live[i] == id && self.is_matched(trace, i) == wanted;
                if i == n - 1 {
                    assert(picks.last() == id);
                } else {
                    assert(live[i] == id);
                }
            }
        }
    }

    /// The entries for which the other map showed an entry, and those for which it showed none,
    /// are all that had not expired.
    pub proof fn picks_add_up(self, trace: CompareTrace<K, V, P, H>, n: int)
        requires
            0 <= n,
        ensures
            self.picks(trace, true, n).len() + self.picks(trace, false, n).len() == n,
        decreases n,
    {
        if n > 0 {
            self.picks_add_up(trace, n - 1);
        }
    }

    /// What was picked is there.
    pub proof fn picks_are_entries(
        self,
        other: Self,
        trace: CompareTrace<K, V, P, H>,
        wanted: bool,
        n: int,
    )
        requires
            self.compares(other, trace),
            0 <= n <= self.all_live(trace.sweep).len(),
        ensures
            forall|i: int|
                0 <= i < self.picks(trace, wanted, n).len() ==> self.entries.contains_key(
                    #[trigger] self.picks(trace, wanted, n)[i],
                ),
        decreases n,
    {
        if n > 0 {
            self.picks_are_entries(other, trace, wanted, n - 1);
            let live = self.all_live(trace.sweep);
            self.live_is_met(trace.sweep, trace.sweep.order.len() as int);
            assert(live.contains(live[n - 1]));
            assert(trace.sweep.order.take(trace.sweep.order.len() as int) =~= trace.sweep.order);
            assert(trace.sweep.order.contains(live[n - 1]));
            let picks = self.picks(trace, wanted, n);
            assert forall|i: int| 0 <= i < picks.len() implies self.entries.contains_key(
                #[trigger] picks[i],
            ) by {
                let before = self.picks(trace, wanted, n - 1);
                if i < before.len() {
                    assert(picks[i] == before[i]);
                }
            }
        }
    }
}

impl<K, V, P: ExpirePolicy, H> CompareTrace<K, V, P, H> {
    /// A walk that has not begun.
    pub open spec fn begin(policy: P, other: MapModel<K, V, P, H>) -> Self {
        CompareTrace {
            sweep: SweepTrace::begin(policy),
            accesses: Seq::empty(),
            states: seq![other],
        }
    }

    /// The walk after an entry was met that had expired.
    pub open spec fn pass(self, id: EntryId, policy: P, expired: bool) -> Self {
        CompareTrace { sweep: self.sweep.step(id, policy, expired), ..self }
    }

    /// The walk after an entry was met that had not expired, and was looked up.
    pub open spec fn look(
        self,
        id: EntryId,
        policy: P,
        access: AccessTrace<P>,
        state: MapModel<K, V, P, H>,
    ) -> Self {
        CompareTrace {
            sweep: self.sweep.step(id, policy, false),
            accesses: self.accesses.push(access),
            states: self.states.push(state),
        }
    }
}

impl<K: Eq, V, P: ExpirePolicy, H> CompareTrace<K, V, P, H> {
    /// One more entry leaves what was picked before as it was.
    pub proof fn extends(
        self,
        next: Self,
        map: MapModel<K, V, P, H>,
        other: MapModel<K, V, P, H>,
        wanted: bool,
        n: int,
    )
        requires
            map.compares(other, self),
            0 <= n <= map.all_live(self.sweep).len(),
            map.all_live(self.sweep).len() <= map.all_live(next.sweep).len(),
            forall|i: int|
                0 <= i < map.all_live(self.sweep).len() ==> {
                    &&& #[trigger] map.all_live(next.sweep)[i] == map.all_live(self.sweep)[i]
                    &&& next.accesses[i] == self.accesses[i]
                    &&& next.states[i] == self.states[i]
                },
        ensures
            map.picks(next, wanted, n) == map.picks(self, wanted, n),
        decreases n,
    {
        if n > 0 {
            self.extends(next, map, other, wanted, n - 1);
            assert(map.all_live(next.sweep)[n - 1] == map.all_live(self.sweep)[n - 1]);
        }
    }
}

impl<K: Hash + Eq, V, P: ExpirePolicy, H: BuildHasher> HashMap<K, V, P, H> {
    /// Walks over the entries and looks each that has not expired up in `other`, up to the first
    /// for which `other` shows an entry, or shows none, as `wanted` says. The result is whether
    /// there is one.
    pub(crate) fn compare(&mut self, other: &mut Self, wanted: bool) -> (picked: (
        bool,
        Ghost<CompareTrace<K, V, P, H>>,
    ))
        requires
            old(self).wf(),
            old(other).wf(),
        ensures
            final(self).wf(),
            final(other).wf(),
            old(self)@.compares(old(other)@, picked.1@),
            final(self)@ == old(self)@.with_policy(picked.1@.sweep.policies.last()),
            final(other)@ == picked.1@.states.last(),
            old(self)@.compares_until(picked.1@, wanted),
            picked.0 == (old(self)@.all_picks(picked.1@, wanted).len() > 0),
    {
        let ghost pre = *self;
        let ghost pre_other = *other;
        let mut trace: Ghost<CompareTrace<K, V, P, H>> = Ghost(
            CompareTrace::begin(self.exp_policy, other@),
        );
        let n = self.table.bucket_count();
        let mut b: usize = 0;
        while b < n
            invariant
                b <= n,
                pre == *old(self),
                pre_other == *old(other),
                pre.wf(),
                other.wf(),
                forall|c: usize| pre.table@.contains_key(c) ==> c < n,
                self.table == pre.table,
                self.exp_bucket_table == pre.exp_bucket_table,
                self.exp_backlog == pre.exp_backlog,
                self.hash_builder == pre.hash_builder,
                pre@.compares(pre_other@, trace@),
                self.exp_policy == trace@.sweep.policies.last(),
                other@ == trace@.states.last(),
                forall|i: int|
                    #![trigger trace@.sweep.order[i]]
                    0 <= i < trace@.sweep.order.len() ==> {
                        &&& pre.bucket_of(trace@.sweep.order[i]) matches Some(c)
                        &&& c < b
                    },
                forall|c: usize|
                    c < b && #[trigger] pre.table@.contains_key(c) ==> trace@.sweep.order.contains(
                        pre.table@[c].item.storage.entry_id,
                    ),
                pre@.all_picks(trace@, wanted).len() == 0,
            decreases n - b,
        {
            let ghost before = trace@;
            let mut picked = false;
            if let Some(item) = self.table.peek(b) {
                let id = item.storage.entry_id;
                let is_expired = self.exp_policy.is_expired(id, &item.storage.storage);
                let ghost policy = self.exp_policy;
                proof {
                    pre.bucket_agrees(b);
                    before.sweep.step_extends(
                        pre@,
                        id,
                        policy,
                        is_expired,
                        before.sweep.order.len() as int,
                    );
                    assert(!before.sweep.order.contains(id)) by {
                        if before.sweep.order.contains(id) {
                            let i = before.sweep.order.index_of(id);
                            assert(before.sweep.order[i] == id);
                        }
                    }
                }
                if !is_expired && !item.storage.is_removed() {
                    let ghost state = other@;
                    let (found, Ghost(access)) = other.seek(&item.key);
                    let matched = found.is_some();
                    proof {
                        trace@ = before.look(id, policy, access, other@);
                        let live = pre@.all_live(before.sweep);
                        assert(pre@.all_live(trace@.sweep) =~= live.push(id));
                        assert forall|i: int|
                            0 <= i < live.len() + 1 implies #[trigger] pre@.compares_at(
                            trace@,
                            i,
                        ) by {
                            if i < live.len() {
                                assert(pre@.compares_at(before, i));
                            }
                        }
                        before.extends(trace@, pre@, pre_other@, wanted, live.len() as int);
                    }
                    picked = matched == wanted;
                } else {
                    proof {
                        trace@ = before.pass(id, policy, is_expired);
                        let live = pre@.all_live(before.sweep);
                        assert(pre@.all_live(trace@.sweep) =~= live);
                        assert forall|i: int|
                            0 <= i < live.len() implies #[trigger] pre@.compares_at(trace@, i) by {
                            assert(pre@.compares_at(before, i));
                        }
                        before.extends(trace@, pre@, pre_other@, wanted, live.len() as int);
                    }
                }
                proof {
                    assert forall|other_id: EntryId| #[trigger]
                        trace@.sweep.order.contains(other_id) implies pre@.entries.contains_key(
                        other_id,
                    ) by {
                        if other_id != id {
                            let i = trace@.sweep.order.index_of(other_id);
                            assert(before.sweep.order[i] == other_id);
                            assert(before.sweep.order.contains(other_id));
                        }
                    }
                    assert forall|c: usize|
                        c <= b && #[trigger] pre.table@.contains_key(
                            c,
                        ) implies trace@.sweep.order.contains(
                        pre.table@[c].item.storage.entry_id,
                    ) by {
                        let other_id = pre.table@[c].item.storage.entry_id;
                        if c == b {
                            assert(trace@.sweep.order.last() == id);
                        } else {
                            let i = before.sweep.order.index_of(other_id);
                            assert(trace@.sweep.order[i] == other_id);
                        }
                    }
                }
                if picked {
                    proof {
                        Self::policy_changed(pre, *self);
                    }
                    return (true, trace);
                }
            }
            b += 1;
        }
        proof {
            Self::policy_changed(pre, *self);
            assert forall|id: EntryId| trace@.sweep.order.to_set().contains(id)
                <==> pre@.entries.contains_key(id) by {
                if pre@.entries.contains_key(id) {
                    pre.id_agrees(id);
                }
            }
            assert(trace@.sweep.order.to_set() =~= pre@.entries.dom());
        }
        (false, trace)
    }

    /// The key in a bucket.
    pub(crate) fn key_at(&self, bucket: usize, id: Ghost<EntryId>) -> (key: &K)
        requires
            self.wf(),
            self.is_at(bucket, id@),
        ensures
            *key == self@.entries[id@].key,
    {
        proof {
            self.id_agrees(id@);
        }
        &self.table.get(bucket).key
    }
}

} // verus!
