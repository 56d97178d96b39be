//! What holds of every map, whatever its policy.
use vstd::prelude::*;

use crate::entry::EntryId;
use crate::model::{AccessTrace, InsertTrace, MapModel, ResetTrace, SweepTrace};
use crate::policy::{Command, ExpirePolicy};

verus! {

/// An insertion leaves a sound map sound, with the entry for the key under the id that it got.
pub proof fn inserts_keeps_wf<K: Eq, V, P: ExpirePolicy, H>(
    pre: MapModel<K, V, P, H>,
    key: K,
    value: V,
    info: P::Info,
    trace: InsertTrace<P>,
    post: MapModel<K, V, P, H>,
    out: Option<V>,
)
    requires
        pre.wf(),
        pre.inserts(key, value, info, trace, post, out),
    ensures
        post.wf(),
        post.locate(key) == Some(trace.id),
        post.entries[trace.id].value == value,
        post.entries[trace.id].storage.storage == trace.storage,
        post.entries[trace.id].storage.removed == trace.command.lists(trace.id),
{
    let start = pre.release_first();
    if pre.backlog.len() > 0 {
        pre.release_keeps_wf(pre.backlog[0]);
    }
    start.release_all_keeps_wf();
    let base = trace.placed_from(start, key);
    base.acquire_keeps_wf(trace.id);
    let ready = base.acquire(trace.id);
    let placed = trace.placed(start, key, value);
    crate::hash::same_key_is_equivalence(pre.hash_builder, key, key, key);
    match start.locate(key) {
        Some(old_id) => {
            assert(start.holds(old_id, key));
            ready.replace_keeps_wf(old_id, trace.id, value, trace.storage);
            assert(placed =~= ready.replace(old_id, trace.id, value, trace.storage));
            assert(placed.holds(trace.id, key));
        },
        None => {
            assert forall|id: EntryId| !ready.holds(id, key) by {
                if ready.holds(id, key) {
                    assert(base.entries.dom().contains(id));
                    assert(start.entries.dom().contains(id));
                    assert(start.holds(id, key));
                }
            }
            ready.add_keeps_wf(trace.id, key, value, trace.storage);
            assert(placed =~= ready.add(trace.id, key, value, trace.storage));
        },
    }
    let told = placed.with_policy(post.policy);
    told.told_keeps_wf(trace.command);
    assert(post.holds(trace.id, key));
    post.locate_is(trace.id, key);
}

/// What a look at a key shows after a value was inserted for it: that value, unless the policy has
/// reported the entry, when it was inserted or when it was looked at, or finds it expired.
pub proof fn inserted_is_shown<K: Eq, V, P: ExpirePolicy, H>(
    pre: MapModel<K, V, P, H>,
    key: K,
    value: V,
    info: P::Info,
    trace: InsertTrace<P>,
    mid: MapModel<K, V, P, H>,
    out: Option<V>,
    access: AccessTrace<P>,
    post: MapModel<K, V, P, H>,
)
    requires
        pre.wf(),
        pre.inserts(key, value, info, trace, mid, out),
        mid.looks_up(key, access, post),
    ensures
        mid.entries[trace.id].value == value,
        mid.shown(key, access) == if access.expired || access.command.lists(trace.id)
            || trace.command.lists(trace.id) {
            None
        } else {
            Some(trace.id)
        },
{
    inserts_keeps_wf(pre, key, value, info, trace, mid, out);
    mid.told_keeps_wf(access.command);
}

/// What an insertion gives out after a value was inserted for the same key: that value, unless its
/// entry has been reported or the policy finds it expired.
pub proof fn inserted_is_given_out<K: Eq, V, P: ExpirePolicy, H>(
    pre: MapModel<K, V, P, H>,
    key: K,
    value: V,
    info: P::Info,
    trace: InsertTrace<P>,
    mid: MapModel<K, V, P, H>,
    out: Option<V>,
    value2: V,
    info2: P::Info,
    trace2: InsertTrace<P>,
    post: MapModel<K, V, P, H>,
    out2: Option<V>,
)
    requires
        pre.wf(),
        pre.inserts(key, value, info, trace, mid, out),
        mid.inserts(key, value2, info2, trace2, post, out2),
    ensures
        out2 == if trace2.expired || trace.command.lists(trace.id) || (mid.backlog.len() > 0
            && mid.backlog[0].contains(Some(trace.id))) {
            None
        } else {
            Some(value)
        },
{
    inserts_keeps_wf(pre, key, value, info, trace, mid, out);
    let start = mid.release_first();
    if mid.backlog.len() > 0 {
        mid.release_keeps_wf(mid.backlog[0]);
    }
    if start.entries.contains_key(trace.id) {
        assert(mid.holds(trace.id, key));
        assert(start.holds(trace.id, key));
        start.locate_is(trace.id, key);
    } else {
        assert forall|id: EntryId| !start.holds(id, key) by {
            if start.holds(id, key) {
                assert(mid.holds(id, key));
                mid.locate_is(id, key);
            }
        }
    }
}

/// An insertion touches no entry for another key, but for marking those that the policy reports
/// and taking those out that were reported before.
pub proof fn insertion_keeps_others<K: Eq, V, P: ExpirePolicy, H>(
    pre: MapModel<K, V, P, H>,
    key: K,
    value: V,
    info: P::Info,
    trace: InsertTrace<P>,
    post: MapModel<K, V, P, H>,
    out: Option<V>,
    id: EntryId,
)
    requires
        pre.wf(),
        pre.inserts(key, value, info, trace, post, out),
        pre.entries.contains_key(id),
        !crate::hash::same_key(pre.hash_builder, key, pre.entries[id].key),
        forall|i: int| 0 <= i < pre.backlog.len() ==> !(#[trigger] pre.backlog[i]).contains(Some(id)),
    ensures
        post.entries.contains_key(id),
        post.entries[id] == MapModel::<K, V, P, H>::marked(
            pre.entries[id],
            trace.command.lists(id),
        ),
{
    let start = pre.release_first();
    if pre.backlog.len() > 0 {
        pre.release_keeps_wf(pre.backlog[0]);
        assert(!pre.backlog[0].contains(Some(id)));
        assert forall|i: int| 0 <= i < start.backlog.len() implies !(
        #[trigger] start.backlog[i]).contains(Some(id)) by {
            assert(start.backlog[i] == pre.backlog[i + 1]);
        }
    }
    assert(start.entries.contains_key(id) && start.entries[id] == pre.entries[id]);
    unreported_stays(start, id);
    start.release_all_keeps_wf();
    let base = trace.placed_from(start, key);
    assert(base.entries.contains_key(id) && base.entries[id] == pre.entries[id]);
    assert(base.ids().contains(id));
    match start.locate(key) {
        Some(old_id) => {
            assert(start.holds(old_id, key));
            assert(old_id != id);
        },
        None => {},
    }
    let placed = trace.placed(start, key, value);
    assert(placed.entries.contains_key(id) && placed.entries[id] == pre.entries[id]);
}

/// To deal with the backlog touches no entry that no list of it names.
pub proof fn unreported_stays<K: Eq, V, P: ExpirePolicy, H>(
    map: MapModel<K, V, P, H>,
    id: EntryId,
)
    requires
        forall|i: int| 0 <= i < map.backlog.len() ==> !(#[trigger] map.backlog[i]).contains(Some(id)),
    ensures
        map.release_all().entries.contains_key(id) == map.entries.contains_key(id),
        map.entries.contains_key(id) ==> map.release_all().entries[id] == map.entries[id],
        map.release_all().retired.contains(id) == map.retired.contains(id),
    decreases map.backlog.len(),
{
    if map.backlog.len() > 0 {
        let next = map.release_first();
        assert(!map.backlog[0].contains(Some(id)));
        assert forall|i: int| 0 <= i < next.backlog.len() implies !(
        #[trigger] next.backlog[i]).contains(Some(id)) by {
            assert(next.backlog[i] == map.backlog[i + 1]);
        }
        unreported_stays(next, id);
    }
}

/// Once the backlog has been dealt with, nothing is left of the ids that its lists name: neither
/// their entries, nor the ids themselves.
pub proof fn reported_is_gone<K: Eq, V, P: ExpirePolicy, H>(
    map: MapModel<K, V, P, H>,
    id: EntryId,
    at: int,
)
    requires
        map.wf(),
        0 <= at < map.backlog.len(),
        map.backlog[at].contains(Some(id)),
    ensures
        !map.release_all().ids().contains(id),
    decreases map.backlog.len(),
{
    map.release_keeps_wf(map.backlog[0]);
    let next = map.release_first();
    if at > 0 {
        assert(next.backlog[at - 1] == map.backlog[at]);
        reported_is_gone(next, id, at - 1);
    } else {
        assert(!next.ids().contains(id));
        next.release_all_keeps_wf();
    }
}

/// An entry that a command lists is marked from then on.
pub proof fn reported_is_marked<K: Eq, V, P: ExpirePolicy, H>(
    map: MapModel<K, V, P, H>,
    command: Command,
    id: EntryId,
)
    requires
        map.entries.contains_key(id),
        command.lists(id),
    ensures
        map.told(command).entries.contains_key(id),
        map.told(command).entries[id].storage.removed,
        map.told(command).backlog.last().contains(Some(id)),
{
}

/// An entry that is marked is not shown, whatever the policy says, and a look at any entry leaves
/// it marked.
pub proof fn marked_is_hidden<K: Eq, V, P: ExpirePolicy, H>(
    pre: MapModel<K, V, P, H>,
    id: EntryId,
    key: K,
    access: AccessTrace<P>,
    post: MapModel<K, V, P, H>,
)
    requires
        pre.wf(),
        pre.entries.contains_key(id),
        pre.entries[id].storage.removed,
        pre.looks_up(key, access, post),
    ensures
        pre.shown(key, access) != Some(id),
        post.entries.contains_key(id),
        post.entries[id].storage.removed,
{
}

/// After the entry for a key was taken out, there is none for it.
pub proof fn removed_is_gone<K: Eq, V, P: ExpirePolicy, H>(
    pre: MapModel<K, V, P, H>,
    key: K,
    expired: bool,
    post: MapModel<K, V, P, H>,
)
    requires
        pre.wf(),
        pre.removes(key, expired, post),
    ensures
        post.wf(),
        post.locate(key) is None,
{
    pre.removes_keeps_room(key, expired, post);
    let start = pre.release_first();
    if pre.backlog.len() > 0 {
        pre.release_keeps_wf(pre.backlog[0]);
    }
    assert forall|id: EntryId| !post.holds(id, key) by {
        if post.holds(id, key) {
            assert(start.holds(id, key));
            start.locate_is(id, key);
        }
    }
}

/// A removal touches no entry for another key, but for taking those out that were reported before.
pub proof fn removal_keeps_others<K: Eq, V, P: ExpirePolicy, H>(
    pre: MapModel<K, V, P, H>,
    key: K,
    expired: bool,
    post: MapModel<K, V, P, H>,
    id: EntryId,
)
    requires
        pre.wf(),
        pre.removes(key, expired, post),
        pre.entries.contains_key(id),
        !crate::hash::same_key(pre.hash_builder, key, pre.entries[id].key),
        pre.backlog.len() > 0 ==> !pre.backlog[0].contains(Some(id)),
    ensures
        post.entries.contains_key(id),
        post.entries[id] == pre.entries[id],
{
    let start = pre.release_first();
    if start.locate(key) is Some {
        assert(start.holds(start.locate(key).unwrap(), key));
    }
}

/// A value that is written through a look at an entry is what the next look at it shows.
pub proof fn written_is_shown<K: Eq, V, P: ExpirePolicy, H>(
    pre: MapModel<K, V, P, H>,
    key: K,
    access: AccessTrace<P>,
    seen: MapModel<K, V, P, H>,
    value: V,
    access2: AccessTrace<P>,
    post: MapModel<K, V, P, H>,
)
    requires
        pre.wf(),
        pre.looks_up(key, access, seen),
        pre.shown(key, access) is Some,
        seen.set_value(pre.shown(key, access).unwrap(), value).looks_up(key, access2, post),
    ensures
        ({
            let id = pre.shown(key, access).unwrap();
            let written = seen.set_value(id, value);
            &&& written.entries[id].value == value
            &&& written.shown(key, access2) == if access2.expired || access2.command.lists(id) {
                None
            } else {
                Some(id)
            }
        }),
{
    let id = pre.shown(key, access).unwrap();
    let written = seen.set_value(id, value);
    assert(pre.holds(id, key));
    pre.told_keeps_wf(access.command);
    seen.set_value_keeps_wf(id, value);
    assert(written.holds(id, key));
    written.locate_is(id, key);
    written.told_keeps_wf(access2.command);
}

/// There are no more entries that have not expired than there are entries.
pub proof fn live_is_bounded<K: Eq, V, P: ExpirePolicy, H>(
    map: MapModel<K, V, P, H>,
    trace: SweepTrace<P>,
    post: MapModel<K, V, P, H>,
)
    requires
        map.sweeps(trace, post),
    ensures
        map.all_live(trace).len() <= map.entries.dom().len(),
{
    map.live_is_met(trace, trace.order.len() as int);
    trace.order.unique_seq_to_set();
}

/// A map without entries has none for any key, and none that a walk could meet.
pub proof fn vacant_is_empty<K: Eq, V, P: ExpirePolicy, H>(
    policy: P,
    hash_builder: H,
    key: K,
    trace: SweepTrace<P>,
    post: MapModel<K, V, P, H>,
)
    requires
        MapModel::<K, V, P, H>::vacant(policy, hash_builder).sweeps(trace, post),
    ensures
        MapModel::<K, V, P, H>::vacant(policy, hash_builder).locate(key) is None,
        MapModel::<K, V, P, H>::vacant(policy, hash_builder).all_live(trace).len() == 0,
{
    let map = MapModel::<K, V, P, H>::vacant(policy, hash_builder);
    assert forall|id: EntryId| !map.holds(id, key) by {}
    live_is_bounded(map, trace, post);
}

/// There is one entry to a key: two ids that lead to entries for keys that stand for each other
/// are one.
pub proof fn one_entry_to_a_key<K: Eq, V, P: ExpirePolicy, H>(
    map: MapModel<K, V, P, H>,
    key: K,
    a: EntryId,
    b: EntryId,
)
    requires
        map.wf(),
        map.holds(a, key),
        map.holds(b, key),
    ensures
        a == b,
{
    map.locate_is(a, key);
    map.locate_is(b, key);
}

/// After an entry in hand was taken out, there is none for its key.
pub proof fn removed_in_hand_is_gone<K: Eq, V, P: ExpirePolicy, H>(
    pre: MapModel<K, V, P, H>,
    id: EntryId,
    expired: bool,
    post: MapModel<K, V, P, H>,
)
    requires
        pre.wf(),
        pre.entries.contains_key(id),
        pre.removes_at(id, expired, post),
    ensures
        post.wf(),
        post.locate(pre.entries[id].key) is None,
{
    let key = pre.entries[id].key;
    pre.retire_keeps_wf(id);
    let taken = pre.retire(id).with_policy(post.policy);
    pre.retire(id).locate_same(taken, key);
    if taken.backlog.len() > 0 {
        taken.release_keeps_wf(taken.backlog[0]);
    }
    assert forall|other: EntryId| !post.holds(other, key) by {
        assert(!taken.holds(other, key));
    }
}

/// After a new value was set for an entry in hand, it is what there is for the key. Its entry
/// counts as not reported, whatever the policy said when it was set.
pub proof fn reset_is_found<K: Eq, V, P: ExpirePolicy, H>(
    pre: MapModel<K, V, P, H>,
    at: EntryId,
    value: V,
    info: P::Info,
    trace: ResetTrace<P>,
    post: MapModel<K, V, P, H>,
)
    requires
        pre.wf(),
        pre.entries.contains_key(at),
        pre.resets(at, value, info, trace, post),
    ensures
        post.wf(),
        post.locate(pre.entries[at].key) == Some(trace.id),
        post.entries[trace.id].key == pre.entries[at].key,
        post.entries[trace.id].value == value,
        !post.entries[trace.id].storage.removed,
{
    let key = pre.entries[at].key;
    pre.acquire_keeps_wf(trace.id);
    let acquired = pre.acquire(trace.id).with_policy(post.policy);
    acquired.told_keeps_wf(trace.command);
    let told = acquired.told(trace.command);
    told.replace_keeps_wf(at, trace.id, value, trace.storage);
    crate::hash::same_key_is_equivalence(pre.hash_builder, key, key, key);
    assert(post.holds(trace.id, key));
    post.locate_is(trace.id, key);
}

/// After a value was made anew from the old one, or given up, it is what there is for the key, or
/// there is nothing.
pub proof fn turned_is_found<K: Eq, V, P: ExpirePolicy, H>(
    pre: MapModel<K, V, P, H>,
    id: EntryId,
    out: Option<V>,
    command: Command,
    post: MapModel<K, V, P, H>,
)
    requires
        pre.wf(),
        pre.entries.contains_key(id),
        pre.turns(id, out, command, post),
    ensures
        post.wf(),
        match out {
            Some(value) => {
                &&& post.locate(pre.entries[id].key) == Some(id)
                &&& post.entries[id].value == value
            },
            None => post.locate(pre.entries[id].key) is None,
        },
{
    let key = pre.entries[id].key;
    crate::hash::same_key_is_equivalence(pre.hash_builder, key, key, key);
    match out {
        Some(value) => {
            let changed = pre.set_value(id, value);
            pre.set_value_keeps_wf(id, value);
            changed.told_keeps_wf(command);
            assert(post.holds(id, key));
            post.locate_is(id, key);
        },
        None => {
            let changed = pre.retire(id);
            pre.retire_keeps_wf(id);
            changed.told_keeps_wf(command);
            assert forall|other: EntryId| !post.holds(other, key) by {
                assert(!changed.holds(other, key));
            }
        },
    }
}

/// A look at an entry tells the policy of it and asks whether the entry has expired; whatever the
/// policy lists is marked, and the list waits behind those that wait already. A look for a key
/// that has no entry does nothing.
pub proof fn look_tells_policy<K: Eq, V, P: ExpirePolicy, H>(
    pre: MapModel<K, V, P, H>,
    key: K,
    access: AccessTrace<P>,
    post: MapModel<K, V, P, H>,
)
    requires
        pre.wf(),
        pre.looks_up(key, access, post),
    ensures
        (forall|id: EntryId| #[trigger]
            pre.entries.contains_key(id) ==> !crate::hash::same_key(
                pre.hash_builder,
                key,
                pre.entries[id].key,
            )) ==> post == pre && pre.shown(key, access) is None,
        forall|id: EntryId| #[trigger]
            pre.entries.contains_key(id) && crate::hash::same_key(
                pre.hash_builder,
                key,
                pre.entries[id].key,
            ) ==> {
                let storage = pre.entries[id].storage;
                &&& P::accessed(
                    pre.policy,
                    id,
                    storage.storage,
                    access.accessed,
                    access.command,
                )
                &&& P::judges(
                    access.accessed,
                    id,
                    storage.storage,
                    post.policy,
                    access.expired,
                )
                &&& pre.shown(key, access) == if access.expired || storage.removed
                    || access.command.lists(id) {
                    None
                } else {
                    Some(id)
                }
                &&& access.command.listed() matches Some(list) ==> post.backlog == pre.backlog.push(
                    list,
                )
                &&& access.command.listed() is None ==> post.backlog == pre.backlog
                &&& forall|other: EntryId| #[trigger]
                    pre.entries.contains_key(other) ==> post.entries.contains_key(other)
                        && post.entries[other].value == pre.entries[other].value
                        && post.entries[other].storage.removed == (
                    pre.entries[other].storage.removed || access.command.lists(other))
            },
{
    assert forall|id: EntryId| #[trigger]
        pre.entries.contains_key(id) && crate::hash::same_key(
            pre.hash_builder,
            key,
            pre.entries[id].key,
        ) implies pre.locate(key) == Some(id) by {
        assert(pre.holds(id, key));
        pre.locate_is(id, key);
    }
    if let Some(id) = pre.locate(key) {
        assert(pre.holds(id, key));
        pre.told_keeps_wf(access.command);
        assert(pre.entries.contains_key(id));
    }
}

/// An insertion has the policy make what is kept of the entry, asks about the entry that it takes
/// the place of, and tells the policy of the new one; the list that the policy gives then waits
/// behind all others.
pub proof fn insertion_tells_policy<K: Eq, V, P: ExpirePolicy, H>(
    pre: MapModel<K, V, P, H>,
    key: K,
    value: V,
    info: P::Info,
    trace: InsertTrace<P>,
    post: MapModel<K, V, P, H>,
    out: Option<V>,
)
    requires
        pre.wf(),
        pre.inserts(key, value, info, trace, post, out),
    ensures
        P::inits(pre.policy, info, trace.ready, trace.storage),
        P::inserted(trace.judged, trace.id, trace.storage, post.policy, trace.command),
        trace.command.listed() matches Some(list) ==> post.backlog.len() > 0 && post.backlog.last()
            == list,
        post.entries.contains_key(trace.id),
        post.entries[trace.id].storage.storage == trace.storage,
        forall|id: EntryId| #[trigger]
            pre.entries.contains_key(id) && crate::hash::same_key(
                pre.hash_builder,
                key,
                pre.entries[id].key,
            ) && !(pre.backlog.len() > 0 && pre.backlog[0].contains(Some(id))) ==> {
                &&& P::judges(
                    trace.ready,
                    id,
                    pre.entries[id].storage.storage,
                    trace.judged,
                    trace.expired,
                )
                &&& out == if trace.expired || pre.entries[id].storage.removed {
                    None
                } else {
                    Some(pre.entries[id].value)
                }
            },
{
    let start = pre.release_first();
    if pre.backlog.len() > 0 {
        pre.release_keeps_wf(pre.backlog[0]);
    }
    assert forall|id: EntryId| #[trigger]
        pre.entries.contains_key(id) && crate::hash::same_key(
            pre.hash_builder,
            key,
            pre.entries[id].key,
        ) && !(pre.backlog.len() > 0 && pre.backlog[0].contains(Some(id))) implies start.locate(key)
        == Some(id) && start.entries[id] == pre.entries[id] by {
        assert(start.holds(id, key));
        start.locate_is(id, key);
    }
}

/// A removal gives out the entry for the key if it has not expired and has not been reported, and
/// nothing otherwise.
pub proof fn removal_gives_out<K: Eq, V, P: ExpirePolicy, H>(
    pre: MapModel<K, V, P, H>,
    key: K,
    expired: bool,
    post: MapModel<K, V, P, H>,
    id: EntryId,
)
    requires
        pre.wf(),
        pre.removes(key, expired, post),
        pre.entries.contains_key(id),
        crate::hash::same_key(pre.hash_builder, key, pre.entries[id].key),
        pre.backlog.len() > 0 ==> !pre.backlog[0].contains(Some(id)),
    ensures
        P::judges(
            pre.policy,
            id,
            pre.entries[id].storage.storage,
            post.policy,
            expired,
        ),
        pre.taken(key, expired) == if expired || pre.entries[id].storage.removed {
            None
        } else {
            Some(pre.entries[id])
        },
{
    let start = pre.release_first();
    if pre.backlog.len() > 0 {
        pre.release_keeps_wf(pre.backlog[0]);
    }
    assert(start.holds(id, key));
    start.locate_is(id, key);
}

/// An insertion takes out the entries of the list that has waited longest, and the next list takes
/// its place; where the table had to grow for a new key, it takes out those of all lists.
pub proof fn insertion_takes_out<K: Eq, V, P: ExpirePolicy, H>(
    pre: MapModel<K, V, P, H>,
    key: K,
    value: V,
    info: P::Info,
    trace: InsertTrace<P>,
    post: MapModel<K, V, P, H>,
    out: Option<V>,
    at: int,
    id: EntryId,
)
    requires
        pre.wf(),
        pre.inserts(key, value, info, trace, post, out),
        0 <= at < pre.backlog.len(),
        pre.backlog[at].contains(Some(id)),
        id != trace.id,
    ensures
        at == 0 ==> !post.entries.contains_key(id),
        at > 0 ==> !post.entries.contains_key(id) || (at - 1 < post.backlog.len()
            && post.backlog[at - 1].contains(Some(id))),
{
    let start = pre.release_first();
    pre.release_keeps_wf(pre.backlog[0]);
    let from = trace.placed_from(start, key);
    let placed = trace.placed(start, key, value);
    if let Some(old_id) = start.locate(key) {
        assert(start.holds(old_id, key));
    }
    start.release_all_shrinks();
    if at > 0 {
        assert(start.backlog[at - 1] == pre.backlog[at]);
        if start.locate(key) is None && trace.grew {
            reported_is_gone(start, id, at - 1);
            assert(!from.entries.contains_key(id)) by {
                assert(!from.ids().contains(id));
            }
        } else {
            assert(placed.backlog == start.backlog);
            assert(post.backlog[at - 1] == start.backlog[at - 1]);
        }
    } else {
        assert(!start.entries.contains_key(id));
        if from.entries.contains_key(id) {
            assert(from.entries.dom().contains(id));
            assert(start.entries.dom().contains(id));
        }
    }
    if post.entries.contains_key(id) {
        assert(placed.entries.contains_key(id));
    }
}

/// A removal takes out the entries of the list that has waited longest.
pub proof fn removal_takes_out<K: Eq, V, P: ExpirePolicy, H>(
    pre: MapModel<K, V, P, H>,
    key: K,
    expired: bool,
    post: MapModel<K, V, P, H>,
    id: EntryId,
)
    requires
        pre.removes(key, expired, post),
        pre.backlog.len() > 0,
        pre.backlog[0].contains(Some(id)),
    ensures
        !post.entries.contains_key(id),
        post.backlog == pre.backlog.drop_first(),
{
}

/// What is reported does not stay in the map: as many insertions take it out as lists wait up to
/// its own, whatever is inserted.
pub proof fn reported_leaves<K: Eq, V, P: ExpirePolicy, H>(
    maps: Seq<MapModel<K, V, P, H>>,
    keys: Seq<K>,
    values: Seq<V>,
    infos: Seq<P::Info>,
    traces: Seq<InsertTrace<P>>,
    outs: Seq<Option<V>>,
    at: int,
    id: EntryId,
)
    requires
        maps.len() > at + 1,
        keys.len() > at,
        values.len() > at,
        infos.len() > at,
        traces.len() > at,
        outs.len() > at,
        0 <= at < maps[0].backlog.len(),
        maps[0].backlog[at].contains(Some(id)),
        forall|i: int|
            0 <= i <= at ==> {
                &&& (#[trigger] maps[i]).wf()
                &&& maps[i].inserts(keys[i], values[i], infos[i], traces[i], maps[i + 1], outs[i])
                &&& traces[i].id != id
            },
    ensures
        exists|k: int| 0 < k <= at + 1 && !(#[trigger] maps[k]).entries.contains_key(id),
    decreases at,
{
    assert(maps[0].wf());
    insertion_takes_out(
        maps[0],
        keys[0],
        values[0],
        infos[0],
        traces[0],
        maps[1],
        outs[0],
        at,
        id,
    );
    if maps[1].entries.contains_key(id) {
        let later = maps.drop_first();
        assert forall|i: int| 0 <= i <= at - 1 implies {
            &&& (#[trigger] later[i]).wf()
            &&& later[i].inserts(
                keys.drop_first()[i],
                values.drop_first()[i],
                infos.drop_first()[i],
                traces.drop_first()[i],
                later[i + 1],
                outs.drop_first()[i],
            )
            &&& traces.drop_first()[i].id != id
        } by {
            assert(later[i] == maps[i + 1] && later[i + 1] == maps[i + 1 + 1]);
            assert(maps[i + 1].wf());
        }
        reported_leaves(
            later,
            keys.drop_first(),
            values.drop_first(),
            infos.drop_first(),
            traces.drop_first(),
            outs.drop_first(),
            at - 1,
            id,
        );
        let k = choose|k: int| 0 < k <= at && !(#[trigger] later[k]).entries.contains_key(id);
        assert(!maps[k + 1].entries.contains_key(id));
    } else {
        assert(!maps[1].entries.contains_key(id));
    }
}

/// To open the entry for a key is to ask the policy of it and to change nothing else; the entry is
/// open if it has not expired and has not been reported.
pub proof fn opening_asks_policy<K: Eq, V, P: ExpirePolicy, H>(
    pre: MapModel<K, V, P, H>,
    key: K,
    expired: bool,
    post: MapModel<K, V, P, H>,
)
    requires
        pre.wf(),
        pre.opens(key, expired, post),
    ensures
        post.entries == pre.entries,
        post.backlog == pre.backlog,
        (forall|id: EntryId| #[trigger]
            pre.entries.contains_key(id) ==> !crate::hash::same_key(
                pre.hash_builder,
                key,
                pre.entries[id].key,
            )) ==> post == pre && pre.opened(key, expired) is None,
        forall|id: EntryId| #[trigger]
            pre.entries.contains_key(id) && crate::hash::same_key(
                pre.hash_builder,
                key,
                pre.entries[id].key,
            ) ==> {
                let storage = pre.entries[id].storage;
                &&& P::judges(pre.policy, id, storage.storage, post.policy, expired)
                &&& pre.opened(key, expired) == if expired || storage.removed {
                    None
                } else {
                    Some(id)
                }
            },
{
    assert forall|id: EntryId| #[trigger]
        pre.entries.contains_key(id) && crate::hash::same_key(
            pre.hash_builder,
            key,
            pre.entries[id].key,
        ) implies pre.locate(key) == Some(id) by {
        assert(pre.holds(id, key));
        pre.locate_is(id, key);
    }
    if let Some(id) = pre.locate(key) {
        assert(pre.holds(id, key));
        assert(pre.entries.contains_key(id));
    }
}

/// To set a new value for an entry in hand has the policy make what is kept of it and tells the
/// policy of it, as an insertion does; the entries of other keys keep their values.
pub proof fn reset_tells_policy<K: Eq, V, P: ExpirePolicy, H>(
    pre: MapModel<K, V, P, H>,
    at: EntryId,
    value: V,
    info: P::Info,
    trace: ResetTrace<P>,
    post: MapModel<K, V, P, H>,
)
    requires
        pre.wf(),
        pre.entries.contains_key(at),
        pre.resets(at, value, info, trace, post),
    ensures
        P::inits(pre.policy, info, trace.ready, trace.storage),
        P::inserted(trace.ready, trace.id, trace.storage, post.policy, trace.command),
        post.entries[trace.id].storage.storage == trace.storage,
        !post.entries.contains_key(at),
        trace.command.listed() matches Some(list) ==> post.backlog == pre.backlog.push(list),
        trace.command.listed() is None ==> post.backlog == pre.backlog,
        forall|other: EntryId| #[trigger]
            pre.entries.contains_key(other) && other != at ==> post.entries.contains_key(other)
                && post.entries[other].key == pre.entries[other].key
                && post.entries[other].value == pre.entries[other].value
                && post.entries[other].storage.removed == (pre.entries[other].storage.removed
                || trace.command.lists(other)),
{
    reset_is_found(pre, at, value, info, trace, post);
    assert(pre.ids().contains(at));
    let acquired = pre.acquire(trace.id).with_policy(post.policy);
    pre.acquire_keeps_wf(trace.id);
    acquired.told_keeps_wf(trace.command);
    assert forall|other: EntryId| #[trigger]
        pre.entries.contains_key(other) && other != at implies post.entries.contains_key(other) by {
        assert(pre.ids().contains(other));
        assert(acquired.entries.contains_key(other));
    }
}

/// To make a value anew from the old one, or to give it up, is an access: the policy is told of it,
/// and the entries of other keys keep their values.
pub proof fn turn_tells_policy<K: Eq, V, P: ExpirePolicy, H>(
    pre: MapModel<K, V, P, H>,
    id: EntryId,
    out: Option<V>,
    command: Command,
    post: MapModel<K, V, P, H>,
)
    requires
        pre.wf(),
        pre.entries.contains_key(id),
        pre.turns(id, out, command, post),
    ensures
        P::accessed(pre.policy, id, pre.entries[id].storage.storage, post.policy, command),
        command.listed() matches Some(list) ==> post.backlog == pre.backlog.push(list),
        command.listed() is None ==> post.backlog == pre.backlog,
        forall|other: EntryId| #[trigger]
            pre.entries.contains_key(other) && other != id ==> post.entries.contains_key(other)
                && post.entries[other].key == pre.entries[other].key
                && post.entries[other].value == pre.entries[other].value
                && post.entries[other].storage.removed == (pre.entries[other].storage.removed
                || command.lists(other)),
{
    match out {
        Some(value) => {
            pre.set_value_keeps_wf(id, value);
            pre.set_value(id, value).told_keeps_wf(command);
        },
        None => {
            pre.retire_keeps_wf(id);
            pre.retire(id).told_keeps_wf(command);
        },
    }
}

/// The removal of an entry in hand leaves the others as they are, but for those of the list that
/// has waited longest, which it takes out.
pub proof fn removal_in_hand_keeps_others<K: Eq, V, P: ExpirePolicy, H>(
    pre: MapModel<K, V, P, H>,
    id: EntryId,
    expired: bool,
    post: MapModel<K, V, P, H>,
    other: EntryId,
)
    requires
        pre.wf(),
        pre.entries.contains_key(id),
        pre.removes_at(id, expired, post),
        pre.entries.contains_key(other),
        other != id,
    ensures
        P::judges(pre.policy, id, pre.entries[id].storage.storage, post.policy, expired),
        post.entries.contains_key(other) <==> !(pre.backlog.len() > 0 && pre.backlog[0].contains(
            Some(other),
        )),
        post.entries.contains_key(other) ==> post.entries[other] == pre.entries[other],
{
}

} // verus!
