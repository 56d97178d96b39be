//! Entries that all live for the same time.
use vstd::prelude::*;

use crate::entry::EntryId;
use crate::life::{Step, Timely};
use crate::model::{AccessTrace, InsertTrace, MapModel};
use crate::policy::{Command, ExpirePolicy};
use crate::time::{Clock, Duration, Instant};

verus! {

/// A policy by which all entries live for the same time. An entry that has outlived it is
/// reported when somebody looks at it.
pub struct LazyFixedTTLPolicy {
    clock: Clock,
    ttl: Duration,
}

impl LazyFixedTTLPolicy {
    /// The time that was read last.
    pub closed spec fn time(&self) -> Instant {
        self.clock.time()
    }

    /// The clock.
    pub closed spec fn clock(&self) -> Clock {
        self.clock
    }

    /// How long the entries live.
    pub closed spec fn span(&self) -> Duration {
        self.ttl
    }

    /// From `pre` to `post` the clock was looked at once, and nothing else has changed.
    pub open spec fn waits(pre: Self, post: Self) -> bool {
        &&& pre.time() == pre.clock().time()
        &&& post.time() == post.clock().time()
        &&& Clock::ticks(pre.clock(), post.clock())
        &&& pre.time().nanos <= post.time().nanos
        &&& post.span() == pre.span()
    }

    /// A policy by which entries live for this long.
    pub fn new(ttl: Duration) -> (policy: LazyFixedTTLPolicy)
        ensures
            policy.span() == ttl,
            policy.time() == (Instant { nanos: 0 }),
            policy.clock().time() == (Instant { nanos: 0 }),
            policy.clock().is_started(),
    {
        LazyFixedTTLPolicy { clock: Clock::start(), ttl }
    }

    /// Whether an entry with this deadline has expired at a point in time.
    pub fn is_expired_at(deadline: &Instant, now: Instant) -> (expired: bool)
        ensures
            expired == (deadline.nanos <= now.nanos),
    {
        deadline.nanos <= now.nanos
    }

    /// Reports an entry if it has expired at a point in time.
    pub fn on_access_at(entry: EntryId, deadline: &Instant, now: Instant) -> (command: Command)
        ensures
            command == (if deadline.nanos <= now.nanos {
                Command::Remove(entry)
            } else {
                Command::Noop
            }),
    {
        if LazyFixedTTLPolicy::is_expired_at(deadline, now) {
            Command::Remove(entry)
        } else {
            Command::Noop
        }
    }
}

impl ExpirePolicy for LazyFixedTTLPolicy {
    type Info = ();

    /// The point in time at which the entry expires.
    type Storage = Instant;

    open spec fn inits(pre: Self, info: (), post: Self, storage: Instant) -> bool {
        &&& LazyFixedTTLPolicy::waits(pre, post)
        &&& storage == post.time().later(pre.span())
    }

    open spec fn clears(pre: Self, post: Self) -> bool {
        post == pre
    }

    open spec fn judges(
        pre: Self,
        entry: EntryId,
        storage: Instant,
        post: Self,
        expired: bool,
    ) -> bool {
        &&& LazyFixedTTLPolicy::waits(pre, post)
        &&& expired == (storage.nanos <= post.time().nanos)
    }

    open spec fn accessed(
        pre: Self,
        entry: EntryId,
        storage: Instant,
        post: Self,
        command: Command,
    ) -> bool {
        &&& LazyFixedTTLPolicy::waits(pre, post)
        &&& command == if storage.nanos <= post.time().nanos {
            Command::Remove(entry)
        } else {
            Command::Noop
        }
    }

    open spec fn inserted(
        pre: Self,
        entry: EntryId,
        storage: Instant,
        post: Self,
        command: Command,
    ) -> bool {
        post == pre && command is Noop
    }

    open spec fn resized(pre: Self, post: Self, command: Command) -> bool {
        post == pre && command is Noop
    }

    fn init_storage(&mut self, info: ()) -> (storage: Instant) {
        let now = self.clock.now();
        now.plus(self.ttl)
    }

    fn clear(&mut self) {
    }

    fn is_expired(&mut self, entry: EntryId, storage: &Instant) -> (expired: bool) {
        let now = self.clock.now();
        LazyFixedTTLPolicy::is_expired_at(storage, now)
    }

    fn on_access(&mut self, entry: EntryId, storage: &Instant) -> (command: Command) {
        let now = self.clock.now();
        LazyFixedTTLPolicy::on_access_at(entry, storage, now)
    }

    fn on_insert(&mut self, entry: EntryId, storage: &Instant) -> (command: Command) {
        Command::Noop
    }

    fn on_resize(&mut self) -> (command: Command) {
        Command::Noop
    }
}

/// An entry has expired when the time that entries live has passed since it was inserted, and not
/// before.
pub proof fn expires_on_time(
    pre: LazyFixedTTLPolicy,
    mid: LazyFixedTTLPolicy,
    deadline: Instant,
    later: LazyFixedTTLPolicy,
    entry: EntryId,
    post: LazyFixedTTLPolicy,
    expired: bool,
)
    requires
        LazyFixedTTLPolicy::inits(pre, (), mid, deadline),
        LazyFixedTTLPolicy::judges(later, entry, deadline, post, expired),
        mid.time().nanos + pre.span().nanos <= u128::MAX,
    ensures
        expired <==> post.time().nanos >= mid.time().nanos + pre.span().nanos,
{
}

/// By the readings of the outside clock that are taken in the two calls, as long as they do not go
/// back: an entry has expired when the time that entries live has passed between them, and not
/// before.
pub proof fn expires_by_the_clock(
    pre: LazyFixedTTLPolicy,
    mid: LazyFixedTTLPolicy,
    deadline: Instant,
    later: LazyFixedTTLPolicy,
    entry: EntryId,
    post: LazyFixedTTLPolicy,
    expired: bool,
)
    requires
        LazyFixedTTLPolicy::inits(pre, (), mid, deadline),
        LazyFixedTTLPolicy::judges(later, entry, deadline, post, expired),
        pre.clock().time().nanos <= mid.clock().readings().last(),
        later.clock().time().nanos <= post.clock().readings().last(),
        mid.clock().readings().last() + pre.span().nanos <= u128::MAX,
    ensures
        mid.clock().readings().len() == pre.clock().readings().len() + 1,
        mid.clock().can_show(mid.clock().readings().last()),
        post.clock().readings().len() == later.clock().readings().len() + 1,
        post.clock().can_show(post.clock().readings().last()),
        expired <==> post.clock().readings().last() - mid.clock().readings().last()
            >= pre.span().nanos,
{
    Clock::shows_what_has_passed(pre.clock(), mid.clock());
    Clock::shows_what_has_passed(later.clock(), post.clock());
}

/// A look reports an entry if and only if its time is over by the reading of the outside clock
/// that is taken in it.
pub proof fn reports_by_the_clock(
    pre: LazyFixedTTLPolicy,
    entry: EntryId,
    deadline: Instant,
    post: LazyFixedTTLPolicy,
    command: Command,
    id: EntryId,
)
    requires
        LazyFixedTTLPolicy::accessed(pre, entry, deadline, post, command),
        pre.clock().time().nanos <= post.clock().readings().last(),
    ensures
        post.clock().readings().len() == pre.clock().readings().len() + 1,
        post.clock().can_show(post.clock().readings().last()),
        command.lists(id) <==> id == entry && deadline.nanos <= post.clock().readings().last(),
{
    Clock::shows_what_has_passed(pre.clock(), post.clock());
    if command == Command::Remove(entry) {
        let one = seq![Some(entry)];
        assert(one[0] == Some(entry));
    }
}

/// An entry that a look does not show because its time is over is not shown by the next look
/// either, and the next look reports it.
pub proof fn expired_stays_hidden<K: Eq, V, H>(
    pre: MapModel<K, V, LazyFixedTTLPolicy, H>,
    key: K,
    access: AccessTrace<LazyFixedTTLPolicy>,
    mid: MapModel<K, V, LazyFixedTTLPolicy, H>,
    access2: AccessTrace<LazyFixedTTLPolicy>,
    post: MapModel<K, V, LazyFixedTTLPolicy, H>,
)
    requires
        pre.wf(),
        pre.locate(key) is Some,
        pre.looks_up(key, access, mid),
        access.expired,
        mid.looks_up(key, access2, post),
    ensures
        access2.expired,
        access2.command == Command::Remove(pre.locate(key).unwrap()),
        mid.shown(key, access2) is None,
{
    let id = pre.locate(key).unwrap();
    pre.told_keeps_wf(access.command);
    assert(pre.holds(id, key));
    assert(mid.holds(id, key));
    mid.locate_is(id, key);
}

impl Timely for LazyFixedTTLPolicy {
    open spec fn read_at(self, storage: Instant) -> Instant {
        self.time()
    }

    open spec fn is_sound(self) -> bool {
        true
    }

    open spec fn can_begin(self) -> bool {
        true
    }

    open spec fn recorded(self) -> Set<EntryId> {
        Set::empty()
    }

    open spec fn knows(self, storage: Instant) -> bool {
        true
    }

    open spec fn are_apart(a: Instant, b: Instant) -> bool {
        true
    }

    open spec fn deadline(self, storage: Instant) -> Instant {
        storage
    }

    open spec fn minds(self, entry: EntryId, storage: Instant) -> bool {
        true
    }

    open spec fn follows(self, storage: Instant) -> bool {
        true
    }

    proof fn inits_timely(
        pre: Self,
        info: (),
        post: Self,
        made: Instant,
        id: EntryId,
        s: Instant,
    ) {
    }

    proof fn judges_timely(
        pre: Self,
        entry: EntryId,
        storage: Instant,
        post: Self,
        expired: bool,
        id: EntryId,
        s: Instant,
    ) {
    }

    proof fn accessed_timely(
        pre: Self,
        entry: EntryId,
        storage: Instant,
        post: Self,
        command: Command,
        id: EntryId,
        s: Instant,
    ) {
        if command.lists(id) {
            let one = seq![Some(entry)];
            assert(one.contains(Some(id)));
            assert(one[0] == Some(id));
        }
    }

    proof fn inserted_timely(
        pre: Self,
        entry: EntryId,
        storage: Instant,
        post: Self,
        command: Command,
        id: EntryId,
        s: Instant,
    ) {
    }

    proof fn clears_timely(pre: Self, post: Self, s: Instant) {
    }
}

/// A value is shown by a look before the time that entries live is over, and by none after it,
/// whatever is done to the map in between that spares its entry, provided that no report of an
/// earlier entry by the same id waits in the backlog.
pub proof fn lives_for_its_time<K: Eq, V, H>(
    pre: MapModel<K, V, LazyFixedTTLPolicy, H>,
    key: K,
    value: V,
    trace: InsertTrace<LazyFixedTTLPolicy>,
    out: Option<V>,
    maps: Seq<MapModel<K, V, LazyFixedTTLPolicy, H>>,
    steps: Seq<Step<K, V, LazyFixedTTLPolicy>>,
    access: AccessTrace<LazyFixedTTLPolicy>,
    post: MapModel<K, V, LazyFixedTTLPolicy, H>,
)
    requires
        pre.wf(),
        pre.inserts(key, value, (), trace, maps[0], out),
        !trace.placed_from(pre.release_first(), key).waits(trace.id),
        crate::life::runs(maps, steps),
        forall|i: int| 0 <= i < steps.len() ==> maps[i].spares(#[trigger] steps[i], trace.id),
        maps.last().looks_up(key, access, post),
        maps.last().policy.time().nanos < trace.ready.time().nanos + pre.policy.span().nanos
            <= u128::MAX,
    ensures
        maps.last().entries[trace.id].value == value,
        maps.last().shown(key, access) == if post.policy.time().nanos < trace.ready.time().nanos
            + pre.policy.span().nanos {
            Some(trace.id)
        } else {
            None
        },
{
    let id = trace.id;
    let until = trace.storage;
    assert forall|i: int| 0 <= i < steps.len() implies maps[i].is_fresh(#[trigger] steps[i]) by {}
    crate::life::run_takes_time(maps, steps, 0, maps.len() - 1, trace.storage);
    pre.inserted_is_kept(key, value, (), trace, maps[0], out);
    assert forall|i: int| 0 <= i < steps.len() implies maps[i].spares(#[trigger] steps[i], id)
        && maps[i].in_time(maps[i + 1], id) by {
        crate::life::until_is_in_time(maps, steps, id, key, until, i);
    }
    crate::life::run_keeps(maps, steps, id, key);
    assert(maps[maps.len() - 1].wf());
    maps.last().locate_is(id, key);
    maps.last().kept_is_shown(id, key, access, post);
}

/// An entry whose time is over is shown by no look, whatever was done to the map before.
pub proof fn overdue_is_hidden<K: Eq, V, H>(
    pre: MapModel<K, V, LazyFixedTTLPolicy, H>,
    key: K,
    access: AccessTrace<LazyFixedTTLPolicy>,
    post: MapModel<K, V, LazyFixedTTLPolicy, H>,
    id: EntryId,
)
    requires
        pre.looks_up(key, access, post),
        pre.locate(key) == Some(id),
        pre.entries[id].storage.storage.nanos <= post.policy.time().nanos,
    ensures
        pre.shown(key, access) is None,
{
}

impl<K: Eq, V, H> MapModel<K, V, LazyFixedTTLPolicy, H> {
    /// The entries whose time is not over at a point in time, and that have not been reported.
    pub open spec fn alive_at(self, now: Instant) -> Set<EntryId> {
        self.entries.dom().filter(
            |id: EntryId|
                !self.entries[id].storage.removed && now.nanos
                    < self.entries[id].storage.storage.nanos,
        )
    }

    /// No deadline of an entry falls between the time that was read last and `until`.
    pub open spec fn none_expires(self, until: Instant) -> bool {
        forall|id: EntryId| #[trigger]
            self.entries.contains_key(id) ==> self.entries[id].storage.storage.nanos
                <= self.policy.time().nanos || until.nanos < self.entries[id].storage.storage.nanos
    }

    /// Until then no entry expires, whatever the policy is asked.
    pub proof fn none_expires_is_calm(self, until: Instant)
        requires
            self.none_expires(until),
        ensures
            self.is_calm(
                self.alive_at(until),
                |p: LazyFixedTTLPolicy| self.policy.time().nanos <= p.time().nanos,
                |p: LazyFixedTTLPolicy| p.time().nanos <= until.nanos,
            ),
    {
        let live = self.alive_at(until);
        let from = |p: LazyFixedTTLPolicy| self.policy.time().nanos <= p.time().nanos;
        let to = |p: LazyFixedTTLPolicy| p.time().nanos <= until.nanos;
        assert forall|p: LazyFixedTTLPolicy, id: EntryId, q: LazyFixedTTLPolicy, command: Command|
            self.entries.contains_key(id) && #[trigger] LazyFixedTTLPolicy::accessed(
                p,
                id,
                self.entries[id].storage.storage,
                q,
                command,
            ) && to(q) implies to(p) && (from(p) ==> from(q) && forall|other: EntryId|
            live.contains(other) ==> !#[trigger] command.lists(other)) by {}
    }
}

impl<T: Eq, H> MapModel<T, (), LazyFixedTTLPolicy, H> {
    /// Where no deadline falls between the times that are read, a set is said to be a subset of
    /// another if and only if each member whose time is not over has an equal in the other whose
    /// time is not over.
    pub proof fn subset_by_time(
        self,
        other: Self,
        post: Self,
        other_post: Self,
        subset: bool,
    )
        requires
            self.wf(),
            other.wf(),
            crate::hash::hash_follows::<T, H>(self.hash_builder),
            crate::hash::hash_follows::<T, H>(other.hash_builder),
            self.is_subset_of(other, post, other_post, subset),
            self.none_expires(post.policy.time()),
            other.none_expires(other_post.policy.time()),
        ensures
            subset <==> forall|id: EntryId| #[trigger]
                self.alive_at(post.policy.time()).contains(id) ==> self.is_in(
                    id,
                    other,
                    other.alive_at(other_post.policy.time()),
                ),
    {
        let until = post.policy.time();
        let other_until = other_post.policy.time();
        self.none_expires_is_calm(until);
        other.none_expires_is_calm(other_until);
        self.subset_is_right(
            other,
            post,
            other_post,
            subset,
            self.alive_at(until),
            |p: LazyFixedTTLPolicy| self.policy.time().nanos <= p.time().nanos,
            |p: LazyFixedTTLPolicy| p.time().nanos <= until.nanos,
            other.alive_at(other_until),
            |p: LazyFixedTTLPolicy| other.policy.time().nanos <= p.time().nanos,
            |p: LazyFixedTTLPolicy| p.time().nanos <= other_until.nanos,
        );
    }
}

} // verus!
