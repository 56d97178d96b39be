//! Entries that live for a given time.
use vstd::prelude::*;

use crate::entry::EntryId;
use crate::life::{Recording, Step, Timely};
use crate::model::{AccessTrace, InsertTrace, MapModel};
use crate::policy::{align_instant, Command, ExpirePolicy, Precision};
use crate::records::Records;
use crate::time::{Clock, Duration, Instant};

verus! {

/// How many slots are looked through at one time.
pub const MAX_SLOTS: u32 = 16;

/// What has come due: the ids, and the slots that are left.
#[verifier::ext_equal]
pub struct Due {
    pub list: Seq<Option<EntryId>>,
    pub rest: Map<Instant, Seq<Option<EntryId>>>,
}

/// The ids of the `n` earliest slots, as far as the time has come for them.
pub open spec fn due(records: Map<Instant, Seq<Option<EntryId>>>, now: Instant, n: nat) -> Due
    decreases n,
{
    let at = crate::records::earliest(records);
    if n == 0 || records =~= Map::<Instant, Seq<Option<EntryId>>>::empty() || at.nanos
        > now.nanos {
        Due { list: Seq::empty(), rest: records }
    } else {
        let later = due(records.remove(at), now, (n - 1) as nat);
        Due { list: records[at] + later.list, rest: later.rest }
    }
}

/// The state of the policy.
#[verifier::ext_equal]
pub struct TTLState {
    /// The time that was read last.
    pub time: Instant,
    /// The ids of the entries by the slot in which they will be looked at.
    pub records: Map<Instant, Seq<Option<EntryId>>>,
    /// When the slots were looked through last.
    pub last_update: Instant,
    /// The width of a slot.
    pub presision: Duration,
    /// The point in time from which slots are counted, once an entry was filed.
    pub base: Option<Instant>,
}

impl TTLState {
    /// The state with another time.
    pub open spec fn at(self, now: Instant) -> TTLState {
        TTLState { time: now, ..self }
    }

    /// The point in time from which slots are counted.
    pub open spec fn start(self) -> Instant {
        match self.base {
            Some(base) => base,
            None => Instant { nanos: 0 },
        }
    }

    /// The state after slots are counted, from `now` on if they were not before.
    pub open spec fn based(self, now: Instant) -> TTLState {
        TTLState {
            base: Some(
                match self.base {
                    Some(base) => base,
                    None => now,
                },
            ),
            ..self
        }
    }

    /// It is time to look through the slots: some are in use, and it has not been done for the
    /// width of a slot.
    pub open spec fn must_check(self, now: Instant) -> bool {
        &&& !(self.records =~= Map::<Instant, Seq<Option<EntryId>>>::empty())
        &&& self.last_update.later(self.presision).nanos <= now.nanos
    }

    /// The state after the slots were looked through, if it was time for that.
    pub open spec fn checked(self, now: Instant) -> TTLState {
        if self.must_check(now) {
            TTLState {
                records: due(self.records, now, MAX_SLOTS as nat).rest,
                last_update: now,
                ..self
            }
        } else {
            self
        }
    }

    /// The ids that were found then, if any.
    pub open spec fn found(self, now: Instant) -> Option<Seq<Option<EntryId>>> {
        let list = due(self.records, now, MAX_SLOTS as nat).list;
        if self.must_check(now) && list.len() > 0 {
            Some(list)
        } else {
            None
        }
    }

    /// The state with one more entry, filed under the slot of its deadline.
    pub open spec fn filed(self, entry: EntryId, expire_at: Instant) -> TTLState {
        TTLState {
            records: crate::records::recorded(
                self.records,
                crate::policy::align::aligned(expire_at, self.start(), self.presision),
                entry,
            ),
            ..self
        }
    }
}

/// What has come due comes from slots for which the time has come; all else is left as it was.
pub proof fn due_is_timely(records: Map<Instant, Seq<Option<EntryId>>>, now: Instant, n: nat)
    requires
        records.dom().finite(),
    ensures
        due(records, now, n).rest.submap_of(records),
        forall|id: EntryId| #[trigger]
            due(records, now, n).list.contains(Some(id)) ==> exists|at: Instant| #[trigger]
                records.contains_key(at) && at.nanos <= now.nanos && records[at].contains(
                    Some(id),
                ),
        forall|at: Instant| #[trigger]
            records.contains_key(at) && !due(records, now, n).rest.contains_key(at) ==> at.nanos
                <= now.nanos,
    decreases n,
{
    let at = crate::records::earliest(records);
    if n > 0 && !(records =~= Map::<Instant, Seq<Option<EntryId>>>::empty()) && at.nanos
        <= now.nanos {
        crate::records::earliest_exists(records);
        let rest = records.remove(at);
        let later = due(rest, now, (n - 1) as nat);
        due_is_timely(rest, now, (n - 1) as nat);
        assert forall|s: Instant| #[trigger] later.rest.dom().contains(s) implies {
            &&& records.dom().contains(s)
            &&& later.rest[s] == records[s]
        } by {
            assert(rest.dom().contains(s));
        }
        assert forall|id: EntryId| #[trigger]
            due(records, now, n).list.contains(Some(id)) implies exists|s: Instant| #[trigger]
            records.contains_key(s) && s.nanos <= now.nanos && records[s].contains(Some(id)) by {
            let list = records[at] + later.list;
            let i = list.index_of(Some(id));
            if i < records[at].len() {
                assert(records[at][i] == Some(id));
                assert(records.contains_key(at));
            } else {
                assert(later.list[i - records[at].len()] == Some(id));
                assert(later.list.contains(Some(id)));
                let s = choose|s: Instant| #[trigger]
                    rest.contains_key(s) && s.nanos <= now.nanos && rest[s].contains(Some(id));
                assert(records.contains_key(s));
            }
        }
        assert forall|s: Instant| #[trigger] records.contains_key(s) && !due(
            records,
            now,
            n,
        ).rest.contains_key(s) implies s.nanos <= now.nanos by {
            if s != at {
                assert(rest.contains_key(s));
            }
        }
    }
}

/// No id is lost: each is reported, or filed under the same slot as before.
pub proof fn due_loses_none(
    records: Map<Instant, Seq<Option<EntryId>>>,
    now: Instant,
    n: nat,
    at: Instant,
    id: EntryId,
)
    requires
        records.dom().finite(),
        records.contains_key(at),
        records[at].contains(Some(id)),
    ensures
        due(records, now, n).list.contains(Some(id)) || (due(records, now, n).rest.contains_key(at)
            && due(records, now, n).rest[at] == records[at]),
    decreases n,
{
    let first = crate::records::earliest(records);
    if n > 0 && first.nanos <= now.nanos {
        crate::records::earliest_exists(records);
        let rest = records.remove(first);
        let later = due(rest, now, (n - 1) as nat);
        let list = records[first] + later.list;
        if at == first {
            let i = records[at].index_of(Some(id));
            assert(list[i] == Some(id));
        } else {
            due_loses_none(rest, now, (n - 1) as nat, at, id);
            if later.list.contains(Some(id)) {
                let i = later.list.index_of(Some(id));
                assert(list[records[first].len() + i] == Some(id));
            }
        }
    }
}

/// Every slot for which the time has come is dealt with, unless there are more of them than are
/// looked through at one time: so many are, in any case.
pub proof fn due_is_complete(
    records: Map<Instant, Seq<Option<EntryId>>>,
    now: Instant,
    n: nat,
    at: Instant,
)
    requires
        records.dom().finite(),
        due(records, now, n).rest.contains_key(at),
        at.nanos <= now.nanos,
    ensures
        records.dom().len() == due(records, now, n).rest.dom().len() + n,
    decreases n,
{
    due_is_timely(records, now, n);
    assert(records.dom().contains(at));
    crate::records::earliest_exists(records);
    let first = crate::records::earliest(records);
    if n > 0 {
        due_is_complete(records.remove(first), now, (n - 1) as nat, at);
    }
}

impl TTLState {
    /// No slot that is earlier than `expire_at` names the entry.
    pub open spec fn is_not_early(self, entry: EntryId, expire_at: Instant) -> bool {
        forall|at: Instant| #[trigger]
            self.records.contains_key(at) && self.records[at].contains(Some(entry))
                ==> expire_at.nanos <= at.nanos
    }

    /// An entry is reported at its deadline at the earliest: it is filed under no earlier slot,
    /// that stays so when the slots are looked through, and if it is found then, its deadline
    /// has come.
    pub proof fn reports_none_early(self, entry: EntryId, expire_at: Instant, now: Instant)
        requires
            self.presision.nanos >= crate::time::NANOS_PER_MILLI,
            self.records.dom().finite(),
            self.is_not_early(entry, expire_at),
        ensures
            self.filed(entry, expire_at).is_not_early(entry, expire_at),
            self.filed(entry, expire_at).records.dom().finite(),
            self.checked(now).is_not_early(entry, expire_at),
            self.checked(now).records.dom().finite(),
            self.found(now) matches Some(list) ==> list.contains(Some(entry)) ==> expire_at.nanos
                <= now.nanos,
    {
        crate::policy::align::aligned_is_near(expire_at, self.start(), self.presision);
        due_is_timely(self.records, now, MAX_SLOTS as nat);
        let slot = crate::policy::align::aligned(expire_at, self.start(), self.presision);
        let filed = self.filed(entry, expire_at);
        assert forall|at: Instant| #[trigger]
            filed.records.contains_key(at) && filed.records[at].contains(
                Some(entry),
            ) implies expire_at.nanos <= at.nanos by {
            if at != slot {
                assert(self.records.contains_key(at));
            }
        }
        let checked = self.checked(now);
        assert(checked.records.dom().subset_of(self.records.dom()));
        assert(checked.records.dom() =~= checked.records.dom().intersect(self.records.dom()));
        assert forall|at: Instant| #[trigger]
            checked.records.contains_key(at) && checked.records[at].contains(
                Some(entry),
            ) implies expire_at.nanos <= at.nanos by {
            assert(checked.records.dom().contains(at));
            assert(self.records.contains_key(at) && self.records[at] == checked.records[at]);
        }
    }

    /// Filing an entry for another deadline leaves this one not early.
    pub proof fn filing_keeps_late(
        self,
        entry: EntryId,
        expire_at: Instant,
        other: EntryId,
        other_at: Instant,
    )
        requires
            self.is_not_early(entry, expire_at),
            other != entry,
        ensures
            self.filed(other, other_at).is_not_early(entry, expire_at),
    {
        let slot = crate::policy::align::aligned(other_at, self.start(), self.presision);
        let filed = self.filed(other, other_at);
        assert forall|at: Instant| #[trigger]
            filed.records.contains_key(at) && filed.records[at].contains(
                Some(entry),
            ) implies expire_at.nanos <= at.nanos by {
            if at == slot {
                let i = filed.records[at].index_of(Some(entry));
                assert(self.records.contains_key(at) && self.records[at][i] == Some(entry));
                assert(self.records[at].contains(Some(entry)));
            } else {
                assert(self.records.contains_key(at));
            }
        }
    }
}

/// A policy by which each entry lives for a time that is given when it is inserted. Entries that
/// have outlived it are reported, even though nobody looks at them.
pub struct TTLPolicy {
    clock: Clock,
    ttl_records: Records<EntryId>,
    ttl_last_update: Instant,
    presision: Precision,
    base: Option<Instant>,
}

impl View for TTLPolicy {
    type V = TTLState;

    /// The state of the policy.
    closed spec fn view(&self) -> TTLState {
        TTLState {
            time: self.clock.time(),
            records: self.ttl_records@,
            last_update: self.ttl_last_update,
            presision: self.presision.width(),
            base: self.base,
        }
    }
}

impl TTLPolicy {
    /// The clock.
    pub closed spec fn clock(&self) -> Clock {
        self.clock
    }

    /// From `pre` to `post` the clock was looked at once, and the time that was read last is the
    /// one that it showed.
    pub open spec fn waits(pre: Self, post: Self) -> bool {
        &&& pre@.time == pre.clock().time()
        &&& post@.time == post.clock().time()
        &&& Clock::ticks(pre.clock(), post.clock())
    }

    /// A policy whose slots are a tenth of a second wide.
    pub fn new() -> (policy: TTLPolicy)
        ensures
            policy@.records == Map::<Instant, Seq<Option<EntryId>>>::empty(),
            policy@.last_update == policy@.time,
            policy@.presision.nanos == 100_000_000,
            policy@.base is None,
            policy.clock().is_started(),
            policy.clock().time() == policy@.time,
    {
        TTLPolicy::with_presision(Duration::from_millis(100))
    }

    /// A policy with slots of a given width, a millisecond at least.
    pub fn with_presision(presision: Duration) -> (policy: TTLPolicy)
        requires
            presision.nanos >= crate::time::NANOS_PER_MILLI,
        ensures
            policy@.records == Map::<Instant, Seq<Option<EntryId>>>::empty(),
            policy@.last_update == policy@.time,
            policy@.presision == presision,
            policy@.base is None,
            policy.clock().is_started(),
            policy.clock().time() == policy@.time,
    {
        let mut clock = Clock::start();
        let ttl_last_update = clock.now();
        TTLPolicy {
            clock,
            ttl_records: Records::new(),
            ttl_last_update,
            presision: Precision::new(presision),
            base: None,
        }
    }

    /// Whether an entry with this deadline has expired at a point in time.
    pub fn is_expired_at(expire_at: &Instant, now: Instant) -> (expired: bool)
        ensures
            expired == (expire_at.nanos < now.nanos),
    {
        expire_at.nanos < now.nanos
    }

    /// Looks through the slots, if it is time for that.
    pub fn on_access_at(&mut self, now: Instant) -> (command: Command)
        ensures
            final(self).clock() == old(self).clock(),
            final(self)@ == old(self)@.checked(now),
            command.is_bulk(old(self)@.found(now)),
    {
        if self.ttl_records.is_empty() {
            return Command::Noop;
        }
        if self.ttl_last_update.plus(self.presision.get()).nanos > now.nanos {
            return Command::Noop;
        }
        self.ttl_last_update = now;
        let ghost all = due(self.ttl_records@, now, MAX_SLOTS as nat);
        let mut expired_values: Vec<Option<EntryId>> = Vec::new();
        let mut left: u32 = MAX_SLOTS;
        while left > 0
            invariant
                left <= MAX_SLOTS,
                self.clock == old(self).clock,
                self.presision == old(self).presision,
                self.base == old(self).base,
                self.ttl_last_update == now,
                all.rest == due(self.ttl_records@, now, left as nat).rest,
                all.list =~= expired_values@ + due(self.ttl_records@, now, left as nat).list,
            ensures
                self.clock == old(self).clock,
                self.presision == old(self).presision,
                self.base == old(self).base,
                self.ttl_last_update == now,
                all.rest == self.ttl_records@,
                all.list =~= expired_values@,
            decreases left,
        {
            let expires_at = match self.ttl_records.first() {
                Some(at) => at,
                None => {
                    break;
                },
            };
            if expires_at.nanos > now.nanos {
                break;
            }
            let mut v = self.ttl_records.take(expires_at);
            expired_values.append(&mut v);
            left -= 1;
        }
        assert(self@ =~= old(self)@.checked(now));
        if expired_values.is_empty() {
            Command::Noop
        } else {
            Command::RemoveBulk(expired_values)
        }
    }

    /// The point in time from which slots are counted.
    fn slots_start(&self) -> (start: Instant)
        ensures
            start == self@.start(),
    {
        match self.base {
            Some(base) => base,
            None => Instant { nanos: 0 },
        }
    }

    /// Slots are counted from the first entry on that is filed.
    fn count_slots(&mut self, now: Instant)
        ensures
            final(self).clock() == old(self).clock(),
            final(self)@ == old(self)@.based(now),
    {
        if self.base.is_none() {
            self.base = Some(now);
        }
        assert(self@ =~= old(self)@.based(now));
    }

    /// Files an entry under the slot of its deadline, and looks through the slots, if it is time
    /// for that.
    pub fn on_insert_at(&mut self, entry: EntryId, expire_at: &Instant, now: Instant) -> (command:
        Command)
        ensures
            final(self).clock() == old(self).clock(),
            final(self)@ == old(self)@.based(now).filed(entry, *expire_at).checked(now),
            command.is_bulk(old(self)@.based(now).filed(entry, *expire_at).found(now)),
    {
        self.count_slots(now);
        let slot = align_instant(*expire_at, self.slots_start(), &self.presision);
        self.ttl_records.push(slot, entry);
        assert(self@ =~= old(self)@.based(now).filed(entry, *expire_at));
        self.on_access_at(now)
    }
}

impl ExpirePolicy for TTLPolicy {
    /// How long the entry is to live.
    type Info = Duration;

    /// The point in time after which the entry has expired.
    type Storage = Instant;

    open spec fn inits(pre: Self, info: Duration, post: Self, storage: Instant) -> bool {
        &&& TTLPolicy::waits(pre, post)
        &&& pre@.time.nanos <= post@.time.nanos
        &&& post@ == pre@.at(post@.time)
        &&& storage == post@.time.later(info)
    }

    open spec fn clears(pre: Self, post: Self) -> bool {
        &&& TTLPolicy::waits(pre, post)
        &&& pre@.time.nanos <= post@.time.nanos
        &&& post@ == TTLState {
            time: post@.time,
            records: Map::empty(),
            last_update: post@.time,
            presision: pre@.presision,
            base: pre@.base,
        }
    }

    open spec fn judges(
        pre: Self,
        entry: EntryId,
        storage: Instant,
        post: Self,
        expired: bool,
    ) -> bool {
        &&& TTLPolicy::waits(pre, post)
        &&& pre@.time.nanos <= post@.time.nanos
        &&& post@ == pre@.at(post@.time)
        &&& expired == (storage.nanos < post@.time.nanos)
    }

    open spec fn accessed(
        pre: Self,
        entry: EntryId,
        storage: Instant,
        post: Self,
        command: Command,
    ) -> bool {
        let now = post@.time;
        &&& TTLPolicy::waits(pre, post)
        &&& pre@.time.nanos <= now.nanos
        &&& post@ == pre@.at(now).checked(now)
        &&& command.is_bulk(pre@.found(now))
    }

    open spec fn inserted(
        pre: Self,
        entry: EntryId,
        storage: Instant,
        post: Self,
        command: Command,
    ) -> bool {
        let now = post@.time;
        &&& TTLPolicy::waits(pre, post)
        &&& pre@.time.nanos <= now.nanos
        &&& post@ == pre@.at(now).based(now).filed(entry, storage).checked(now)
        &&& command.is_bulk(pre@.at(now).based(now).filed(entry, storage).found(now))
    }

    open spec fn resized(pre: Self, post: Self, command: Command) -> bool {
        post == pre && command is Noop
    }

    fn init_storage(&mut self, info: Duration) -> (storage: Instant) {
        let now = self.clock.now();
        now.plus(info)
    }

    fn clear(&mut self) {
        self.ttl_records.clear();
        self.ttl_last_update = self.clock.now();
    }

    fn is_expired(&mut self, entry: EntryId, storage: &Instant) -> (expired: bool) {
        let now = self.clock.now();
        TTLPolicy::is_expired_at(storage, now)
    }

    fn on_access(&mut self, entry: EntryId, storage: &Instant) -> (command: Command) {
        let now = self.clock.now();
        self.on_access_at(now)
    }

    fn on_insert(&mut self, entry: EntryId, storage: &Instant) -> (command: Command) {
        let now = self.clock.now();
        self.on_insert_at(entry, storage, now)
    }

    fn on_resize(&mut self) -> (command: Command) {
        Command::Noop
    }
}

/// An entry that is inserted to live for `ttl` has expired when more time than that has passed,
/// and not before.
pub proof fn expires_on_time(
    pre: TTLPolicy,
    ttl: Duration,
    mid: TTLPolicy,
    deadline: Instant,
    later: TTLPolicy,
    entry: EntryId,
    post: TTLPolicy,
    expired: bool,
)
    requires
        TTLPolicy::inits(pre, ttl, mid, deadline),
        TTLPolicy::judges(later, entry, deadline, post, expired),
        mid@.time.nanos + ttl.nanos <= u128::MAX,
    ensures
        expired <==> post@.time.nanos > mid@.time.nanos + ttl.nanos,
{
}

/// By the readings of the outside clock that are taken in the two calls, as long as they do not go
/// back: an entry that is inserted to live for `ttl` has expired when more time than that has
/// passed between them, and not before.
pub proof fn expires_by_the_clock(
    pre: TTLPolicy,
    ttl: Duration,
    mid: TTLPolicy,
    deadline: Instant,
    later: TTLPolicy,
    entry: EntryId,
    post: TTLPolicy,
    expired: bool,
)
    requires
        TTLPolicy::inits(pre, ttl, mid, deadline),
        TTLPolicy::judges(later, entry, deadline, post, expired),
        pre.clock().time().nanos <= mid.clock().readings().last(),
        later.clock().time().nanos <= post.clock().readings().last(),
        mid.clock().readings().last() + ttl.nanos <= u128::MAX,
    ensures
        mid.clock().readings().len() == pre.clock().readings().len() + 1,
        mid.clock().can_show(mid.clock().readings().last()),
        post.clock().readings().len() == later.clock().readings().len() + 1,
        post.clock().can_show(post.clock().readings().last()),
        expired <==> post.clock().readings().last() - mid.clock().readings().last() > ttl.nanos,
{
    Clock::shows_what_has_passed(pre.clock(), mid.clock());
    Clock::shows_what_has_passed(later.clock(), post.clock());
}

/// An access and an insertion go by a reading of the outside clock that is taken in them.
pub proof fn goes_by_the_clock(
    pre: TTLPolicy,
    entry: EntryId,
    storage: Instant,
    post: TTLPolicy,
    command: Command,
)
    requires
        TTLPolicy::accessed(pre, entry, storage, post, command) || TTLPolicy::inserted(
            pre,
            entry,
            storage,
            post,
            command,
        ),
        pre.clock().time().nanos <= post.clock().readings().last(),
    ensures
        post.clock().readings().len() == pre.clock().readings().len() + 1,
        post.clock().can_show(post.clock().readings().last()),
        post@.time.nanos == post.clock().readings().last(),
{
    Clock::shows_what_has_passed(pre.clock(), post.clock());
}

/// The slots in use that are earlier than `at`.
pub open spec fn slots_before(records: Map<Instant, Seq<Option<EntryId>>>, at: Instant) -> Set<
    Instant,
> {
    records.dom().filter(|slot: Instant| slot.nanos < at.nanos)
}

/// A slot for which the time has come is dealt with if fewer than `n` slots are earlier: all its
/// ids are among those that have come due.
proof fn due_meets(
    records: Map<Instant, Seq<Option<EntryId>>>,
    now: Instant,
    n: nat,
    at: Instant,
    id: EntryId,
)
    requires
        records.dom().finite(),
        is_named(records, at, id),
        at.nanos <= now.nanos,
        slots_before(records, at).len() < n,
    ensures
        due(records, now, n).list.contains(Some(id)),
        !due(records, now, n).rest.contains_key(at),
    decreases n,
{
    assert(records.dom().contains(at));
    crate::records::earliest_exists(records);
    let first = crate::records::earliest(records);
    let rest = records.remove(first);
    let later = due(rest, now, (n - 1) as nat);
    let list = records[first] + later.list;
    due_is_timely(rest, now, (n - 1) as nat);
    if first == at {
        let i = records[at].index_of(Some(id));
        assert(list[i] == Some(id));
        if later.rest.contains_key(at) {
            assert(later.rest.dom().contains(at));
            assert(rest.dom().contains(at));
        }
    } else {
        assert(first.nanos < at.nanos) by {
            assert(records.contains_key(at));
        }
        assert(slots_before(records, at).contains(first));
        assert(slots_before(rest, at) =~= slots_before(records, at).remove(first));
        due_meets(rest, now, (n - 1) as nat, at, id);
        let i = later.list.index_of(Some(id));
        assert(list[records[first].len() + i] == Some(id));
    }
}

/// An access that comes at least the width of a slot after the slots were looked through last
/// reports every entry of a slot for which the time has come, unless sixteen slots or more are
/// earlier; and the slot is not in use any more.
pub proof fn overdue_is_reported(
    pre: TTLPolicy,
    entry: EntryId,
    storage: Instant,
    post: TTLPolicy,
    command: Command,
    at: Instant,
    id: EntryId,
)
    requires
        TTLPolicy::accessed(pre, entry, storage, post, command),
        pre@.records.dom().finite(),
        pre@.last_update.nanos + pre@.presision.nanos <= post@.time.nanos,
        pre@.records.contains_key(at),
        pre@.records[at].contains(Some(id)),
        at.nanos <= post@.time.nanos,
        slots_before(pre@.records, at).len() < 16,
    ensures
        command.lists(id),
        !post@.records.contains_key(at),
        post@.last_update == post@.time,
{
    due_meets(pre@.records, post@.time, 16, at, id);
}

/// An insertion does so too, unless fifteen slots or more are earlier, for it may take one more
/// slot into use.
pub proof fn overdue_is_reported_by_insertion(
    pre: TTLPolicy,
    entry: EntryId,
    storage: Instant,
    post: TTLPolicy,
    command: Command,
    at: Instant,
    id: EntryId,
)
    requires
        TTLPolicy::inserted(pre, entry, storage, post, command),
        pre@.records.dom().finite(),
        pre@.last_update.nanos + pre@.presision.nanos <= post@.time.nanos,
        pre@.records.contains_key(at),
        pre@.records[at].contains(Some(id)),
        at.nanos <= post@.time.nanos,
        slots_before(pre@.records, at).len() < 15,
    ensures
        command.lists(id),
        !post@.records.contains_key(at),
        post@.last_update == post@.time,
{
    let now = post@.time;
    let timed = pre@.at(now).based(now);
    let filed = timed.filed(entry, storage);
    let slot = crate::policy::align::aligned(storage, timed.start(), timed.presision);
    let list = filed.records[at];
    let i = pre@.records[at].index_of(Some(id));
    assert(list[i] == Some(id));
    let before = slots_before(pre@.records, at);
    assert(slots_before(filed.records, at).subset_of(before.insert(slot)));
    vstd::set_lib::lemma_len_subset(slots_before(filed.records, at), before.insert(slot));
    due_meets(filed.records, now, 16, at, id);
}

/// No entry is lost: an access or an insertion reports each entry that was on record, or leaves it
/// under the slot that it was under.
pub proof fn no_entry_is_lost(
    pre: TTLPolicy,
    entry: EntryId,
    storage: Instant,
    post: TTLPolicy,
    command: Command,
    at: Instant,
    id: EntryId,
)
    requires
        TTLPolicy::accessed(pre, entry, storage, post, command) || TTLPolicy::inserted(
            pre,
            entry,
            storage,
            post,
            command,
        ),
        pre@.records.dom().finite(),
        pre@.records.contains_key(at),
        pre@.records[at].contains(Some(id)),
    ensures
        command.lists(id) || (post@.records.contains_key(at) && post@.records[at].contains(
            Some(id),
        )),
{
    let now = post@.time;
    if TTLPolicy::accessed(pre, entry, storage, post, command) {
        due_loses_none(pre@.records, now, MAX_SLOTS as nat, at, id);
        let list = due(pre@.records, now, MAX_SLOTS as nat).list;
        if list.contains(Some(id)) {
            assert(list.len() > 0);
        }
    } else {
        let filed = pre@.at(now).based(now).filed(entry, storage);
        let i = pre@.records[at].index_of(Some(id));
        assert(filed.records[at][i] == Some(id));
        due_loses_none(filed.records, now, MAX_SLOTS as nat, at, id);
        let list = due(filed.records, now, MAX_SLOTS as nat).list;
        if list.contains(Some(id)) {
            assert(list.len() > 0);
        }
    }
}

/// An entry that is inserted is reported at once, or is on record under a slot that lies at its
/// deadline or later, by no more than the width of a slot. Where its deadline is not past the
/// point from which slots are counted, that is its slot.
pub proof fn insertion_is_recorded(
    pre: TTLPolicy,
    entry: EntryId,
    storage: Instant,
    post: TTLPolicy,
    command: Command,
) -> (at: Instant)
    requires
        TTLPolicy::inserted(pre, entry, storage, post, command),
        pre@.records.dom().finite(),
        pre@.presision.nanos >= crate::time::NANOS_PER_MILLI,
    ensures
        command.lists(entry) || (post@.records.contains_key(at) && post@.records[at].contains(
            Some(entry),
        )),
        storage.nanos <= at.nanos,
        ({
            let start = match pre@.base {
                Some(base) => base,
                None => post@.time,
            };
            if storage.nanos <= start.nanos {
                at == start
            } else {
                at.nanos <= storage.nanos + pre@.presision.nanos
            }
        }),
{
    let now = post@.time;
    let timed = pre@.at(now).based(now);
    let filed = timed.filed(entry, storage);
    let at = crate::policy::align::aligned(storage, timed.start(), timed.presision);
    crate::policy::align::aligned_is_near(storage, timed.start(), timed.presision);
    let ids = filed.records[at];
    assert(ids[ids.len() - 1] == Some(entry));
    due_loses_none(filed.records, now, MAX_SLOTS as nat, at, entry);
    let list = due(filed.records, now, MAX_SLOTS as nat).list;
    if list.contains(Some(entry)) {
        assert(list.len() > 0);
    }
    at
}

/// Of two accesses that lie the width of a slot apart, one reports every entry whose slot has come
/// by the first of them, unless sixteen slots or more are earlier.
pub proof fn one_of_two_reports(
    pre: TTLPolicy,
    entry: EntryId,
    storage: Instant,
    mid: TTLPolicy,
    command: Command,
    entry2: EntryId,
    storage2: Instant,
    post: TTLPolicy,
    command2: Command,
    at: Instant,
    id: EntryId,
)
    requires
        TTLPolicy::accessed(pre, entry, storage, mid, command),
        TTLPolicy::accessed(mid, entry2, storage2, post, command2),
        pre@.records.dom().finite(),
        pre@.last_update.nanos <= mid@.time.nanos,
        mid@.time.nanos + pre@.presision.nanos <= post@.time.nanos,
        pre@.records.contains_key(at),
        pre@.records[at].contains(Some(id)),
        at.nanos <= mid@.time.nanos,
        slots_before(pre@.records, at).len() < 16,
    ensures
        command.lists(id) || command2.lists(id),
{
    no_entry_is_lost(pre, entry, storage, mid, command, at, id);
    if !command.lists(id) {
        due_is_timely(pre@.records, mid@.time, MAX_SLOTS as nat);
        assert(mid@.records.submap_of(pre@.records));
        assert(mid@.records.dom().subset_of(pre@.records.dom())) by {
            assert forall|slot: Instant| mid@.records.dom().contains(slot) implies
                pre@.records.dom().contains(slot) by {}
        }
        assert(mid@.records.dom() =~= mid@.records.dom().intersect(pre@.records.dom()));
        assert(slots_before(mid@.records, at).subset_of(slots_before(pre@.records, at)));
        vstd::set_lib::lemma_len_subset(
            slots_before(mid@.records, at),
            slots_before(pre@.records, at),
        );
        overdue_is_reported(mid, entry2, storage2, post, command2, at, id);
    }
}

/// Slots keep their width and the point that they are counted from, and none but an access or an
/// insertion that comes at least the width of a slot after the slots were looked through last, or
/// that forgets all entries, counts as having looked through them.
pub proof fn goes_at_its_pace(
    pre: TTLPolicy,
    info: Duration,
    entry: EntryId,
    storage: Instant,
    post: TTLPolicy,
    expired: bool,
    command: Command,
)
    requires
        pre@.last_update.nanos + pre@.presision.nanos <= u128::MAX,
        TTLPolicy::inits(pre, info, post, storage) || TTLPolicy::judges(
            pre,
            entry,
            storage,
            post,
            expired,
        ) || TTLPolicy::accessed(pre, entry, storage, post, command) || TTLPolicy::inserted(
            pre,
            entry,
            storage,
            post,
            command,
        ) || TTLPolicy::clears(pre, post),
    ensures
        post@.presision == pre@.presision,
        pre@.base is Some ==> post@.base == pre@.base,
        pre@.last_update.nanos <= pre@.time.nanos ==> post@.last_update.nanos <= post@.time.nanos,
        post@.last_update == pre@.last_update || post@.last_update == post@.time,
        post@.last_update != pre@.last_update && !TTLPolicy::clears(pre, post)
            ==> pre@.last_update.nanos + pre@.presision.nanos <= post@.time.nanos,
{
}

/// However often it is asked, it reports: of accesses that follow one another for at least the width
/// of a slot, one reports every entry whose slot has come by the first of them, unless sixteen
/// slots or more are earlier.
pub proof fn one_of_many_reports(
    policies: Seq<TTLPolicy>,
    entries: Seq<EntryId>,
    storages: Seq<Instant>,
    commands: Seq<Command>,
    at: Instant,
    id: EntryId,
) -> (k: int)
    requires
        policies.len() == commands.len() + 1,
        entries.len() == commands.len(),
        storages.len() == commands.len(),
        commands.len() > 0,
        forall|i: int|
            0 <= i < commands.len() ==> TTLPolicy::accessed(
                policies[i],
                entries[i],
                storages[i],
                policies[i + 1],
                #[trigger] commands[i],
            ),
        policies[0]@.records.dom().finite(),
        policies[0]@.last_update.nanos + policies[0]@.presision.nanos
            <= policies.last()@.time.nanos,
        policies[0]@.records.contains_key(at),
        policies[0]@.records[at].contains(Some(id)),
        at.nanos <= policies[1]@.time.nanos,
        slots_before(policies[0]@.records, at).len() < 16,
    ensures
        0 <= k < commands.len(),
        commands[k].lists(id),
    decreases commands.len(),
{
    let pre = policies[0];
    let mid = policies[1];
    assert(TTLPolicy::accessed(pre, entries[0], storages[0], mid, commands[0]));
    if pre@.last_update.nanos + pre@.presision.nanos <= mid@.time.nanos {
        overdue_is_reported(pre, entries[0], storages[0], mid, commands[0], at, id);
        0
    } else {
        assert(mid@.records == pre@.records);
        let more = commands.drop_first();
        let later = policies.drop_first();
        assert forall|i: int| 0 <= i < more.len() implies TTLPolicy::accessed(
            later[i],
            entries.skip(1)[i],
            storages.skip(1)[i],
            later[i + 1],
            #[trigger] more[i],
        ) by {
            assert(more[i] == commands[i + 1]);
            assert(later[i] == policies[i + 1] && later[i + 1] == policies[i + 1 + 1]);
        }
        assert(more.len() > 0);
        assert(later.last() == policies.last());
        assert(later[1] == policies[2]);
        assert(TTLPolicy::accessed(mid, entries[1], storages[1], policies[2], commands[1]));
        let k = one_of_many_reports(later, entries.skip(1), storages.skip(1), more, at, id);
        k + 1
    }
}

/// An entry that a look does not show because its time is over is not shown by the next look
/// either.
pub proof fn expired_stays_hidden<K: Eq, V, H>(
    pre: MapModel<K, V, TTLPolicy, H>,
    key: K,
    access: AccessTrace<TTLPolicy>,
    mid: MapModel<K, V, TTLPolicy, H>,
    access2: AccessTrace<TTLPolicy>,
    post: MapModel<K, V, TTLPolicy, H>,
)
    requires
        pre.wf(),
        pre.locate(key) is Some,
        pre.looks_up(key, access, mid),
        access.expired,
        mid.looks_up(key, access2, post),
    ensures
        access2.expired,
        mid.shown(key, access2) is None,
{
    let id = pre.locate(key).unwrap();
    pre.told_keeps_wf(access.command);
    assert(pre.holds(id, key));
    assert(mid.holds(id, key));
    mid.locate_is(id, key);
}

/// The slot names the entry.
pub open spec fn is_named(
    records: Map<Instant, Seq<Option<EntryId>>>,
    at: Instant,
    id: EntryId,
) -> bool {
    records.contains_key(at) && records[at].contains(Some(id))
}

/// No entry is named twice, and no place is empty.
pub open spec fn is_single(records: Map<Instant, Seq<Option<EntryId>>>) -> bool {
    &&& forall|at: Instant| #[trigger]
        records.contains_key(at) ==> records[at].no_duplicates() && !records[at].contains(None)
    &&& forall|a: Instant, b: Instant, id: EntryId| #[trigger]
        is_named(records, a, id) && #[trigger] is_named(records, b, id) ==> a == b
}

/// What has come due is named no more, and was named once.
pub proof fn due_is_single(records: Map<Instant, Seq<Option<EntryId>>>, now: Instant, n: nat)
    requires
        records.dom().finite(),
        is_single(records),
    ensures
        due(records, now, n).rest.dom().finite(),
        due(records, now, n).rest.submap_of(records),
        is_single(due(records, now, n).rest),
        due(records, now, n).list.no_duplicates(),
        !due(records, now, n).list.contains(None),
        forall|id: EntryId| #[trigger]
            due(records, now, n).list.contains(Some(id)) ==> (exists|at: Instant|
                is_named(records, at, id)) && forall|at: Instant|
                !is_named(due(records, now, n).rest, at, id),
    decreases n,
{
    let at = crate::records::earliest(records);
    let all = due(records, now, n);
    due_is_timely(records, now, n);
    assert(all.rest.dom().subset_of(records.dom())) by {
        assert forall|s: Instant| all.rest.dom().contains(s) implies records.dom().contains(s) by {}
    }
    assert(all.rest.dom() =~= all.rest.dom().intersect(records.dom()));
    assert forall|s: Instant, id: EntryId| #[trigger] is_named(all.rest, s, id) implies is_named(
        records,
        s,
        id,
    ) by {
        assert(all.rest.dom().contains(s));
    }
    assert forall|s: Instant| #[trigger]
        all.rest.contains_key(s) implies all.rest[s].no_duplicates()
        && !all.rest[s].contains(None) by {
        assert(all.rest.dom().contains(s));
        assert(records.contains_key(s));
    }
    if n > 0 && !(records =~= Map::<Instant, Seq<Option<EntryId>>>::empty()) && at.nanos
        <= now.nanos {
        crate::records::earliest_exists(records);
        let left = records.remove(at);
        assert forall|s: Instant, id: EntryId| #[trigger] is_named(left, s, id) implies is_named(
            records,
            s,
            id,
        ) && s != at by {}
        due_is_single(left, now, (n - 1) as nat);
        let later = due(left, now, (n - 1) as nat);
        let first = records[at];
        assert forall|i: int, j: int| 0 <= i < first.len() && 0 <= j < later.list.len() implies (
        #[trigger] first[i]) != (#[trigger] later.list[j]) by {
            assert(later.list.contains(later.list[j]));
            if let Some(id) = later.list[j] {
                let s = choose|s: Instant| is_named(left, s, id);
                assert(is_named(records, s, id));
                if first[i] == Some(id) {
                    assert(is_named(records, at, id));
                }
            }
        }
        assert(all.list.no_duplicates());
        assert(!all.list.contains(None)) by {
            if all.list.contains(None) {
                let i = all.list.index_of(None);
                if i < first.len() {
                    assert(first[i] is None);
                } else {
                    assert(later.list[i - first.len()] is None);
                }
            }
        }
        assert forall|id: EntryId| #[trigger] all.list.contains(Some(id)) implies (exists|
            s: Instant,
        |
            is_named(records, s, id)) && forall|s: Instant| !is_named(all.rest, s, id) by {
            let i = all.list.index_of(Some(id));
            if i < first.len() {
                assert(first[i] == Some(id));
                assert(is_named(records, at, id));
                assert forall|s: Instant| !is_named(all.rest, s, id) by {
                    if is_named(all.rest, s, id) {
                        assert(is_named(records, s, id));
                        due_is_timely(left, now, (n - 1) as nat);
                        assert(later.rest.dom().contains(s));
                        assert(left.dom().contains(s));
                    }
                }
            } else {
                assert(later.list[i - first.len()] == Some(id));
                assert(later.list.contains(Some(id)));
                let s = choose|s: Instant| is_named(left, s, id);
                assert(is_named(records, s, id));
            }
        }
    }
}

impl TTLState {
    /// The entries that some slot names.
    pub open spec fn recorded(self) -> Set<EntryId> {
        Set::new(|id: EntryId| exists|at: Instant| is_named(self.records, at, id))
    }

    /// The slots are a millisecond wide at least, they can be counted, and they name no entry
    /// twice.
    pub open spec fn is_sound(self) -> bool {
        &&& self.presision.nanos >= crate::time::NANOS_PER_MILLI
        &&& self.records.dom().finite()
        &&& is_single(self.records)
    }

    /// An entry that no slot names can be filed.
    proof fn filed_is_sound(self, entry: EntryId, expire_at: Instant)
        requires
            self.is_sound(),
            !self.recorded().contains(entry),
        ensures
            self.filed(entry, expire_at).is_sound(),
            self.filed(entry, expire_at).recorded() =~= self.recorded().insert(entry),
    {
        let slot = crate::policy::align::aligned(expire_at, self.start(), self.presision);
        let filed = self.filed(entry, expire_at);
        assert forall|at: Instant, id: EntryId| #[trigger]
            is_named(filed.records, at, id) <==> is_named(self.records, at, id) || (at == slot && id
                == entry) by {
            if at == slot {
                let list = filed.records[at];
                assert(list[list.len() - 1] == Some(entry));
                if is_named(self.records, at, id) {
                    let i = self.records[at].index_of(Some(id));
                    assert(list[i] == Some(id));
                }
                if is_named(filed.records, at, id) {
                    let i = list.index_of(Some(id));
                    if i < list.len() - 1 {
                        assert(self.records[at][i] == Some(id));
                    }
                }
            }
        }
        assert forall|at: Instant| #[trigger]
            filed.records.contains_key(at) implies filed.records[at].no_duplicates()
            && !filed.records[at].contains(None) by {
            if at == slot {
                let list = filed.records[at];
                if self.records.contains_key(at) {
                    assert(!is_named(self.records, at, entry));
                    assert forall|i: int| 0 <= i < self.records[at].len() implies (
                    #[trigger] self.records[at][i]) != Some(entry) && self.records[at][i] is Some by {
                        assert(self.records[at].contains(self.records[at][i]));
                    }
                }
                assert(list.no_duplicates());
            } else {
                assert(self.records.contains_key(at));
            }
        }
        assert forall|id: EntryId| #[trigger]
            filed.recorded().contains(id) <==> self.recorded().insert(entry).contains(id) by {
            assert(is_named(filed.records, slot, entry));
            if self.recorded().contains(id) {
                let at = choose|at: Instant| is_named(self.records, at, id);
                assert(is_named(filed.records, at, id));
            }
            if filed.recorded().contains(id) {
                let at = choose|at: Instant| is_named(filed.records, at, id);
                assert(is_named(filed.records, at, id));
            }
        }
        assert forall|a: Instant, b: Instant, id: EntryId| #[trigger]
            is_named(filed.records, a, id) && #[trigger] is_named(
                filed.records,
                b,
                id,
            ) implies a == b by {
            if id == entry {
                assert(!is_named(self.records, a, id));
                assert(!is_named(self.records, b, id));
            }
        }
    }

    /// Looking through the slots takes the entries that it finds off the record.
    proof fn checked_is_sound(self, now: Instant)
        requires
            self.is_sound(),
        ensures
            self.checked(now).is_sound(),
            self.checked(now).recorded().subset_of(self.recorded()),
            self.found(now) matches Some(list) ==> list.no_duplicates() && forall|id: EntryId|
                #[trigger]
                list.contains(Some(id)) ==> self.recorded().contains(id) && !self.checked(
                    now,
                ).recorded().contains(id),
    {
        due_is_single(self.records, now, MAX_SLOTS as nat);
        let checked = self.checked(now);
        assert forall|id: EntryId| checked.recorded().contains(id) implies self.recorded().contains(
            id,
        ) by {
            let at = choose|at: Instant| is_named(checked.records, at, id);
            assert(is_named(checked.records, at, id));
            assert(checked.records.submap_of(self.records));
            assert(checked.records.dom().contains(at));
            assert(self.records.dom().contains(at));
            assert(self.records[at] == checked.records[at]);
            assert(self.records[at].contains(Some(id)));
            assert(is_named(self.records, at, id));
        }
    }
}

impl Timely for TTLPolicy {
    open spec fn read_at(self, storage: Instant) -> Instant {
        self@.time
    }

    open spec fn is_sound(self) -> bool {
        self@.is_sound()
    }

    open spec fn can_begin(self) -> bool {
        true
    }

    open spec fn recorded(self) -> Set<EntryId> {
        self@.recorded()
    }

    open spec fn knows(self, storage: Instant) -> bool {
        true
    }

    open spec fn are_apart(a: Instant, b: Instant) -> bool {
        true
    }

    open spec fn deadline(self, storage: Instant) -> Instant {
        storage
    }

    open spec fn minds(self, entry: EntryId, storage: Instant) -> bool {
        self@.is_not_early(entry, storage)
    }

    open spec fn follows(self, storage: Instant) -> bool {
        true
    }

    proof fn inits_timely(
        pre: Self,
        info: Duration,
        post: Self,
        made: Instant,
        id: EntryId,
        s: Instant,
    ) {
        assert(post@.recorded() =~= pre@.recorded());
        if !pre@.recorded().contains(id) {
            assert forall|at: Instant| #[trigger]
                post@.records.contains_key(at) && post@.records[at].contains(
                    Some(id),
                ) implies made.nanos <= at.nanos by {
                assert(is_named(pre@.records, at, id));
            }
        }
    }

    proof fn judges_timely(
        pre: Self,
        entry: EntryId,
        storage: Instant,
        post: Self,
        expired: bool,
        id: EntryId,
        s: Instant,
    ) {
        assert(post@.recorded() =~= pre@.recorded());
    }

    proof fn accessed_timely(
        pre: Self,
        entry: EntryId,
        storage: Instant,
        post: Self,
        command: Command,
        id: EntryId,
        s: Instant,
    ) {
        let now = post@.time;
        pre@.at(now).checked_is_sound(now);
        if pre@.is_not_early(id, s) {
            pre@.at(now).reports_none_early(id, s, now);
        }
    }

    proof fn inserted_timely(
        pre: Self,
        entry: EntryId,
        storage: Instant,
        post: Self,
        command: Command,
        id: EntryId,
        s: Instant,
    ) {
        let now = post@.time;
        let timed = pre@.at(now).based(now);
        assert(timed.recorded() =~= pre@.recorded());
        timed.filed_is_sound(entry, storage);
        let filed = timed.filed(entry, storage);
        filed.checked_is_sound(now);
        if pre@.is_not_early(id, s) {
            if id == entry {
                if s == storage {
                    timed.reports_none_early(id, s, now);
                }
            } else {
                timed.filing_keeps_late(id, s, entry, storage);
            }
            if id != entry || s == storage {
                filed.reports_none_early(id, s, now);
            }
        }
    }

    proof fn clears_timely(pre: Self, post: Self, s: Instant) {
        assert forall|id: EntryId| !post@.recorded().contains(id) by {
            if post@.recorded().contains(id) {
                let at = choose|at: Instant| is_named(post@.records, at, id);
                assert(is_named(post@.records, at, id));
            }
        }
    }
}

impl Recording for TTLPolicy {
    proof fn accessed_recorded(
        pre: Self,
        entry: EntryId,
        storage: Instant,
        post: Self,
        command: Command,
    ) {
        let now = post@.time;
        let timed = pre@.at(now);
        assert(timed.recorded() =~= pre@.recorded());
        timed.checked_is_sound(now);
    }

    proof fn inserted_recorded(
        pre: Self,
        entry: EntryId,
        storage: Instant,
        post: Self,
        command: Command,
    ) {
        let now = post@.time;
        let timed = pre@.at(now).based(now);
        assert(timed.recorded() =~= pre@.recorded());
        timed.filed_is_sound(entry, storage);
        timed.filed(entry, storage).checked_is_sound(now);
    }
}

/// A new policy has nothing on record, and is in order.
pub proof fn new_is_sound(policy: TTLPolicy)
    requires
        policy@.records == Map::<Instant, Seq<Option<EntryId>>>::empty(),
        policy@.presision.nanos >= crate::time::NANOS_PER_MILLI,
    ensures
        policy.is_sound(),
        policy.recorded() =~= Set::<EntryId>::empty(),
{
    assert forall|at: Instant, id: EntryId| !(#[trigger] is_named(policy@.records, at, id)) by {}
}

/// The policy and the map are in step.
pub open spec fn in_step<K: Eq, V, H>(m: MapModel<K, V, TTLPolicy, H>) -> bool {
    m.is_in_step()
}

/// An insertion keeps the policy and the map in step, and no slot names its entry before.
pub proof fn insertion_keeps_step<K: Eq, V, H>(
    pre: MapModel<K, V, TTLPolicy, H>,
    key: K,
    value: V,
    ttl: Duration,
    trace: InsertTrace<TTLPolicy>,
    post: MapModel<K, V, TTLPolicy, H>,
    out: Option<V>,
)
    requires
        pre.wf(),
        in_step(pre),
        pre.inserts(key, value, ttl, trace, post, out),
    ensures
        in_step(post),
        pre.policy@.is_not_early(trace.id, trace.storage),
{
    pre.insertion_in_step(key, value, ttl, trace, post, out);
    assert forall|at: Instant| #[trigger]
        pre.policy@.records.contains_key(at) && pre.policy@.records[at].contains(
            Some(trace.id),
        ) implies trace.storage.nanos <= at.nanos by {
        assert(is_named(pre.policy@.records, at, trace.id));
    }
}

/// Any other step keeps the policy and the map in step too.
pub proof fn step_keeps_step<K: Eq, V, H>(
    pre: MapModel<K, V, TTLPolicy, H>,
    step: Step<K, V, TTLPolicy>,
    post: MapModel<K, V, TTLPolicy, H>,
)
    requires
        pre.wf(),
        post.wf(),
        in_step(pre),
        pre.takes(step, post),
    ensures
        in_step(post),
{
    pre.step_in_step(step, post);
}

/// A value that is inserted to live for `ttl` is shown by a look before that time is over, and by
/// none after it, whatever is done to the map in between that spares its entry.
pub proof fn lives_for_its_time<K: Eq, V, H>(
    pre: MapModel<K, V, TTLPolicy, H>,
    key: K,
    value: V,
    ttl: Duration,
    trace: InsertTrace<TTLPolicy>,
    out: Option<V>,
    maps: Seq<MapModel<K, V, TTLPolicy, H>>,
    steps: Seq<Step<K, V, TTLPolicy>>,
    access: AccessTrace<TTLPolicy>,
    post: MapModel<K, V, TTLPolicy, H>,
)
    requires
        pre.wf(),
        in_step(pre),
        pre.inserts(key, value, ttl, trace, maps[0], out),
        crate::life::runs(maps, steps),
        forall|i: int| 0 <= i < steps.len() ==> maps[i].spares(#[trigger] steps[i], trace.id),
        maps.last().looks_up(key, access, post),
        maps.last().policy@.time.nanos < trace.ready@.time.nanos + ttl.nanos <= u128::MAX,
    ensures
        ({
            let inserted_at = trace.ready@.time.nanos;
            let seen_at = post.policy@.time.nanos;
            &&& maps.last().entries[trace.id].value == value
            &&& seen_at < inserted_at + ttl.nanos ==> maps.last().shown(key, access) == Some(
                trace.id,
            )
            &&& seen_at > inserted_at + ttl.nanos ==> maps.last().shown(key, access) is None
        }),
{
    crate::life::lives_until(pre, key, value, ttl, trace, out, maps, steps, access, post);
    if post.policy@.time.nanos > trace.ready@.time.nanos + ttl.nanos {
        overdue_is_hidden(maps.last(), key, access, post, trace.id);
    }
}

/// By the readings of the outside clock: a value that is inserted to live for `ttl` is shown by a
/// look before that time is over, and by none after it, whatever is done to the map in between that
/// spares its entry. The readings that are taken when it is inserted and looked at do not go back.
pub proof fn lives_by_the_clock<K: Eq, V, H>(
    pre: MapModel<K, V, TTLPolicy, H>,
    key: K,
    value: V,
    ttl: Duration,
    trace: InsertTrace<TTLPolicy>,
    out: Option<V>,
    maps: Seq<MapModel<K, V, TTLPolicy, H>>,
    steps: Seq<Step<K, V, TTLPolicy>>,
    access: AccessTrace<TTLPolicy>,
    post: MapModel<K, V, TTLPolicy, H>,
)
    requires
        pre.wf(),
        in_step(pre),
        pre.inserts(key, value, ttl, trace, maps[0], out),
        crate::life::runs(maps, steps),
        forall|i: int| 0 <= i < steps.len() ==> maps[i].spares(#[trigger] steps[i], trace.id),
        maps.last().looks_up(key, access, post),
        pre.policy.clock().time().nanos <= trace.ready.clock().readings().last(),
        access.accessed.clock().time().nanos <= post.policy.clock().readings().last(),
        maps.last().policy@.time.nanos < trace.ready.clock().readings().last() + ttl.nanos
            <= u128::MAX,
    ensures
        ({
            let inserted_at = trace.ready.clock().readings().last();
            let seen_at = post.policy.clock().readings().last();
            &&& trace.ready.clock().readings().len() == pre.policy.clock().readings().len() + 1
            &&& post.policy.clock().readings().len() == access.accessed.clock().readings().len() + 1
            &&& maps.last().entries[trace.id].value == value
            &&& seen_at < inserted_at + ttl.nanos ==> maps.last().shown(key, access) == Some(
                trace.id,
            )
            &&& seen_at > inserted_at + ttl.nanos ==> maps.last().shown(key, access) is None
        }),
{
    Clock::shows_what_has_passed(pre.policy.clock(), trace.ready.clock());
    lives_for_its_time(pre, key, value, ttl, trace, out, maps, steps, access, post);
    crate::life::lives_until(pre, key, value, ttl, trace, out, maps, steps, access, post);
    Clock::shows_what_has_passed(access.accessed.clock(), post.policy.clock());
}

/// An entry whose time is over is shown by no look, whatever was done to the map before.
pub proof fn overdue_is_hidden<K: Eq, V, H>(
    pre: MapModel<K, V, TTLPolicy, H>,
    key: K,
    access: AccessTrace<TTLPolicy>,
    post: MapModel<K, V, TTLPolicy, H>,
    id: EntryId,
)
    requires
        pre.looks_up(key, access, post),
        pre.locate(key) == Some(id),
        pre.entries[id].storage.storage.nanos < post.policy@.time.nanos,
    ensures
        pre.shown(key, access) is None,
{
}

impl<K: Eq, V, H> MapModel<K, V, TTLPolicy, H> {
    /// The entries whose time is not over at a point in time, and that have not been reported.
    pub open spec fn alive_at(self, now: Instant) -> Set<EntryId> {
        self.entries.dom().filter(
            |id: EntryId|
                !self.entries[id].storage.removed && now.nanos
                    <= self.entries[id].storage.storage.nanos,
        )
    }

    /// No deadline of an entry falls between the time that was read last and `until`, and none is
    /// under a slot that is earlier than its deadline.
    pub open spec fn none_expires(self, until: Instant) -> bool {
        &&& self.policy@.is_sound()
        &&& forall|id: EntryId| #[trigger]
            self.entries.contains_key(id) ==> {
                let deadline = self.entries[id].storage.storage;
                &&& deadline.nanos < self.policy@.time.nanos || until.nanos < deadline.nanos
                &&& self.policy@.is_not_early(id, deadline)
            }
    }

    /// The policy has not gone back since, and has no entry of this map under a slot that is
    /// earlier than its deadline.
    pub open spec fn goes_on_from(self, policy: TTLPolicy) -> bool {
        &&& self.policy@.time.nanos <= policy@.time.nanos
        &&& policy@.is_sound()
        &&& forall|id: EntryId| #[trigger]
            self.entries.contains_key(id) ==> policy@.is_not_early(
                id,
                self.entries[id].storage.storage,
            )
    }

    /// Until then no entry expires, whatever the policy is asked.
    pub proof fn none_expires_is_calm(self, until: Instant)
        requires
            self.none_expires(until),
        ensures
            self.is_calm(
                self.alive_at(until),
                |p: TTLPolicy| self.goes_on_from(p),
                |p: TTLPolicy| p@.time.nanos <= until.nanos,
            ),
    {
        let live = self.alive_at(until);
        let from = |p: TTLPolicy| self.goes_on_from(p);
        let to = |p: TTLPolicy| p@.time.nanos <= until.nanos;
        assert forall|p: TTLPolicy, id: EntryId, q: TTLPolicy, expired: bool|
            self.entries.contains_key(id) && #[trigger] TTLPolicy::judges(
                p,
                id,
                self.entries[id].storage.storage,
                q,
                expired,
            ) && to(q) implies to(p) && (from(p) ==> from(q) && (expired == !live.contains(id)
            || self.entries[id].storage.removed)) by {
            if from(p) {
                assert(q@.records == p@.records);
            }
        }
        assert forall|p: TTLPolicy, id: EntryId, q: TTLPolicy, command: Command|
            self.entries.contains_key(id) && #[trigger] TTLPolicy::accessed(
                p,
                id,
                self.entries[id].storage.storage,
                q,
                command,
            ) && to(q) implies to(p) && (from(p) ==> from(q) && forall|other: EntryId|
            live.contains(other) ==> !#[trigger] command.lists(other)) by {
            if from(p) {
                let now = q@.time;
                let timed = p@.at(now);
                assert(timed.recorded() =~= p@.recorded());
                timed.checked_is_sound(now);
                assert forall|other: EntryId| #[trigger]
                    self.entries.contains_key(other) implies q@.is_not_early(
                    other,
                    self.entries[other].storage.storage,
                ) by {
                    assert(timed.is_not_early(other, self.entries[other].storage.storage));
                    timed.reports_none_early(other, self.entries[other].storage.storage, now);
                }
                assert forall|other: EntryId|
                    live.contains(other) implies !#[trigger] command.lists(other) by {
                    assert(self.entries.contains_key(other));
                    assert(timed.is_not_early(other, self.entries[other].storage.storage));
                    timed.reports_none_early(other, self.entries[other].storage.storage, now);
                }
            }
        }
    }
}

impl<T: Eq, H> MapModel<T, (), TTLPolicy, H> {
    /// Where no deadline falls between the times that are read, a set is said to be a subset of
    /// another if and only if each member whose time is not over has an equal in the other whose
    /// time is not over.
    pub proof fn subset_by_time(
        self,
        other: Self,
        post: Self,
        other_post: Self,
        subset: bool,
    )
        requires
            self.wf(),
            other.wf(),
            crate::hash::hash_follows::<T, H>(self.hash_builder),
            crate::hash::hash_follows::<T, H>(other.hash_builder),
            self.is_subset_of(other, post, other_post, subset),
            self.none_expires(post.policy@.time),
            other.none_expires(other_post.policy@.time),
        ensures
            subset <==> forall|id: EntryId| #[trigger]
                self.alive_at(post.policy@.time).contains(id) ==> self.is_in(
                    id,
                    other,
                    other.alive_at(other_post.policy@.time),
                ),
    {
        let until = post.policy@.time;
        let other_until = other_post.policy@.time;
        self.none_expires_is_calm(until);
        other.none_expires_is_calm(other_until);
        self.subset_is_right(
            other,
            post,
            other_post,
            subset,
            self.alive_at(until),
            |p: TTLPolicy| self.goes_on_from(p),
            |p: TTLPolicy| p@.time.nanos <= until.nanos,
            other.alive_at(other_until),
            |p: TTLPolicy| other.goes_on_from(p),
            |p: TTLPolicy| p@.time.nanos <= other_until.nanos,
        );
    }
}

} // verus!
