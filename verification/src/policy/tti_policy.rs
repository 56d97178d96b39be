//! Entries that live as long as they are looked at.
use std::collections::BTreeMap;

use vstd::prelude::*;
use vstd::std_specs::iter::IteratorSpec;

use crate::entry::EntryId;
use crate::life::{Recording, Step, Timely};
use crate::model::{AccessTrace, InsertTrace, MapModel};
use crate::policy::{align_instant, Command, ExpirePolicy, Precision};
use crate::records::Records;
use crate::time::{Clock, Duration, Instant};

verus! {

broadcast use {vstd::laws_cmp::group_laws_cmp, vstd::std_specs::btree::group_btree_axioms};

/// What is kept of an entry.
#[derive(Clone, Copy, Debug)]
pub struct TTIStorage {
    /// The number that the policy knows the entry by.
    pub id: u64,
    /// How long the entry may be left alone.
    pub tti: Duration,
    /// When it will have been left alone for too long, if nobody looks at it before.
    pub deadline: Instant,
}

/// A record of an entry.
pub type Record = (EntryId, TTIStorage);

/// The state of the policy.
#[verifier::ext_equal]
pub struct TTIState {
    /// The time that was read last.
    pub time: Instant,
    /// The entries by the slot in which they will be looked at.
    pub records: Map<Instant, Seq<Option<Record>>>,
    /// The deadlines by the numbers of the entries.
    pub deadlines: Map<u64, Instant>,
    /// When the slots were looked through last.
    pub last_update: Instant,
    /// The width of a slot.
    pub presision: Duration,
    /// The point in time from which slots are counted, once an entry was filed.
    pub base: Option<Instant>,
    /// The number of the next entry.
    pub next_id: u64,
}

/// The deadlines that are ahead.
pub open spec fn ahead(deadlines: Map<u64, Instant>, now: Instant) -> Map<u64, Instant> {
    deadlines.restrict(Set::new(|number: u64| deadlines[number].nanos > now.nanos))
}

/// The records of a slot that were looked at: the entries that had expired, and the state of the
/// policy after that.
pub struct Sifted {
    pub list: Seq<Option<EntryId>>,
    pub state: TTIState,
}

impl TTIState {
    /// The state with another time.
    pub open spec fn at(self, now: Instant) -> TTIState {
        TTIState { time: now, ..self }
    }

    /// The point in time from which slots are counted.
    pub open spec fn start(self) -> Instant {
        match self.base {
            Some(base) => base,
            None => Instant { nanos: 0 },
        }
    }

    /// The state after slots are counted, from `now` on if they were not before.
    pub open spec fn based(self, now: Instant) -> TTIState {
        TTIState {
            base: Some(
                match self.base {
                    Some(base) => base,
                    None => now,
                },
            ),
            ..self
        }
    }

    /// What is kept of a new entry.
    pub open spec fn storage(self, tti: Duration, now: Instant) -> TTIStorage {
        TTIStorage { id: self.next_id, tti, deadline: now.later(tti) }
    }

    /// The state with one more entry.
    pub open spec fn begun(self, tti: Duration, now: Instant) -> TTIState {
        TTIState {
            deadlines: self.deadlines.insert(self.next_id, now.later(tti)),
            next_id: if self.next_id == u64::MAX {
                0
            } else {
                (self.next_id + 1) as u64
            },
            ..self
        }
    }

    /// The deadline of an entry. The first deadline is the last one that is known of an entry
    /// that has been reported.
    pub open spec fn deadline(self, storage: TTIStorage) -> Instant {
        if self.deadlines.contains_key(storage.id) {
            self.deadlines[storage.id]
        } else {
            storage.deadline
        }
    }

    /// The entry has been left alone for too long.
    pub open spec fn lapsed(self, storage: TTIStorage, now: Instant) -> bool {
        self.deadline(storage).nanos <= now.nanos
    }

    /// The state after somebody asked whether an entry has expired: if it has not, it is given
    /// its time once more.
    pub open spec fn asked(self, storage: TTIStorage, now: Instant) -> TTIState {
        if self.lapsed(storage, now) {
            self
        } else {
            TTIState {
                deadlines: self.deadlines.insert(storage.id, now.later(storage.tti)),
                ..self
            }
        }
    }

    /// The state with an entry filed under the slot of its deadline.
    pub open spec fn filed(self, entry: EntryId, storage: TTIStorage) -> TTIState {
        TTIState {
            records: crate::records::recorded(
                self.records,
                crate::policy::align::aligned(self.deadline(storage), self.start(), self.presision),
                (entry, storage),
            ),
            ..self
        }
    }

    /// The state without the deadline of an entry.
    pub open spec fn forgot(self, storage: TTIStorage) -> TTIState {
        TTIState { deadlines: self.deadlines.remove(storage.id), ..self }
    }

    /// What comes of the first `n` records of a list, each of which is asked about: an entry that
    /// has expired is reported and its deadline is forgotten; any other is given its time once
    /// more and is filed anew under the slot of its deadline.
    pub open spec fn sifted(self, list: Seq<Option<Record>>, n: int, now: Instant) -> Sifted
        decreases n,
    {
        if n <= 0 {
            Sifted { list: Seq::empty(), state: self }
        } else {
            let before = self.sifted(list, n - 1, now);
            match list[n - 1] {
                Some((entry, storage)) => if before.state.lapsed(storage, now) {
                    Sifted {
                        list: before.list.push(Some(entry)),
                        state: before.state.forgot(storage),
                    }
                } else {
                    Sifted {
                        list: before.list,
                        state: before.state.asked(storage, now).filed(entry, storage),
                    }
                },
                None => before,
            }
        }
    }

    /// To look at records takes no time and changes nothing but records and deadlines.
    pub proof fn sifted_keeps(self, list: Seq<Option<Record>>, n: int, now: Instant)
        ensures
            self.sifted(list, n, now).state == (TTIState {
                records: self.sifted(list, n, now).state.records,
                deadlines: self.sifted(list, n, now).state.deadlines,
                ..self
            }),
        decreases n,
    {
        if n > 0 {
            self.sifted_keeps(list, n - 1, now);
        }
    }

    /// To look through the slots takes no time.
    pub proof fn checked_keeps(self, now: Instant)
        ensures
            self.checked(now).time == self.time,
            self.checked(now).presision == self.presision,
            self.checked(now).next_id == self.next_id,
            self.checked(now).base == self.base,
            self.checked(now).last_update == if self.must_check(now) {
                now
            } else {
                self.last_update
            },
    {
        let at = crate::records::earliest(self.records);
        let list = self.records[at];
        let taken = TTIState { records: self.records.remove(at), last_update: now, ..self };
        taken.sifted_keeps(list, list.len() as int, now);
    }

    /// The slots have not been looked through for the width of a slot.
    pub open spec fn must_check(self, now: Instant) -> bool {
        self.last_update.later(self.presision).nanos <= now.nanos
    }

    /// The slots are being looked through, and the time has come for the earliest.
    pub open spec fn is_due(self, now: Instant) -> bool {
        &&& self.must_check(now)
        &&& !(self.records =~= Map::<Instant, Seq<Option<Record>>>::empty())
        &&& crate::records::earliest(self.records).nanos <= now.nanos
    }

    /// What comes of the earliest slot.
    pub open spec fn earliest_sifted(self, now: Instant) -> Sifted {
        let at = crate::records::earliest(self.records);
        let list = self.records[at];
        let taken = TTIState { records: self.records.remove(at), last_update: now, ..self };
        taken.sifted(list, list.len() as int, now)
    }

    /// The state after the slots were looked through, if it was time for that.
    pub open spec fn checked(self, now: Instant) -> TTIState {
        if self.is_due(now) {
            self.earliest_sifted(now).state
        } else if self.must_check(now) {
            TTIState { last_update: now, ..self }
        } else {
            self
        }
    }

    /// The entries that were found to have expired then.
    pub open spec fn found(self, now: Instant) -> Option<Seq<Option<EntryId>>> {
        if self.is_due(now) {
            Some(self.earliest_sifted(now).list)
        } else {
            None
        }
    }
}

impl TTIState {
    /// The deadline of an entry is not earlier than its first one.
    pub open spec fn is_known(self, storage: TTIStorage) -> bool {
        storage.deadline.nanos <= self.deadline(storage).nanos
    }

    /// A new entry has expired when it has been left alone for `tti`, and not before.
    pub proof fn new_lapses_on_time(self, tti: Duration, now: Instant, later: Instant)
        requires
            now.nanos + tti.nanos <= u128::MAX,
        ensures
            self.begun(tti, now).is_known(self.storage(tti, now)),
            self.begun(tti, now).lapsed(self.storage(tti, now), later) <==> later.nanos
                >= now.nanos + tti.nanos,
    {
    }

    /// An entry that has not expired when it is looked at has expired when it has been left
    /// alone for its time from then on, and not before.
    pub proof fn look_gives_time(self, storage: TTIStorage, now: Instant, later: Instant)
        requires
            !self.lapsed(storage, now),
            now.nanos + storage.tti.nanos <= u128::MAX,
        ensures
            self.asked(storage, now).lapsed(storage, later) <==> later.nanos >= now.nanos
                + storage.tti.nanos,
    {
    }

    /// An entry that has expired stays so: neither a look at it, nor that it is reported and its
    /// deadline forgotten, makes a difference.
    pub proof fn lapsed_stays_lapsed(self, storage: TTIStorage, now: Instant, later: Instant)
        requires
            self.lapsed(storage, now),
            now.nanos <= later.nanos,
            self.is_known(storage),
        ensures
            self.asked(storage, now) == self,
            self.asked(storage, now).lapsed(storage, later),
            self.forgot(storage).lapsed(storage, later),
    {
    }

    /// Only entries that have expired are reported, and only for records of the list.
    pub proof fn sifted_reports_lapsed(
        self,
        list: Seq<Option<Record>>,
        n: int,
        now: Instant,
        i: int,
    ) -> (at: int)
        requires
            0 <= n <= list.len(),
            0 <= i < self.sifted(list, n, now).list.len(),
        ensures
            0 <= at < n,
            list[at] matches Some((entry, storage)) && self.sifted(list, n, now).list[i] == Some(
                entry,
            ) && self.sifted(list, at, now).state.lapsed(storage, now),
        decreases n,
    {
        if n <= 0 {
            0
        } else {
            let before = self.sifted(list, n - 1, now);
            if i < before.list.len() {
                self.sifted_reports_lapsed(list, n - 1, now, i)
            } else {
                n - 1
            }
        }
    }
}

/// A policy by which each entry may be left alone for a time that is given when it is inserted.
/// Entries that have been left alone for longer are reported, even though nobody looks at them.
pub struct TTIPolicy {
    clock: Clock,
    tti_records: Records<Record>,
    deadlines: BTreeMap<u64, Instant>,
    tti_last_update: Instant,
    presision: Precision,
    base: Option<Instant>,
    next_id: u64,
}

impl View for TTIPolicy {
    type V = TTIState;

    /// The state of the policy.
    closed spec fn view(&self) -> TTIState {
        TTIState {
            time: self.clock.time(),
            records: self.tti_records@,
            deadlines: self.deadlines@,
            last_update: self.tti_last_update,
            presision: self.presision.width(),
            base: self.base,
            next_id: self.next_id,
        }
    }
}

impl TTIPolicy {
    /// The clock.
    pub closed spec fn clock(&self) -> Clock {
        self.clock
    }

    /// From `pre` to `post` the clock was looked at once, and the time that was read last is the
    /// one that it showed.
    pub open spec fn waits(pre: Self, post: Self) -> bool {
        &&& pre@.time == pre.clock().time()
        &&& post@.time == post.clock().time()
        &&& Clock::ticks(pre.clock(), post.clock())
    }

    /// A policy whose slots are a tenth of a second wide.
    pub fn new() -> (policy: TTIPolicy)
        ensures
            policy@.records == Map::<Instant, Seq<Option<Record>>>::empty(),
            policy@.deadlines == Map::<u64, Instant>::empty(),
            policy@.last_update == policy@.time,
            policy@.next_id == 0,
            policy@.presision.nanos == 100_000_000,
            policy@.base is None,
            policy.clock().is_started(),
            policy.clock().time() == policy@.time,
    {
        TTIPolicy::with_presision(Duration::from_millis(100))
    }

    /// A policy with slots of a given width, a millisecond at least.
    pub fn with_presision(presision: Duration) -> (policy: TTIPolicy)
        requires
            presision.nanos >= crate::time::NANOS_PER_MILLI,
        ensures
            policy@.records == Map::<Instant, Seq<Option<Record>>>::empty(),
            policy@.deadlines == Map::<u64, Instant>::empty(),
            policy@.last_update == policy@.time,
            policy@.next_id == 0,
            policy@.presision == presision,
            policy@.base is None,
            policy.clock().is_started(),
            policy.clock().time() == policy@.time,
    {
        let mut clock = Clock::start();
        let tti_last_update = clock.now();
        TTIPolicy {
            clock,
            tti_records: Records::new(),
            deadlines: BTreeMap::new(),
            tti_last_update,
            presision: Precision::new(presision),
            base: None,
            next_id: 0,
        }
    }

    /// The deadline of an entry.
    fn current_deadline(&self, storage: &TTIStorage) -> (deadline: Instant)
        ensures
            deadline == self@.deadline(*storage),
    {
        match self.deadlines.get(&storage.id) {
            Some(deadline) => *deadline,
            None => storage.deadline,
        }
    }

    /// What to keep of a new entry that is inserted at a point in time.
    pub fn init_storage_at(&mut self, tti: Duration, now: Instant) -> (storage: TTIStorage)
        ensures
            final(self).clock() == old(self).clock(),
            storage == old(self)@.storage(tti, now),
            final(self)@ == old(self)@.begun(tti, now),
    {
        let storage = TTIStorage { id: self.next_id, tti, deadline: now.plus(tti) };
        self.deadlines.insert(storage.id, storage.deadline);
        self.next_id = self.next_id.wrapping_add(1);
        assert(self@ =~= old(self)@.begun(tti, now));
        storage
    }

    /// Whether an entry has expired at a point in time. One that has not is given its time once
    /// more.
    pub fn is_expired_at(&mut self, storage: &TTIStorage, now: Instant) -> (expired: bool)
        ensures
            final(self).clock() == old(self).clock(),
            expired == old(self)@.lapsed(*storage, now),
            final(self)@ == old(self)@.asked(*storage, now),
    {
        if self.current_deadline(storage).nanos > now.nanos {
            self.deadlines.insert(storage.id, now.plus(storage.tti));
            assert(self@ =~= old(self)@.asked(*storage, now));
            false
        } else {
            true
        }
    }

    /// Forgets the deadlines that are over. The first deadlines of those entries are over too.
    fn keep_ahead(&mut self, now: Instant)
        ensures
            final(self).clock() == old(self).clock(),
            final(self)@ == (TTIState {
                deadlines: ahead(old(self)@.deadlines, now),
                ..old(self)@
            }),
    {
        let mut kept: BTreeMap<u64, Instant> = BTreeMap::new();
        let iter = self.deadlines.iter();
        let ghost all = iter.remaining();
        let ghost deadlines = self.deadlines@;
        proof {
            assert forall|i: int| 0 <= i < all.len() implies deadlines.contains_key(
                *(#[trigger] all[i]).0,
            ) && deadlines[*all[i].0] == *all[i].1 by {}
            assert forall|number: u64| #[trigger] deadlines.contains_key(number) implies exists|
                i: int,
            |
                0 <= i < all.len() && *(#[trigger] all[i]).0 == number by {
                let i = all.index_of((&number, &deadlines[number]));
                assert(*all[i].0 == number);
            }
        }
        for entry in entries: iter
            invariant
                entries.seq() == all,
                forall|i: int|
                    0 <= i < all.len() ==> deadlines.contains_key(*(#[trigger] all[i]).0)
                        && deadlines[*all[i].0] == *all[i].1,
                forall|number: u64| #[trigger]
                    kept@.contains_key(number) ==> {
                        &&& deadlines.contains_key(number)
                        &&& deadlines[number].nanos > now.nanos
                        &&& kept@[number] == deadlines[number]
                    },
                forall|i: int|
                    0 <= i < entries.index() && (*(#[trigger] all[i]).1).nanos > now.nanos
                        ==> kept@.contains_key(*all[i].0),
        {
            assert(all[entries.index() as int] == entry);
            if entry.1.nanos > now.nanos {
                kept.insert(*entry.0, *entry.1);
            }
        }
        assert(kept@ =~= ahead(deadlines, now)) by {
            assert forall|number: u64| #[trigger]
                ahead(deadlines, now).contains_key(number) implies kept@.contains_key(number) by {
                assert(deadlines.contains_key(number));
                let i = choose|i: int| 0 <= i < all.len() && *(#[trigger] all[i]).0 == number;
                assert((*all[i].1).nanos > now.nanos);
            }
        }
        self.deadlines = kept;
        assert(self@ =~= TTIState { deadlines: ahead(old(self)@.deadlines, now), ..old(self)@ });
    }

    /// The point in time from which slots are counted.
    fn slots_start(&self) -> (start: Instant)
        ensures
            start == self@.start(),
    {
        match self.base {
            Some(base) => base,
            None => Instant { nanos: 0 },
        }
    }

    /// Slots are counted from the first entry on that is filed.
    fn count_slots(&mut self, now: Instant)
        ensures
            final(self).clock() == old(self).clock(),
            final(self)@ == old(self)@.based(now),
    {
        if self.base.is_none() {
            self.base = Some(now);
        }
        assert(self@ =~= old(self)@.based(now));
    }

    /// Files an entry under the slot of its deadline.
    fn file(&mut self, entry: EntryId, storage: TTIStorage)
        ensures
            final(self).clock() == old(self).clock(),
            final(self)@ == old(self)@.filed(entry, storage),
    {
        let deadline = self.current_deadline(&storage);
        let slot = align_instant(deadline, self.slots_start(), &self.presision);
        self.tti_records.push(slot, (entry, storage));
        assert(self@ =~= old(self)@.filed(entry, storage));
    }

    /// Looks through the earliest slot, if it is time for that.
    pub fn on_access_at(&mut self, now: Instant) -> (command: Command)
        ensures
            final(self).clock() == old(self).clock(),
            final(self)@ == old(self)@.checked(now),
            command.is_bulk(old(self)@.found(now)),
    {
        if self.tti_last_update.plus(self.presision.get()).nanos > now.nanos {
            return Command::Noop;
        }
        self.tti_last_update = now;
        let expires_at = match self.tti_records.first() {
            Some(at) => at,
            None => {
                return Command::Noop;
            },
        };
        if expires_at.nanos > now.nanos {
            return Command::Noop;
        }
        let list = self.tti_records.take(expires_at);
        let ghost taken = self@;
        assert(taken =~= TTIState {
            records: old(self)@.records.remove(expires_at),
            last_update: now,
            ..old(self)@
        });
        let mut expired: Vec<Option<EntryId>> = Vec::new();
        let mut i: usize = 0;
        while i < list.len()
            invariant
                i <= list.len(),
                self.clock() == old(self).clock(),
                self@ == taken.sifted(list@, i as int, now).state,
                expired@ == taken.sifted(list@, i as int, now).list,
            decreases list.len() - i,
        {
            if let Some((entry, storage)) = list[i] {
                let ghost before = self@;
                if self.is_expired_at(&storage, now) {
                    expired.push(Some(entry));
                    let _ = self.deadlines.remove(&storage.id);
                    assert(self@ =~= before.forgot(storage));
                } else {
                    self.file(entry, storage);
                }
            }
            i += 1;
        }
        Command::RemoveBulk(expired)
    }

    /// Files an entry under the slot of its deadline, and looks through the earliest slot, if it
    /// is time for that.
    pub fn on_insert_at(&mut self, entry: EntryId, storage: &TTIStorage, now: Instant) -> (command:
        Command)
        ensures
            final(self).clock() == old(self).clock(),
            final(self)@ == old(self)@.based(now).filed(entry, *storage).checked(now),
            command.is_bulk(old(self)@.based(now).filed(entry, *storage).found(now)),
    {
        self.count_slots(now);
        self.file(entry, *storage);
        self.on_access_at(now)
    }
}

impl ExpirePolicy for TTIPolicy {
    /// How long the entry may be left alone.
    type Info = Duration;

    type Storage = TTIStorage;

    open spec fn inits(pre: Self, info: Duration, post: Self, storage: TTIStorage) -> bool {
        let now = post@.time;
        &&& TTIPolicy::waits(pre, post)
        &&& pre@.time.nanos <= now.nanos
        &&& post@ == pre@.at(now).begun(info, now)
        &&& storage == pre@.storage(info, now)
    }

    open spec fn clears(pre: Self, post: Self) -> bool {
        &&& TTIPolicy::waits(pre, post)
        &&& pre@.time.nanos <= post@.time.nanos
        &&& post@ == TTIState {
            time: post@.time,
            records: Map::empty(),
            deadlines: ahead(pre@.deadlines, post@.time),
            last_update: post@.time,
            ..pre@
        }
    }

    open spec fn judges(
        pre: Self,
        entry: EntryId,
        storage: TTIStorage,
        post: Self,
        expired: bool,
    ) -> bool {
        let now = post@.time;
        &&& TTIPolicy::waits(pre, post)
        &&& pre@.time.nanos <= now.nanos
        &&& post@ == pre@.at(now).asked(storage, now)
        &&& expired == pre@.lapsed(storage, now)
    }

    open spec fn accessed(
        pre: Self,
        entry: EntryId,
        storage: TTIStorage,
        post: Self,
        command: Command,
    ) -> bool {
        let now = post@.time;
        &&& TTIPolicy::waits(pre, post)
        &&& pre@.time.nanos <= now.nanos
        &&& post@ == pre@.at(now).checked(now)
        &&& command.is_bulk(pre@.at(now).found(now))
    }

    open spec fn inserted(
        pre: Self,
        entry: EntryId,
        storage: TTIStorage,
        post: Self,
        command: Command,
    ) -> bool {
        let now = post@.time;
        &&& TTIPolicy::waits(pre, post)
        &&& pre@.time.nanos <= now.nanos
        &&& post@ == pre@.at(now).based(now).filed(entry, storage).checked(now)
        &&& command.is_bulk(pre@.at(now).based(now).filed(entry, storage).found(now))
    }

    open spec fn resized(pre: Self, post: Self, command: Command) -> bool {
        post == pre && command is Noop
    }

    fn init_storage(&mut self, info: Duration) -> (storage: TTIStorage) {
        let now = self.clock.now();
        assert(self@ =~= old(self)@.at(now));
        self.init_storage_at(info, now)
    }

    fn clear(&mut self) {
        let now = self.clock.now();
        self.tti_records.clear();
        self.keep_ahead(now);
        self.tti_last_update = now;
    }

    fn is_expired(&mut self, entry: EntryId, storage: &TTIStorage) -> (expired: bool) {
        let now = self.clock.now();
        assert(self@ =~= old(self)@.at(now));
        self.is_expired_at(storage, now)
    }

    fn on_access(&mut self, entry: EntryId, storage: &TTIStorage) -> (command: Command) {
        let now = self.clock.now();
        assert(self@ =~= old(self)@.at(now));
        proof {
            self@.checked_keeps(now);
        }
        self.on_access_at(now)
    }

    fn on_insert(&mut self, entry: EntryId, storage: &TTIStorage) -> (command: Command) {
        let now = self.clock.now();
        assert(self@ =~= old(self)@.at(now));
        proof {
            self@.based(now).filed(entry, *storage).checked_keeps(now);
        }
        self.on_insert_at(entry, storage, now)
    }

    fn on_resize(&mut self) -> (command: Command) {
        Command::Noop
    }
}

/// A record that goes by the id or by the number of an entry is the record of this entry.
pub open spec fn is_own(record: Option<Record>, entry: EntryId, storage: TTIStorage) -> bool {
    match record {
        Some((e, s)) => e == entry || s.id == storage.id ==> e == entry && s == storage,
        None => true,
    }
}

/// A record that goes by the number of an entry is kept of this entry.
pub open spec fn is_of(record: Option<Record>, storage: TTIStorage) -> bool {
    match record {
        Some((e, s)) => s.id == storage.id ==> s == storage,
        None => true,
    }
}

/// This place of a slot holds a record of the entry.
pub open spec fn is_held(
    records: Map<Instant, Seq<Option<Record>>>,
    at: Instant,
    i: int,
    entry: EntryId,
) -> bool {
    &&& records.contains_key(at)
    &&& 0 <= i < records[at].len()
    &&& records[at][i] matches Some((e, s)) && e == entry
}

/// There is no second record of an entry, and no place is empty.
pub open spec fn is_single(records: Map<Instant, Seq<Option<Record>>>) -> bool {
    &&& forall|at: Instant, i: int|
        #![trigger records[at][i]]
        records.contains_key(at) && 0 <= i < records[at].len() ==> records[at][i] is Some
    &&& forall|a: Instant, i: int, b: Instant, j: int, entry: EntryId| #[trigger]
        is_held(records, a, i, entry) && #[trigger] is_held(records, b, j, entry) ==> a == b && i
            == j
}

impl TTIState {
    /// The entries that there are records of.
    pub open spec fn recorded(self) -> Set<EntryId> {
        Set::new(|id: EntryId| exists|at: Instant, i: int| is_held(self.records, at, i, id))
    }

    /// The numbers in the records have been given out.
    pub open spec fn is_numbered(self) -> bool {
        forall|at: Instant, i: int|
            #![trigger self.records[at][i]]
            self.records.contains_key(at) && 0 <= i < self.records[at].len() ==> (
            self.records[at][i] matches Some((e, s)) ==> s.id < self.next_id)
    }

    /// The slots are a millisecond wide at least, they can be counted, there is no second record
    /// of an entry, and the numbers in the records have been given out.
    pub open spec fn is_sound(self) -> bool {
        &&& self.presision.nanos >= crate::time::NANOS_PER_MILLI
        &&& self.records.dom().finite()
        &&& is_single(self.records)
        &&& self.is_numbered()
    }

    /// No record of another entry goes by the id or by the number of this one.
    pub open spec fn tells_apart(self, entry: EntryId, storage: TTIStorage) -> bool {
        forall|at: Instant, i: int|
            #![trigger self.records[at][i]]
            self.records.contains_key(at) && 0 <= i < self.records[at].len() ==> is_own(
                self.records[at][i],
                entry,
                storage,
            )
    }

    /// The number of the entry has been given out, no record of another entry goes by it or by
    /// the id, and the deadline of the entry is known: it is not earlier than the first one, nor
    /// later than its time from now on.
    pub open spec fn minds(self, entry: EntryId, storage: TTIStorage) -> bool {
        &&& storage.id < self.next_id
        &&& self.tells_apart(entry, storage)
        &&& self.deadlines.contains_key(storage.id)
        &&& storage.deadline.nanos <= self.deadlines[storage.id].nanos
        &&& self.deadlines[storage.id].nanos <= self.time.later(storage.tti).nanos
    }

    /// The number of the entry has been given out, no record of another entry goes by it, and
    /// the deadline of the entry is not earlier than the first one, nor later than its time from
    /// now on.
    pub open spec fn follows(self, storage: TTIStorage) -> bool {
        &&& storage.id < self.next_id
        &&& self.is_known(storage)
        &&& self.deadline(storage).nanos <= self.time.later(storage.tti).nanos
        &&& forall|at: Instant, i: int|
            #![trigger self.records[at][i]]
            self.records.contains_key(at) && 0 <= i < self.records[at].len() ==> is_of(
                self.records[at][i],
                storage,
            )
    }

    /// An entry that the policy has in mind is one that it follows.
    proof fn minded_is_followed(self, entry: EntryId, storage: TTIStorage)
        requires
            self.minds(entry, storage),
        ensures
            self.follows(storage),
    {
        assert forall|at: Instant, i: int|
            #![trigger self.records[at][i]]
            self.records.contains_key(at) && 0 <= i < self.records[at].len() implies is_of(
            self.records[at][i],
            storage,
        ) by {
            assert(is_own(self.records[at][i], entry, storage));
        }
    }

    /// As time goes by, the policy goes on to follow an entry.
    proof fn followed_later(self, storage: TTIStorage, now: Instant)
        requires
            self.follows(storage),
            self.time.nanos <= now.nanos,
        ensures
            self.at(now).follows(storage),
            self.at(now).deadline(storage) == self.deadline(storage),
    {
        let timed = self.at(now);
        assert forall|at: Instant, i: int|
            #![trigger timed.records[at][i]]
            timed.records.contains_key(at) && 0 <= i < timed.records[at].len() implies is_of(
            timed.records[at][i],
            storage,
        ) by {
            assert(is_of(self.records[at][i], storage));
        }
    }

    /// The policy follows an entry whatever slots are counted from.
    proof fn same_follows(self, other: TTIState, storage: TTIStorage)
        requires
            self.follows(storage),
            other == (TTIState { base: other.base, ..self }),
        ensures
            other.follows(storage),
            other.deadline(storage) == self.deadline(storage),
    {
        assert forall|at: Instant, i: int|
            #![trigger other.records[at][i]]
            other.records.contains_key(at) && 0 <= i < other.records[at].len() implies is_of(
            other.records[at][i],
            storage,
        ) by {
            assert(is_of(self.records[at][i], storage));
        }
    }

    /// Filing a record of the entry, or of one by another number, changes nothing for the entry.
    proof fn filed_follows(self, storage: TTIStorage, e: EntryId, s: TTIStorage)
        requires
            self.follows(storage),
            is_of(Some((e, s)), storage),
        ensures
            self.filed(e, s).follows(storage),
            self.filed(e, s).deadline(storage) == self.deadline(storage),
    {
        let filed = self.filed(e, s);
        assert forall|at: Instant, i: int|
            #![trigger filed.records[at][i]]
            filed.records.contains_key(at) && 0 <= i < filed.records[at].len() implies is_of(
            filed.records[at][i],
            storage,
        ) by {
            if self.records.contains_key(at) && i < self.records[at].len() {
                assert(is_of(self.records[at][i], storage));
            }
        }
    }

    /// A state with the same records has the same entries on record.
    proof fn same_records(self, other: TTIState)
        requires
            other.records == self.records,
        ensures
            other.recorded() =~= self.recorded(),
            self.is_numbered() && self.next_id <= other.next_id ==> other.is_numbered(),
            forall|e: EntryId, s: TTIStorage|
                self.tells_apart(e, s) ==> #[trigger] other.tells_apart(e, s),
    {
        assert forall|e: EntryId, s: TTIStorage| self.tells_apart(e, s) implies #[trigger]
            other.tells_apart(e, s) by {
            assert forall|at: Instant, i: int|
                #![trigger other.records[at][i]]
                other.records.contains_key(at) && 0 <= i < other.records[at].len() implies is_own(
                other.records[at][i],
                e,
                s,
            ) by {
                assert(is_own(self.records[at][i], e, s));
            }
        }
        if self.is_numbered() && self.next_id <= other.next_id {
            assert forall|at: Instant, i: int|
                #![trigger other.records[at][i]]
                other.records.contains_key(at) && 0 <= i < other.records[at].len() implies (
            other.records[at][i] matches Some((e, s)) ==> s.id < other.next_id) by {
                assert(self.records[at][i] matches Some((e, s)) ==> s.id < self.next_id);
            }
        }
    }

    /// Filing an own record keeps the entry in mind.
    proof fn filed_minds(
        self,
        entry: EntryId,
        storage: TTIStorage,
        e: EntryId,
        s: TTIStorage,
    )
        requires
            self.minds(entry, storage),
            is_own(Some((e, s)), entry, storage),
        ensures
            self.filed(e, s).minds(entry, storage),
    {
        let filed = self.filed(e, s);
        assert forall|at: Instant, i: int|
            #![trigger filed.records[at][i]]
            filed.records.contains_key(at) && 0 <= i < filed.records[at].len() implies is_own(
            filed.records[at][i],
            entry,
            storage,
        ) by {
            if self.records.contains_key(at) && i < self.records[at].len() {
                assert(is_own(self.records[at][i], entry, storage));
            }
        }
    }

    /// An entry that there is no record of can be filed.
    proof fn filed_is_sound(self, entry: EntryId, storage: TTIStorage)
        requires
            self.is_sound(),
            storage.id < self.next_id,
            !self.recorded().contains(entry),
        ensures
            self.filed(entry, storage).is_sound(),
            self.filed(entry, storage).recorded() =~= self.recorded().insert(entry),
    {
        let filed = self.filed(entry, storage);
        let slot = crate::policy::align::aligned(self.deadline(storage), self.start(), self.presision);
        let n = if self.records.contains_key(slot) {
            self.records[slot].len() as int
        } else {
            0
        };
        assert forall|at: Instant, i: int, e: EntryId| #[trigger]
            is_held(filed.records, at, i, e) <==> is_held(self.records, at, i, e) || (at == slot
                && i == n && e == entry) by {}
        assert forall|at: Instant, i: int|
            #![trigger filed.records[at][i]]
            filed.records.contains_key(at) && 0 <= i
                < filed.records[at].len() implies filed.records[at][i] is Some && (
        filed.records[at][i] matches Some((e, s)) ==> s.id < filed.next_id) by {
            if at != slot || i != n {
                assert(self.records[at][i] is Some);
            }
        }
        assert forall|a: Instant, i: int, b: Instant, j: int, e: EntryId| #[trigger]
            is_held(filed.records, a, i, e) && #[trigger] is_held(
                filed.records,
                b,
                j,
                e,
            ) implies a == b && i == j by {
            if e == entry {
                assert(!is_held(self.records, a, i, e));
                assert(!is_held(self.records, b, j, e));
            }
        }
        assert forall|e: EntryId| #[trigger]
            filed.recorded().contains(e) <==> self.recorded().insert(entry).contains(e) by {
            assert(is_held(filed.records, slot, n, entry));
            if self.recorded().contains(e) {
                let (at, i) = choose|at: Instant, i: int| is_held(self.records, at, i, e);
                assert(is_held(filed.records, at, i, e));
            }
            if filed.recorded().contains(e) {
                let (at, i) = choose|at: Instant, i: int| is_held(filed.records, at, i, e);
                assert(is_held(filed.records, at, i, e));
            }
        }
    }

    /// Looking at records before the deadline of an entry keeps it in mind, does not bring its
    /// deadline forward and does not report it.
    proof fn sifted_minds(
        self,
        entry: EntryId,
        storage: TTIStorage,
        list: Seq<Option<Record>>,
        n: int,
        now: Instant,
    )
        requires
            self.minds(entry, storage),
            self.time == now,
            forall|i: int| 0 <= i < list.len() ==> is_own(#[trigger] list[i], entry, storage),
            0 <= n <= list.len(),
            now.nanos < self.deadlines[storage.id].nanos,
        ensures
            self.sifted(list, n, now).state.minds(entry, storage),
            self.deadlines[storage.id].nanos <= self.sifted(
                list,
                n,
                now,
            ).state.deadlines[storage.id].nanos,
            self.sifted(list, n, now).state.deadlines[storage.id] == self.deadlines[storage.id]
                || self.sifted(list, n, now).state.deadlines[storage.id] == now.later(storage.tti),
            !self.sifted(list, n, now).list.contains(Some(entry)),
        decreases n,
    {
        if n > 0 {
            self.sifted_minds(entry, storage, list, n - 1, now);
            self.sifted_keeps(list, n - 1, now);
            let before = self.sifted(list, n - 1, now);
            assert(is_own(list[n - 1], entry, storage));
            match list[n - 1] {
                Some((e, s)) => {
                    if before.state.lapsed(s, now) {
                        assert(s.id != storage.id);
                        before.state.same_records(before.state.forgot(s));
                    } else {
                        let asked = before.state.asked(s, now);
                        before.state.same_records(asked);
                        asked.filed_minds(entry, storage, e, s);
                    }
                },
                None => {},
            }
        }
    }

    /// Looking at records moves no deadline back that is over.
    proof fn sifted_follows(
        self,
        storage: TTIStorage,
        list: Seq<Option<Record>>,
        n: int,
        now: Instant,
    )
        requires
            self.follows(storage),
            self.time == now,
            forall|i: int| 0 <= i < list.len() ==> is_of(#[trigger] list[i], storage),
            0 <= n <= list.len(),
        ensures
            self.sifted(list, n, now).state.follows(storage),
            self.deadline(storage).nanos <= now.nanos ==> self.sifted(list, n, now).state.deadline(
                storage,
            ).nanos <= self.deadline(storage).nanos,
        decreases n,
    {
        if n > 0 {
            self.sifted_follows(storage, list, n - 1, now);
            self.sifted_keeps(list, n - 1, now);
            let before = self.sifted(list, n - 1, now);
            assert(is_of(list[n - 1], storage));
            match list[n - 1] {
                Some((e, s)) => {
                    if !before.state.lapsed(s, now) {
                        before.state.asked(s, now).filed_follows(storage, e, s);
                    }
                },
                None => {},
            }
        }
    }

    /// Looking at records that are not on record elsewhere leaves a single record of each entry,
    /// and none of those that it reports.
    proof fn sifted_is_sound(self, list: Seq<Option<Record>>, n: int, now: Instant)
        requires
            self.is_sound(),
            0 <= n <= list.len(),
            forall|i: int|
                0 <= i < list.len() ==> {
                    &&& (#[trigger] list[i]) matches Some((e, s)) && s.id < self.next_id
                        && !self.recorded().contains(e)
                },
            forall|i: int, j: int|
                0 <= i < j < list.len() ==> (#[trigger] list[i]).unwrap().0 != (
                #[trigger] list[j]).unwrap().0,
        ensures
            self.sifted(list, n, now).state.is_sound(),
            self.sifted(list, n, now).state.next_id == self.next_id,
            self.sifted(list, n, now).list.no_duplicates(),
            forall|e: EntryId| #[trigger]
                self.sifted(list, n, now).state.recorded().contains(e) ==> {
                    &&& !self.sifted(list, n, now).list.contains(Some(e))
                    &&& self.recorded().contains(e) || exists|i: int|
                        0 <= i < n && (#[trigger] list[i]).unwrap().0 == e
                },
            forall|k: int|
                0 <= k < self.sifted(list, n, now).list.len() ==> exists|i: int|
                    0 <= i < n && (#[trigger] self.sifted(list, n, now).list[k]) == Some(
                        (#[trigger] list[i]).unwrap().0,
                    ),
        decreases n,
    {
        if n > 0 {
            self.sifted_is_sound(list, n - 1, now);
            self.sifted_keeps(list, n - 1, now);
            let before = self.sifted(list, n - 1, now);
            let all = self.sifted(list, n, now);
            let (e, s) = list[n - 1].unwrap();
            assert(list[n - 1] is Some);
            assert(!before.state.recorded().contains(e));
            assert forall|k: int| 0 <= k < before.list.len() implies (#[trigger] before.list[k])
                != Some(e) by {
                let i = choose|i: int|
                    0 <= i < n - 1 && before.list[k] == Some((#[trigger] list[i]).unwrap().0);
                assert(list[i].unwrap().0 != list[n - 1].unwrap().0);
            }
            if before.state.lapsed(s, now) {
                before.state.same_records(all.state);
                assert forall|x: EntryId| #[trigger]
                    all.state.recorded().contains(x) implies !all.list.contains(Some(x)) by {
                    assert(before.state.recorded().contains(x));
                    if all.list.contains(Some(x)) {
                        let k = all.list.index_of(Some(x));
                        if k < before.list.len() {
                            assert(before.list[k] == Some(x));
                        }
                    }
                }
            } else {
                let asked = before.state.asked(s, now);
                before.state.same_records(asked);
                asked.filed_is_sound(e, s);
                assert forall|x: EntryId| #[trigger] all.state.recorded().contains(x) implies {
                    &&& !all.list.contains(Some(x))
                    &&& self.recorded().contains(x) || exists|i: int|
                        0 <= i < n && (#[trigger] list[i]).unwrap().0 == x
                } by {
                    if x == e {
                        assert(list[n - 1].unwrap().0 == x);
                        if all.list.contains(Some(x)) {
                            let k = all.list.index_of(Some(x));
                            assert(before.list[k] == Some(x));
                        }
                    } else {
                        assert(before.state.recorded().contains(x));
                    }
                }
            }
            assert forall|k: int| 0 <= k < all.list.len() implies exists|i: int|
                0 <= i < n && (#[trigger] all.list[k]) == Some((#[trigger] list[i]).unwrap().0) by {
                if k < before.list.len() {
                    assert(before.list[k] == all.list[k]);
                    let i = choose|i: int|
                        0 <= i < n - 1 && before.list[k] == Some((#[trigger] list[i]).unwrap().0);
                    assert(list[i].unwrap().0 == all.list[k].unwrap());
                } else {
                    assert(all.list[k] == Some(list[n - 1].unwrap().0));
                }
            }
        }
    }

    /// The state with the earliest slot taken out.
    pub open spec fn without_earliest(self, now: Instant) -> TTIState {
        TTIState {
            records: self.records.remove(crate::records::earliest(self.records)),
            last_update: now,
            ..self
        }
    }

    /// The earliest slot is there where slots are looked through.
    proof fn due_slot_exists(self, now: Instant)
        requires
            self.records.dom().finite(),
            self.is_due(now),
        ensures
            self.records.contains_key(crate::records::earliest(self.records)),
    {
        assert(self.records.dom().len() > 0) by {
            if self.records.dom().len() == 0 {
                assert(self.records =~= Map::<Instant, Seq<Option<Record>>>::empty());
            }
        }
        crate::records::earliest_exists(self.records);
    }

    /// Looking through the slots leaves a single record of each entry, and none of those that it
    /// finds.
    pub proof fn checked_is_sound(self, now: Instant)
        requires
            self.is_sound(),
        ensures
            self.checked(now).is_sound(),
            self.checked(now).next_id == self.next_id,
            self.checked(now).recorded().subset_of(self.recorded()),
            self.found(now) matches Some(list) ==> list.no_duplicates() && forall|id: EntryId|
                #[trigger]
                list.contains(Some(id)) ==> self.recorded().contains(id) && !self.checked(
                    now,
                ).recorded().contains(id),
    {
        if self.is_due(now) {
            self.due_slot_exists(now);
            let at = crate::records::earliest(self.records);
            let list = self.records[at];
            let taken = self.without_earliest(now);
            assert forall|a: Instant, i: int, e: EntryId| #[trigger]
                is_held(taken.records, a, i, e) implies is_held(self.records, a, i, e) && a
                != at by {}
            assert forall|a: Instant, i: int|
                #![trigger taken.records[a][i]]
                taken.records.contains_key(a) && 0 <= i
                    < taken.records[a].len() implies taken.records[a][i] is Some && (
            taken.records[a][i] matches Some((e, s)) ==> s.id < taken.next_id) by {
                assert(self.records[a][i] is Some);
            }
            assert forall|i: int| 0 <= i < list.len() implies {
                &&& (#[trigger] list[i]) matches Some((e, s)) && s.id < taken.next_id
                    && !taken.recorded().contains(e)
            } by {
                assert(self.records[at][i] is Some);
                let e = list[i].unwrap().0;
                assert(is_held(self.records, at, i, e));
                if taken.recorded().contains(e) {
                    let (b, j) = choose|b: Instant, j: int| is_held(taken.records, b, j, e);
                    assert(is_held(self.records, b, j, e));
                }
            }
            assert forall|i: int, j: int| 0 <= i < j < list.len() implies (
            #[trigger] list[i]).unwrap().0 != (#[trigger] list[j]).unwrap().0 by {
                assert(self.records[at][i] is Some && self.records[at][j] is Some);
                let e = list[i].unwrap().0;
                if list[j].unwrap().0 == e {
                    assert(is_held(self.records, at, i, e) && is_held(self.records, at, j, e));
                }
            }
            taken.sifted_is_sound(list, list.len() as int, now);
            let all = taken.sifted(list, list.len() as int, now);
            assert forall|e: EntryId| all.state.recorded().contains(e) implies self.recorded().contains(
                e,
            ) by {
                if taken.recorded().contains(e) {
                    let (b, j) = choose|b: Instant, j: int| is_held(taken.records, b, j, e);
                    assert(is_held(self.records, b, j, e));
                } else {
                    let i = choose|i: int|
                        0 <= i < list.len() && (#[trigger] list[i]).unwrap().0 == e;
                    assert(is_held(self.records, at, i, e));
                }
            }
            assert forall|e: EntryId| #[trigger]
                all.list.contains(Some(e)) implies self.recorded().contains(e)
                && !all.state.recorded().contains(e) by {
                let k = all.list.index_of(Some(e));
                assert(all.list[k] == Some(e));
                let i = choose|i: int|
                    0 <= i < list.len() && all.list[k] == Some((#[trigger] list[i]).unwrap().0);
                assert(self.records[at][i] is Some);
                assert(is_held(self.records, at, i, e));
            }
        } else {
            self.same_records(self.checked(now));
        }
    }

    /// Looking through the slots moves no deadline back that is over.
    pub proof fn checked_follows(self, storage: TTIStorage, now: Instant)
        requires
            self.is_sound(),
            self.time == now,
            self.follows(storage),
        ensures
            self.checked(now).follows(storage),
            self.deadline(storage).nanos <= now.nanos ==> self.checked(now).deadline(storage).nanos
                <= self.deadline(storage).nanos,
    {
        if self.is_due(now) {
            self.due_slot_exists(now);
            let at = crate::records::earliest(self.records);
            let list = self.records[at];
            let taken = self.without_earliest(now);
            assert forall|s: Instant, i: int|
                #![trigger taken.records[s][i]]
                taken.records.contains_key(s) && 0 <= i < taken.records[s].len() implies is_of(
                taken.records[s][i],
                storage,
            ) by {
                assert(is_of(self.records[s][i], storage));
            }
            assert forall|i: int| 0 <= i < list.len() implies is_of(
                #[trigger] list[i],
                storage,
            ) by {
                assert(is_of(self.records[at][i], storage));
            }
            taken.sifted_follows(storage, list, list.len() as int, now);
        }
    }

    /// Looking through the slots before the deadline of an entry keeps it in mind, does not
    /// bring its deadline forward and does not report it.
    pub proof fn checked_minds(self, entry: EntryId, storage: TTIStorage, now: Instant)
        requires
            self.is_sound(),
            self.time == now,
            self.minds(entry, storage),
            now.nanos < self.deadline(storage).nanos,
        ensures
            self.checked(now).minds(entry, storage),
            self.deadline(storage).nanos <= self.checked(now).deadline(storage).nanos,
            self.checked(now).deadline(storage) == self.deadline(storage) || self.checked(
                now,
            ).deadline(storage) == now.later(storage.tti),
            self.found(now) matches Some(list) ==> !list.contains(Some(entry)),
    {
        self.checked_keeps(now);
        if self.is_due(now) {
            self.due_slot_exists(now);
            let at = crate::records::earliest(self.records);
            let list = self.records[at];
            let n = list.len() as int;
            let taken = self.without_earliest(now);
            assert forall|s: Instant, i: int|
                #![trigger taken.records[s][i]]
                taken.records.contains_key(s) && 0 <= i < taken.records[s].len() implies is_own(
                taken.records[s][i],
                entry,
                storage,
            ) by {
                assert(is_own(self.records[s][i], entry, storage));
            }
            assert forall|i: int| 0 <= i < list.len() implies is_own(
                #[trigger] list[i],
                entry,
                storage,
            ) by {
                assert(is_own(self.records[at][i], entry, storage));
            }
            taken.sifted_minds(entry, storage, list, n, now);
        } else {
            self.same_records(self.checked(now));
        }
    }
}

impl Timely for TTIPolicy {
    open spec fn read_at(self, storage: TTIStorage) -> Instant {
        self@.time
    }

    open spec fn is_sound(self) -> bool {
        self@.is_sound()
    }

    open spec fn can_begin(self) -> bool {
        self@.next_id < u64::MAX
    }

    open spec fn recorded(self) -> Set<EntryId> {
        self@.recorded()
    }

    open spec fn knows(self, storage: TTIStorage) -> bool {
        storage.id < self@.next_id
    }

    open spec fn are_apart(a: TTIStorage, b: TTIStorage) -> bool {
        a.id != b.id
    }

    open spec fn deadline(self, storage: TTIStorage) -> Instant {
        self@.deadline(storage)
    }

    open spec fn minds(self, entry: EntryId, storage: TTIStorage) -> bool {
        self@.minds(entry, storage)
    }

    open spec fn follows(self, storage: TTIStorage) -> bool {
        self@.follows(storage)
    }

    proof fn inits_timely(
        pre: Self,
        info: Duration,
        post: Self,
        made: TTIStorage,
        id: EntryId,
        s: TTIStorage,
    ) {
        pre@.same_records(post@);
        if pre@.minds(id, s) {
            pre@.minded_is_followed(id, s);
        }
        if !pre@.recorded().contains(id) {
            assert forall|at: Instant, i: int|
                #![trigger post@.records[at][i]]
                post@.records.contains_key(at) && 0 <= i < post@.records[at].len() implies is_own(
                post@.records[at][i],
                id,
                made,
            ) by {
                assert(pre@.records[at][i] matches Some((e, t)) ==> t.id < pre@.next_id);
                assert(!is_held(pre@.records, at, i, id));
            }
        }
    }

    proof fn judges_timely(
        pre: Self,
        entry: EntryId,
        storage: TTIStorage,
        post: Self,
        expired: bool,
        id: EntryId,
        s: TTIStorage,
    ) {
        pre@.same_records(post@);
        if pre@.minds(id, s) {
            pre@.minded_is_followed(id, s);
        }
    }

    proof fn accessed_timely(
        pre: Self,
        entry: EntryId,
        storage: TTIStorage,
        post: Self,
        command: Command,
        id: EntryId,
        s: TTIStorage,
    ) {
        let now = post@.time;
        let timed = pre@.at(now);
        pre@.same_records(timed);
        timed.checked_is_sound(now);
        timed.checked_keeps(now);
        if pre@.minds(id, s) {
            pre@.minded_is_followed(id, s);
            if now.nanos < pre@.deadline(s).nanos {
                timed.checked_minds(id, s, now);
            }
        }
        if pre@.follows(s) {
            pre@.followed_later(s, now);
            timed.checked_follows(s, now);
        }
    }

    proof fn inserted_timely(
        pre: Self,
        entry: EntryId,
        storage: TTIStorage,
        post: Self,
        command: Command,
        id: EntryId,
        s: TTIStorage,
    ) {
        let now = post@.time;
        let timed = pre@.at(now).based(now);
        pre@.same_records(timed);
        timed.filed_is_sound(entry, storage);
        let filed = timed.filed(entry, storage);
        filed.checked_is_sound(now);
        filed.checked_keeps(now);
        if pre@.follows(s) && (storage == s || Self::are_apart(storage, s)) {
            pre@.followed_later(s, now);
            pre@.at(now).same_follows(timed, s);
            timed.filed_follows(s, entry, storage);
            filed.checked_follows(s, now);
        }
        if pre@.minds(id, s) && (if id == entry {
            s == storage
        } else {
            Self::are_apart(storage, s)
        }) && now.nanos < pre@.deadline(s).nanos {
            timed.filed_minds(id, s, entry, storage);
            filed.checked_minds(id, s, now);
        }
    }

    proof fn clears_timely(pre: Self, post: Self, s: TTIStorage) {
        assert forall|id: EntryId| !post@.recorded().contains(id) by {
            if post@.recorded().contains(id) {
                let (at, i) = choose|at: Instant, i: int| is_held(post@.records, at, i, id);
                assert(is_held(post@.records, at, i, id));
            }
        }
    }
}

impl Recording for TTIPolicy {
    proof fn accessed_recorded(
        pre: Self,
        entry: EntryId,
        storage: TTIStorage,
        post: Self,
        command: Command,
    ) {
        let now = post@.time;
        pre@.same_records(pre@.at(now));
        pre@.at(now).checked_is_sound(now);
    }

    proof fn inserted_recorded(
        pre: Self,
        entry: EntryId,
        storage: TTIStorage,
        post: Self,
        command: Command,
    ) {
        let now = post@.time;
        let timed = pre@.at(now).based(now);
        pre@.same_records(timed);
        timed.filed_is_sound(entry, storage);
        timed.filed(entry, storage).checked_is_sound(now);
    }
}

/// This place of a slot holds this record.
pub open spec fn is_filed(
    records: Map<Instant, Seq<Option<Record>>>,
    at: Instant,
    i: int,
    record: Record,
) -> bool {
    &&& records.contains_key(at)
    &&& 0 <= i < records[at].len()
    &&& records[at][i] == Some(record)
}

impl TTIState {
    /// The slot is not later than the deadline of the entry by more than the width of a slot, or
    /// is the one that slots are counted from.
    pub open spec fn is_near(self, at: Instant, storage: TTIStorage) -> bool {
        ||| at.nanos <= self.deadline(storage).nanos + self.presision.nanos
        ||| self.base == Some(at)
    }

    /// Each entry on record is followed and under a slot near its deadline, no two go by the same
    /// number, and slots are counted once an entry is on record.
    pub open spec fn is_prompt(self) -> bool {
        &&& self.is_sound()
        &&& forall|at: Instant, i: int, record: Record| #[trigger]
            is_filed(self.records, at, i, record) ==> {
                &&& self.base is Some
                &&& self.follows(record.1)
                &&& self.is_near(at, record.1)
            }
        &&& forall|a: Instant, i: int, r: Record, b: Instant, j: int, t: Record| #[trigger]
            is_filed(self.records, a, i, r) && #[trigger] is_filed(self.records, b, j, t)
                && r.1.id == t.1.id ==> a == b && i == j
    }

    /// No record goes by this number.
    pub open spec fn is_unused(self, number: u64) -> bool {
        forall|at: Instant, i: int, record: Record| #[trigger]
            is_filed(self.records, at, i, record) ==> record.1.id != number
    }

    /// There is a record, of an entry that can be filed.
    spec fn can_file(self, record: Option<Record>) -> bool {
        match record {
            Some((e, s)) => self.follows(s) && self.is_unused(s.id) && !self.recorded().contains(e),
            None => false,
        }
    }

    /// To give an entry its time, or to forget its deadline, leaves the deadlines of the others as
    /// they are.
    proof fn deadline_changed(self, post: TTIState, number: u64)
        requires
            self.is_prompt(),
            post == (TTIState { deadlines: post.deadlines, ..self }),
            forall|other: u64|
                other != number ==> (#[trigger] post.deadlines.contains_key(other)
                    == self.deadlines.contains_key(other)) && post.deadlines[other]
                    == self.deadlines[other],
            forall|at: Instant, i: int, record: Record| #[trigger]
                is_filed(self.records, at, i, record) && record.1.id == number ==> {
                    &&& self.deadline(record.1).nanos <= post.deadline(record.1).nanos
                    &&& post.deadline(record.1).nanos <= post.time.later(record.1.tti).nanos
                },
        ensures
            post.is_prompt(),
    {
        self.same_records(post);
        assert forall|at: Instant, i: int, record: Record| #[trigger]
            is_filed(post.records, at, i, record) implies {
            &&& post.base is Some
            &&& post.follows(record.1)
            &&& post.is_near(at, record.1)
        } by {
            assert(is_filed(self.records, at, i, record));
            let s = record.1;
            assert(self.follows(s));
            if s.id != number {
                assert(post.deadlines.contains_key(s.id) == self.deadlines.contains_key(s.id));
            }
            assert forall|b: Instant, j: int|
                #![trigger post.records[b][j]]
                post.records.contains_key(b) && 0 <= j < post.records[b].len() implies is_of(
                post.records[b][j],
                s,
            ) by {
                assert(is_of(self.records[b][j], s));
            }
        }
    }

    /// An entry by a number that no record goes by can be filed; the records that there are stay
    /// where they are.
    proof fn filed_is_prompt(self, entry: EntryId, storage: TTIStorage) -> (n: int)
        requires
            self.is_prompt(),
            self.base is Some,
            self.follows(storage),
            self.is_unused(storage.id),
            !self.recorded().contains(entry),
        ensures
            self.filed(entry, storage).is_prompt(),
            forall|at: Instant, i: int, record: Record| #[trigger]
                is_filed(self.filed(entry, storage).records, at, i, record) <==> is_filed(
                    self.records,
                    at,
                    i,
                    record,
                ) || (at == crate::policy::align::aligned(
                    self.deadline(storage),
                    self.start(),
                    self.presision,
                ) && i == n && record == (entry, storage)),
    {
        let filed = self.filed(entry, storage);
        let slot = crate::policy::align::aligned(
            self.deadline(storage),
            self.start(),
            self.presision,
        );
        let n = if self.records.contains_key(slot) {
            self.records[slot].len() as int
        } else {
            0
        };
        crate::policy::align::aligned_is_near(self.deadline(storage), self.start(), self.presision);
        self.filed_is_sound(entry, storage);
        assert forall|at: Instant, i: int, record: Record| #[trigger]
            is_filed(filed.records, at, i, record) <==> is_filed(self.records, at, i, record) || (at
                == slot && i == n && record == (entry, storage)) by {}
        assert forall|at: Instant, i: int, record: Record| #[trigger]
            is_filed(filed.records, at, i, record) implies {
            &&& filed.base is Some
            &&& filed.follows(record.1)
            &&& filed.is_near(at, record.1)
        } by {
            if is_filed(self.records, at, i, record) {
                self.filed_follows(record.1, entry, storage);
            } else {
                self.filed_follows(storage, entry, storage);
            }
        }
        n
    }

    /// What comes of the first `n` records of a list: each is reported, just where its deadline
    /// has come, or on record again; and what was on record stays where it is.
    proof fn sifted_loses_none(self, list: Seq<Option<Record>>, n: int, now: Instant)
        requires
            self.is_prompt(),
            self.time == now,
            self.base is Some,
            0 <= n <= list.len(),
            forall|j: int|
                0 <= j < list.len() ==> self.can_file(#[trigger] list[j]),
            forall|j: int, k: int|
                0 <= j < k < list.len() ==> (#[trigger] list[j]).unwrap().0 != (
                #[trigger] list[k]).unwrap().0 && list[j].unwrap().1.id != list[k].unwrap().1.id,
        ensures
            ({
                let all = self.sifted(list, n, now);
                &&& all.state.is_prompt()
                &&& all.state.time == now
                &&& all.state.base == self.base
                &&& all.state.next_id == self.next_id
                &&& all.state.presision == self.presision
                &&& forall|at: Instant, i: int, record: Record| #[trigger]
                    is_filed(self.records, at, i, record) ==> is_filed(
                        all.state.records,
                        at,
                        i,
                        record,
                    )
                &&& forall|at: Instant, i: int, record: Record| #[trigger]
                    is_filed(all.state.records, at, i, record) ==> is_filed(
                        self.records,
                        at,
                        i,
                        record,
                    ) || exists|j: int| 0 <= j < n && (#[trigger] list[j]) == Some(record)
                &&& forall|j: int|
                    0 <= j < n ==> (if self.deadline((#[trigger] list[j]).unwrap().1).nanos
                        <= now.nanos {
                        all.list.contains(Some(list[j].unwrap().0))
                    } else {
                        exists|at: Instant, i: int|
                            is_filed(all.state.records, at, i, list[j].unwrap())
                    })
                &&& forall|j: int|
                    n <= j < list.len() ==> all.state.deadline((#[trigger] list[j]).unwrap().1)
                        == self.deadline(list[j].unwrap().1)
            }),
        decreases n,
    {
        if n > 0 {
            self.sifted_loses_none(list, n - 1, now);
            let before = self.sifted(list, n - 1, now);
            let all = self.sifted(list, n, now);
            let (e, s) = list[n - 1].unwrap();
            assert(list[n - 1] is Some);
            assert(before.state.deadline(s) == self.deadline(s));
            assert(before.state.is_unused(s.id)) by {
                assert forall|at: Instant, i: int, record: Record| #[trigger]
                    is_filed(before.state.records, at, i, record) implies record.1.id != s.id by {
                    if !is_filed(self.records, at, i, record) {
                        let j = choose|j: int|
                            0 <= j < n - 1 && (#[trigger] list[j]) == Some(record);
                        assert(list[j].unwrap().1.id != list[n - 1].unwrap().1.id);
                    }
                }
            }
            assert forall|j: int| n <= j < list.len() implies all.state.deadline(
                (#[trigger] list[j]).unwrap().1,
            ) == self.deadline(list[j].unwrap().1) by {
                assert(list[n - 1].unwrap().1.id != list[j].unwrap().1.id);
                assert(before.state.deadline(list[j].unwrap().1) == self.deadline(
                    list[j].unwrap().1,
                ));
            }
            if before.state.lapsed(s, now) {
                before.state.deadline_changed(all.state, s.id);
                assert(all.list[all.list.len() - 1] == Some(e));
                assert forall|j: int| 0 <= j < n implies (if self.deadline(
                    (#[trigger] list[j]).unwrap().1,
                ).nanos <= now.nanos {
                    all.list.contains(Some(list[j].unwrap().0))
                } else {
                    exists|at: Instant, i: int|
                        is_filed(all.state.records, at, i, list[j].unwrap())
                }) by {
                    if j < n - 1 && self.deadline(list[j].unwrap().1).nanos <= now.nanos {
                        let k = before.list.index_of(Some(list[j].unwrap().0));
                        assert(all.list[k] == Some(list[j].unwrap().0));
                    }
                }
            } else {
                let asked = before.state.asked(s, now);
                before.state.deadline_changed(asked, s.id);
                assert(asked.is_unused(s.id)) by {
                    assert forall|at: Instant, i: int, record: Record| #[trigger]
                        is_filed(asked.records, at, i, record) implies record.1.id != s.id by {
                        assert(is_filed(before.state.records, at, i, record));
                    }
                }
                assert(!asked.recorded().contains(e)) by {
                    if asked.recorded().contains(e) {
                        let (at, i) = choose|at: Instant, i: int| is_held(asked.records, at, i, e);
                        let record = asked.records[at][i].unwrap();
                        assert(is_filed(before.state.records, at, i, record));
                        if is_filed(self.records, at, i, record) {
                            assert(is_held(self.records, at, i, e));
                        } else {
                            let j = choose|j: int|
                                0 <= j < n - 1 && (#[trigger] list[j]) == Some(record);
                            assert(list[j].unwrap().0 != list[n - 1].unwrap().0);
                        }
                    }
                }
                assert(asked.follows(s)) by {
                    assert(self.follows(s));
                    assert forall|at: Instant, i: int|
                        #![trigger asked.records[at][i]]
                        asked.records.contains_key(at) && 0 <= i
                            < asked.records[at].len() implies is_of(asked.records[at][i], s) by {
                        if let Some(record) = asked.records[at][i] {
                            assert(is_filed(asked.records, at, i, record));
                        }
                    }
                }
                let m = asked.filed_is_prompt(e, s);
                let slot = crate::policy::align::aligned(
                    asked.deadline(s),
                    asked.start(),
                    asked.presision,
                );
                assert(is_filed(all.state.records, slot, m, (e, s)));
                assert forall|at: Instant, i: int, record: Record| #[trigger]
                    is_filed(self.records, at, i, record) implies is_filed(
                    all.state.records,
                    at,
                    i,
                    record,
                ) by {
                    assert(is_filed(before.state.records, at, i, record));
                    assert(is_filed(asked.records, at, i, record));
                }
                assert forall|at: Instant, i: int, record: Record| #[trigger]
                    is_filed(all.state.records, at, i, record) implies is_filed(
                    self.records,
                    at,
                    i,
                    record,
                ) || exists|j: int| 0 <= j < n && (#[trigger] list[j]) == Some(record) by {
                    if is_filed(asked.records, at, i, record) {
                        assert(is_filed(before.state.records, at, i, record));
                        if !is_filed(self.records, at, i, record) {
                            let j = choose|j: int|
                                0 <= j < n - 1 && (#[trigger] list[j]) == Some(record);
                            assert(0 <= j < n && list[j] == Some(record));
                        }
                    } else {
                        assert(list[n - 1] == Some(record));
                    }
                }
                assert forall|j: int| 0 <= j < n implies (if self.deadline(
                    (#[trigger] list[j]).unwrap().1,
                ).nanos <= now.nanos {
                    all.list.contains(Some(list[j].unwrap().0))
                } else {
                    exists|at: Instant, i: int|
                        is_filed(all.state.records, at, i, list[j].unwrap())
                }) by {
                    if j < n - 1 && self.deadline(list[j].unwrap().1).nanos > now.nanos {
                        let (at, i) = choose|at: Instant, i: int|
                            is_filed(before.state.records, at, i, list[j].unwrap());
                        assert(is_filed(asked.records, at, i, list[j].unwrap()));
                        assert(is_filed(all.state.records, at, i, list[j].unwrap()));
                    }
                }
            }
        }
    }

    /// A look through the slots reports each entry that was on record, just where its deadline has
    /// come, or leaves it on record. One in a slot that is not looked through stays in its place.
    proof fn checked_loses_none(self, now: Instant, at: Instant, i: int, record: Record)
        requires
            self.is_prompt(),
            self.time == now,
            is_filed(self.records, at, i, record),
        ensures
            self.checked(now).is_prompt(),
            if self.is_due(now) && at == crate::records::earliest(self.records) {
                if self.deadline(record.1).nanos <= now.nanos {
                    self.found(now).unwrap().contains(Some(record.0))
                } else {
                    exists|b: Instant, j: int| is_filed(self.checked(now).records, b, j, record)
                }
            } else {
                is_filed(self.checked(now).records, at, i, record)
            },
    {
        if self.is_due(now) {
            self.checked_kept(now);
            let first = crate::records::earliest(self.records);
            let list = self.records[first];
            let taken = self.without_earliest(now);
            self.earliest_is_apart(now);
            taken.sifted_loses_none(list, list.len() as int, now);
            if at == first {
                assert(list[i] == Some(record));
                assert(list[i].unwrap() == record);
                assert(taken.deadline(record.1) == self.deadline(record.1));
            } else {
                assert(is_filed(taken.records, at, i, record));
            }
        } else {
            self.checked_kept(now);
        }
    }

    /// What is in the earliest slot is nowhere else.
    proof fn earliest_is_apart(self, now: Instant)
        requires
            self.is_prompt(),
            self.time == now,
            self.is_due(now),
        ensures
            ({
                let list = self.records[crate::records::earliest(self.records)];
                let taken = self.without_earliest(now);
                &&& taken.is_prompt()
                &&& list.len() > 0 ==> taken.base is Some
                &&& forall|j: int|
                    0 <= j < list.len() ==> taken.can_file(#[trigger] list[j])
                &&& forall|j: int, k: int|
                    0 <= j < k < list.len() ==> (#[trigger] list[j]).unwrap().0 != (
                    #[trigger] list[k]).unwrap().0 && list[j].unwrap().1.id
                        != list[k].unwrap().1.id
            }),
    {
        self.due_slot_exists(now);
        let first = crate::records::earliest(self.records);
        let list = self.records[first];
        let taken = self.without_earliest(now);
        assert forall|a: Instant, i: int, e: EntryId| #[trigger]
            is_held(taken.records, a, i, e) implies is_held(self.records, a, i, e) && a
            != first by {}
        assert forall|a: Instant, i: int, r: Record| #[trigger]
            is_filed(taken.records, a, i, r) implies is_filed(self.records, a, i, r) && a
            != first by {}
        assert forall|a: Instant, i: int|
            #![trigger taken.records[a][i]]
            taken.records.contains_key(a) && 0 <= i
                < taken.records[a].len() implies taken.records[a][i] is Some && (
        taken.records[a][i] matches Some((e, s)) ==> s.id < taken.next_id) by {
            assert(self.records[a][i] is Some);
        }
        assert(taken.is_sound());
        assert forall|s: TTIStorage| #[trigger] self.follows(s) implies taken.follows(s) by {
            assert forall|a: Instant, i: int|
                #![trigger taken.records[a][i]]
                taken.records.contains_key(a) && 0 <= i < taken.records[a].len() implies is_of(
                taken.records[a][i],
                s,
            ) by {
                assert(is_of(self.records[a][i], s));
            }
        }
        assert forall|a: Instant, i: int, r: Record| #[trigger]
            is_filed(taken.records, a, i, r) implies {
            &&& taken.base is Some
            &&& taken.follows(r.1)
            &&& taken.is_near(a, r.1)
        } by {
            assert(is_filed(self.records, a, i, r));
            assert(self.follows(r.1));
        }
        assert forall|j: int| 0 <= j < list.len() implies taken.can_file(#[trigger] list[j]) by {
            assert(self.records[first][j] is Some);
            let (e, s) = list[j].unwrap();
            assert(is_filed(self.records, first, j, (e, s)));
            assert(is_held(self.records, first, j, e));
            assert(self.follows(s));
            assert forall|a: Instant, i: int, r: Record| #[trigger]
                is_filed(taken.records, a, i, r) implies r.1.id != s.id by {
                assert(is_filed(self.records, a, i, r));
            }
            if taken.recorded().contains(e) {
                let (a, i) = choose|a: Instant, i: int| is_held(taken.records, a, i, e);
                assert(is_held(self.records, a, i, e));
            }
        }
        if list.len() > 0 {
            assert(list[0] is Some);
            assert(is_filed(self.records, first, 0, list[0].unwrap()));
        }
        assert forall|j: int, k: int| 0 <= j < k < list.len() implies (
        #[trigger] list[j]).unwrap().0 != (#[trigger] list[k]).unwrap().0
            && list[j].unwrap().1.id != list[k].unwrap().1.id by {
            assert(list[j] is Some && list[k] is Some);
            let (r, t) = (list[j].unwrap(), list[k].unwrap());
            assert(is_filed(self.records, first, j, r) && is_filed(self.records, first, k, t));
            assert(is_held(self.records, first, j, r.0));
            assert(is_held(self.records, first, k, t.0));
        }
    }

    /// A look through the slots leaves all in order.
    proof fn checked_kept(self, now: Instant)
        requires
            self.is_prompt(),
            self.time == now,
        ensures
            self.checked(now).is_prompt(),
            self.checked(now).base == self.base,
            self.checked(now).presision == self.presision,
    {
        self.checked_is_sound(now);
        if self.is_due(now) {
            let list = self.records[crate::records::earliest(self.records)];
            let taken = self.without_earliest(now);
            self.earliest_is_apart(now);
            if list.len() > 0 {
                taken.sifted_loses_none(list, list.len() as int, now);
            }
        } else {
            let post = self.checked(now);
            assert forall|at: Instant, i: int, record: Record| #[trigger]
                is_filed(post.records, at, i, record) implies {
                &&& post.base is Some
                &&& post.follows(record.1)
                &&& post.is_near(at, record.1)
            } by {
                assert(is_filed(self.records, at, i, record));
                self.same_following(post, record.1);
            }
        }
    }

    /// The policy follows an entry as long as its records and deadlines stay as they are and no
    /// time is taken back.
    proof fn same_following(self, other: TTIState, storage: TTIStorage)
        requires
            self.follows(storage),
            other.records == self.records,
            other.deadlines == self.deadlines,
            self.time.nanos <= other.time.nanos,
            self.next_id <= other.next_id,
        ensures
            other.follows(storage),
            other.deadline(storage) == self.deadline(storage),
    {
        assert forall|at: Instant, i: int|
            #![trigger other.records[at][i]]
            other.records.contains_key(at) && 0 <= i < other.records[at].len() implies is_of(
            other.records[at][i],
            storage,
        ) by {
            assert(is_of(self.records[at][i], storage));
        }
    }

    /// As time goes by, all stays in order; and so it does when slots begin to be counted.
    proof fn later_is_prompt(self, now: Instant)
        requires
            self.is_prompt(),
            self.time.nanos <= now.nanos,
        ensures
            self.at(now).is_prompt(),
            self.at(now).based(now).is_prompt(),
    {
        assert forall|post: TTIState|
            {
                &&& post == (TTIState { time: now, base: post.base, ..self })
                &&& post.base == self.base || self.base is None
            } implies #[trigger] post.is_prompt() by {
            self.same_records(post);
            assert forall|at: Instant, i: int, record: Record| #[trigger]
                is_filed(post.records, at, i, record) implies {
                &&& post.base is Some
                &&& post.follows(record.1)
                &&& post.is_near(at, record.1)
            } by {
                assert(is_filed(self.records, at, i, record));
                self.same_following(post, record.1);
            }
        }
    }
}

/// No entry is lost by an access: each that was on record is either reported, or still on record,
/// and then under a slot that is not later than its deadline by more than the width of a slot, or is
/// the one that slots are counted from. It is not reported before its deadline has come.
pub proof fn no_entry_is_lost(
    pre: TTIPolicy,
    entry: EntryId,
    storage: TTIStorage,
    post: TTIPolicy,
    command: Command,
    at: Instant,
    i: int,
    record: Record,
)
    requires
        TTIPolicy::accessed(pre, entry, storage, post, command),
        pre@.is_prompt(),
        is_filed(pre@.records, at, i, record),
    ensures
        post@.is_prompt(),
        (command.lists(record.0) && pre@.deadline(record.1).nanos <= post@.time.nanos) || exists|
            b: Instant,
            j: int,
        |
            #![trigger is_filed(post@.records, b, j, record)]
            {
                &&& is_filed(post@.records, b, j, record)
                &&& b.nanos <= post@.deadline(record.1).nanos + post@.presision.nanos || post@.base
                    == Some(b)
            },
{
    let now = post@.time;
    let timed = pre@.at(now);
    pre@.later_is_prompt(now);
    timed.checked_loses_none(now, at, i, record);
    if timed.is_due(now) && at == crate::records::earliest(timed.records) {
        if timed.deadline(record.1).nanos > now.nanos {
            let (b, j) = choose|b: Instant, j: int| is_filed(post@.records, b, j, record);
            assert(is_filed(post@.records, b, j, record));
            assert(post@.is_near(b, record.1));
        }
    } else {
        assert(is_filed(post@.records, at, i, record));
        assert(post@.is_near(at, record.1));
    }
}

/// No entry is lost by an insertion, neither one that was on record nor the new one.
pub proof fn no_entry_is_lost_by_insertion(
    pre: TTIPolicy,
    entry: EntryId,
    storage: TTIStorage,
    post: TTIPolicy,
    command: Command,
    at: Instant,
    i: int,
    record: Record,
)
    requires
        TTIPolicy::inserted(pre, entry, storage, post, command),
        pre@.is_prompt(),
        pre@.follows(storage),
        pre@.is_unused(storage.id),
        !pre@.recorded().contains(entry),
        is_filed(pre@.records, at, i, record) || record == (entry, storage),
    ensures
        post@.is_prompt(),
        (command.lists(record.0) && pre@.deadline(record.1).nanos <= post@.time.nanos) || exists|
            b: Instant,
            j: int,
        |
            #![trigger is_filed(post@.records, b, j, record)]
            {
                &&& is_filed(post@.records, b, j, record)
                &&& b.nanos <= post@.deadline(record.1).nanos + post@.presision.nanos || post@.base
                    == Some(b)
            },
{
    let now = post@.time;
    let timed = pre@.at(now).based(now);
    pre@.later_is_prompt(now);
    pre@.same_records(timed);
    pre@.same_following(timed, storage);
    assert(timed.is_unused(storage.id)) by {
        assert forall|a: Instant, k: int, r: Record| #[trigger]
            is_filed(timed.records, a, k, r) implies r.1.id != storage.id by {
            assert(is_filed(pre@.records, a, k, r));
        }
    }
    let filed = timed.filed(entry, storage);
    let n = timed.filed_is_prompt(entry, storage);
    let slot = crate::policy::align::aligned(
        timed.deadline(storage),
        timed.start(),
        timed.presision,
    );
    let (a, k) = if is_filed(pre@.records, at, i, record) {
        assert(is_filed(timed.records, at, i, record));
        (at, i)
    } else {
        (slot, n)
    };
    assert(is_filed(filed.records, a, k, record));
    filed.checked_loses_none(now, a, k, record);
    if filed.is_due(now) && a == crate::records::earliest(filed.records) {
        if filed.deadline(record.1).nanos > now.nanos {
            let (b, j) = choose|b: Instant, j: int| is_filed(post@.records, b, j, record);
            assert(is_filed(post@.records, b, j, record));
            assert(post@.is_near(b, record.1));
        }
    } else {
        assert(is_filed(post@.records, a, k, record));
        assert(post@.is_near(a, record.1));
    }
}

/// An access that comes at least the width of a slot after the slots were looked through last
/// reports every entry of the earliest slot whose deadline has come, if the time has come for the
/// slot.
pub proof fn left_alone_is_reported(
    pre: TTIPolicy,
    entry: EntryId,
    storage: TTIStorage,
    post: TTIPolicy,
    command: Command,
    at: Instant,
    i: int,
    record: Record,
)
    requires
        TTIPolicy::accessed(pre, entry, storage, post, command),
        pre@.is_prompt(),
        pre@.last_update.nanos + pre@.presision.nanos <= post@.time.nanos,
        is_filed(pre@.records, at, i, record),
        forall|other: Instant| #[trigger]
            pre@.records.contains_key(other) ==> at.nanos <= other.nanos,
        at.nanos <= post@.time.nanos,
        pre@.deadline(record.1).nanos <= post@.time.nanos,
    ensures
        command.lists(record.0),
        post@.last_update == post@.time,
{
    let now = post@.time;
    let timed = pre@.at(now);
    pre@.later_is_prompt(now);
    crate::records::earliest_is(timed.records, at);
    timed.checked_loses_none(now, at, i, record);
    let taken = timed.without_earliest(now);
    let list = timed.records[at];
    taken.sifted_keeps(list, list.len() as int, now);
}

/// Slots keep their width and the point that they are counted from, and none but an access or an
/// insertion that comes at least the width of a slot after the slots were looked through last, or
/// that forgets all entries, counts as having looked through them.
pub proof fn goes_at_its_pace(
    pre: TTIPolicy,
    info: Duration,
    entry: EntryId,
    storage: TTIStorage,
    post: TTIPolicy,
    expired: bool,
    command: Command,
)
    requires
        pre@.last_update.nanos + pre@.presision.nanos <= u128::MAX,
        TTIPolicy::inits(pre, info, post, storage) || TTIPolicy::judges(
            pre,
            entry,
            storage,
            post,
            expired,
        ) || TTIPolicy::accessed(pre, entry, storage, post, command) || TTIPolicy::inserted(
            pre,
            entry,
            storage,
            post,
            command,
        ) || TTIPolicy::clears(pre, post),
    ensures
        post@.presision == pre@.presision,
        pre@.base is Some ==> post@.base == pre@.base,
        pre@.last_update.nanos <= pre@.time.nanos ==> post@.last_update.nanos <= post@.time.nanos,
        post@.last_update == pre@.last_update || post@.last_update == post@.time,
        post@.last_update != pre@.last_update && !TTIPolicy::clears(pre, post)
            ==> pre@.last_update.nanos + pre@.presision.nanos <= post@.time.nanos,
{
    let now = post@.time;
    pre@.at(now).checked_keeps(now);
    pre@.at(now).based(now).filed(entry, storage).checked_keeps(now);
}

/// All stays in order when a new entry is begun, and the new one can be filed.
pub proof fn beginning_is_prompt(pre: TTIPolicy, info: Duration, post: TTIPolicy, made: TTIStorage)
    requires
        TTIPolicy::inits(pre, info, post, made),
        pre@.is_prompt(),
        pre@.next_id < u64::MAX,
    ensures
        post@.is_prompt(),
        post@.follows(made),
        post@.is_unused(made.id),
{
    let now = post@.time;
    let timed = pre@.at(now);
    pre@.later_is_prompt(now);
    timed.same_records(post@);
    assert forall|at: Instant, i: int, record: Record| #[trigger]
        is_filed(post@.records, at, i, record) implies {
        &&& post@.base is Some
        &&& post@.follows(record.1)
        &&& post@.is_near(at, record.1)
        &&& record.1.id != made.id
    } by {
        assert(is_filed(timed.records, at, i, record));
        let s = record.1;
        assert(timed.follows(s));
        assert forall|b: Instant, j: int|
            #![trigger post@.records[b][j]]
            post@.records.contains_key(b) && 0 <= j < post@.records[b].len() implies is_of(
            post@.records[b][j],
            s,
        ) by {
            assert(is_of(timed.records[b][j], s));
        }
    }
    assert forall|at: Instant, i: int|
        #![trigger post@.records[at][i]]
        post@.records.contains_key(at) && 0 <= i < post@.records[at].len() implies is_of(
        post@.records[at][i],
        made,
    ) by {
        if let Some(record) = post@.records[at][i] {
            assert(is_filed(post@.records, at, i, record));
        }
    }
}

/// All stays in order when somebody asks about an entry that the policy follows.
pub proof fn asking_is_prompt(
    pre: TTIPolicy,
    entry: EntryId,
    storage: TTIStorage,
    post: TTIPolicy,
    expired: bool,
)
    requires
        TTIPolicy::judges(pre, entry, storage, post, expired),
        pre@.is_prompt(),
        pre@.follows(storage),
    ensures
        post@.is_prompt(),
        post@.records == pre@.records,
{
    let now = post@.time;
    let timed = pre@.at(now);
    pre@.later_is_prompt(now);
    pre@.same_following(timed, storage);
    assert forall|at: Instant, i: int, record: Record| #[trigger]
        is_filed(timed.records, at, i, record) && record.1.id == storage.id implies {
        &&& timed.deadline(record.1).nanos <= post@.deadline(record.1).nanos
        &&& post@.deadline(record.1).nanos <= post@.time.later(record.1.tti).nanos
    } by {
        assert(timed.follows(record.1));
        assert(is_of(timed.records[at][i], storage));
    }
    timed.deadline_changed(post@, storage.id);
}

/// By the readings of the outside clock that are taken in the two calls, as long as they do not go
/// back: an entry that was looked at, and not before it had expired, or that was inserted, has
/// expired when it has been left alone for its time since then, and not before. In between nothing
/// was done that moves its deadline.
pub proof fn expires_by_the_clock(
    pre: TTIPolicy,
    entry: EntryId,
    storage: TTIStorage,
    mid: TTIPolicy,
    later: TTIPolicy,
    post: TTIPolicy,
    expired: bool,
)
    requires
        TTIPolicy::judges(pre, entry, storage, mid, false) || TTIPolicy::inits(
            pre,
            storage.tti,
            mid,
            storage,
        ),
        TTIPolicy::judges(later, entry, storage, post, expired),
        later@.deadline(storage) == mid@.deadline(storage),
        pre.clock().time().nanos <= mid.clock().readings().last(),
        later.clock().time().nanos <= post.clock().readings().last(),
        mid.clock().readings().last() + storage.tti.nanos <= u128::MAX,
    ensures
        mid.clock().readings().len() == pre.clock().readings().len() + 1,
        mid.clock().can_show(mid.clock().readings().last()),
        post.clock().readings().len() == later.clock().readings().len() + 1,
        post.clock().can_show(post.clock().readings().last()),
        expired <==> post.clock().readings().last() - mid.clock().readings().last()
            >= storage.tti.nanos,
{
    Clock::shows_what_has_passed(pre.clock(), mid.clock());
    Clock::shows_what_has_passed(later.clock(), post.clock());
}

/// An access and an insertion go by a reading of the outside clock that is taken in them.
pub proof fn goes_by_the_clock(
    pre: TTIPolicy,
    entry: EntryId,
    storage: TTIStorage,
    post: TTIPolicy,
    command: Command,
)
    requires
        TTIPolicy::accessed(pre, entry, storage, post, command) || TTIPolicy::inserted(
            pre,
            entry,
            storage,
            post,
            command,
        ),
        pre.clock().time().nanos <= post.clock().readings().last(),
    ensures
        post.clock().readings().len() == pre.clock().readings().len() + 1,
        post.clock().can_show(post.clock().readings().last()),
        post@.time.nanos == post.clock().readings().last(),
{
    Clock::shows_what_has_passed(pre.clock(), post.clock());
}

/// A new policy has nothing on record, and is in order.
pub proof fn new_is_sound(policy: TTIPolicy)
    requires
        policy@.records == Map::<Instant, Seq<Option<Record>>>::empty(),
        policy@.presision.nanos >= crate::time::NANOS_PER_MILLI,
    ensures
        policy.is_sound(),
        policy.recorded() =~= Set::<EntryId>::empty(),
        policy@.is_prompt(),
{
    assert forall|at: Instant, i: int, id: EntryId| !(#[trigger] is_held(
        policy@.records,
        at,
        i,
        id,
    )) by {}
    assert forall|at: Instant, i: int, record: Record| !(#[trigger] is_filed(
        policy@.records,
        at,
        i,
        record,
    )) by {}
}

/// A value that may be left alone for `tti` is shown by a look if no step before it, nor the look
/// itself, comes so late that the value has been left alone for longer; each look at it gives it
/// its time once more, and so may a look through the slots. A look that comes too late does not
/// show it. What is done in between spares its entry.
pub proof fn lives_until_left_alone<K: Eq, V, H>(
    pre: MapModel<K, V, TTIPolicy, H>,
    key: K,
    value: V,
    tti: Duration,
    trace: InsertTrace<TTIPolicy>,
    out: Option<V>,
    maps: Seq<MapModel<K, V, TTIPolicy, H>>,
    steps: Seq<Step<K, V, TTIPolicy>>,
    access: AccessTrace<TTIPolicy>,
    post: MapModel<K, V, TTIPolicy, H>,
)
    requires
        pre.wf(),
        pre.is_in_step(),
        pre.policy@.next_id < u64::MAX,
        crate::life::runs(maps, steps),
        crate::life::can_run(maps, steps),
        pre.inserts(key, value, tti, trace, maps[0], out),
        maps[0].policy@.time.nanos < trace.ready@.time.nanos + tti.nanos <= u128::MAX,
        crate::life::is_spared(maps, steps, trace.id),
        maps.last().looks_up(key, access, post),
    ensures
        ({
            let last = maps.last();
            let deadline = last.policy@.deadline(trace.storage);
            let looked_at = access.accessed@.time;
            let then = access.accessed@.deadline(trace.storage);
            &&& last.entries[trace.id].value == value
            &&& trace.ready@.time.nanos + tti.nanos <= deadline.nanos
            &&& looked_at.nanos < deadline.nanos ==> {
                &&& deadline.nanos <= then.nanos
                &&& then == deadline || then == looked_at.later(tti)
            }
            &&& last.shown(key, access) == if looked_at.nanos < deadline.nanos
                && post.policy@.time.nanos < then.nanos {
                Some(trace.id)
            } else {
                None
            }
            &&& last.shown(key, access) is Some ==> post.policy@.deadline(trace.storage)
                == post.policy@.time.later(tti)
        }),
{
    crate::life::lives_until_its_deadline(
        pre,
        key,
        value,
        tti,
        trace,
        out,
        maps,
        steps,
        access,
        post,
    );
    let last = maps.last();
    let id = trace.id;
    let s = trace.storage;
    pre.insertion_in_step(key, value, tti, trace, maps[0], out);
    pre.inserted_is_kept(key, value, tti, trace, maps[0], out);
    assert forall|i: int| 0 <= i < steps.len() implies maps[i].is_fresh(#[trigger] steps[i]) by {
        crate::life::run_in_step(maps, steps, i);
    }
    crate::life::run_keeps(maps, steps, id, key);
    assert(maps[maps.len() - 1].wf());
    last.locate_is(id, key);
    let now = access.accessed@.time;
    let timed = last.policy@.at(now);
    TTIPolicy::accessed_timely(last.policy, id, s, access.accessed, access.command, id, s);
    last.policy@.same_records(timed);
    last.policy@.minded_is_followed(id, s);
    last.policy@.followed_later(s, now);
    timed.checked_follows(s, now);
    if now.nanos < last.policy@.deadline(s).nanos {
        timed.checked_minds(id, s, now);
        last.told_stays(access.command, id, key);
    }
}

} // verus!
