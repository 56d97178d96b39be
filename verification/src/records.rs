//! Lists of records, in slots that are ordered by time.
use std::collections::BTreeMap;

use vstd::prelude::*;
use vstd::std_specs::cmp::OrdSpec;
use vstd::std_specs::iter::IteratorSpec;

use crate::time::Instant;

verus! {

broadcast use {vstd::laws_cmp::group_laws_cmp, vstd::std_specs::btree::group_btree_axioms};

/// The earliest of the slots that are in use.
pub open spec fn earliest<V>(slots: Map<Instant, V>) -> Instant {
    choose|at: Instant| is_earliest(slots, at)
}

/// A slot is in use, and none in use is earlier.
pub open spec fn is_earliest<V>(slots: Map<Instant, V>, at: Instant) -> bool {
    &&& slots.contains_key(at)
    &&& forall|other: Instant| #[trigger] slots.contains_key(other) ==> at.nanos <= other.nanos
}

/// There is one earliest slot.
pub proof fn earliest_is<V>(slots: Map<Instant, V>, at: Instant)
    requires
        is_earliest(slots, at),
    ensures
        earliest(slots) == at,
{
    let found = earliest(slots);
    assert(is_earliest(slots, found));
    assert(slots.contains_key(found) && slots.contains_key(at));
    assert(found.nanos == at.nanos);
}

/// Where slots are in use, one is the earliest.
pub proof fn earliest_exists<V>(slots: Map<Instant, V>)
    requires
        slots.dom().finite(),
        slots.dom().len() > 0,
    ensures
        is_earliest(slots, earliest(slots)),
    decreases slots.dom().len(),
{
    let some = slots.dom().choose();
    assert(slots.contains_key(some));
    let rest = slots.remove(some);
    if rest.dom().len() == 0 {
        assert forall|other: Instant| #[trigger] slots.contains_key(other) implies some.nanos
            <= other.nanos by {
            if other != some {
                assert(rest.dom().contains(other));
            }
        }
        assert(is_earliest(slots, some));
    } else {
        earliest_exists(rest);
        let first = earliest(rest);
        let least = if some.nanos <= first.nanos {
            some
        } else {
            first
        };
        assert forall|other: Instant| #[trigger] slots.contains_key(other) implies least.nanos
            <= other.nanos by {
            if other != some {
                assert(rest.contains_key(other));
            }
        }
        assert(is_earliest(slots, least));
    }
}

/// What it means for keys to be in order.
pub proof fn increasing_means(keys: Seq<u128>)
    requires
        vstd::std_specs::btree::increasing_seq(keys),
    ensures
        forall|i: int, j: int| 0 <= i < j < keys.len() ==> keys[i] < keys[j],
{
    assert forall|i: int, j: int| 0 <= i < j < keys.len() implies keys[i] < keys[j] by {
        assert(keys[i].cmp_spec(&keys[j]) is Less);
    }
}

/// The least key of a map.
pub(crate) fn first_key<V>(map: &BTreeMap<u128, V>) -> (key: Option<u128>)
    ensures
        match key {
            Some(k) => {
                &&& map@.contains_key(k)
                &&& forall|other: u128| #[trigger] map@.contains_key(other) ==> k <= other
            },
            None => map@.dom() =~= Set::<u128>::empty(),
        },
{
    let iter = map.iter();
    let ghost all = iter.remaining();
    let ghost keys = all.map_values(|kv: (&u128, &V)| *kv.0);
    proof {
        increasing_means(keys);
        assert forall|other: u128| #[trigger] map@.contains_key(other) implies keys.len() > 0
            && keys[0] <= other by {
            let i = all.index_of((&other, &map@[other]));
            assert(keys[i] == other);
        }
    }
    for entry in entries: iter
        invariant
            entries.seq() == all,
            all.len() > 0 ==> map@.contains_key(keys[0]),
            keys == all.map_values(|kv: (&u128, &V)| *kv.0),
            forall|other: u128| #[trigger]
                map@.contains_key(other) ==> keys.len() > 0 && keys[0] <= other,
            entries.index() == 0,
    {
        assert(keys[0] == *entry.0);
        return Some(*entry.0);
    }
    None
}

/// Lists of records by slot.
pub struct Records<T> {
    slots: BTreeMap<u128, Vec<Option<T>>>,
}

impl<T> View for Records<T> {
    type V = Map<Instant, Seq<Option<T>>>;

    /// The lists by slot.
    closed spec fn view(&self) -> Map<Instant, Seq<Option<T>>> {
        Map::new(
            |at: Instant| self.slots@.contains_key(at.nanos),
            |at: Instant| self.slots@[at.nanos]@,
        )
    }
}

/// The lists with one more record, the last of its slot.
pub open spec fn recorded<T>(slots: Map<Instant, Seq<Option<T>>>, at: Instant, record: T) -> Map<
    Instant,
    Seq<Option<T>>,
> {
    let list = if slots.contains_key(at) {
        slots[at]
    } else {
        Seq::empty()
    };
    slots.insert(at, list.push(Some(record)))
}

impl<T> Records<T> {
    /// No slot is in use.
    pub fn new() -> (records: Records<T>)
        ensures
            records@ == Map::<Instant, Seq<Option<T>>>::empty(),
    {
        let records = Records { slots: BTreeMap::new() };
        assert(records@ =~= Map::<Instant, Seq<Option<T>>>::empty());
        records
    }

    /// Whether no slot is in use.
    pub fn is_empty(&self) -> (empty: bool)
        ensures
            empty == (self@ == Map::<Instant, Seq<Option<T>>>::empty()),
    {
        let empty = first_key(&self.slots).is_none();
        proof {
            if empty {
                assert(self@ =~= Map::<Instant, Seq<Option<T>>>::empty());
            } else {
                let k = choose|k: u128| self.slots@.contains_key(k);
                assert(self@.contains_key(Instant { nanos: k }));
            }
        }
        empty
    }

    /// Takes every record out.
    pub fn clear(&mut self)
        ensures
            final(self)@ == Map::<Instant, Seq<Option<T>>>::empty(),
    {
        self.slots.clear();
        assert(self@ =~= Map::<Instant, Seq<Option<T>>>::empty());
    }

    /// The earliest slot in use.
    pub fn first(&self) -> (at: Option<Instant>)
        ensures
            match at {
                Some(at) => is_earliest(self@, at) && at == earliest(self@),
                None => self@ == Map::<Instant, Seq<Option<T>>>::empty(),
            },
    {
        match first_key(&self.slots) {
            Some(nanos) => {
                let at = Instant { nanos };
                assert(is_earliest(self@, at));
                proof {
                    earliest_is(self@, at);
                }
                Some(at)
            },
            None => {
                assert(self@ =~= Map::<Instant, Seq<Option<T>>>::empty());
                None
            },
        }
    }

    /// Takes the records of a slot out.
    pub fn take(&mut self, at: Instant) -> (list: Vec<Option<T>>)
        ensures
            list@ == (if old(self)@.contains_key(at) {
                old(self)@[at]
            } else {
                Seq::empty()
            }),
            final(self)@ == old(self)@.remove(at),
    {
        let taken = self.slots.remove(&at.nanos);
        assert(self@ =~= old(self)@.remove(at));
        match taken {
            Some(list) => list,
            None => Vec::new(),
        }
    }

    /// Adds a record to a slot.
    pub fn push(&mut self, at: Instant, record: T)
        ensures
            final(self)@ == recorded(old(self)@, at, record),
    {
        let mut list = self.take(at);
        let ghost rest = self@;
        list.push(Some(record));
        self.slots.insert(at.nanos, list);
        assert(self@ =~= rest.insert(at, list@));
        assert(self@ =~= recorded(old(self)@, at, record));
    }
}

} // verus!
