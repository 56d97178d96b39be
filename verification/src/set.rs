//! A hash set whose members expire.
use std::hash::{BuildHasher, Hash};

use hashbrown::hash_map::DefaultHashBuilder;
use vstd::prelude::*;
use vstd::std_specs::cmp::PartialEqSpec;

use crate::entry::EntryId;
use crate::map::{CompareTrace, HashMap, IterMut, StepTrace, WalkTrace};
use crate::model::{AccessTrace, InsertTrace, Item, MapModel, SweepTrace};
use crate::policy::{Command, ExpirePolicy};

verus! {

/// A hash set whose members expire by the policy that it was made with: a map from the members to
/// nothing.
pub struct HashSet<T, P: ExpirePolicy, H> {
    map: HashMap<T, (), P, H>,
}

/// The state of a set.
pub type SetModel<T, P, H> = MapModel<T, (), P, H>;

impl<T, P: ExpirePolicy, H> View for HashSet<T, P, H> {
    type V = SetModel<T, P, H>;

    /// The state of the set.
    closed spec fn view(&self) -> SetModel<T, P, H> {
        self.map@
    }
}

impl<T: Hash + Eq, P: ExpirePolicy> HashSet<T, P, DefaultHashBuilder> {
    /// An empty set.
    pub fn new(policy: P) -> (set: Self)
        requires
            crate::hash::lawful_key::<T>(),
        ensures
            set.wf(),
            set@ == MapModel::<T, (), P, _>::vacant(policy, set@.hash_builder),
            set.room() == 0,
    {
        HashSet { map: HashMap::new(policy) }
    }

    /// An empty set with room for `capacity` members, and for a bounded number more.
    pub fn with_capacity(capacity: usize, policy: P) -> (set: Self)
        requires
            crate::hash::lawful_key::<T>(),
            capacity < usize::MAX / 79,
        ensures
            set.wf(),
            set@ == MapModel::<T, (), P, _>::vacant(policy, set@.hash_builder),
            capacity <= set.room() <= 2 * capacity + 7,
    {
        HashSet { map: HashMap::with_capacity(capacity, policy) }
    }
}

impl<T: Hash + Eq, P: ExpirePolicy, H: BuildHasher> HashSet<T, P, H> {
    /// How many members there can be before more memory is got to index them, those among them
    /// that are there.
    pub closed spec fn room(&self) -> nat {
        self.map.room()
    }

    /// How many more members there can be before more memory is got to index them.
    pub open spec fn spare(&self) -> int {
        self.room() - self@.entries.dom().len()
    }

    /// What adding a member does with the memory. It gets none to index the member where there is
    /// room for one more. Where it gets some ahead, there is room for the members that were kept
    /// and for one and a half times as many more as those and the new one are.
    pub open spec fn makes_room(&self, trace: InsertTrace<P>, post: Self) -> bool {
        let kept = post@.entries.dom().len() - 1;
        &&& self.spare() > 0 ==> {
            &&& !trace.grew
            &&& post.slots() == self.slots()
            &&& post.spare() >= self.spare() - 1
        }
        &&& trace.ahead ==> trace.grew && kept + (kept + 1) * 3 / 2 <= post.room()
    }

    /// How many slots there is memory for to index members.
    pub closed spec fn slots(&self) -> nat {
        self.map.slots()
    }

    /// The set is laid out as its state says.
    pub closed spec fn inv(&self) -> bool {
        self.map.inv()
    }

    /// The set is laid out as its state says, and its state is sound.
    pub open spec fn wf(&self) -> bool {
        &&& self.inv()
        &&& self@.wf()
    }

    /// Gets memory for `additional` more members. Where there is room for them already, none is
    /// needed.
    pub fn reserve(&mut self, additional: usize)
        requires
            old(self).wf(),
            old(self)@.entries.dom().len() + additional < usize::MAX / 160,
        ensures
            final(self).wf(),
            final(self)@ == old(self)@,
            old(self)@.entries.dom().len() + additional <= final(self).room(),
            old(self).room() <= final(self).room(),
            old(self)@.entries.dom().len() + additional <= old(self).room() ==> final(self).room()
                == old(self).room() && final(self).slots() == old(self).slots(),
    {
        self.map.reserve(additional)
    }

    /// Gives memory back, down to what the members need: all of it where there is none, and else
    /// down to some twice as much at most.
    pub fn shrink_to_fit(&mut self)
        requires
            old(self).wf(),
        ensures
            final(self).wf(),
            final(self)@ == old(self)@,
            old(self)@.entries.dom().len() <= final(self).room(),
            old(self)@.entries.dom().len() == 0 ==> final(self).room() == 0,
            final(self).room() <= 2 * old(self)@.entries.dom().len() + 7,
            final(self).slots() <= old(self).slots(),
    {
        self.map.shrink_to_fit()
    }

    /// Gives memory back, down to what the members and `min_capacity` members need: all of it
    /// where that is none, and else down to some twice as much at most. Room for `min_capacity`
    /// members stays.
    pub fn shrink_to(&mut self, min_capacity: usize)
        requires
            old(self).wf(),
        ensures
            final(self).wf(),
            final(self)@ == old(self)@,
            old(self)@.entries.dom().len() <= final(self).room(),
            min_capacity <= old(self).room() ==> min_capacity <= final(self).room(),
            old(self)@.entries.dom().len() == 0 && min_capacity == 0 ==> final(self).room() == 0,
            final(self).room() <= 2 * old(self)@.entries.dom().len() + 7 || final(self).room() <= 2
                * min_capacity + 7,
            final(self).slots() <= old(self).slots(),
    {
        self.map.shrink_to(min_capacity)
    }

    /// Whether there is such a member that has not expired.
    pub fn contains(&mut self, value: &T) -> (found: bool)
        requires
            old(self).wf(),
        ensures
            final(self).wf(),
            exists|trace: AccessTrace<P>| #[trigger]
                old(self)@.looks_up(*value, trace, final(self)@) && found == (old(self)@.shown(
                    *value,
                    trace,
                ) is Some),
    {
        self.map.contains_key(value)
    }

    /// The member that is equal to a value, unless it has expired.
    pub fn get(&mut self, value: &T) -> (member: Option<&T>)
        requires
            old(self).wf(),
        ensures
            final(self).wf(),
            exists|trace: AccessTrace<P>| #[trigger]
                old(self)@.looks_up(*value, trace, final(self)@) && member == match old(self)@.shown(*value, trace) {
                    Some(id) => Some(&old(self)@.entries[id].key),
                    None => None,
                },
    {
        match self.map.get_key_value(value) {
            Some((k, _)) => Some(k),
            None => None,
        }
    }

    /// Adds a member. Says whether it is new, or the one that was there has expired. No memory is
    /// got to index it where there is room for one more member.
    pub fn insert(&mut self, value: T, init: P::Info) -> (added: bool)
        requires
            old(self).wf(),
            old(self)@.has_room(),
        ensures
            final(self).wf(),
            exists|trace: InsertTrace<P>, out: Option<()>| #[trigger]
                old(self)@.inserts(value, (), init, trace, final(self)@, out) && added == (
                out is None) && old(self).makes_room(trace, *final(self)),
    {
        self.map.insert(value, (), init).is_none()
    }

    /// Adds a member in place of the one that is equal to it. The result is the one that was
    /// there before, unless it has expired.
    pub fn replace(&mut self, value: T, init: P::Info) -> (was: Option<T>)
        requires
            old(self).wf(),
            old(self)@.has_room(),
        ensures
            final(self).wf(),
            exists|
                expired: bool,
                without: SetModel<T, P, H>,
                trace: InsertTrace<P>,
                out: Option<()>,
            |
                #![trigger old(self)@.removes(value, expired, without), without.inserts(value, (), init, trace, final(self)@, out)]
                old(self)@.removes(value, expired, without) && without.inserts(
                    value,
                    (),
                    init,
                    trace,
                    final(self)@,
                    out,
                ) && was == match old(self)@.taken(value, expired) {
                    Some(item) => Some(item.key),
                    None => None,
                },
    {
        let ret = self.map.remove_entry(&value);
        let ghost without = self@;
        let ghost expired = choose|expired: bool| #[trigger]
            old(self)@.removes(value, expired, without) && ret == match old(self)@.taken(
                value,
                expired,
            ) {
                Some(item) => Some((item.key, item.value)),
                None => None,
            };
        proof {
            assert(old(self)@.removes(value, expired, without));
            old(self)@.removes_keeps_room(value, expired, without);
        }
        let out = self.map.insert(value, (), init);
        proof {
            let trace = choose|trace: InsertTrace<P>| #[trigger]
                without.inserts(value, (), init, trace, self@, out);
            assert(without.inserts(value, (), init, trace, self@, out));
        }
        match ret {
            Some((k, _)) => Some(k),
            None => None,
        }
    }

    /// Takes a member out. Says whether it was there and had not expired.
    pub fn remove(&mut self, value: &T) -> (removed: bool)
        requires
            old(self).wf(),
        ensures
            final(self).wf(),
            exists|expired: bool| #[trigger]
                old(self)@.removes(*value, expired, final(self)@) && removed == (old(self)@.taken(
                    *value,
                    expired,
                ) is Some),
    {
        self.map.remove(value).is_some()
    }

    /// Takes a member out. The result is the member, unless it has expired.
    pub fn take(&mut self, value: &T) -> (member: Option<T>)
        requires
            old(self).wf(),
        ensures
            final(self).wf(),
            exists|expired: bool| #[trigger]
                old(self)@.removes(*value, expired, final(self)@) && member == match old(self)@.taken(*value, expired) {
                    Some(item) => Some(item.key),
                    None => None,
                },
    {
        match self.map.remove_entry(value) {
            Some((k, _)) => Some(k),
            None => None,
        }
    }

    /// Whether there is room for one more member.
    pub fn has_room(&self) -> (room: bool)
        requires
            self.wf(),
        ensures
            room == self@.has_room(),
    {
        self.map.has_room()
    }

    /// How many members there can be before more memory is got.
    pub fn capacity(&self) -> (n: usize)
        requires
            self.wf(),
        ensures
            n == self.room(),
            self@.entries.dom().len() <= n,
    {
        self.map.capacity()
    }

    /// The number of members that have not expired.
    pub fn len(&mut self) -> (n: usize)
        requires
            old(self).wf(),
        ensures
            final(self).wf(),
            exists|trace: SweepTrace<P>| #[trigger]
                old(self)@.sweeps(trace, final(self)@) && n == old(self)@.all_live(trace).len(),
    {
        self.map.len()
    }

    /// The number of members, those among them that have expired and wait to be taken out.
    pub fn len_approx(&self) -> (n: usize)
        requires
            self.wf(),
        ensures
            n == self@.entries.dom().len(),
    {
        self.map.len_approx()
    }

    /// Whether every member has expired.
    pub fn is_empty(&mut self) -> (empty: bool)
        requires
            old(self).wf(),
        ensures
            final(self).wf(),
            exists|trace: SweepTrace<P>| #[trigger]
                old(self)@.sweeps(trace, final(self)@) && empty == (old(self)@.all_live(trace).len()
                    == 0),
    {
        self.map.is_empty()
    }

    /// Takes every member out and has the policy forget them. The memory is kept.
    pub fn clear(&mut self)
        requires
            old(self).wf(),
        ensures
            final(self).wf(),
            P::clears(old(self)@.policy, final(self)@.policy),
            final(self)@ == MapModel::<T, (), P, H>::vacant(
                final(self)@.policy,
                old(self)@.hash_builder,
            ),
            old(self).room() <= final(self).room(),
            final(self).slots() == old(self).slots(),
    {
        self.map.clear()
    }

    /// A walk over the members that have not expired.
    pub fn iter(&mut self) -> (iter: Iter<'_, T, P>)
        requires
            old(self).wf(),
        ensures
            final(self).wf(),
            iter.iter.inner.current_policy() == old(self)@.policy,
            old(self)@.lists_all(iter.iter.inner.rest()),
            final(self)@ == old(self)@.with_policy(*final(iter.iter.inner.policy)),
    {
        Iter { iter: self.map.keys() }
    }

    /// Takes every member out, for those to be handed out that have not expired when their turn
    /// comes. The policy forgets them, and the memory is kept.
    ///
    /// The policy is cleared in this call, before it is asked about the first member, so that it
    /// is cleared just once however far the walk gets.
    pub fn drain(&mut self) -> (drain: Drain<'_, T, P>)
        requires
            old(self).wf(),
        ensures
            final(self).wf(),
            old(self)@.lists_all(drain.iter.rest()),
            P::clears(old(self)@.policy, drain.iter.current_policy()),
            final(self)@ == MapModel::<T, (), P, H>::vacant(
                *final(drain.iter.policy),
                old(self)@.hash_builder,
            ),
            old(self).room() <= final(self).room(),
            final(self).slots() == old(self).slots(),
    {
        Drain { iter: self.map.drain() }
    }

    /// The members that are not in `other`. Each is looked for there when its turn comes.
    pub fn difference<'a>(&'a mut self, other: &'a mut Self) -> (members: Difference<'a, T, P, H>)
        requires
            old(self).wf(),
            old(other).wf(),
        ensures
            final(self).wf(),
            members.iter.current_policy() == old(self)@.policy,
            old(self)@.lists_all(members.iter.rest()),
            final(self)@ == old(self)@.with_policy(*final(members.iter.iter.inner.policy)),
            members.current_other() == *old(other),
            *final(other) == *final(members.other),
    {
        Difference { iter: self.iter(), other }
    }

    /// The members that are in one of the two sets, but not in both: first those of this set,
    /// then those of `other`. Each is looked for in the other set when its turn comes.
    pub fn symmetric_difference<'a>(&'a mut self, other: &'a mut Self) -> (members:
        SymmetricDifference<'a, T, P, H>)
        requires
            old(self).wf(),
            old(other).wf(),
        ensures
            members.wf(),
            members.walks().first == old(self)@,
            old(self)@.lists_all(members.walks().first_rest),
            members.walks().second == old(other)@,
            old(other)@.lists_all(members.walks().second_rest),
            final(self)@ == final(members.first.map)@,
            final(self).wf() == final(members.first.map).wf(),
            final(other)@ == final(members.second.map)@,
            final(other).wf() == final(members.second.map).wf(),
    {
        SymmetricDifference { first: self.map.iter_mut(), second: other.map.iter_mut() }
    }

    /// The members that are in both sets, as the set with fewer members has them. Each of those is
    /// looked for in the other set when its turn comes.
    pub fn intersection<'a>(&'a mut self, other: &'a mut Self) -> (members: Intersection<
        'a,
        T,
        P,
        H,
    >)
        requires
            old(self).wf(),
            old(other).wf(),
        ensures
            exists|sizes: SizesTrace<T, P, H>| #[trigger]
                sizes.measure(old(self)@, old(other)@) && {
                    &&& members.smaller.current_policy() == sizes.smaller().policy
                    &&& sizes.smaller().lists_all(members.smaller.rest())
                    &&& members.current_larger().wf()
                    &&& members.current_larger()@ == sizes.larger()
                    &&& if sizes.is_first_smaller() {
                        &&& final(self).wf()
                        &&& final(self)@ == sizes.first.with_policy(
                            *final(members.smaller.iter.inner.policy),
                        )
                        &&& *final(other) == *final(members.larger)
                    } else {
                        &&& final(other).wf()
                        &&& final(other)@ == sizes.second.with_policy(
                            *final(members.smaller.iter.inner.policy),
                        )
                        &&& *final(self) == *final(members.larger)
                    }
                },
    {
        let (is_smaller, Ghost(sizes)) = Self::measure(self, other);
        assert(sizes.measure(old(self)@, old(other)@));
        if is_smaller {
            Intersection { smaller: self.iter(), larger: other }
        } else {
            Intersection { smaller: other.iter(), larger: self }
        }
    }

    /// The members that are in one of the two sets: first those of the set with more members,
    /// then those of the other one that are not among them. Each is judged when its turn comes.
    pub fn union<'a>(&'a mut self, other: &'a mut Self) -> (members: Union<'a, T, P, H>)
        requires
            old(self).wf(),
            old(other).wf(),
        ensures
            members.wf(),
            exists|sizes: SizesTrace<T, P, H>| #[trigger]
                sizes.measure(old(self)@, old(other)@) && {
                    &&& members.walks().first == sizes.larger()
                    &&& sizes.larger().lists_all(members.walks().first_rest)
                    &&& members.walks().second == sizes.smaller()
                    &&& sizes.smaller().lists_all(members.walks().second_rest)
                    &&& if sizes.is_first_smaller() {
                        &&& final(self)@ == final(members.smaller.map)@
                        &&& final(self).wf() == final(members.smaller.map).wf()
                        &&& final(other)@ == final(members.larger.map)@
                        &&& final(other).wf() == final(members.larger.map).wf()
                    } else {
                        &&& final(self)@ == final(members.larger.map)@
                        &&& final(self).wf() == final(members.larger.map).wf()
                        &&& final(other)@ == final(members.smaller.map)@
                        &&& final(other).wf() == final(members.smaller.map).wf()
                    }
                },
    {
        let (is_smaller, Ghost(sizes)) = Self::measure(self, other);
        assert(sizes.measure(old(self)@, old(other)@));
        if is_smaller {
            Union { larger: other.map.iter_mut(), smaller: self.map.iter_mut() }
        } else {
            Union { larger: self.map.iter_mut(), smaller: other.map.iter_mut() }
        }
    }

    /// The member that is equal to a value, after the value was inserted where there was none that
    /// had not expired.
    pub fn get_or_insert(&mut self, value: T, init: P::Info) -> (member: &T)
        requires
            old(self).wf(),
            old(self)@.has_room(),
        ensures
            final(self).wf(),
            exists|access: AccessTrace<P>, seen: SetModel<T, P, H>| #[trigger]
                old(self)@.looks_up(value, access, seen) && match old(self)@.shown(value, access) {
                    Some(id) => *member == old(self)@.entries[id].key && final(self)@ == seen,
                    None => seen.gets(value, (), init, final(self)@, *member),
                },
    {
        self.map.key_or_insert(value, (), init)
    }

    /// The member that is equal to a value, after a clone of the value was inserted where there
    /// was none that had not expired.
    pub fn get_or_insert_owned(&mut self, value: &T, init: P::Info) -> (member: &T) where T: Clone
        requires
            old(self).wf(),
            old(self)@.has_room(),
        ensures
            final(self).wf(),
            exists|access: AccessTrace<P>, seen: SetModel<T, P, H>| #[trigger]
                old(self)@.looks_up(*value, access, seen) && match old(self)@.shown(
                    *value,
                    access,
                ) {
                    Some(id) => *member == old(self)@.entries[id].key && final(self)@ == seen,
                    None => exists|made: T| #[trigger]
                        cloned(*value, made) && seen.gets(made, (), init, final(self)@, *member),
                },
    {
        let own = |x: &T| -> (y: T)
            ensures
                cloned(*x, y),
            { x.clone() };
        self.map.key_or_insert_with(value, own, (), init)
    }

    /// The member that is equal to a value, after what `f` makes of the value was inserted where
    /// there was none that had not expired.
    pub fn get_or_insert_with<F: FnOnce(&T) -> T>(&mut self, value: &T, f: F, init: P::Info) -> (
        member: &T)
        requires
            old(self).wf(),
            old(self)@.has_room(),
            call_requires(f, (value,)),
        ensures
            final(self).wf(),
            exists|access: AccessTrace<P>, seen: SetModel<T, P, H>| #[trigger]
                old(self)@.looks_up(*value, access, seen) && match old(self)@.shown(
                    *value,
                    access,
                ) {
                    Some(id) => *member == old(self)@.entries[id].key && final(self)@ == seen,
                    None => exists|made: T| #[trigger]
                        call_ensures(f, (value,), made) && seen.gets(
                            made,
                            (),
                            init,
                            final(self)@,
                            *member,
                        ),
                },
    {
        self.map.key_or_insert_with(value, f, (), init)
    }

    /// Whether no member is in `other`.
    pub fn is_disjoint(&mut self, other: &mut Self) -> (disjoint: bool)
        requires
            old(self).wf(),
            old(other).wf(),
        ensures
            final(self).wf(),
            final(other).wf(),
            exists|trace: CompareTrace<T, (), P, H>| #[trigger]
                old(self)@.compares(old(other)@, trace) && {
                    &&& old(self)@.compares_until(trace, true)
                    &&& final(self)@ == old(self)@.with_policy(trace.sweep.policies.last())
                    &&& final(other)@ == trace.states.last()
                    &&& disjoint == (old(self)@.all_picks(trace, true).len() == 0)
                },
    {
        let (picked, Ghost(trace)) = self.map.compare(&mut other.map, true);
        assert(old(self)@.compares(old(other)@, trace));
        !picked
    }

    /// Whether every member is in `other`. That is not looked into where this set has more
    /// members than `other`.
    pub fn is_subset(&mut self, other: &mut Self) -> (subset: bool)
        requires
            old(self).wf(),
            old(other).wf(),
        ensures
            final(self).wf(),
            final(other).wf(),
            old(self)@.is_subset_of(old(other)@, final(self)@, final(other)@, subset),
    {
        let (is_smaller, Ghost(sizes)) = Self::measure(self, other);
        assert(sizes.measure(old(self)@, old(other)@));
        if !is_smaller {
            return false;
        }
        let ghost first = self@;
        let ghost second = other@;
        let (picked, Ghost(trace)) = self.map.compare(&mut other.map, false);
        assert(first.compares(second, trace));
        !picked
    }

    /// Whether every member of `other` is in this set. That is not looked into where `other` has
    /// more members than this set.
    pub fn is_superset(&mut self, other: &mut Self) -> (superset: bool)
        requires
            old(self).wf(),
            old(other).wf(),
        ensures
            final(self).wf(),
            final(other).wf(),
            old(other)@.is_subset_of(old(self)@, final(other)@, final(self)@, superset),
    {
        other.is_subset(self)
    }

    /// Whether the first of two sets has no more members that have not expired than the second.
    fn measure(first: &mut Self, second: &mut Self) -> (measured: (
        bool,
        Ghost<SizesTrace<T, P, H>>,
    ))
        requires
            old(first).wf(),
            old(second).wf(),
        ensures
            final(first).wf(),
            final(second).wf(),
            measured.1@.measure(old(first)@, old(second)@),
            measured.1@.is_first_smaller() == measured.0,
            measured.1@.first == final(first)@,
            measured.1@.second == final(second)@,
    {
        let n = first.len();
        let ghost first_sweep = choose|trace: SweepTrace<P>| #[trigger]
            old(first)@.sweeps(trace, first@) && n == old(first)@.all_live(trace).len();
        let m = second.len();
        let ghost second_sweep = choose|trace: SweepTrace<P>| #[trigger]
            old(second)@.sweeps(trace, second@) && m == old(second)@.all_live(trace).len();
        let ghost sizes = SizesTrace {
            first_sweep,
            second_sweep,
            first_len: n as nat,
            second_len: m as nat,
            first: first@,
            second: second@,
        };
        (n <= m, Ghost(sizes))
    }

}

/// A walk over the members of a set.
pub struct Iter<'a, T, P: ExpirePolicy> {
    /// The walk over the keys of the map.
    pub iter: crate::map::Keys<'a, T, (), P>,
}

impl<'a, T, P: ExpirePolicy> Iter<'a, T, P> {
    /// The members that the walk has not met yet, in the order in which it will.
    pub open spec fn rest(&self) -> Seq<Item<T, (), P::Storage>> {
        self.iter.inner.rest()
    }

    /// The policy as it is now.
    pub open spec fn current_policy(&self) -> P {
        self.iter.inner.current_policy()
    }

    /// The next member that has not expired.
    pub fn next(&mut self) -> (member: Option<&'a T>)
        ensures
            *final(final(self).iter.inner.policy) == *final(old(self).iter.inner.policy),
            exists|trace: StepTrace<P>| #[trigger]
                trace.steps(
                    old(self).iter.inner.rest(),
                    old(self).iter.inner.current_policy(),
                    final(self).iter.inner.rest(),
                    final(self).iter.inner.current_policy(),
                ) && trace.stops(old(self).iter.inner.rest(), member is Some) && (member matches Some(
                    k,
                ) ==> *k == trace.met(old(self).iter.inner.rest()).key),
    {
        let ghost pre = self.iter.inner.rest();
        let ghost policy = self.iter.inner.current_policy();
        let member = self.iter.next();
        proof {
            let trace = choose|trace: StepTrace<P>| #[trigger]
                trace.steps(
                    pre,
                    policy,
                    self.iter.inner.rest(),
                    self.iter.inner.current_policy(),
                ) && trace.stops(pre, member is Some) && (member matches Some(k) ==> *k
                    == trace.met(pre).key);
            assert(trace.steps(
                pre,
                policy,
                self.iter.inner.rest(),
                self.iter.inner.current_policy(),
            ));
        }
        member
    }
}

/// The members that were taken out of a set. The policy is asked about each when its turn comes.
pub struct Drain<'a, T, P: ExpirePolicy> {
    /// The entries of the map.
    pub iter: crate::map::Drain<'a, T, (), P>,
}

impl<'a, T, P: ExpirePolicy> Drain<'a, T, P> {
    /// The next member that has not expired.
    pub fn next(&mut self) -> (member: Option<T>)
        ensures
            *final(final(self).iter.policy) == *final(old(self).iter.policy),
            exists|trace: StepTrace<P>| #[trigger]
                trace.steps(
                    old(self).iter.rest(),
                    old(self).iter.current_policy(),
                    final(self).iter.rest(),
                    final(self).iter.current_policy(),
                ) && trace.stops(old(self).iter.rest(), member is Some) && (member matches Some(m)
                    ==> m == trace.met(old(self).iter.rest()).key),
    {
        let ghost pre = self.iter.rest();
        let ghost policy = self.iter.current_policy();
        let pair = self.iter.next();
        proof {
            let trace = choose|trace: StepTrace<P>| #[trigger]
                trace.steps(pre, policy, self.iter.rest(), self.iter.current_policy())
                    && trace.stops(pre, pair is Some) && (pair matches Some((k, v)) ==> {
                    &&& k == trace.met(pre).key
                    &&& v == trace.met(pre).value
                });
            assert(trace.steps(pre, policy, self.iter.rest(), self.iter.current_policy()));
        }
        match pair {
            Some((k, _)) => Some(k),
            None => None,
        }
    }
}

/// How two sets were measured: the walks over their members, how many of those had not expired,
/// and the states that the sets were in after that.
pub struct SizesTrace<T, P: ExpirePolicy, H> {
    pub first_sweep: SweepTrace<P>,
    pub second_sweep: SweepTrace<P>,
    pub first_len: nat,
    pub second_len: nat,
    pub first: SetModel<T, P, H>,
    pub second: SetModel<T, P, H>,
}

impl<T: Eq, P: ExpirePolicy, H> SizesTrace<T, P, H> {
    /// The sets were measured as the trace says.
    pub open spec fn measure(self, first: SetModel<T, P, H>, second: SetModel<T, P, H>) -> bool {
        &&& first.sweeps(self.first_sweep, self.first)
        &&& second.sweeps(self.second_sweep, self.second)
        &&& self.first_len == first.all_live(self.first_sweep).len()
        &&& self.second_len == second.all_live(self.second_sweep).len()
    }

    /// The first set has no more members than the second.
    pub open spec fn is_first_smaller(self) -> bool {
        self.first_len <= self.second_len
    }

    /// The set with fewer members.
    pub open spec fn smaller(self) -> SetModel<T, P, H> {
        if self.is_first_smaller() {
            self.first
        } else {
            self.second
        }
    }

    /// The other set.
    pub open spec fn larger(self) -> SetModel<T, P, H> {
        if self.is_first_smaller() {
            self.second
        } else {
            self.first
        }
    }
}

/// How one step of a walk over one set went, in which members were looked up in another: the
/// steps over the one set, with the members ahead before each and after the last, and the states
/// that its policy was in; the looks at the other set, and the states that it was in.
pub struct PickTrace<T, P: ExpirePolicy, H> {
    pub steps: Seq<StepTrace<P>>,
    pub rests: Seq<Seq<Item<T, (), P::Storage>>>,
    pub policies: Seq<P>,
    pub accesses: Seq<AccessTrace<P>>,
    pub states: Seq<SetModel<T, P, H>>,
}

impl<T: Eq, P: ExpirePolicy, H> PickTrace<T, P, H> {
    /// The step begins with the members `rest` ahead.
    pub open spec fn begins(
        self,
        rest: Seq<Item<T, (), P::Storage>>,
        policy: P,
        other: SetModel<T, P, H>,
    ) -> bool {
        &&& self.rests.len() == self.steps.len() + 1
        &&& self.policies.len() == self.steps.len() + 1
        &&& self.states.len() == self.accesses.len() + 1
        &&& self.rests[0] == rest
        &&& self.policies[0] == policy
        &&& self.states[0] == other
    }

    /// It ends with the members `rest` ahead.
    pub open spec fn ends(
        self,
        rest: Seq<Item<T, (), P::Storage>>,
        policy: P,
        other: SetModel<T, P, H>,
    ) -> bool {
        &&& self.rests.last() == rest
        &&& self.policies.last() == policy
        &&& self.states.last() == other
    }

    /// A member that was looked up.
    pub open spec fn met(self, i: int) -> Item<T, (), P::Storage> {
        self.steps[i].met(self.rests[i])
    }

    /// The other set showed a member like this one.
    pub open spec fn is_matched(self, i: int) -> bool {
        self.states[i].shown(self.met(i).key, self.accesses[i]) is Some
    }

    /// One step over the one set.
    pub open spec fn goes_on(self, i: int) -> bool {
        &&& self.steps[i].steps(
            self.rests[i],
            self.policies[i],
            self.rests[i + 1],
            self.policies[i + 1],
        )
        &&& self.steps[i].stops(self.rests[i], i < self.accesses.len())
    }

    /// One look at the other set.
    pub open spec fn looks(self, i: int) -> bool {
        self.states[i].looks_up(self.met(i).key, self.accesses[i], self.states[i + 1])
    }

    /// Each member that had not expired was looked up, and the step went on until the other set
    /// showed one like it, or showed none, as `wanted` says; or until none was left.
    pub open spec fn picks(self, wanted: bool, found: bool) -> bool {
        let n = self.accesses.len();
        &&& self.steps.len() == if found {
            n
        } else {
            n + 1
        }
        &&& found ==> n > 0
        &&& forall|i: int| 0 <= i < self.steps.len() ==> #[trigger] self.goes_on(i)
        &&& forall|i: int| 0 <= i < n ==> #[trigger] self.looks(i)
        &&& forall|i: int|
            0 <= i < n ==> #[trigger] self.is_matched(i) == if found && i == n - 1 {
                wanted
            } else {
                !wanted
            }
    }

    /// The member that was found.
    pub open spec fn picked(self) -> T {
        self.met(self.accesses.len() - 1).key
    }
}

impl<T: Eq, P: ExpirePolicy, H> PickTrace<T, P, H> {
    /// A walk that has not begun.
    pub open spec fn begin(
        rest: Seq<Item<T, (), P::Storage>>,
        policy: P,
        other: SetModel<T, P, H>,
    ) -> Self {
        PickTrace {
            steps: Seq::empty(),
            rests: seq![rest],
            policies: seq![policy],
            accesses: Seq::empty(),
            states: seq![other],
        }
    }

    /// Each step goes on where the one before it stopped, and each member that it met and that had
    /// not expired was looked up.
    pub open spec fn runs(self) -> bool {
        &&& forall|i: int| 0 <= i < self.steps.len() ==> #[trigger] self.goes_on(i)
        &&& forall|i: int| 0 <= i < self.accesses.len() ==> #[trigger] self.looks(i)
    }

    /// Those of the first `n` members that were looked up for which the other set showed one like
    /// it, or showed none, as `wanted` says.
    pub open spec fn kept_if(self, wanted: bool, n: int) -> Seq<T>
        decreases n,
    {
        if n <= 0 {
            Seq::empty()
        } else if self.is_matched(n - 1) == wanted {
            self.kept_if(wanted, n - 1).push(self.met(n - 1).key)
        } else {
            self.kept_if(wanted, n - 1)
        }
    }

    /// Those of the first `n` members that were looked up for which the other set showed none.
    pub open spec fn kept(self, n: int) -> Seq<T> {
        self.kept_if(false, n)
    }

    /// One walk and then another.
    pub open spec fn join(self, next: Self) -> Self {
        PickTrace {
            steps: self.steps + next.steps,
            rests: self.rests.drop_last() + next.rests,
            policies: self.policies.drop_last() + next.policies,
            accesses: self.accesses + next.accesses,
            states: self.states.drop_last() + next.states,
        }
    }

    /// What was met in the first of two walks.
    proof fn join_keeps(self, next: Self, wanted: bool, n: int)
        requires
            self.rests.len() == self.steps.len() + 1,
            self.states.len() == self.accesses.len() + 1,
            self.steps.len() == self.accesses.len(),
            0 <= n <= self.accesses.len(),
        ensures
            self.join(next).kept_if(wanted, n) == self.kept_if(wanted, n),
        decreases n,
    {
        if n > 0 {
            self.join_keeps(next, wanted, n - 1);
        }
    }

    /// What was met in the second of two walks, up to its last member.
    proof fn join_passes(self, next: Self, wanted: bool, found: bool, n: int)
        requires
            self.rests.len() == self.steps.len() + 1,
            self.states.len() == self.accesses.len() + 1,
            self.steps.len() == self.accesses.len(),
            next.rests.len() == next.steps.len() + 1,
            next.states.len() == next.accesses.len() + 1,
            next.picks(wanted, found),
            0 <= n <= next.accesses.len() - (if found {
                1int
            } else {
                0int
            }),
        ensures
            self.join(next).kept_if(wanted, self.accesses.len() + n) == self.kept_if(wanted, self.accesses.len() as int),
        decreases n,
    {
        let m = self.accesses.len() as int;
        if n == 0 {
            self.join_keeps(next, wanted, m);
        } else {
            self.join_passes(next, wanted, found, n - 1);
            assert(next.is_matched(n - 1) == !wanted);
            assert(self.join(next).met(m + n - 1) == next.met(n - 1));
            assert(self.join(next).is_matched(m + n - 1) == next.is_matched(n - 1));
        }
    }

    /// A walk that goes on with another is a walk, in which one more member was kept if one was
    /// found.
    proof fn join_runs(self, next: Self, wanted: bool, found: bool)
        requires
            self.rests.len() == self.steps.len() + 1,
            self.policies.len() == self.steps.len() + 1,
            self.states.len() == self.accesses.len() + 1,
            self.steps.len() == self.accesses.len(),
            self.runs(),
            next.begins(self.rests.last(), self.policies.last(), self.states.last()),
            next.picks(wanted, found),
        ensures
            self.join(next).begins(self.rests[0], self.policies[0], self.states[0]),
            self.join(next).ends(next.rests.last(), next.policies.last(), next.states.last()),
            self.join(next).runs(),
            self.join(next).kept_if(wanted, self.join(next).accesses.len() as int) == if found {
                self.kept_if(wanted, self.accesses.len() as int).push(next.picked())
            } else {
                self.kept_if(wanted, self.accesses.len() as int)
            },
    {
        let all = self.join(next);
        let n = self.steps.len() as int;
        let m = next.accesses.len() as int;
        assert forall|i: int| 0 <= i < all.steps.len() implies #[trigger] all.goes_on(i) by {
            if i < n {
                assert(self.goes_on(i));
            } else {
                assert(next.goes_on(i - n));
            }
        }
        assert forall|i: int| 0 <= i < all.accesses.len() implies #[trigger] all.looks(i) by {
            if i < n {
                assert(self.looks(i));
            } else {
                assert(next.looks(i - n));
                assert(all.met(i) == next.met(i - n));
            }
        }
        if found {
            self.join_passes(next, wanted, found, m - 1);
            assert(next.is_matched(m - 1) == wanted);
            assert(all.met(n + m - 1) == next.met(m - 1));
            assert(all.is_matched(n + m - 1) == next.is_matched(m - 1));
        } else {
            self.join_passes(next, wanted, found, m);
        }
    }

    /// To look members up in a set leaves it sound, with the same members.
    proof fn states_stay(self, n: int)
        requires
            self.states.len() == self.accesses.len() + 1,
            self.runs(),
            self.states[0].wf(),
            0 <= n <= self.accesses.len(),
        ensures
            self.states[n].wf(),
            self.states[n].entries.dom() == self.states[0].entries.dom(),
        decreases n,
    {
        if n > 0 {
            self.states_stay(n - 1);
            assert(self.looks(n - 1));
            let before = self.states[n - 1];
            before.looks_up_keeps_keys(self.met(n - 1).key, self.accesses[n - 1], self.states[n]);
            before.told_keeps_wf(self.accesses[n - 1].command);
        }
    }

    /// The members ahead are the ones that the set has.
    proof fn rests_agree(self, set: SetModel<T, P, H>, n: int)
        requires
            self.rests.len() == self.steps.len() + 1,
            self.runs(),
            set.has_items(self.rests[0]),
            0 <= n <= self.steps.len(),
        ensures
            set.has_items(self.rests[n]),
        decreases n,
    {
        if n > 0 {
            self.rests_agree(set, n - 1);
            assert(self.goes_on(n - 1));
            let m = self.steps[n - 1].expired.len() as int;
            assert forall|j: int| 0 <= j < self.rests[n].len() implies set.entries[(
            #[trigger] self.rests[n][j]).storage.entry_id] == self.rests[n][j] by {
                assert(self.rests[n][j] == self.rests[n - 1][m + j]);
            }
        }
    }

    /// Where no member is ahead, none is looked up.
    proof fn none_ahead(self, found: bool)
        requires
            self.begins(self.rests[0], self.policies[0], self.states[0]),
            self.picks(false, found),
            self.rests[0].len() == 0,
        ensures
            !found,
            self.ends(self.rests[0], self.policies[0], self.states[0]),
    {
        assert(self.goes_on(0));
        assert(self.accesses.len() == 0);
        assert(self.rests[1] =~= self.rests[0]);
    }

    /// A walk from the first member of a set to the last, in which each that had not expired was
    /// looked up in another set, is a comparison of the two.
    proof fn run_compares(
        self,
        set: SetModel<T, P, H>,
        items: Seq<Item<T, (), P::Storage>>,
        other: SetModel<T, P, H>,
    ) -> (trace: CompareTrace<T, (), P, H>)
        requires
            set.wf(),
            set.lists_all(items),
            self.begins(items, set.policy, other),
            self.steps.len() == self.accesses.len() + 1,
            self.runs(),
        ensures
            set.compares_fully(
                other,
                trace,
                set.with_policy(self.policies.last()),
                self.states.last(),
            ),
            forall|wanted: bool|
                set.keys_of(#[trigger] set.all_picks(trace, wanted)) =~= self.kept_if(
                    wanted,
                    self.accesses.len() as int,
                ),
    {
        let walk = WalkTrace { rests: self.rests, steps: self.steps };
        assert(walk.walks(items, set.policy)) by {
            assert(self.goes_on(0));
            assert forall|i: int| 0 <= i < walk.steps.len() implies #[trigger] walk.goes_on(i) by {
                assert(self.goes_on(i));
                if i > 0 {
                    assert(self.goes_on(i - 1));
                }
            }
        }
        assert(self.goes_on(self.steps.len() - 1));
        let sweep = set.walk_is_a_sweep(items, walk);
        let live = set.all_live(sweep);
        let trace = CompareTrace { sweep, accesses: self.accesses, states: self.states };
        assert forall|i: int| 0 <= i < live.len() implies #[trigger] set.compares_at(trace, i) by {
            assert(self.looks(i));
            assert(set.entries[live[i]] == walk.found(i));
        }
        assert forall|id: EntryId| #[trigger] sweep.order.contains(id) implies set.entries.contains_key(
            id,
        ) by {
            assert(sweep.order.to_set().contains(id));
        }
        assert forall|wanted: bool|
            set.keys_of(#[trigger] set.all_picks(trace, wanted)) =~= self.kept_if(
                wanted,
                self.accesses.len() as int,
            ) by {
            self.run_keeps(set, trace, wanted, self.accesses.len() as int);
        }
        trace
    }

    /// What is kept of a walk is what is picked in the comparison.
    proof fn run_keeps(self, set: SetModel<T, P, H>, trace: CompareTrace<T, (), P, H>, wanted: bool, n: int)
        requires
            0 <= n <= self.accesses.len(),
            trace.accesses == self.accesses,
            trace.states == self.states,
            set.all_live(trace.sweep).len() == self.accesses.len(),
            forall|i: int|
                0 <= i < self.accesses.len() ==> set.entries[#[trigger] set.all_live(trace.sweep)[i]]
                    == self.met(i),
        ensures
            set.keys_of(set.picks(trace, wanted, n)) =~= self.kept_if(wanted, n),
        decreases n,
    {
        if n > 0 {
            self.run_keeps(set, trace, wanted, n - 1);
            assert(set.entries[set.all_live(trace.sweep)[n - 1]] == self.met(n - 1));
            assert(set.is_matched(trace, n - 1) == self.is_matched(n - 1));
        }
    }

    /// The steps go on where the one before stopped and hand the members out one by one; the last
    /// step finds none.
    pub open spec fn walk(
        picks: Seq<Self>,
        wanted: bool,
        members: Seq<T>,
        items: Seq<Item<T, (), P::Storage>>,
        policy: P,
        other: SetModel<T, P, H>,
    ) -> bool {
        &&& picks.len() == members.len() + 1
        &&& picks[0].begins(items, policy, other)
        &&& forall|i: int| 0 <= i < picks.len() ==> #[trigger] Self::walk_at(picks, wanted, members, i)
    }

    /// One of these steps.
    pub open spec fn walk_at(
        picks: Seq<Self>,
        wanted: bool,
        members: Seq<T>,
        i: int,
    ) -> bool {
        &&& picks[i].picks(wanted, i < members.len())
        &&& i < members.len() ==> members[i] == picks[i].picked()
        &&& i > 0 ==> picks[i].begins(
            picks[i - 1].rests.last(),
            picks[i - 1].policies.last(),
            picks[i - 1].states.last(),
        )
    }

    /// The first `k` steps as one.
    proof fn joined(
        picks: Seq<Self>,
        wanted: bool,
        members: Seq<T>,
        items: Seq<Item<T, (), P::Storage>>,
        policy: P,
        other: SetModel<T, P, H>,
        k: int,
    ) -> (all: Self)
        requires
            Self::walk(picks, wanted, members, items, policy, other),
            0 < k <= picks.len(),
        ensures
            all.begins(items, policy, other),
            all.ends(
                picks[k - 1].rests.last(),
                picks[k - 1].policies.last(),
                picks[k - 1].states.last(),
            ),
            all.runs(),
            all.steps.len() == all.accesses.len() + if k == picks.len() {
                1int
            } else {
                0int
            },
            all.kept_if(wanted, all.accesses.len() as int) =~= members.take(
                if k == picks.len() {
                    k - 1
                } else {
                    k
                },
            ),
        decreases k,
    {
        assert(Self::walk_at(picks, wanted, members, k - 1));
        let found = k - 1 < members.len();
        let before = if k == 1 {
            Self::begin(items, policy, other)
        } else {
            Self::joined(picks, wanted, members, items, policy, other, k - 1)
        };
        before.join_runs(picks[k - 1], wanted, found);
        if found {
            assert(members.take(k) =~= members.take(k - 1).push(members[k - 1]));
        }
        before.join(picks[k - 1])
    }

    /// What a walk over the members of a set that are in another, or are not, as `wanted` says,
    /// hands out from the first step to the last: those that have not expired when their turn
    /// comes and for which the other set shows one like it, or shows none.
    pub proof fn full_walk_picks(
        set: SetModel<T, P, H>,
        items: Seq<Item<T, (), P::Storage>>,
        other: SetModel<T, P, H>,
        picks: Seq<Self>,
        wanted: bool,
        members: Seq<T>,
    ) -> (trace: CompareTrace<T, (), P, H>)
        requires
            set.wf(),
            set.lists_all(items),
            Self::walk(picks, wanted, members, items, set.policy, other),
        ensures
            set.compares_fully(
                other,
                trace,
                set.with_policy(picks.last().policies.last()),
                picks.last().states.last(),
            ),
            members == set.keys_of(set.all_picks(trace, wanted)),
    {
        let all = Self::joined(
            picks,
            wanted,
            members,
            items,
            set.policy,
            other,
            picks.len() as int,
        );
        let trace = all.run_compares(set, items, other);
        assert(members.take(members.len() as int) =~= members);
        assert(set.keys_of(set.all_picks(trace, wanted)) =~= all.kept_if(
            wanted,
            all.accesses.len() as int,
        ));
        trace
    }
}

/// The next member of a walk that is in `other`, or is not, as `wanted` says.
fn next_picked<'a, T: Hash + Eq, P: ExpirePolicy, H: BuildHasher>(
    iter: &mut Iter<'a, T, P>,
    other: &mut HashSet<T, P, H>,
    wanted: bool,
) -> (member: Option<&'a T>)
    requires
        old(other).wf(),
    ensures
        final(other).wf(),
        *final(final(iter).iter.inner.policy) == *final(old(iter).iter.inner.policy),
        exists|trace: PickTrace<T, P, H>| #[trigger]
            trace.begins(old(iter).rest(), old(iter).current_policy(), old(other)@) && trace.ends(
                final(iter).rest(),
                final(iter).current_policy(),
                final(other)@,
            ) && trace.picks(wanted, member is Some) && (member matches Some(m) ==> *m
                == trace.picked()),
{
    let mut trace: Ghost<PickTrace<T, P, H>> = Ghost(
        PickTrace {
            steps: Seq::empty(),
            rests: seq![iter.rest()],
            policies: seq![iter.current_policy()],
            accesses: Seq::empty(),
            states: seq![other@],
        },
    );
    loop
        invariant
            other.wf(),
            *final(iter.iter.inner.policy) == *final(old(iter).iter.inner.policy),
            trace@.begins(old(iter).rest(), old(iter).current_policy(), old(other)@),
            trace@.ends(iter.rest(), iter.current_policy(), other@),
            trace@.steps.len() == trace@.accesses.len(),
            forall|i: int| 0 <= i < trace@.steps.len() ==> #[trigger] trace@.goes_on(i),
            forall|i: int| 0 <= i < trace@.steps.len() ==> #[trigger] trace@.looks(i),
            forall|i: int|
                0 <= i < trace@.steps.len() ==> #[trigger] trace@.is_matched(i) == !wanted,
        decreases iter.rest().len(),
    {
        let ghost before = trace@;
        let ghost rest = iter.rest();
        let ghost policy = iter.current_policy();
        let ghost state = other@;
        let ghost n = before.steps.len() as int;
        let member = iter.next();
        let ghost step = choose|step: StepTrace<P>| #[trigger]
            step.steps(rest, policy, iter.rest(), iter.current_policy()) && step.stops(
                rest,
                member is Some,
            ) && (member matches Some(k) ==> *k == step.met(rest).key);
        assert(step.steps(rest, policy, iter.rest(), iter.current_policy()));
        match member {
            Some(m) => {
                let found = other.contains(m);
                let ghost access = choose|access: AccessTrace<P>| #[trigger]
                    state.looks_up(*m, access, other@) && found == (state.shown(*m, access) is Some);
                proof {
                    trace@ = PickTrace {
                        steps: before.steps.push(step),
                        rests: before.rests.push(iter.rest()),
                        policies: before.policies.push(iter.current_policy()),
                        accesses: before.accesses.push(access),
                        states: before.states.push(other@),
                    };
                    assert forall|i: int| 0 <= i < n + 1 implies #[trigger] trace@.goes_on(i) by {
                        if i < n {
                            assert(before.goes_on(i));
                        }
                    }
                    assert forall|i: int| 0 <= i < n + 1 implies #[trigger] trace@.looks(i) by {
                        if i < n {
                            assert(before.looks(i));
                        }
                    }
                    assert forall|i: int| 0 <= i < n + 1 implies #[trigger] trace@.is_matched(i)
                        == if i == n {
                        found
                    } else {
                        !wanted
                    } by {
                        if i < n {
                            assert(before.is_matched(i) == !wanted);
                        }
                    }
                }
                if found == wanted {
                    assert(trace@.begins(old(iter).rest(), old(iter).current_policy(), old(other)@));
                    return member;
                }
            },
            None => {
                proof {
                    trace@ = PickTrace {
                        steps: before.steps.push(step),
                        rests: before.rests.push(iter.rest()),
                        policies: before.policies.push(iter.current_policy()),
                        ..before
                    };
                    assert forall|i: int| 0 <= i < n + 1 implies #[trigger] trace@.goes_on(i) by {
                        if i < n {
                            assert(before.goes_on(i));
                        }
                    }
                    assert forall|i: int| 0 <= i < n implies #[trigger] trace@.looks(i) by {
                        assert(before.looks(i));
                    }
                    assert forall|i: int| 0 <= i < n implies #[trigger] trace@.is_matched(i)
                        == !wanted by {
                        assert(before.is_matched(i) == !wanted);
                    }
                    assert(trace@.picks(wanted, false));
                    assert(trace@.begins(old(iter).rest(), old(iter).current_policy(), old(other)@));
                }
                return None;
            },
        }
    }
}

/// The next member of a walk that is in `other`, or is not, as `wanted` says. The result is its
/// bucket. No member of `other` changes its place.
fn step_picked<'a, T: Hash + Eq, P: ExpirePolicy, H: BuildHasher>(
    iter: &mut IterMut<'a, T, (), P, H>,
    other: &mut HashMap<T, (), P, H>,
    wanted: bool,
) -> (found: (Option<usize>, Ghost<PickTrace<T, P, H>>))
    requires
        old(iter).current().wf(),
        old(other).wf(),
    ensures
        final(iter).current().wf(),
        final(other).wf(),
        *final(final(iter).map) == *final(old(iter).map),
        final(iter).end == old(iter).end,
        found.0 is None ==> final(iter).at >= final(iter).end,
        final(other).same_places(*old(other)),
        found.1@.begins(old(iter).rest(), old(iter).current()@.policy, old(other)@),
        found.1@.ends(final(iter).rest(), final(iter).current()@.policy, final(other)@),
        found.1@.picks(wanted, found.0 is Some),
        final(iter).current()@ == old(iter).current()@.with_policy(found.1@.policies.last()),
        found.0 matches Some(b) ==> {
            let met = found.1@.met(found.1@.accesses.len() - 1);
            &&& final(iter).current().is_at(b, met.storage.entry_id)
            &&& final(iter).current()@.entries[met.storage.entry_id] == met
        },
{
    let mut trace: Ghost<PickTrace<T, P, H>> = Ghost(
        PickTrace {
            steps: Seq::empty(),
            rests: seq![iter.rest()],
            policies: seq![iter.current()@.policy],
            accesses: Seq::empty(),
            states: seq![other@],
        },
    );
    proof {
        HashMap::places_begin(*other);
    }
    loop
        invariant
            iter.current().wf(),
            other.wf(),
            *final(iter.map) == *final(old(iter).map),
            iter.end == old(iter).end,
            other.same_places(*old(other)),
            trace@.begins(old(iter).rest(), old(iter).current()@.policy, old(other)@),
            trace@.ends(iter.rest(), iter.current()@.policy, other@),
            iter.current()@ == old(iter).current()@.with_policy(trace@.policies.last()),
            trace@.steps.len() == trace@.accesses.len(),
            forall|i: int| 0 <= i < trace@.steps.len() ==> #[trigger] trace@.goes_on(i),
            forall|i: int| 0 <= i < trace@.steps.len() ==> #[trigger] trace@.looks(i),
            forall|i: int|
                0 <= i < trace@.steps.len() ==> #[trigger] trace@.is_matched(i) == !wanted,
        decreases iter.rest().len(),
    {
        let ghost before = trace@;
        let ghost rest = iter.rest();
        let ghost state = *other;
        let ghost n = before.steps.len() as int;
        let (at, Ghost(step)) = iter.step();
        match at {
            Some(b) => {
                let key = iter.map.key_at(b, Ghost(step.met(rest).storage.entry_id));
                let found = other.contains_key(key);
                let ghost access = choose|access: AccessTrace<P>| #[trigger]
                    state@.looks_up(*key, access, other@) && found == (state@.shown(*key, access)
                        is Some);
                proof {
                    HashMap::places_stay(*old(other), state, *other);
                    trace@ = PickTrace {
                        steps: before.steps.push(step),
                        rests: before.rests.push(iter.rest()),
                        policies: before.policies.push(iter.current()@.policy),
                        accesses: before.accesses.push(access),
                        states: before.states.push(other@),
                    };
                    assert forall|i: int| 0 <= i < n + 1 implies #[trigger] trace@.goes_on(i) by {
                        if i < n {
                            assert(before.goes_on(i));
                        }
                    }
                    assert forall|i: int| 0 <= i < n + 1 implies #[trigger] trace@.looks(i) by {
                        if i < n {
                            assert(before.looks(i));
                        }
                    }
                    assert forall|i: int| 0 <= i < n + 1 implies #[trigger] trace@.is_matched(i)
                        == if i == n {
                        found
                    } else {
                        !wanted
                    } by {
                        if i < n {
                            assert(before.is_matched(i) == !wanted);
                        }
                    }
                }
                if found == wanted {
                    return (at, trace);
                }
            },
            None => {
                proof {
                    trace@ = PickTrace {
                        steps: before.steps.push(step),
                        rests: before.rests.push(iter.rest()),
                        policies: before.policies.push(iter.current()@.policy),
                        ..before
                    };
                    assert forall|i: int| 0 <= i < n + 1 implies #[trigger] trace@.goes_on(i) by {
                        if i < n {
                            assert(before.goes_on(i));
                        }
                    }
                    assert forall|i: int| 0 <= i < n implies #[trigger] trace@.looks(i) by {
                        assert(before.looks(i));
                    }
                    assert forall|i: int| 0 <= i < n implies #[trigger] trace@.is_matched(i)
                        == !wanted by {
                        assert(before.is_matched(i) == !wanted);
                    }
                }
                return (None, trace);
            },
        }
    }
}

/// Where two walks, one after the other, are: the two sets, and the members of each that are
/// ahead.
pub struct TwoWalks<T, P: ExpirePolicy, H> {
    pub first: SetModel<T, P, H>,
    pub first_rest: Seq<Item<T, (), P::Storage>>,
    pub second: SetModel<T, P, H>,
    pub second_rest: Seq<Item<T, (), P::Storage>>,
}

/// How one step over the members that are in one of two sets went: the step over the first set,
/// whether it found a member, and the step over the second set where it did not.
pub struct UnionTrace<T, P: ExpirePolicy, H> {
    pub step: StepTrace<P>,
    pub early: bool,
    pub pick: PickTrace<T, P, H>,
}

impl<T: Eq, P: ExpirePolicy, H> UnionTrace<T, P, H> {
    /// The step leads from `pre` to `post` and hands `member` out. A member of the first set that
    /// has not expired is handed out as it is met. Where there is none left, the next member of
    /// the second set is that the first set does not show.
    pub open spec fn goes(
        self,
        pre: TwoWalks<T, P, H>,
        post: TwoWalks<T, P, H>,
        member: Option<&T>,
    ) -> bool {
        let seen = pre.first.with_policy(self.step.policies.last());
        &&& self.step.steps(
            pre.first_rest,
            pre.first.policy,
            post.first_rest,
            self.step.policies.last(),
        )
        &&& self.step.stops(pre.first_rest, self.early)
        &&& if self.early {
            &&& member == Some(&self.step.met(pre.first_rest).key)
            &&& post.first == seen
            &&& post.second == pre.second
            &&& post.second_rest == pre.second_rest
        } else {
            &&& self.pick.begins(pre.second_rest, pre.second.policy, seen)
            &&& self.pick.ends(post.second_rest, post.second.policy, post.first)
            &&& self.pick.picks(false, member is Some)
            &&& member matches Some(m) ==> *m == self.pick.picked()
            &&& post.second == pre.second.with_policy(post.second.policy)
        }
    }
}

impl<T: Eq, P: ExpirePolicy, H> TwoWalks<T, P, H> {
    /// The steps lead from each place to the next and hand the members out one by one; the last
    /// step finds none.
    pub open spec fn unite(
        walks: Seq<Self>,
        traces: Seq<UnionTrace<T, P, H>>,
        members: Seq<T>,
    ) -> bool {
        &&& walks.len() == traces.len() + 1
        &&& traces.len() == members.len() + 1
        &&& forall|i: int| 0 <= i < traces.len() ==> #[trigger] Self::unite_at(walks, traces, members, i)
    }

    /// One of these steps.
    pub open spec fn unite_at(
        walks: Seq<Self>,
        traces: Seq<UnionTrace<T, P, H>>,
        members: Seq<T>,
        i: int,
    ) -> bool {
        traces[i].goes(
            walks[i],
            walks[i + 1],
            if i < members.len() {
                Some(&members[i])
            } else {
                None
            },
        )
    }

    /// The first of the steps that find nothing more in the first set.
    proof fn turning_point(
        walks: Seq<Self>,
        traces: Seq<UnionTrace<T, P, H>>,
        members: Seq<T>,
        i: int,
    ) -> (a: int)
        requires
            Self::unite(walks, traces, members),
            0 <= i < traces.len(),
            forall|j: int| 0 <= j < i ==> (#[trigger] traces[j]).early,
        ensures
            i <= a < traces.len(),
            !traces[a].early,
            forall|j: int| 0 <= j < a ==> (#[trigger] traces[j]).early,
        decreases traces.len() - i,
    {
        assert(Self::unite_at(walks, traces, members, i));
        if traces[i].early {
            assert(i < members.len());
            Self::turning_point(walks, traces, members, i + 1)
        } else {
            i
        }
    }

    /// Before the turning point the second set is left alone, and the first one changes in its
    /// policy alone.
    proof fn first_half(
        walks: Seq<Self>,
        traces: Seq<UnionTrace<T, P, H>>,
        members: Seq<T>,
        a: int,
        i: int,
    )
        requires
            Self::unite(walks, traces, members),
            0 <= i <= a < traces.len(),
            forall|j: int| 0 <= j < a ==> (#[trigger] traces[j]).early,
        ensures
            walks[i].second == walks[0].second,
            walks[i].second_rest == walks[0].second_rest,
            walks[i].first == walks[0].first.with_policy(walks[i].first.policy),
        decreases i,
    {
        if i > 0 {
            Self::first_half(walks, traces, members, a, i - 1);
            assert(Self::unite_at(walks, traces, members, i - 1));
            assert(traces[i - 1].early);
        }
    }

    /// The steps over the first set are a walk over it.
    proof fn first_walk(
        walks: Seq<Self>,
        traces: Seq<UnionTrace<T, P, H>>,
        members: Seq<T>,
        a: int,
    ) -> (walk: WalkTrace<T, (), P>)
        requires
            Self::unite(walks, traces, members),
            0 <= a < traces.len(),
            !traces[a].early,
            forall|j: int| 0 <= j < a ==> (#[trigger] traces[j]).early,
        ensures
            walk.walks(walks[0].first_rest, walks[0].first.policy),
            walk.steps.len() == a + 1,
            walk.steps.last() == traces[a].step,
            forall|i: int| 0 <= i < a ==> (#[trigger] walk.found(i)).key == members[i],
    {
        let walk = WalkTrace {
            rests: Seq::new((a + 2) as nat, |i: int| walks[i].first_rest),
            steps: Seq::new((a + 1) as nat, |i: int| traces[i].step),
        };
        assert(Self::unite_at(walks, traces, members, 0));
        assert forall|i: int| 0 <= i < walk.steps.len() implies #[trigger] walk.goes_on(i) by {
            assert(Self::unite_at(walks, traces, members, i));
            if i < a {
                assert(traces[i].early);
            }
            if i > 0 {
                assert(Self::unite_at(walks, traces, members, i - 1));
                assert(traces[i - 1].early);
            }
        }
        assert forall|i: int| 0 <= i < a implies (#[trigger] walk.found(i)).key == members[i] by {
            assert(Self::unite_at(walks, traces, members, i));
            assert(traces[i].early);
            assert(i < members.len());
        }
        walk
    }

    /// The steps over the second set, `k` of them, as one walk.
    proof fn second_walk(
        walks: Seq<Self>,
        traces: Seq<UnionTrace<T, P, H>>,
        members: Seq<T>,
        a: int,
        k: int,
    ) -> (all: PickTrace<T, P, H>)
        requires
            Self::unite(walks, traces, members),
            0 <= a < traces.len(),
            !traces[a].early,
            forall|j: int| 0 <= j < a ==> (#[trigger] traces[j]).early,
            0 < k <= traces.len() - a,
        ensures
            all.begins(
                walks[0].second_rest,
                walks[0].second.policy,
                walks[0].first.with_policy(traces[a].step.policies.last()),
            ),
            all.ends(
                walks[a + k].second_rest,
                walks[a + k].second.policy,
                walks[a + k].first,
            ),
            all.runs(),
            all.steps.len() == all.accesses.len() + if a + k == traces.len() {
                1int
            } else {
                0int
            },
            all.kept(all.accesses.len() as int) =~= members.subrange(
                a,
                if a + k == traces.len() {
                    a + k - 1
                } else {
                    a + k
                },
            ),
            walks[a + k].first_rest.len() == 0,
            walks[a + k].second == walks[0].second.with_policy(walks[a + k].second.policy),
        decreases k,
    {
        let i = a + k - 1;
        let trace = traces[i];
        Self::first_half(walks, traces, members, a, a);
        assert(Self::unite_at(walks, traces, members, i));
        let before = if k == 1 {
            PickTrace::begin(
                walks[0].second_rest,
                walks[0].second.policy,
                walks[0].first.with_policy(trace.step.policies.last()),
            )
        } else {
            Self::second_walk(walks, traces, members, a, k - 1)
        };
        if k > 1 {
            assert(!trace.early);
            assert(trace.step.policies.last() == trace.step.policies[0]);
            assert(walks[i].first.with_policy(walks[i].first.policy) == walks[i].first);
        }
        let found = i < members.len();
        before.join_runs(trace.pick, false, found);
        let all = before.join(trace.pick);
        if found {
            assert(members.subrange(a, i + 1) =~= members.subrange(a, i).push(members[i]));
        }
        all
    }

    /// What a walk over the members that are in one of two sets hands out from the first step to
    /// the last: the members of the larger set that have not expired when their turn comes, and
    /// then those of the smaller set that the larger one does not show.
    pub proof fn full_walk_unites(
        walks: Seq<Self>,
        traces: Seq<UnionTrace<T, P, H>>,
        members: Seq<T>,
    ) -> (found: (SweepTrace<P>, CompareTrace<T, (), P, H>))
        requires
            Self::unite(walks, traces, members),
            walks[0].first.wf(),
            walks[0].second.wf(),
            walks[0].first.lists_all(walks[0].first_rest),
            walks[0].second.lists_all(walks[0].second_rest),
        ensures
            walks[0].second.unites(
                walks[0].first,
                found.0,
                found.1,
                walks.last().second,
                walks.last().first,
            ),
            members == walks[0].second.united(walks[0].first, found.0, found.1),
    {
        let larger = walks[0].first;
        let smaller = walks[0].second;
        let a = Self::turning_point(walks, traces, members, 0);
        let walk = Self::first_walk(walks, traces, members, a);
        let sweep = larger.walk_is_a_sweep(walks[0].first_rest, walk);
        let all = Self::second_walk(walks, traces, members, a, traces.len() - a);
        let swept = larger.with_policy(traces[a].step.policies.last());
        let trace = all.run_compares(smaller, walks[0].second_rest, swept);
        assert(larger.keys_of(larger.all_live(sweep)) =~= members.subrange(0, a)) by {
            assert forall|i: int| 0 <= i < a implies larger.entries[#[trigger] larger.all_live(
                sweep,
            )[i]].key == members[i] by {
                assert(walk.found(i).key == members[i]);
            }
        }
        assert(members =~= members.subrange(0, a) + members.subrange(a, members.len() as int));
        (sweep, trace)
    }
}

/// The members that are in one of two sets. What it hands out is held until the next step.
pub struct Union<'a, T, P: ExpirePolicy, H> {
    /// The walk over the set with more members.
    pub larger: IterMut<'a, T, (), P, H>,
    /// The walk over the other set.
    pub smaller: IterMut<'a, T, (), P, H>,
}

impl<'a, T: Hash + Eq, P: ExpirePolicy, H: BuildHasher> Union<'a, T, P, H> {
    /// Both sets are sound.
    pub open spec fn wf(&self) -> bool {
        self.larger.current().wf() && self.smaller.current().wf()
    }

    /// Where the walks over the two sets are.
    pub open spec fn walks(&self) -> TwoWalks<T, P, H> {
        TwoWalks {
            first: self.larger.current()@,
            first_rest: self.larger.rest(),
            second: self.smaller.current()@,
            second_rest: self.smaller.rest(),
        }
    }

    /// The next member that is in one of the sets.
    pub fn next(&mut self) -> (member: Option<&T>)
        requires
            old(self).wf(),
        ensures
            final(self).wf(),
            *final(final(self).larger.map) == *final(old(self).larger.map),
            *final(final(self).smaller.map) == *final(old(self).smaller.map),
            exists|trace: UnionTrace<T, P, H>| #[trigger]
                trace.goes(
                    old(self).walks(),
                    final(self).walks(),
                    member,
                ),
    {
        let ghost pre = self.walks();
        let (found, Ghost(step)) = self.larger.step();
        if let Some(b) = found {
            let ghost met = step.met(pre.first_rest);
            let member = self.larger.map.key_at(b, Ghost(met.storage.entry_id));
            proof {
                let trace = UnionTrace { step, early: true, pick: arbitrary() };
                assert(trace.goes(pre, self.walks(), Some(member)));
            }
            return Some(member);
        }
        let ghost rest = self.larger.rest();
        let (found, Ghost(pick)) = step_picked(&mut self.smaller, self.larger.map, false);
        let ghost trace = UnionTrace { step, early: false, pick };
        proof {
            self.larger.map.none_past_the_end(self.larger.at, self.larger.end);
            assert(rest.len() == 0);
            assert(self.larger.rest() =~= rest);
        }
        match found {
            Some(b) => {
                let ghost met = pick.met(pick.accesses.len() - 1);
                let member = self.smaller.map.key_at(b, Ghost(met.storage.entry_id));
                assert(trace.goes(pre, self.walks(), Some(member)));
                Some(member)
            },
            None => {
                assert(trace.goes(pre, self.walks(), None));
                None
            },
        }
    }
}

/// How one step over the members that are in one of two sets, but not in both, went: the step
/// over the first set, whether it found a member, and the step over the second set where it did
/// not.
pub struct SymmetricTrace<T, P: ExpirePolicy, H> {
    pub there: PickTrace<T, P, H>,
    pub early: bool,
    pub back: PickTrace<T, P, H>,
}

impl<T: Eq, P: ExpirePolicy, H> SymmetricTrace<T, P, H> {
    /// The step leads from `pre` to `post` and hands `member` out: the next member of the first
    /// set that the second does not show, or where there is none left, the next one of the second
    /// set that the first does not show. To look for members in a set may mark some that are
    /// ahead.
    pub open spec fn goes(
        self,
        pre: TwoWalks<T, P, H>,
        post: TwoWalks<T, P, H>,
        member: Option<&T>,
    ) -> bool {
        let seen = pre.first.with_policy(self.there.policies.last());
        let looked_at = self.there.states.last();
        &&& self.there.begins(pre.first_rest, pre.first.policy, pre.second)
        &&& self.there.picks(false, self.early)
        &&& post.first_rest == self.there.rests.last()
        &&& if self.early {
            &&& member == Some(&self.there.picked())
            &&& post.first == seen
            &&& post.second == looked_at
            &&& post.second_rest == looked_at.items_now(pre.second_rest)
        } else {
            &&& self.back.begins(
                looked_at.items_now(pre.second_rest),
                looked_at.policy,
                seen,
            )
            &&& self.back.ends(post.second_rest, post.second.policy, post.first)
            &&& self.back.picks(false, member is Some)
            &&& member matches Some(m) ==> *m == self.back.picked()
            &&& post.second == looked_at.with_policy(post.second.policy)
        }
    }
}

impl<T: Eq, P: ExpirePolicy, H> TwoWalks<T, P, H> {
    /// The steps lead from each place to the next and hand the members out one by one; the last
    /// step finds none.
    pub open spec fn differ(
        walks: Seq<Self>,
        traces: Seq<SymmetricTrace<T, P, H>>,
        members: Seq<T>,
    ) -> bool {
        &&& walks.len() == traces.len() + 1
        &&& traces.len() == members.len() + 1
        &&& forall|i: int|
            0 <= i < traces.len() ==> #[trigger] Self::differ_at(walks, traces, members, i)
    }

    /// One of these steps.
    pub open spec fn differ_at(
        walks: Seq<Self>,
        traces: Seq<SymmetricTrace<T, P, H>>,
        members: Seq<T>,
        i: int,
    ) -> bool {
        traces[i].goes(
            walks[i],
            walks[i + 1],
            if i < members.len() {
                Some(&members[i])
            } else {
                None
            },
        )
    }

    /// The first of the steps that find nothing more in the first set.
    proof fn turning_back(
        walks: Seq<Self>,
        traces: Seq<SymmetricTrace<T, P, H>>,
        members: Seq<T>,
        i: int,
    ) -> (a: int)
        requires
            Self::differ(walks, traces, members),
            0 <= i < traces.len(),
            forall|j: int| 0 <= j < i ==> (#[trigger] traces[j]).early,
        ensures
            i <= a < traces.len(),
            !traces[a].early,
            forall|j: int| 0 <= j < a ==> (#[trigger] traces[j]).early,
        decreases traces.len() - i,
    {
        assert(Self::differ_at(walks, traces, members, i));
        if traces[i].early {
            assert(i < members.len());
            Self::turning_back(walks, traces, members, i + 1)
        } else {
            i
        }
    }

    /// The steps over the first set, `k` of them, as one walk.
    proof fn walk_there(
        walks: Seq<Self>,
        traces: Seq<SymmetricTrace<T, P, H>>,
        members: Seq<T>,
        a: int,
        k: int,
    ) -> (all: PickTrace<T, P, H>)
        requires
            Self::differ(walks, traces, members),
            0 <= k <= a < traces.len(),
            forall|j: int| 0 <= j < a ==> (#[trigger] traces[j]).early,
            walks[0].second.wf(),
            walks[0].second.lists_all(walks[0].second_rest),
        ensures
            all.begins(walks[0].first_rest, walks[0].first.policy, walks[0].second),
            all.ends(walks[k].first_rest, walks[k].first.policy, walks[k].second),
            all.runs(),
            all.steps.len() == all.accesses.len(),
            all.kept(all.accesses.len() as int) =~= members.subrange(0, k),
            walks[k].first == walks[0].first.with_policy(walks[k].first.policy),
            walks[k].second.wf(),
            walks[k].second.lists_all(walks[k].second_rest),
        decreases k,
    {
        if k == 0 {
            PickTrace::begin(walks[0].first_rest, walks[0].first.policy, walks[0].second)
        } else {
            let before = Self::walk_there(walks, traces, members, a, k - 1);
            let trace = traces[k - 1];
            assert(Self::differ_at(walks, traces, members, k - 1));
            assert(trace.early);
            assert(k - 1 < members.len());
            before.join_runs(trace.there, false, true);
            trace.there.states_stay(trace.there.accesses.len() as int);
            walks[k - 1].second.now_lists_all(walks[k].second, walks[k - 1].second_rest);
            assert(members.subrange(0, k) =~= members.subrange(0, k - 1).push(members[k - 1]));
            before.join(trace.there)
        }
    }

    /// The steps over the second set, `k` of them, as one walk.
    proof fn walk_back(
        walks: Seq<Self>,
        traces: Seq<SymmetricTrace<T, P, H>>,
        members: Seq<T>,
        a: int,
        k: int,
    ) -> (all: PickTrace<T, P, H>)
        requires
            Self::differ(walks, traces, members),
            0 <= a < traces.len(),
            !traces[a].early,
            0 < k <= traces.len() - a,
            walks[a].second.wf(),
            walks[a].second.lists_all(walks[a].second_rest),
        ensures
            ({
                let looked_at = traces[a].there.states.last();
                &&& looked_at.wf()
                &&& looked_at.lists_all(looked_at.items_now(walks[a].second_rest))
                &&& all.begins(
                    looked_at.items_now(walks[a].second_rest),
                    looked_at.policy,
                    walks[a].first.with_policy(traces[a].there.policies.last()),
                )
                &&& walks[a + k].second == looked_at.with_policy(walks[a + k].second.policy)
            }),
            all.ends(
                walks[a + k].second_rest,
                walks[a + k].second.policy,
                walks[a + k].first,
            ),
            all.runs(),
            all.steps.len() == all.accesses.len() + if a + k == traces.len() {
                1int
            } else {
                0int
            },
            all.kept(all.accesses.len() as int) =~= members.subrange(
                a,
                if a + k == traces.len() {
                    a + k - 1
                } else {
                    a + k
                },
            ),
            walks[a + k].first_rest.len() == 0,
            walks[a + k].second.has_items(walks[a + k].second_rest),
        decreases k,
    {
        let i = a + k - 1;
        let trace = traces[i];
        let looked_at = traces[a].there.states.last();
        assert(Self::differ_at(walks, traces, members, i));
        assert(Self::differ_at(walks, traces, members, a));
        traces[a].there.states_stay(traces[a].there.accesses.len() as int);
        walks[a].second.now_lists_all(looked_at, walks[a].second_rest);
        let before = if k == 1 {
            assert(trace.there.goes_on(trace.there.steps.len() - 1));
            PickTrace::begin(
                looked_at.items_now(walks[a].second_rest),
                looked_at.policy,
                walks[a].first.with_policy(trace.there.policies.last()),
            )
        } else {
            let before = Self::walk_back(walks, traces, members, a, k - 1);
            trace.there.none_ahead(trace.early);
            assert(walks[i].second.items_now(walks[i].second_rest) =~= walks[i].second_rest);
            assert(walks[i].first.with_policy(walks[i].first.policy) == walks[i].first);
            before
        };
        let found = i < members.len();
        before.join_runs(trace.back, false, found);
        let all = before.join(trace.back);
        trace.back.rests_agree(looked_at, trace.back.steps.len() as int);
        if found {
            assert(members.subrange(a, i + 1) =~= members.subrange(a, i).push(members[i]));
        }
        all
    }

    /// What a walk over the members that are in one of two sets, but not in both, hands out from
    /// the first step to the last: the members of the first set that the second does not show, and
    /// then those of the second that the first does not show.
    pub proof fn full_walk_differs(
        walks: Seq<Self>,
        traces: Seq<SymmetricTrace<T, P, H>>,
        members: Seq<T>,
    ) -> (found: (
        CompareTrace<T, (), P, H>,
        SetModel<T, P, H>,
        SetModel<T, P, H>,
        CompareTrace<T, (), P, H>,
    ))
        requires
            Self::differ(walks, traces, members),
            walks[0].first.wf(),
            walks[0].second.wf(),
            walks[0].first.lists_all(walks[0].first_rest),
            walks[0].second.lists_all(walks[0].second_rest),
        ensures
            ({
                let (there, seen, looked_at, back) = found;
                let (first, second) = (walks[0].first, walks[0].second);
                &&& first.compares_fully(second, there, seen, looked_at)
                &&& looked_at.compares_fully(seen, back, walks.last().second, walks.last().first)
                &&& members == first.keys_of(first.all_picks(there, false)) + looked_at.keys_of(
                    looked_at.all_picks(back, false),
                )
            }),
    {
        let first = walks[0].first;
        let second = walks[0].second;
        let a = Self::turning_back(walks, traces, members, 0);
        let so_far = Self::walk_there(walks, traces, members, a, a);
        let last = traces[a].there;
        assert(Self::differ_at(walks, traces, members, a));
        so_far.join_runs(last, false, false);
        let whole = so_far.join(last);
        let there = whole.run_compares(first, walks[0].first_rest, second);
        let seen = first.with_policy(last.policies.last());
        let looked_at = last.states.last();
        let all = Self::walk_back(walks, traces, members, a, traces.len() - a);
        let back = all.run_compares(
            looked_at,
            looked_at.items_now(walks[a].second_rest),
            seen,
        );
        assert(members =~= members.subrange(0, a) + members.subrange(a, members.len() as int));
        (there, seen, looked_at, back)
    }
}

/// The members that are in one of two sets, but not in both. What it hands out is held until the
/// next step.
pub struct SymmetricDifference<'a, T, P: ExpirePolicy, H> {
    /// The walk over the first set.
    pub first: IterMut<'a, T, (), P, H>,
    /// The walk over the second set.
    pub second: IterMut<'a, T, (), P, H>,
}

impl<'a, T: Hash + Eq, P: ExpirePolicy, H: BuildHasher> SymmetricDifference<'a, T, P, H> {
    /// Both sets are sound.
    pub open spec fn wf(&self) -> bool {
        self.first.current().wf() && self.second.current().wf()
    }

    /// Where the walks over the two sets are.
    pub open spec fn walks(&self) -> TwoWalks<T, P, H> {
        TwoWalks {
            first: self.first.current()@,
            first_rest: self.first.rest(),
            second: self.second.current()@,
            second_rest: self.second.rest(),
        }
    }

    /// The next member that is in one set, but not in both.
    pub fn next(&mut self) -> (member: Option<&T>)
        requires
            old(self).wf(),
        ensures
            final(self).wf(),
            *final(final(self).first.map) == *final(old(self).first.map),
            *final(final(self).second.map) == *final(old(self).second.map),
            exists|trace: SymmetricTrace<T, P, H>| #[trigger]
                trace.goes(
                    old(self).walks(),
                    final(self).walks(),
                    member,
                ),
    {
        let ghost pre = self.walks();
        let ghost second = *self.second.map;
        let (found, Ghost(there)) = step_picked(&mut self.first, self.second.map, false);
        proof {
            HashMap::walk_follows(second, *self.second.map, self.second.at, self.second.end);
        }
        if let Some(b) = found {
            let ghost met = there.met(there.accesses.len() - 1);
            let member = self.first.map.key_at(b, Ghost(met.storage.entry_id));
            proof {
                let trace = SymmetricTrace { there, early: true, back: arbitrary() };
                assert(trace.goes(pre, self.walks(), Some(member)));
            }
            return Some(member);
        }
        let ghost rest = self.first.rest();
        proof {
            self.first.map.none_past_the_end(self.first.at, self.first.end);
        }
        let (found, Ghost(back)) = step_picked(&mut self.second, self.first.map, false);
        let ghost trace = SymmetricTrace { there, early: false, back };
        proof {
            self.first.map.none_past_the_end(self.first.at, self.first.end);
        }
        match found {
            Some(b) => {
                let ghost met = back.met(back.accesses.len() - 1);
                let member = self.second.map.key_at(b, Ghost(met.storage.entry_id));
                assert(trace.goes(pre, self.walks(), Some(member)));
                Some(member)
            },
            None => {
                assert(trace.goes(pre, self.walks(), None));
                None
            },
        }
    }
}

/// The members that are in both of two sets.
pub struct Intersection<'a, T, P: ExpirePolicy, H> {
    /// The walk over the set with fewer members.
    pub smaller: Iter<'a, T, P>,
    /// The other set.
    pub larger: &'a mut HashSet<T, P, H>,
}

impl<'a, T: Hash + Eq, P: ExpirePolicy, H: BuildHasher> Intersection<'a, T, P, H> {
    /// The other set as it is now.
    pub open spec fn current_larger(&self) -> HashSet<T, P, H> {
        *self.larger
    }

    /// The next member that is in both sets.
    pub fn next(&mut self) -> (member: Option<&'a T>)
        requires
            old(self).current_larger().wf(),
        ensures
            final(self).current_larger().wf(),
            *final(final(self).smaller.iter.inner.policy) == *final(
                old(self).smaller.iter.inner.policy),
            *final(final(self).larger) == *final(old(self).larger),
            exists|trace: PickTrace<T, P, H>| #[trigger]
                trace.begins(
                    old(self).smaller.rest(),
                    old(self).smaller.current_policy(),
                    old(self).current_larger()@,
                ) && trace.ends(
                    final(self).smaller.rest(),
                    final(self).smaller.current_policy(),
                    final(self).current_larger()@,
                ) && trace.picks(true, member is Some) && (member matches Some(m) ==> *m
                    == trace.picked()),
    {
        next_picked(&mut self.smaller, self.larger, true)
    }
}

/// The members of one set that are not in another.
pub struct Difference<'a, T, P: ExpirePolicy, H> {
    /// The walk over the one set.
    pub iter: Iter<'a, T, P>,
    /// The other set.
    pub other: &'a mut HashSet<T, P, H>,
}

impl<'a, T: Hash + Eq, P: ExpirePolicy, H: BuildHasher> Difference<'a, T, P, H> {
    /// The other set as it is now.
    pub open spec fn current_other(&self) -> HashSet<T, P, H> {
        *self.other
    }

    /// The next member that is not in the other set.
    pub fn next(&mut self) -> (member: Option<&'a T>)
        requires
            old(self).current_other().wf(),
        ensures
            final(self).current_other().wf(),
            *final(final(self).iter.iter.inner.policy) == *final(
                old(self).iter.iter.inner.policy),
            *final(final(self).other) == *final(old(self).other),
            exists|trace: PickTrace<T, P, H>| #[trigger]
                trace.begins(
                    old(self).iter.rest(),
                    old(self).iter.current_policy(),
                    old(self).current_other()@,
                ) && trace.ends(
                    final(self).iter.rest(),
                    final(self).iter.current_policy(),
                    final(self).current_other()@,
                ) && trace.picks(false, member is Some) && (member matches Some(m) ==> *m
                    == trace.picked()),
    {
        next_picked(&mut self.iter, self.other, false)
    }
}

impl<K: Eq, V, P: ExpirePolicy, H> MapModel<K, V, P, H> {
    /// The map has these entries as they are.
    spec fn has_items(self, items: Seq<Item<K, V, P::Storage>>) -> bool {
        forall|i: int|
            0 <= i < items.len() ==> self.entries[(#[trigger] items[i]).storage.entry_id]
                == items[i]
    }

    /// A list of every entry is still one after some were marked.
    proof fn now_lists_all(self, post: Self, items: Seq<Item<K, V, P::Storage>>)
        requires
            self.wf(),
            post.wf(),
            post.entries.dom() == self.entries.dom(),
            self.lists_all(items),
        ensures
            post.lists_all(post.items_now(items)),
    {
        let now = post.items_now(items);
        assert forall|i: int| 0 <= i < now.len() implies {
            &&& post.entries.contains_key((#[trigger] now[i]).storage.entry_id)
            &&& post.entries[now[i].storage.entry_id] == now[i]
            &&& now[i].storage.entry_id == items[i].storage.entry_id
        } by {
            assert(self.entries.contains_key(items[i].storage.entry_id));
            assert(post.entries.contains_key(items[i].storage.entry_id));
        }
        assert forall|id: EntryId| #[trigger] post.entries.contains_key(id) implies now.contains(
            post.entries[id],
        ) by {
            assert(self.entries.contains_key(id));
            let i = items.index_of(self.entries[id]);
            assert(items[i].storage.entry_id == id);
            assert(now[i] == post.entries[id]);
        }
    }

    /// All entries of this map were looked up in `other` as the trace says, which led to `post`
    /// and `other_post`.
    pub open spec fn compares_fully(
        self,
        other: Self,
        trace: CompareTrace<K, V, P, H>,
        post: Self,
        other_post: Self,
    ) -> bool {
        &&& self.compares(other, trace)
        &&& self.compares_all(trace)
        &&& post == self.with_policy(trace.sweep.policies.last())
        &&& other_post == trace.states.last()
    }

    /// A walk over `other`, and a look at it for all entries of this map, went as the traces say
    /// and led to `post` and `other_post`.
    pub open spec fn unites(
        self,
        other: Self,
        sweep: SweepTrace<P>,
        trace: CompareTrace<K, V, P, H>,
        post: Self,
        other_post: Self,
    ) -> bool {
        let swept = other.with_policy(sweep.policies.last());
        &&& other.sweeps(sweep, swept)
        &&& self.compares_fully(swept, trace, post, other_post)
    }

    /// The keys that were found then.
    pub open spec fn united(
        self,
        other: Self,
        sweep: SweepTrace<P>,
        trace: CompareTrace<K, V, P, H>,
    ) -> Seq<K> {
        other.keys_of(other.all_live(sweep)) + self.keys_of(self.all_picks(trace, false))
    }

    /// Every key of `other` that had not expired is found then, and so is every key of this map
    /// that had not, unless `other` showed an entry for it.
    pub proof fn united_is_complete(
        self,
        other: Self,
        sweep: SweepTrace<P>,
        trace: CompareTrace<K, V, P, H>,
        i: int,
    )
        ensures
            0 <= i < other.all_live(sweep).len() ==> self.united(other, sweep, trace).contains(
                other.entries[other.all_live(sweep)[i]].key,
            ),
            0 <= i < self.all_live(trace.sweep).len() ==> self.is_matched(trace, i) || self.united(
                other,
                sweep,
                trace,
            ).contains(self.entries[self.all_live(trace.sweep)[i]].key),
    {
        let first = other.keys_of(other.all_live(sweep));
        let picks = self.all_picks(trace, false);
        let found = self.united(other, sweep, trace);
        if 0 <= i < other.all_live(sweep).len() {
            assert(found[i] == first[i]);
        }
        let live = self.all_live(trace.sweep);
        if 0 <= i < live.len() && !self.is_matched(trace, i) {
            self.picks_are_wanted(trace, false, live.len() as int, live[i]);
            let j = picks.index_of(live[i]);
            assert(found[first.len() + j] == self.entries[live[i]].key);
        }
    }

    /// What was found not to have expired in the walk over `other` is shown by the looks at it, and
    /// what was found to have expired is not: nothing expired in between.
    pub open spec fn agrees(
        self,
        other: Self,
        sweep: SweepTrace<P>,
        trace: CompareTrace<K, V, P, H>,
    ) -> bool {
        forall|i: int|
            0 <= i < self.all_live(trace.sweep).len() ==> (#[trigger] self.is_matched(trace, i)
                == (trace.states[i].locate(self.entries[self.all_live(trace.sweep)[i]].key) matches Some(
                id,
            ) && other.all_live(sweep).contains(id)))
    }

    /// The looks at another map leave it sound, with the same keys.
    proof fn states_keep_keys(self, other: Self, trace: CompareTrace<K, V, P, H>, i: int)
        requires
            other.wf(),
            self.compares(other, trace),
            0 <= i <= self.all_live(trace.sweep).len(),
        ensures
            trace.states[i].wf(),
            trace.states[i].same_keys(other),
            trace.states[i].hash_builder == other.hash_builder,
        decreases i,
    {
        if i > 0 {
            self.states_keep_keys(other, trace, i - 1);
            assert(self.compares_at(trace, i - 1));
            let before = trace.states[i - 1];
            let key = self.entries[self.all_live(trace.sweep)[i - 1]].key;
            before.looks_up_keeps_keys(key, trace.accesses[i - 1], trace.states[i]);
            before.told_keeps_wf(trace.accesses[i - 1].command);
            assert forall|id: EntryId| #[trigger]
                trace.states[i].entries.contains_key(id) implies trace.states[i].entries[id].key
                == other.entries[id].key by {
                assert(before.entries.contains_key(id));
            }
        }
    }

    /// The entry of the other map for a key is met by the look for that key.
    proof fn look_meets(self, other: Self, trace: CompareTrace<K, V, P, H>, i: int, id: EntryId)
        requires
            other.wf(),
            crate::hash::hash_follows::<K, H>(other.hash_builder),
            self.compares(other, trace),
            0 <= i < self.all_live(trace.sweep).len(),
            other.entries.contains_key(id),
        ensures
            self.entries[self.all_live(trace.sweep)[i]].key.eq_spec(&other.entries[id].key)
                <==> trace.states[i].locate(self.entries[self.all_live(trace.sweep)[i]].key) == Some(
                id,
            ),
    {
        self.states_keep_keys(other, trace, i);
        let key = self.entries[self.all_live(trace.sweep)[i]].key;
        let state = trace.states[i];
        assert(state.entries.contains_key(id));
        assert(state.entries[id].key == other.entries[id].key);
        if key.eq_spec(&other.entries[id].key) {
            assert(state.holds(id, key));
            state.locate_is(id, key);
        }
        if state.locate(key) == Some(id) {
            assert(state.holds(id, key));
        }
    }

    /// Where nothing expired in between, no key is found twice.
    pub proof fn united_has_no_double(
        self,
        other: Self,
        sweep: SweepTrace<P>,
        trace: CompareTrace<K, V, P, H>,
        post: Self,
        other_post: Self,
        i: int,
        j: int,
    )
        requires
            self.wf(),
            other.wf(),
            crate::hash::hash_follows::<K, H>(self.hash_builder),
            crate::hash::hash_follows::<K, H>(other.hash_builder),
            self.unites(other, sweep, trace, post, other_post),
            self.agrees(other, sweep, trace),
            0 <= i < j < self.united(other, sweep, trace).len(),
        ensures
            !self.united(other, sweep, trace)[i].eq_spec(&self.united(other, sweep, trace)[j]),
    {
        let swept = other.with_policy(sweep.policies.last());
        let live = other.all_live(sweep);
        let picks = self.all_picks(trace, false);
        let n = live.len() as int;
        let all = self.united(other, sweep, trace);
        other.live_is_met(sweep, sweep.order.len() as int);
        other.live_are_entries(sweep, swept);
        self.picks_are_entries(swept, trace, false, self.all_live(trace.sweep).len() as int);
        self.picks_are_apart(swept, trace, false, self.all_live(trace.sweep).len() as int);
        if j < n {
            assert(all[i] == other.entries[live[i]].key && all[j] == other.entries[live[j]].key);
            assert(other.entries.contains_key(live[i]) && other.entries.contains_key(live[j]));
        } else if i >= n {
            assert(all[i] == self.entries[picks[i - n]].key);
            assert(all[j] == self.entries[picks[j - n]].key);
            assert(self.entries.contains_key(picks[i - n]) && self.entries.contains_key(
                picks[j - n],
            ));
        } else {
            let own = self.all_live(trace.sweep);
            assert(picks.contains(picks[j - n]));
            self.picks_are_wanted(trace, false, own.len() as int, picks[j - n]);
            let k = choose|k: int|
                0 <= k < own.len() && #[trigger] own[k] == picks[j - n] && self.is_matched(trace, k)
                    == false;
            self.look_meets(swept, trace, k, live[i]);
            assert(live.contains(live[i]));
            assert(all[i] == other.entries[live[i]].key && all[j] == self.entries[own[k]].key);
            assert(!self.is_matched(trace, k));
        }
    }

    /// No entry is picked twice.
    proof fn picks_are_apart(
        self,
        other: Self,
        trace: CompareTrace<K, V, P, H>,
        wanted: bool,
        n: int,
    )
        requires
            self.compares(other, trace),
            0 <= n <= self.all_live(trace.sweep).len(),
        ensures
            self.picks(trace, wanted, n).no_duplicates(),
        decreases n,
    {
        if n > 0 {
            self.picks_are_apart(other, trace, wanted, n - 1);
            self.live_is_met(trace.sweep, trace.sweep.order.len() as int);
            let live = self.all_live(trace.sweep);
            self.picks_are_wanted(trace, wanted, n - 1, live[n - 1]);
        }
    }

    /// As many keys are found as the other map has that had not expired, and as this map has that
    /// had not and that the other showed no entry for.
    pub proof fn united_adds_up(
        self,
        other: Self,
        sweep: SweepTrace<P>,
        trace: CompareTrace<K, V, P, H>,
    )
        ensures
            self.united(other, sweep, trace).len() + self.all_picks(trace, true).len()
                == other.all_live(sweep).len() + self.all_live(trace.sweep).len(),
    {
        self.picks_add_up(trace, self.all_live(trace.sweep).len() as int);
    }

    /// Where nothing expired in between, a key is found if and only if it is equal to one of
    /// either map that had not expired. So it makes no difference which of the two is walked over
    /// first.
    pub proof fn united_is_either(
        self,
        other: Self,
        sweep: SweepTrace<P>,
        trace: CompareTrace<K, V, P, H>,
        post: Self,
        other_post: Self,
        key: K,
    )
        requires
            self.wf(),
            other.wf(),
            crate::hash::hash_follows::<K, H>(other.hash_builder),
            self.unites(other, sweep, trace, post, other_post),
            self.agrees(other, sweep, trace),
        ensures
            Self::has_equal(self.united(other, sweep, trace), key) <==> Self::has_equal(
                other.keys_of(other.all_live(sweep)),
                key,
            ) || Self::has_equal(self.keys_of(self.all_live(trace.sweep)), key),
    {
        let swept = other.with_policy(sweep.policies.last());
        let all = self.united(other, sweep, trace);
        let first = other.keys_of(other.all_live(sweep));
        let own = self.all_live(trace.sweep);
        let second = self.keys_of(own);
        let picks = self.all_picks(trace, false);
        other.live_are_entries(sweep, swept);
        if Self::has_equal(first, key) {
            let i = choose|i: int| 0 <= i < first.len() && key.eq_spec(&#[trigger] first[i]);
            assert(key.eq_spec(&all[i]));
        }
        if Self::has_equal(second, key) {
            let i = choose|i: int| 0 <= i < second.len() && key.eq_spec(&#[trigger] second[i]);
            if self.is_matched(trace, i) {
                let id = trace.states[i].locate(self.entries[own[i]].key).unwrap();
                let live = other.all_live(sweep);
                let j = live.index_of(id);
                assert(other.entries.contains_key(live[j]));
                self.look_meets(swept, trace, i, id);
                assert(key.eq_spec(&second[i]) && second[i].eq_spec(&other.entries[id].key));
                assert(all[j] == other.entries[id].key);
                assert(key.eq_spec(&all[j]));
            } else {
                self.picks_are_wanted(trace, false, own.len() as int, own[i]);
                let j = picks.index_of(own[i]);
                assert(all[first.len() + j] == second[i]);
            }
        }
        if Self::has_equal(all, key) {
            let i = choose|i: int| 0 <= i < all.len() && key.eq_spec(&#[trigger] all[i]);
            if i < first.len() {
                assert(key.eq_spec(&first[i]));
            } else {
                let id = picks[i - first.len()];
                assert(picks.contains(id));
                self.picks_are_wanted(trace, false, own.len() as int, id);
                let k = choose|k: int|
                    0 <= k < own.len() && #[trigger] own[k] == id && self.is_matched(trace, k)
                        == false;
                assert(key.eq_spec(&second[k]));
            }
        }
    }

    /// One of the keys is equal to `key`.
    pub open spec fn has_equal(keys: Seq<K>, key: K) -> bool {
        exists|i: int| 0 <= i < keys.len() && key.eq_spec(&#[trigger] keys[i])
    }

    /// The keys of some entries.
    pub open spec fn keys_of(self, ids: Seq<EntryId>) -> Seq<K> {
        ids.map_values(|id: EntryId| self.entries[id].key)
    }
}

impl<T: Eq, P: ExpirePolicy, H> MapModel<T, (), P, H> {
    /// The question whether every member of this set is in `other` can lead to `post` and
    /// `other_post` and be answered like this.
    pub open spec fn is_subset_of(
        self,
        other: Self,
        post: Self,
        other_post: Self,
        subset: bool,
    ) -> bool {
        exists|sizes: SizesTrace<T, P, H>| #[trigger]
            sizes.measure(self, other) && if sizes.is_first_smaller() {
                exists|trace: CompareTrace<T, (), P, H>| #[trigger]
                    sizes.first.compares(sizes.second, trace) && {
                        &&& sizes.first.compares_until(trace, false)
                        &&& post == sizes.first.with_policy(trace.sweep.policies.last())
                        &&& other_post == trace.states.last()
                        &&& subset == (sizes.first.all_picks(trace, false).len() == 0)
                    }
            } else {
                &&& post == sizes.first
                &&& other_post == sizes.second
                &&& !subset
            }
    }
}

impl<K: Eq, V, P: ExpirePolicy, H> MapModel<K, V, P, H> {
    /// No entry expires for a while: from a state that `from` accepts to one that `to` accepts, the
    /// policy answers by `live`, whatever it is asked about entries of this map. Those in `live`
    /// have not expired and are not reported, and the others have expired or were reported before.
    pub open spec fn is_calm(
        self,
        live: Set<EntryId>,
        from: spec_fn(P) -> bool,
        to: spec_fn(P) -> bool,
    ) -> bool {
        &&& live.subset_of(self.entries.dom())
        &&& forall|id: EntryId| #[trigger]
            live.contains(id) ==> !self.entries[id].storage.removed
        &&& from(self.policy)
        &&& forall|p: P, id: EntryId, q: P, expired: bool|
            self.entries.contains_key(id) && #[trigger] P::judges(
                p,
                id,
                self.entries[id].storage.storage,
                q,
                expired,
            ) && to(q) ==> to(p) && (from(p) ==> from(q) && (expired == !live.contains(id)
                || self.entries[id].storage.removed))
        &&& forall|p: P, id: EntryId, q: P, command: Command|
            self.entries.contains_key(id) && #[trigger] P::accessed(
                p,
                id,
                self.entries[id].storage.storage,
                q,
                command,
            ) && to(q) ==> to(p) && (from(p) ==> from(q) && forall|other: EntryId|
                live.contains(other) ==> !#[trigger] command.lists(other))
    }

    /// A walk that ends in a state that `to` accepts has been in such states all along.
    proof fn calm_before(
        self,
        live: Set<EntryId>,
        from: spec_fn(P) -> bool,
        to: spec_fn(P) -> bool,
        trace: SweepTrace<P>,
        n: int,
    )
        requires
            self.is_calm(live, from, to),
            self.sweeps_part(trace),
            forall|id: EntryId| #[trigger] trace.order.contains(id) ==> self.entries.contains_key(id),
            to(trace.policies.last()),
            0 <= n <= trace.order.len(),
        ensures
            to(trace.policies[n]),
        decreases trace.order.len() - n,
    {
        if n < trace.order.len() {
            self.calm_before(live, from, to, trace, n + 1);
            assert(self.sweeps_at(trace, n));
            assert(trace.order.contains(trace.order[n]));
        }
    }

    /// In a walk over entries of which none expires, those that are alive are the ones in `live`.
    proof fn calm_walk(
        self,
        live: Set<EntryId>,
        from: spec_fn(P) -> bool,
        to: spec_fn(P) -> bool,
        trace: SweepTrace<P>,
        n: int,
    )
        requires
            self.is_calm(live, from, to),
            self.sweeps_part(trace),
            forall|id: EntryId| #[trigger] trace.order.contains(id) ==> self.entries.contains_key(id),
            to(trace.policies.last()),
            0 <= n <= trace.order.len(),
        ensures
            from(trace.policies[n]),
            to(trace.policies[n]),
            forall|id: EntryId| #[trigger]
                self.live(trace, n).contains(id) <==> live.contains(id) && trace.order.take(
                    n,
                ).contains(id),
        decreases n,
    {
        self.calm_before(live, from, to, trace, n);
        if n > 0 {
            self.calm_walk(live, from, to, trace, n - 1);
            assert(self.sweeps_at(trace, n - 1));
            let id = trace.order[n - 1];
            assert(trace.order.contains(id));
            let before = self.live(trace, n - 1);
            let all = self.live(trace, n);
            let met = trace.order.take(n - 1);
            assert(trace.order.take(n) =~= met.push(id));
            assert forall|other: EntryId| #[trigger] all.contains(other) <==> live.contains(other)
                && trace.order.take(n).contains(other) by {
                assert(met.push(id)[n - 1] == id);
                if met.contains(other) {
                    let i = met.index_of(other);
                    assert(met.push(id)[i] == other);
                }
                if met.push(id).contains(other) && other != id {
                    let i = met.push(id).index_of(other);
                    assert(met[i] == other);
                }
                if before.contains(other) {
                    let i = before.index_of(other);
                    assert(all[i] == other);
                }
                if all.contains(other) {
                    let i = all.index_of(other);
                    if i < before.len() {
                        assert(before[i] == other);
                    } else {
                        assert(other == id);
                    }
                }
                if live.contains(id) {
                    assert(all[all.len() - 1] == id);
                }
            }
        } else {
            assert(trace.order.take(0) =~= Seq::empty());
        }
    }

    /// A walk over all entries, none of which expires meanwhile, finds those alive, each of them
    /// once; so their number is what `len` gives.
    pub proof fn calm_sweep(
        self,
        live: Set<EntryId>,
        from: spec_fn(P) -> bool,
        to: spec_fn(P) -> bool,
        trace: SweepTrace<P>,
        post: Self,
    )
        requires
            self.is_calm(live, from, to),
            self.sweeps(trace, post),
            to(post.policy),
        ensures
            to(self.policy),
            post.is_calm(live, from, to),
            live.finite(),
            self.all_live(trace).to_set() == live,
            self.all_live(trace).len() == live.len(),
    {
        let n = trace.order.len() as int;
        assert forall|id: EntryId| #[trigger] trace.order.contains(id) implies self.entries.contains_key(
            id,
        ) by {
            assert(trace.order.to_set().contains(id));
        }
        self.calm_before(live, from, to, trace, 0);
        self.calm_walk(live, from, to, trace, n);
        self.live_is_met(trace, n);
        assert(trace.order.take(n) =~= trace.order);
        let found = self.all_live(trace);
        assert(found.to_set() =~= live) by {
            assert forall|id: EntryId| live.contains(id) implies found.to_set().contains(id) by {
                assert(self.entries.contains_key(id));
                assert(trace.order.to_set().contains(id));
                assert(found.contains(id));
            }
            assert forall|id: EntryId| found.to_set().contains(id) implies live.contains(id) by {
                assert(found.contains(id));
            }
        }
        found.unique_seq_to_set();
        vstd::seq_lib::seq_to_set_is_finite(found);
    }

    /// Looks that end in a state that `to` accepts have been in such states all along.
    proof fn calm_looks_before(
        self,
        other: Self,
        trace: CompareTrace<K, V, P, H>,
        live: Set<EntryId>,
        from: spec_fn(P) -> bool,
        to: spec_fn(P) -> bool,
        n: int,
    )
        requires
            other.wf(),
            self.compares(other, trace),
            other.is_calm(live, from, to),
            to(trace.states.last().policy),
            0 <= n <= self.all_live(trace.sweep).len(),
        ensures
            to(trace.states[n].policy),
        decreases self.all_live(trace.sweep).len() - n,
    {
        if n < self.all_live(trace.sweep).len() {
            self.calm_looks_before(other, trace, live, from, to, n + 1);
            assert(self.compares_at(trace, n));
            self.stored_alike(other, trace, n);
            let key = self.entries[self.all_live(trace.sweep)[n]].key;
            if let Some(id) = trace.states[n].locate(key) {
                assert(trace.states[n].holds(id, key));
                assert(other.entries.contains_key(id));
            }
        }
    }

    /// The looks at another map change nothing that is kept of its entries but marks, and take no
    /// mark away.
    proof fn stored_alike(self, other: Self, trace: CompareTrace<K, V, P, H>, n: int)
        requires
            other.wf(),
            self.compares(other, trace),
            0 <= n <= self.all_live(trace.sweep).len(),
        ensures
            trace.states[n].wf(),
            trace.states[n].entries.dom() == other.entries.dom(),
            forall|id: EntryId| #[trigger]
                trace.states[n].entries.contains_key(id) ==> {
                    &&& trace.states[n].entries[id].storage.storage
                        == other.entries[id].storage.storage
                    &&& trace.states[n].entries[id].key == other.entries[id].key
                    &&& other.entries[id].storage.removed
                        ==> trace.states[n].entries[id].storage.removed
                },
        decreases n,
    {
        self.states_keep_keys(other, trace, n);
        if n > 0 {
            self.stored_alike(other, trace, n - 1);
            assert(self.compares_at(trace, n - 1));
            let before = trace.states[n - 1];
            let post = trace.states[n];
            before.told_keeps_wf(trace.accesses[n - 1].command);
            assert forall|id: EntryId| #[trigger] post.entries.contains_key(id) implies {
                &&& post.entries[id].storage.storage == other.entries[id].storage.storage
                &&& post.entries[id].key == other.entries[id].key
                &&& other.entries[id].storage.removed ==> post.entries[id].storage.removed
            } by {
                assert(before.entries.contains_key(id));
            }
        }
    }

    /// Before each look at another map of which no entry expires, those that are alive bear no
    /// mark.
    proof fn calm_looks(
        self,
        other: Self,
        trace: CompareTrace<K, V, P, H>,
        live: Set<EntryId>,
        from: spec_fn(P) -> bool,
        to: spec_fn(P) -> bool,
        n: int,
    )
        requires
            other.wf(),
            self.compares(other, trace),
            other.is_calm(live, from, to),
            to(trace.states.last().policy),
            0 <= n <= self.all_live(trace.sweep).len(),
        ensures
            from(trace.states[n].policy),
            to(trace.states[n].policy),
            forall|id: EntryId| #[trigger]
                live.contains(id) ==> trace.states[n].entries.contains_key(id)
                    && !trace.states[n].entries[id].storage.removed,
            n < self.all_live(trace.sweep).len() ==> self.is_matched(trace, n) == (
            trace.states[n].locate(self.entries[self.all_live(trace.sweep)[n]].key) matches Some(id)
                && live.contains(id)),
        decreases n,
    {
        let own = self.all_live(trace.sweep);
        self.calm_looks_before(other, trace, live, from, to, n);
        self.stored_alike(other, trace, n);
        if n > 0 {
            self.calm_looks(other, trace, live, from, to, n - 1);
            assert(self.compares_at(trace, n - 1));
            self.stored_alike(other, trace, n - 1);
            let before = trace.states[n - 1];
            let key = self.entries[own[n - 1]].key;
            if let Some(id) = before.locate(key) {
                assert(before.holds(id, key));
                assert(other.entries.contains_key(id));
                before.told_keeps_wf(trace.accesses[n - 1].command);
            }
            assert forall|id: EntryId| #[trigger] live.contains(id) implies
                trace.states[n].entries.contains_key(id)
                && !trace.states[n].entries[id].storage.removed by {
                assert(other.entries.contains_key(id));
                assert(before.entries.contains_key(id));
                if before.locate(key) is Some {
                    assert(!trace.accesses[n - 1].command.lists(id));
                }
            }
        } else {
            assert forall|id: EntryId| #[trigger] live.contains(id) implies
                trace.states[n].entries.contains_key(id)
                && !trace.states[n].entries[id].storage.removed by {
                assert(other.entries.contains_key(id));
            }
        }
        if n < own.len() {
            self.calm_looks_before(other, trace, live, from, to, n + 1);
            assert(self.compares_at(trace, n));
            let state = trace.states[n];
            let key = self.entries[own[n]].key;
            if let Some(id) = state.locate(key) {
                assert(state.holds(id, key));
                assert(other.entries.contains_key(id));
                assert(state.entries.contains_key(id));
                let access = trace.accesses[n];
                if live.contains(id) {
                    assert(!access.command.lists(id));
                }
            }
        }
    }

    /// The key of this entry compares equal to one of `other` that is alive there.
    pub open spec fn is_in(self, id: EntryId, other: Self, other_live: Set<EntryId>) -> bool {
        exists|there: EntryId| #[trigger]
            other_live.contains(there) && self.entries[id].key.eq_spec(&other.entries[there].key)
    }

    /// In a comparison of maps of which no entry expires, an entry is matched if and only if the
    /// other map has one that is alive and compares equal.
    proof fn calm_match(
        self,
        other: Self,
        trace: CompareTrace<K, V, P, H>,
        live: Set<EntryId>,
        from: spec_fn(P) -> bool,
        to: spec_fn(P) -> bool,
        n: int,
    )
        requires
            other.wf(),
            crate::hash::hash_follows::<K, H>(other.hash_builder),
            self.compares(other, trace),
            other.is_calm(live, from, to),
            to(trace.states.last().policy),
            0 <= n < self.all_live(trace.sweep).len(),
        ensures
            self.is_matched(trace, n) <==> self.is_in(self.all_live(trace.sweep)[n], other, live),
    {
        let id = self.all_live(trace.sweep)[n];
        let key = self.entries[id].key;
        self.calm_looks(other, trace, live, from, to, n);
        self.stored_alike(other, trace, n);
        if self.is_matched(trace, n) {
            let there = trace.states[n].locate(key).unwrap();
            assert(live.contains(there));
            assert(other.entries.contains_key(there));
            self.look_meets(other, trace, n, there);
        }
        if self.is_in(id, other, live) {
            let there = choose|there: EntryId| #[trigger]
                live.contains(there) && key.eq_spec(&other.entries[there].key);
            assert(other.entries.contains_key(there));
            self.look_meets(other, trace, n, there);
        }
    }

    /// Where more entries are alive here than there, one of them has no equal there.
    proof fn too_many(self, live: Set<EntryId>, other: Self, other_live: Set<EntryId>)
        requires
            self.wf(),
            crate::hash::hash_follows::<K, H>(self.hash_builder),
            live.subset_of(self.entries.dom()),
            live.finite(),
            other_live.finite(),
            live.len() > other_live.len(),
        ensures
            !(forall|id: EntryId| #[trigger]
                live.contains(id) ==> self.is_in(id, other, other_live)),
    {
        if forall|id: EntryId| #[trigger] live.contains(id) ==> self.is_in(id, other, other_live) {
            let equal = |id: EntryId|
                choose|there: EntryId| #[trigger]
                    other_live.contains(there) && self.entries[id].key.eq_spec(
                        &other.entries[there].key,
                    );
            assert forall|a: EntryId, b: EntryId|
                live.contains(a) && live.contains(b) && #[trigger] equal(a) == #[trigger] equal(
                    b,
                ) implies a == b by {
                assert(self.is_in(a, other, other_live) && self.is_in(b, other, other_live));
                let there = other.entries[equal(a)].key;
                let (x, y) = (self.entries[a].key, self.entries[b].key);
                assert(x.eq_spec(&there) && y.eq_spec(&there));
                assert(there.eq_spec(&y));
                assert(x.eq_spec(&y));
                assert(self.entries.contains_key(a) && self.entries.contains_key(b));
            }
            let image = live.map(equal);
            vstd::set_lib::lemma_map_size(live, image, equal);
            assert(image.subset_of(other_live)) by {
                assert forall|there: EntryId| image.contains(there) implies other_live.contains(
                    there,
                ) by {
                    let id = choose|id: EntryId| live.contains(id) && there == equal(id);
                    assert(self.is_in(id, other, other_live));
                }
            }
            vstd::set_lib::lemma_len_subset(image, other_live);
        }
    }

    /// The entries alive, in a comparison with another map, that are picked.
    proof fn calm_picks(
        self,
        other: Self,
        trace: CompareTrace<K, V, P, H>,
        live: Set<EntryId>,
        from: spec_fn(P) -> bool,
        to: spec_fn(P) -> bool,
        other_live: Set<EntryId>,
        other_from: spec_fn(P) -> bool,
        other_to: spec_fn(P) -> bool,
        wanted: bool,
        id: EntryId,
    )
        requires
            other.wf(),
            crate::hash::hash_follows::<K, H>(other.hash_builder),
            self.compares(other, trace),
            self.is_calm(live, from, to),
            other.is_calm(other_live, other_from, other_to),
            to(trace.sweep.policies.last()),
            other_to(trace.states.last().policy),
        ensures
            self.all_picks(trace, wanted).contains(id) <==> trace.sweep.order.contains(id)
                && live.contains(id) && self.is_in(id, other, other_live) == wanted,
    {
        let own = self.all_live(trace.sweep);
        let n = trace.sweep.order.len() as int;
        self.calm_walk(live, from, to, trace.sweep, n);
        assert(trace.sweep.order.take(n) =~= trace.sweep.order);
        self.picks_are_wanted(trace, wanted, own.len() as int, id);
        if self.all_picks(trace, wanted).contains(id) {
            let i = choose|i: int|
                0 <= i < own.len() && #[trigger] own[i] == id && self.is_matched(trace, i) == wanted;
            self.calm_match(other, trace, other_live, other_from, other_to, i);
            assert(own.contains(id));
        }
        if trace.sweep.order.contains(id) && live.contains(id) && self.is_in(id, other, other_live)
            == wanted {
            assert(own.contains(id));
            let i = own.index_of(id);
            self.calm_match(other, trace, other_live, other_from, other_to, i);
            assert(own[i] == id && self.is_matched(trace, i) == wanted);
        }
    }

    /// Where no entry of either map expires, a comparison that stops at the first entry that is
    /// wanted finds one if and only if one of those alive has an equal that is alive in the other
    /// map, or has none, as is wanted.
    pub proof fn comparison_is_right(
        self,
        other: Self,
        trace: CompareTrace<K, V, P, H>,
        wanted: bool,
        live: Set<EntryId>,
        from: spec_fn(P) -> bool,
        to: spec_fn(P) -> bool,
        other_live: Set<EntryId>,
        other_from: spec_fn(P) -> bool,
        other_to: spec_fn(P) -> bool,
    )
        requires
            other.wf(),
            crate::hash::hash_follows::<K, H>(other.hash_builder),
            self.compares(other, trace),
            self.compares_until(trace, wanted),
            self.is_calm(live, from, to),
            other.is_calm(other_live, other_from, other_to),
            to(trace.sweep.policies.last()),
            other_to(trace.states.last().policy),
        ensures
            self.all_picks(trace, wanted).len() > 0 <==> exists|id: EntryId| #[trigger]
                live.contains(id) && self.is_in(id, other, other_live) == wanted,
    {
        let picks = self.all_picks(trace, wanted);
        if picks.len() > 0 {
            assert(picks.contains(picks[0]));
            self.calm_picks(
                other,
                trace,
                live,
                from,
                to,
                other_live,
                other_from,
                other_to,
                wanted,
                picks[0],
            );
        } else if exists|id: EntryId| #[trigger]
            live.contains(id) && self.is_in(id, other, other_live) == wanted {
            let id = choose|id: EntryId| #[trigger]
                live.contains(id) && self.is_in(id, other, other_live) == wanted;
            assert(self.entries.contains_key(id));
            assert(trace.sweep.order.to_set().contains(id));
            self.calm_picks(
                other,
                trace,
                live,
                from,
                to,
                other_live,
                other_from,
                other_to,
                wanted,
                id,
            );
            assert(picks.contains(id));
        }
    }

    /// Where no entry of either map expires, nothing expires between the walk over the one and the
    /// looks at it.
    pub proof fn calm_agrees(
        self,
        other: Self,
        sweep: SweepTrace<P>,
        trace: CompareTrace<K, V, P, H>,
        post: Self,
        other_post: Self,
        other_live: Set<EntryId>,
        other_from: spec_fn(P) -> bool,
        other_to: spec_fn(P) -> bool,
    )
        requires
            other.wf(),
            self.unites(other, sweep, trace, post, other_post),
            other.is_calm(other_live, other_from, other_to),
            other_to(other_post.policy),
        ensures
            self.agrees(other, sweep, trace),
    {
        let swept = other.with_policy(sweep.policies.last());
        let own = self.all_live(trace.sweep);
        assert(swept.wf());
        assert(swept.entries == other.entries);
        other.calm_last(sweep, swept, other_live, other_from, other_to, self, trace);
        let found = other.all_live(sweep);
        assert forall|i: int| 0 <= i < own.len() implies (#[trigger] self.is_matched(trace, i) == (
        trace.states[i].locate(self.entries[own[i]].key) matches Some(id) && found.contains(
            id,
        ))) by {
            self.calm_looks(swept, trace, other_live, other_from, other_to, i);
            if let Some(id) = trace.states[i].locate(self.entries[own[i]].key) {
                assert(found.to_set().contains(id) == other_live.contains(id));
            }
        }
    }

    /// A walk over this map, followed by looks at it that end in a state that `to` accepts.
    proof fn calm_last(
        self,
        sweep: SweepTrace<P>,
        swept: Self,
        live: Set<EntryId>,
        from: spec_fn(P) -> bool,
        to: spec_fn(P) -> bool,
        walked: Self,
        trace: CompareTrace<K, V, P, H>,
    )
        requires
            self.wf(),
            self.is_calm(live, from, to),
            self.sweeps(sweep, swept),
            walked.compares(swept, trace),
            to(trace.states.last().policy),
        ensures
            swept.is_calm(live, from, to),
            to(swept.policy),
            self.all_live(sweep).to_set() == live,
    {
        assert(swept.is_calm_back(live, from, to));
        walked.calm_back(swept, trace, live, from, to, 0);
        self.calm_sweep(live, from, to, sweep, swept);
    }

    /// What `is_calm` says of how the policy goes back.
    spec fn is_calm_back(
        self,
        live: Set<EntryId>,
        from: spec_fn(P) -> bool,
        to: spec_fn(P) -> bool,
    ) -> bool {
        &&& forall|p: P, id: EntryId, q: P, expired: bool|
            self.entries.contains_key(id) && #[trigger] P::judges(
                p,
                id,
                self.entries[id].storage.storage,
                q,
                expired,
            ) && to(q) ==> to(p)
        &&& forall|p: P, id: EntryId, q: P, command: Command|
            self.entries.contains_key(id) && #[trigger] P::accessed(
                p,
                id,
                self.entries[id].storage.storage,
                q,
                command,
            ) && to(q) ==> to(p)
    }

    /// A walk that ends in a state that `to` accepts has been in such states all along.
    proof fn calm_walk_back(
        self,
        live: Set<EntryId>,
        from: spec_fn(P) -> bool,
        to: spec_fn(P) -> bool,
        sweep: SweepTrace<P>,
        n: int,
    )
        requires
            self.is_calm_back(live, from, to),
            self.sweeps_part(sweep),
            forall|id: EntryId| #[trigger] sweep.order.contains(id) ==> self.entries.contains_key(id),
            to(sweep.policies.last()),
            0 <= n <= sweep.order.len(),
        ensures
            to(sweep.policies[n]),
        decreases sweep.order.len() - n,
    {
        if n < sweep.order.len() {
            self.calm_walk_back(live, from, to, sweep, n + 1);
            assert(self.sweeps_at(sweep, n));
            assert(sweep.order.contains(sweep.order[n]));
        }
    }

    /// The looks at another map of which no entry expires leave it so.
    proof fn calm_after(
        self,
        other: Self,
        trace: CompareTrace<K, V, P, H>,
        live: Set<EntryId>,
        from: spec_fn(P) -> bool,
        to: spec_fn(P) -> bool,
    )
        requires
            other.wf(),
            self.compares(other, trace),
            other.is_calm(live, from, to),
        ensures
            trace.states.last().is_calm_back(live, from, to),
            to(trace.states.last().policy) ==> trace.states.last().is_calm(live, from, to),
    {
        let n = self.all_live(trace.sweep).len() as int;
        let post = trace.states.last();
        self.stored_alike(other, trace, n);
        assert(post == trace.states[n]);
        assert forall|p: P, id: EntryId, q: P, expired: bool|
            post.entries.contains_key(id) && #[trigger] P::judges(
                p,
                id,
                post.entries[id].storage.storage,
                q,
                expired,
            ) && to(q) implies to(p) && (from(p) ==> from(q) && (expired == !live.contains(id)
            || post.entries[id].storage.removed)) by {
            assert(other.entries.contains_key(id));
            assert(P::judges(p, id, other.entries[id].storage.storage, q, expired));
        }
        assert forall|p: P, id: EntryId, q: P, command: Command|
            post.entries.contains_key(id) && #[trigger] P::accessed(
                p,
                id,
                post.entries[id].storage.storage,
                q,
                command,
            ) && to(q) implies to(p) && (from(p) ==> from(q) && forall|there: EntryId|
            live.contains(there) ==> !#[trigger] command.lists(there)) by {
            assert(other.entries.contains_key(id));
            assert(P::accessed(p, id, other.entries[id].storage.storage, q, command));
        }
        if to(post.policy) {
            self.calm_looks(other, trace, live, from, to, n);
        }
    }

    /// Where no entry of either map expires, those that are picked in a comparison of all entries
    /// are those alive that have an equal that is alive in the other map, or have none, as is
    /// wanted, each of them once.
    pub proof fn picks_are_right(
        self,
        other: Self,
        trace: CompareTrace<K, V, P, H>,
        post: Self,
        other_post: Self,
        wanted: bool,
        live: Set<EntryId>,
        from: spec_fn(P) -> bool,
        to: spec_fn(P) -> bool,
        other_live: Set<EntryId>,
        other_from: spec_fn(P) -> bool,
        other_to: spec_fn(P) -> bool,
    )
        requires
            other.wf(),
            crate::hash::hash_follows::<K, H>(other.hash_builder),
            self.compares_fully(other, trace, post, other_post),
            self.is_calm(live, from, to),
            other.is_calm(other_live, other_from, other_to),
            to(post.policy),
            other_to(other_post.policy),
        ensures
            self.all_picks(trace, wanted).no_duplicates(),
            forall|id: EntryId| #[trigger]
                self.all_picks(trace, wanted).contains(id) <==> live.contains(id) && self.is_in(
                    id,
                    other,
                    other_live,
                ) == wanted,
    {
        self.picks_are_apart(other, trace, wanted, self.all_live(trace.sweep).len() as int);
        assert forall|id: EntryId| #[trigger]
            self.all_picks(trace, wanted).contains(id) <==> live.contains(id) && self.is_in(
                id,
                other,
                other_live,
            ) == wanted by {
            self.calm_picks(
                other,
                trace,
                live,
                from,
                to,
                other_live,
                other_from,
                other_to,
                wanted,
                id,
            );
            if live.contains(id) {
                assert(self.entries.contains_key(id));
                assert(trace.sweep.order.to_set().contains(id));
            }
        }
    }

    /// Looks that end in a state that `to` accepts have been in such states all along.
    proof fn calm_back(
        self,
        other: Self,
        trace: CompareTrace<K, V, P, H>,
        live: Set<EntryId>,
        from: spec_fn(P) -> bool,
        to: spec_fn(P) -> bool,
        n: int,
    )
        requires
            other.wf(),
            self.compares(other, trace),
            other.is_calm_back(live, from, to),
            to(trace.states.last().policy),
            0 <= n <= self.all_live(trace.sweep).len(),
        ensures
            to(trace.states[n].policy),
        decreases self.all_live(trace.sweep).len() - n,
    {
        if n < self.all_live(trace.sweep).len() {
            self.calm_back(other, trace, live, from, to, n + 1);
            assert(self.compares_at(trace, n));
            self.stored_alike(other, trace, n);
            let key = self.entries[self.all_live(trace.sweep)[n]].key;
            if let Some(id) = trace.states[n].locate(key) {
                assert(trace.states[n].holds(id, key));
                assert(other.entries.contains_key(id));
            }
        }
    }
}

impl<T: Eq, P: ExpirePolicy, H> MapModel<T, (), P, H> {
    /// Where no member of either set expires during the call, the answer is that this set is a
    /// subset of the other if and only if each of its members that is alive has an equal that is
    /// alive in the other, whatever the sizes.
    pub proof fn subset_is_right(
        self,
        other: Self,
        post: Self,
        other_post: Self,
        subset: bool,
        live: Set<EntryId>,
        from: spec_fn(P) -> bool,
        to: spec_fn(P) -> bool,
        other_live: Set<EntryId>,
        other_from: spec_fn(P) -> bool,
        other_to: spec_fn(P) -> bool,
    )
        requires
            self.wf(),
            other.wf(),
            crate::hash::hash_follows::<T, H>(self.hash_builder),
            crate::hash::hash_follows::<T, H>(other.hash_builder),
            self.is_subset_of(other, post, other_post, subset),
            self.is_calm(live, from, to),
            other.is_calm(other_live, other_from, other_to),
            to(post.policy),
            other_to(other_post.policy),
        ensures
            subset <==> forall|id: EntryId| #[trigger]
                live.contains(id) ==> self.is_in(id, other, other_live),
    {
        let sizes = choose|sizes: SizesTrace<T, P, H>| #[trigger]
            sizes.measure(self, other) && if sizes.is_first_smaller() {
                exists|trace: CompareTrace<T, (), P, H>| #[trigger]
                    sizes.first.compares(sizes.second, trace) && {
                        &&& sizes.first.compares_until(trace, false)
                        &&& post == sizes.first.with_policy(trace.sweep.policies.last())
                        &&& other_post == trace.states.last()
                        &&& subset == (sizes.first.all_picks(trace, false).len() == 0)
                    }
            } else {
                &&& post == sizes.first
                &&& other_post == sizes.second
                &&& !subset
            };
        if sizes.is_first_smaller() {
            let trace = choose|trace: CompareTrace<T, (), P, H>| #[trigger]
                sizes.first.compares(sizes.second, trace) && {
                    &&& sizes.first.compares_until(trace, false)
                    &&& post == sizes.first.with_policy(trace.sweep.policies.last())
                    &&& other_post == trace.states.last()
                    &&& subset == (sizes.first.all_picks(trace, false).len() == 0)
                };
            other.calm_last(
                sizes.second_sweep,
                sizes.second,
                other_live,
                other_from,
                other_to,
                sizes.first,
                trace,
            );
            assert(sizes.first.is_calm_back(live, from, to));
            sizes.first.calm_walk_back(live, from, to, trace.sweep, 0);
            self.calm_sweep(live, from, to, sizes.first_sweep, sizes.first);
            sizes.first.comparison_is_right(
                sizes.second,
                trace,
                false,
                live,
                from,
                to,
                other_live,
                other_from,
                other_to,
            );
            assert forall|id: EntryId| #[trigger]
                live.contains(id) implies sizes.first.is_in(id, sizes.second, other_live)
                == self.is_in(id, other, other_live) by {
                sizes.first.in_alike(self, id, sizes.second, other, other_live);
            }
        } else {
            self.calm_sweep(live, from, to, sizes.first_sweep, sizes.first);
            other.calm_sweep(other_live, other_from, other_to, sizes.second_sweep, sizes.second);
            self.too_many(live, other, other_live);
        }
    }

    /// To be in a set rests on the members alone.
    proof fn in_alike(
        self,
        same: Self,
        id: EntryId,
        other: Self,
        other_same: Self,
        other_live: Set<EntryId>,
    )
        requires
            self.entries[id].key == same.entries[id].key,
            other.entries == other_same.entries,
        ensures
            self.is_in(id, other, other_live) == same.is_in(id, other_same, other_live),
    {
        if self.is_in(id, other, other_live) {
            let there = choose|there: EntryId| #[trigger]
                other_live.contains(there) && self.entries[id].key.eq_spec(
                    &other.entries[there].key,
                );
            assert(other_live.contains(there) && same.entries[id].key.eq_spec(
                &other_same.entries[there].key,
            ));
        }
        if same.is_in(id, other_same, other_live) {
            let there = choose|there: EntryId| #[trigger]
                other_live.contains(there) && same.entries[id].key.eq_spec(
                    &other_same.entries[there].key,
                );
            assert(other_live.contains(there) && self.entries[id].key.eq_spec(
                &other.entries[there].key,
            ));
        }
    }
}

impl<T: Eq, P: ExpirePolicy, H> TwoWalks<T, P, H> {
    /// Where no member of either set expires meanwhile, a walk over the members that are in one of
    /// two sets, from the first step to the last, hands out all of the larger set that are alive,
    /// and those of the smaller set that are alive and have no equal among them, each of them
    /// once.
    pub proof fn union_is_right(
        walks: Seq<Self>,
        traces: Seq<UnionTrace<T, P, H>>,
        members: Seq<T>,
        live: Set<EntryId>,
        from: spec_fn(P) -> bool,
        to: spec_fn(P) -> bool,
        other_live: Set<EntryId>,
        other_from: spec_fn(P) -> bool,
        other_to: spec_fn(P) -> bool,
    ) -> (ids: (Seq<EntryId>, Seq<EntryId>))
        requires
            Self::unite(walks, traces, members),
            walks[0].first.wf(),
            walks[0].second.wf(),
            walks[0].first.lists_all(walks[0].first_rest),
            walks[0].second.lists_all(walks[0].second_rest),
            crate::hash::hash_follows::<T, H>(walks[0].first.hash_builder),
            walks[0].first.is_calm(live, from, to),
            walks[0].second.is_calm(other_live, other_from, other_to),
            to(walks.last().first.policy),
            other_to(walks.last().second.policy),
        ensures
            ({
                let (larger, smaller) = (walks[0].first, walks[0].second);
                &&& members == larger.keys_of(ids.0) + smaller.keys_of(ids.1)
                &&& ids.0.no_duplicates()
                &&& ids.1.no_duplicates()
                &&& forall|id: EntryId| #[trigger] ids.0.contains(id) <==> live.contains(id)
                &&& forall|id: EntryId| #[trigger]
                    ids.1.contains(id) <==> other_live.contains(id) && !smaller.is_in(
                        id,
                        larger,
                        live,
                    )
            }),
    {
        let (larger, smaller) = (walks[0].first, walks[0].second);
        let (sweep, trace) = Self::full_walk_unites(walks, traces, members);
        let swept = larger.with_policy(sweep.policies.last());
        larger.calm_last(sweep, swept, live, from, to, smaller, trace);
        larger.live_is_met(sweep, sweep.order.len() as int);
        smaller.picks_are_right(
            swept,
            trace,
            walks.last().second,
            walks.last().first,
            false,
            other_live,
            other_from,
            other_to,
            live,
            from,
            to,
        );
        let ids = (larger.all_live(sweep), smaller.all_picks(trace, false));
        assert forall|id: EntryId| #[trigger] ids.0.contains(id) <==> live.contains(id) by {
            assert(ids.0.to_set().contains(id) <==> live.contains(id));
        }
        assert forall|id: EntryId| #[trigger]
            ids.1.contains(id) <==> other_live.contains(id) && !smaller.is_in(id, larger, live) by {
            smaller.in_alike(smaller, id, swept, larger, live);
        }
        ids
    }

    /// Where no member of either set expires meanwhile, a walk over the members that are in one of
    /// two sets, but not in both, from the first step to the last, hands out those of each set that
    /// are alive and have no equal that is alive in the other, each of them once.
    pub proof fn symmetric_difference_is_right(
        walks: Seq<Self>,
        traces: Seq<SymmetricTrace<T, P, H>>,
        members: Seq<T>,
        live: Set<EntryId>,
        from: spec_fn(P) -> bool,
        to: spec_fn(P) -> bool,
        other_live: Set<EntryId>,
        other_from: spec_fn(P) -> bool,
        other_to: spec_fn(P) -> bool,
    ) -> (ids: (Seq<EntryId>, Seq<EntryId>))
        requires
            Self::differ(walks, traces, members),
            walks[0].first.wf(),
            walks[0].second.wf(),
            walks[0].first.lists_all(walks[0].first_rest),
            walks[0].second.lists_all(walks[0].second_rest),
            crate::hash::hash_follows::<T, H>(walks[0].first.hash_builder),
            crate::hash::hash_follows::<T, H>(walks[0].second.hash_builder),
            walks[0].first.is_calm(live, from, to),
            walks[0].second.is_calm(other_live, other_from, other_to),
            to(walks.last().first.policy),
            other_to(walks.last().second.policy),
        ensures
            ({
                let (first, second) = (walks[0].first, walks[0].second);
                &&& members == first.keys_of(ids.0) + second.keys_of(ids.1)
                &&& ids.0.no_duplicates()
                &&& ids.1.no_duplicates()
                &&& forall|id: EntryId| #[trigger]
                    ids.0.contains(id) <==> live.contains(id) && !first.is_in(
                        id,
                        second,
                        other_live,
                    )
                &&& forall|id: EntryId| #[trigger]
                    ids.1.contains(id) <==> other_live.contains(id) && !second.is_in(
                        id,
                        first,
                        live,
                    )
            }),
    {
        let (first, second) = (walks[0].first, walks[0].second);
        let (there, seen, looked_at, back) = Self::full_walk_differs(walks, traces, members);
        let n = first.all_live(there.sweep).len() as int;
        first.stored_alike(second, there, n);
        first.calm_after(second, there, other_live, other_from, other_to);
        looked_at.calm_walk_back(other_live, other_from, other_to, back.sweep, 0);
        assert(seen.is_calm_back(live, from, to));
        looked_at.calm_back(seen, back, live, from, to, 0);
        first.calm_walk(live, from, to, there.sweep, there.sweep.order.len() as int);
        assert(seen.is_calm(live, from, to));
        first.picks_are_right(
            second,
            there,
            seen,
            looked_at,
            false,
            live,
            from,
            to,
            other_live,
            other_from,
            other_to,
        );
        looked_at.picks_are_right(
            seen,
            back,
            walks.last().second,
            walks.last().first,
            false,
            other_live,
            other_from,
            other_to,
            live,
            from,
            to,
        );
        let ids = (first.all_picks(there, false), looked_at.all_picks(back, false));
        looked_at.picks_are_entries(seen, back, false, looked_at.all_live(back.sweep).len() as int);
        assert(looked_at.keys_of(ids.1) =~= second.keys_of(ids.1)) by {
            assert forall|i: int| 0 <= i < ids.1.len() implies looked_at.entries[
                #[trigger] ids.1[i]
            ].key == second.entries[ids.1[i]].key by {
                assert(looked_at.entries.contains_key(ids.1[i]));
            }
        }
        assert forall|id: EntryId| #[trigger]
            ids.1.contains(id) <==> other_live.contains(id) && !second.is_in(id, first, live) by {
            if other_live.contains(id) {
                assert(second.entries.contains_key(id));
                assert(looked_at.entries.contains_key(id));
                looked_at.in_alike(second, id, seen, first, live);
            }
        }
        ids
    }
}

impl<T: Eq, P: ExpirePolicy, H> PickTrace<T, P, H> {
    /// Where no member of either set expires meanwhile, a walk over the members of a set that are
    /// in another, or are not, as `wanted` says, from the first step to the last, hands out those
    /// that are alive and have an equal that is alive in the other, or have none, each of them
    /// once.
    pub proof fn walk_is_right(
        set: SetModel<T, P, H>,
        items: Seq<Item<T, (), P::Storage>>,
        other: SetModel<T, P, H>,
        picks: Seq<Self>,
        wanted: bool,
        members: Seq<T>,
        live: Set<EntryId>,
        from: spec_fn(P) -> bool,
        to: spec_fn(P) -> bool,
        other_live: Set<EntryId>,
        other_from: spec_fn(P) -> bool,
        other_to: spec_fn(P) -> bool,
    ) -> (ids: Seq<EntryId>)
        requires
            set.wf(),
            other.wf(),
            set.lists_all(items),
            crate::hash::hash_follows::<T, H>(other.hash_builder),
            Self::walk(picks, wanted, members, items, set.policy, other),
            set.is_calm(live, from, to),
            other.is_calm(other_live, other_from, other_to),
            to(picks.last().policies.last()),
            other_to(picks.last().states.last().policy),
        ensures
            members == set.keys_of(ids),
            ids.no_duplicates(),
            forall|id: EntryId| #[trigger]
                ids.contains(id) <==> live.contains(id) && set.is_in(id, other, other_live)
                    == wanted,
    {
        let trace = Self::full_walk_picks(set, items, other, picks, wanted, members);
        set.picks_are_right(
            other,
            trace,
            set.with_policy(picks.last().policies.last()),
            picks.last().states.last(),
            wanted,
            live,
            from,
            to,
            other_live,
            other_from,
            other_to,
        );
        set.all_picks(trace, wanted)
    }
}

} // verus!
