//! The hash index: pairs of a hash and a bucket number, held in a `hashbrown` raw table.
//!
//! A pair is always filed under its own hash, so the raw table can be rebuilt from the pairs
//! alone.
//!
//! Beside the pairs stand two readings of the raw table: how many pairs it takes without getting
//! more memory, and how many slots it has memory for. They are taken again in each call that can
//! change them, so they are always those of the table as it is.
use hashbrown::raw::RawTable;
use vstd::multiset::Multiset;
use vstd::prelude::*;

verus! {

/// A `hashbrown::raw::RawTable` of `(hash, bucket)` pairs.
#[verifier::external_body]
pub struct Pairs {
    table: RawTable<(u64, usize)>,
}

/// The pairs that a raw table holds.
pub uninterp spec fn indexed(pairs: Pairs) -> Multiset<(u64, usize)>;

/// The pairs, and what their table has memory for.
pub struct HashIndex {
    pairs: Pairs,
    room: usize,
    slots: usize,
}

impl View for HashIndex {
    type V = Multiset<(u64, usize)>;

    /// The pairs that the index holds.
    open spec fn view(&self) -> Multiset<(u64, usize)> {
        indexed(self.pairs())
    }
}

impl HashIndex {
    /// The raw table.
    pub closed spec fn pairs(&self) -> Pairs {
        self.pairs
    }

    /// How many pairs there can be before more memory is got, those among them that are there.
    pub closed spec fn room(&self) -> nat {
        self.room as nat
    }

    /// How many slots there is memory for.
    pub closed spec fn slots(&self) -> nat {
        self.slots as nat
    }

    /// `RawTable::new`: an index that holds nothing and has no memory. It reports one slot,
    /// which stands for none, and no room.
    #[verifier::external_body]
    pub(crate) fn new() -> (index: HashIndex)
        ensures
            indexed(index.pairs()) == Multiset::<(u64, usize)>::empty(),
            index.room() == 0,
            index.slots() == 1,
    {
        let table = RawTable::new();
        let (room, slots) = (table.capacity(), table.buckets());
        HashIndex { pairs: Pairs { table }, room, slots }
    }

    /// `RawTable::with_capacity`: an index that holds nothing, with room for `capacity` pairs and
    /// for a bounded number more.
    ///
    /// A table for this many pairs can always be described: a large one has fewer than seven slots
    /// to three pairs, and seventeen bytes to a slot. That the allocator has the memory is taken for
    /// granted, as it is for `Vec::with_capacity`.
    #[verifier::external_body]
    pub(crate) fn with_capacity(capacity: usize) -> (index: HashIndex)
        requires
            capacity < usize::MAX / 79,
        ensures
            indexed(index.pairs()) == Multiset::<(u64, usize)>::empty(),
            capacity <= index.room() <= 2 * capacity + 7,
    {
        let table = RawTable::with_capacity(capacity);
        let (room, slots) = (table.capacity(), table.buckets());
        HashIndex { pairs: Pairs { table }, room, slots }
    }

    /// `RawTable::get`: a pair of the index that `eq` accepts. `None` says that `eq` accepts no
    /// pair that is filed under `hash`.
    #[verifier::external_body]
    pub(crate) fn get<F: Fn(&(u64, usize)) -> bool>(&self, hash: u64, eq: F) -> (found: Option<
        (u64, usize),
    >)
        requires
            forall|e: (u64, usize)| self@.count(e) > 0 ==> call_requires(eq, (&e,)),
        ensures
            match found {
                Some(e) => indexed(self.pairs()).count(e) > 0 && call_ensures(eq, (&e,), true),
                None => forall|e: (u64, usize)|
                    indexed(self.pairs()).count(e) > 0 && e.0 == hash ==> call_ensures(
                        eq,
                        (&e,),
                        false,
                    ),
            },
    {
        self.pairs.table.get(hash, eq).copied()
    }

    /// `RawTable::remove_entry`: takes a pair that `eq` accepts out of the index. `None` says
    /// that `eq` accepts no pair that is filed under `hash`, and nothing was taken out. The slots
    /// stay; the one that falls empty may have to stay out of use for now, which leaves room for
    /// one pair less.
    #[verifier::external_body]
    pub(crate) fn remove_entry<F: Fn(&(u64, usize)) -> bool>(
        &mut self,
        hash: u64,
        eq: F,
    ) -> (found: Option<(u64, usize)>)
        requires
            forall|e: (u64, usize)| old(self)@.count(e) > 0 ==> call_requires(eq, (&e,)),
        ensures
            final(self).slots() == old(self).slots(),
            match found {
                Some(e) => {
                    &&& indexed(old(self).pairs()).count(e) > 0
                    &&& call_ensures(eq, (&e,), true)
                    &&& indexed(final(self).pairs()) == indexed(old(self).pairs()).remove(e)
                    &&& final(self).room() <= old(self).room() <= final(self).room() + 1
                },
                None => {
                    &&& forall|e: (u64, usize)|
                        indexed(old(self).pairs()).count(e) > 0 && e.0 == hash ==> call_ensures(
                            eq,
                            (&e,),
                            false,
                        )
                    &&& indexed(final(self).pairs()) == indexed(old(self).pairs())
                    &&& final(self).room() == old(self).room()
                },
            },
            indexed(final(self).pairs()).len() <= final(self).room(),
    {
        let found = self.pairs.table.remove_entry(hash, eq);
        (self.room, self.slots) = (self.pairs.table.capacity(), self.pairs.table.buckets());
        found
    }

    /// `RawTable::try_insert_no_grow`: files the pair under its hash, or returns `false` and
    /// leaves the index as it was. It always files the pair where there is room for one more,
    /// and gets no memory for it; a slot that had to stay out of use may come into use again,
    /// which makes room for one pair more.
    ///
    /// Whether such a slot is met rests on the order of the hashes, so nothing is said of when a
    /// pair is filed though there is no room left.
    #[verifier::external_body]
    pub(crate) fn try_insert_no_grow(&mut self, pair: (u64, usize)) -> (inserted: bool)
        ensures
            indexed(old(self).pairs()).len() < old(self).room() ==> inserted,
            final(self).slots() == old(self).slots(),
            inserted ==> {
                &&& indexed(final(self).pairs()) == indexed(old(self).pairs()).insert(pair)
                &&& old(self).room() <= final(self).room() <= old(self).room() + 1
                &&& indexed(final(self).pairs()).len() <= final(self).room()
            },
            !inserted ==> {
                &&& indexed(final(self).pairs()) == indexed(old(self).pairs())
                &&& final(self).room() == old(self).room()
            },
    {
        let inserted = self.pairs.table.try_insert_no_grow(pair.0, pair).is_ok();
        (self.room, self.slots) = (self.pairs.table.capacity(), self.pairs.table.buckets());
        inserted
    }

    /// `RawTable::insert`: files the pair under its hash, in a larger table if need be. The room
    /// does not become less, and where there is room for one more pair, no memory is got.
    ///
    /// A table of this many pairs can always be described: a large one that has grown has fewer
    /// than five slots to a pair, and seventeen bytes to a slot. That the allocator has the memory is
    /// taken for granted, as it is for `Vec::push`.
    #[verifier::external_body]
    pub(crate) fn insert(&mut self, pair: (u64, usize))
        requires
            old(self)@.len() < usize::MAX / 160,
        ensures
            indexed(final(self).pairs()) == indexed(old(self).pairs()).insert(pair),
            old(self).room() <= final(self).room(),
            old(self).slots() <= final(self).slots(),
            indexed(final(self).pairs()).len() <= final(self).room(),
            indexed(old(self).pairs()).len() < old(self).room() ==> final(self).slots()
                == old(self).slots(),
    {
        self.pairs.table.insert(pair.0, pair, |e| e.0);
        (self.room, self.slots) = (self.pairs.table.capacity(), self.pairs.table.buckets());
    }

    /// `RawTable::clear`: takes every pair out and keeps the memory. The room is that of all
    /// slots then, which may be more than it was.
    #[verifier::external_body]
    pub(crate) fn clear(&mut self)
        ensures
            indexed(final(self).pairs()) == Multiset::<(u64, usize)>::empty(),
            old(self).room() <= final(self).room(),
            final(self).slots() == old(self).slots(),
    {
        self.pairs.table.clear();
        (self.room, self.slots) = (self.pairs.table.capacity(), self.pairs.table.buckets());
    }

    /// `RawTable::len`: the number of pairs.
    #[verifier::external_body]
    pub(crate) fn len(&self) -> (n: usize)
        ensures
            n == indexed(self.pairs()).len(),
    {
        self.pairs.table.len()
    }

    /// `RawTable::capacity`: the room, as it was read in the call that changed it last. A pair
    /// takes at least eight bytes of one allocation, which bounds it from above, and there is
    /// never less of it than there are pairs.
    #[verifier::external_body]
    pub(crate) fn capacity(&self) -> (n: usize)
        ensures
            n == self.room(),
            indexed(self.pairs()).len() <= n <= usize::MAX / 8,
    {
        self.pairs.table.capacity()
    }

    /// `RawTable::reserve`: gets memory for `additional` more pairs. Where there is room for them
    /// already, nothing happens.
    ///
    /// A table of this many pairs can always be described: a large one that has grown has fewer
    /// than five slots to a pair, and seventeen bytes to a slot. That the allocator has the memory is
    /// taken for granted, as it is for `Vec::reserve`.
    #[verifier::external_body]
    pub(crate) fn reserve(&mut self, additional: usize)
        requires
            old(self)@.len() + additional < usize::MAX / 160,
        ensures
            indexed(final(self).pairs()) == indexed(old(self).pairs()),
            indexed(old(self).pairs()).len() + additional <= final(self).room(),
            old(self).room() <= final(self).room(),
            old(self).slots() <= final(self).slots(),
            indexed(old(self).pairs()).len() + additional <= old(self).room() ==> final(self).room()
                == old(self).room() && final(self).slots() == old(self).slots(),
    {
        self.pairs.table.reserve(additional, |e| e.0);
        (self.room, self.slots) = (self.pairs.table.capacity(), self.pairs.table.buckets());
    }

    /// `RawTable::try_reserve`: gets memory for `additional` more pairs, if it can be had; the
    /// index stays as it was if it cannot. Where there is room for them already, nothing
    /// happens. Room for more pairs in all than an eighth of `usize::MAX` can never be had, since
    /// the number of slots that they need is worked out from eight times their number.
    ///
    /// Between the two the allocator decides.
    #[verifier::external_body]
    pub(crate) fn try_reserve(&mut self, additional: usize) -> (reserved: bool)
        ensures
            indexed(final(self).pairs()) == indexed(old(self).pairs()),
            indexed(old(self).pairs()).len() + additional <= old(self).room() ==> reserved
                && final(self).room() == old(self).room() && final(self).slots() == old(self).slots(),
            reserved ==> {
                &&& indexed(old(self).pairs()).len() + additional <= usize::MAX / 8
                &&& indexed(old(self).pairs()).len() + additional <= final(self).room()
                &&& old(self).room() <= final(self).room()
                &&& old(self).slots() <= final(self).slots()
            },
            !reserved ==> final(self).room() == old(self).room() && final(self).slots()
                == old(self).slots(),
    {
        let reserved = self.pairs.table.try_reserve(additional, |e| e.0).is_ok();
        (self.room, self.slots) = (self.pairs.table.capacity(), self.pairs.table.buckets());
        reserved
    }

    /// `RawTable::shrink_to`: gives memory back, down to what the pairs that are there and
    /// `min_size` pairs need. The pairs stay as they are. Where that is none, no memory is left;
    /// else the room is at most some twice what is needed. Room for `min_size` pairs stays, and
    /// no memory is got.
    #[verifier::external_body]
    pub(crate) fn shrink_to(&mut self, min_size: usize)
        ensures
            indexed(final(self).pairs()) == indexed(old(self).pairs()),
            indexed(old(self).pairs()).len() <= final(self).room(),
            min_size <= old(self).room() ==> min_size <= final(self).room(),
            final(self).slots() <= old(self).slots(),
            indexed(old(self).pairs()).len() == 0 && min_size == 0 ==> final(self).room() == 0,
            final(self).room() <= 2 * indexed(old(self).pairs()).len() + 7 || final(self).room() <= 2
                * min_size + 7,
    {
        self.pairs.table.shrink_to(min_size, |e| e.0);
        (self.room, self.slots) = (self.pairs.table.capacity(), self.pairs.table.buckets());
    }
}

} // verus!
