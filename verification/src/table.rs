//! A table of items in numbered buckets, found by hash.
//!
//! An item stays in the bucket that it was put in until it is removed, whatever happens to the
//! rest of the table.
use vstd::prelude::*;

use crate::index::HashIndex;

verus! {

/// `eq` may be asked about `item`.
pub open spec fn can_ask<T, F: Fn(&T) -> bool>(eq: &F, item: &T) -> bool {
    call_requires(*eq, (item,))
}

/// `answer` is what `eq` says of `item`.
pub open spec fn answers<T, F: Fn(&T) -> bool>(eq: &F, item: &T, answer: bool) -> bool {
    call_ensures(*eq, (item,), answer)
}

/// What a bucket holds: an item and the hash that it is filed under.
pub struct Filed<T> {
    pub hash: u64,
    pub item: T,
}

/// A table of items in numbered buckets.
pub struct Table<T> {
    index: HashIndex,
    buckets: Vec<Option<Filed<T>>>,
    free: Vec<usize>,
}

impl<T> View for Table<T> {
    type V = Map<usize, Filed<T>>;

    /// The items by bucket.
    closed spec fn view(&self) -> Map<usize, Filed<T>> {
        Map::new(
            |b: usize| b < self.buckets@.len() && self.buckets@[b as int] is Some,
            |b: usize| self.buckets@[b as int].unwrap(),
        )
    }
}

impl<T> Table<T> {
    /// The index holds each full bucket once, under its hash, and nothing else; the buckets on
    /// the free list are empty, and none is on it twice.
    pub closed spec fn wf(&self) -> bool {
        &&& forall|e: (u64, usize)|
            #[trigger] self.index@.count(e) == if self@.contains_key(e.1)
                && self@[e.1].hash == e.0 {
                1nat
            } else {
                0nat
            }
        &&& self.free_wf()
        &&& self@.dom().finite()
        &&& self.index@.len() == self@.dom().len()
    }

    /// How many items there can be before more memory is got for the index, those among them
    /// that are there.
    pub closed spec fn room(&self) -> nat {
        self.index.room()
    }

    /// How many slots the index has memory for.
    pub closed spec fn slots(&self) -> nat {
        self.index.slots()
    }

    /// The full buckets can be counted.
    pub proof fn is_finite(&self)
        requires
            self.wf(),
        ensures
            self@.dom().finite(),
    {
    }

    spec fn free_wf(&self) -> bool {
        &&& forall|i: int|
            0 <= i < self.free@.len() ==> #[trigger] self.free@[i] < self.buckets@.len()
                && self.buckets@[self.free@[i] as int] is None
        &&& self.free@.no_duplicates()
    }

    /// The bucket that the next item goes to.
    spec fn next_free(&self) -> int {
        if self.free@.len() > 0 {
            self.free@.last() as int
        } else {
            self.buckets@.len() as int
        }
    }

    /// An empty table.
    pub fn new() -> (table: Table<T>)
        ensures
            table.wf(),
            table@ == Map::<usize, Filed<T>>::empty(),
            table.room() == 0,
    {
        let table = Table { index: HashIndex::new(), buckets: Vec::new(), free: Vec::new() };
        assert(table@ =~= Map::<usize, Filed<T>>::empty());
        table
    }

    /// An empty table with room for `capacity` items, and for a bounded number more.
    pub fn with_capacity(capacity: usize) -> (table: Table<T>)
        requires
            capacity < usize::MAX / 79,
        ensures
            table.wf(),
            table@ == Map::<usize, Filed<T>>::empty(),
            capacity <= table.room() <= 2 * capacity + 7,
    {
        let table = Table {
            index: HashIndex::with_capacity(capacity),
            buckets: Vec::with_capacity(capacity),
            free: Vec::new(),
        };
        assert(table@ =~= Map::<usize, Filed<T>>::empty());
        table
    }

    /// A bucket filed under `hash` whose item `eq` accepts, if there is one.
    pub fn find<F: Fn(&T) -> bool>(&self, hash: u64, eq: &F) -> (found: Option<usize>)
        requires
            self.wf(),
            forall|b: usize| self@.contains_key(b) ==> can_ask(eq, &self@[b].item),
        ensures
            match found {
                Some(b) => {
                    &&& self@.contains_key(b)
                    &&& self@[b].hash == hash
                    &&& answers(eq, &self@[b].item, true)
                },
                None => forall|b: usize|
                    self@.contains_key(b) && self@[b].hash == hash ==> answers(eq, &self@[b].item, false),
            },
    {
        let probe = |e: &(u64, usize)| -> (accepted: bool)
            requires
                self@.contains_key(e.1),
                can_ask(eq, &self@[e.1].item),
            ensures
                accepted ==> e.0 == hash && answers(eq, &self@[e.1].item, true),
                !accepted && e.0 == hash ==> answers(eq, &self@[e.1].item, false),
            {
                if e.0 != hash {
                    false
                } else {
                    match &self.buckets[e.1] {
                        Some(filed) => (*eq)(&filed.item),
                        None => false,
                    }
                }
            };
        let found = self.index.get(hash, probe);
        match found {
            Some(e) => Some(e.1),
            None => {
                assert forall|b: usize|
                    self@.contains_key(b) && self@[b].hash == hash implies answers(eq, &self@[b].item, false) by {
                    assert(self.index@.count((hash, b)) == 1);
                }
                None
            },
        }
    }

    /// The item in a bucket.
    pub fn get(&self, bucket: usize) -> (item: &T)
        requires
            self@.contains_key(bucket),
        ensures
            *item == self@[bucket].item,
    {
        match &self.buckets[bucket] {
            Some(filed) => &filed.item,
            None => vstd::pervasive::unreached(),
        }
    }

    /// The item in a bucket, for change in place.
    pub fn get_mut(&mut self, bucket: usize) -> (item: &mut T)
        requires
            old(self).wf(),
            old(self)@.contains_key(bucket),
        ensures
            final(self).wf(),
            *item == old(self)@[bucket].item,
            final(self)@ == old(self)@.insert(
                bucket,
                Filed { hash: old(self)@[bucket].hash, item: *final(item) },
            ),
            final(self).room() == old(self).room(),
            final(self).slots() == old(self).slots(),
    {
        assert forall|t: Table<T>|
            {
                let b = bucket as int;
                &&& t.index == self.index
                &&& t.free == self.free
                &&& t.buckets@ == self.buckets@.update(b, t.buckets@[b])
                &&& t.buckets@[b] is Some
                &&& t.buckets@[b].unwrap().hash == self@[bucket].hash
            } implies #[trigger] t.wf() by {
            assert(t@.dom() =~= self@.dom());
        }
        match &mut self.buckets[bucket] {
            Some(filed) => &mut filed.item,
            None => vstd::pervasive::unreached(),
        }
    }

    /// The number of buckets, empty ones among them: no item lies in a bucket past it.
    pub fn bucket_count(&self) -> (n: usize)
        ensures
            forall|b: usize| self@.contains_key(b) ==> b < n,
    {
        self.buckets.len()
    }

    /// The item in a bucket, if the bucket holds one.
    pub fn peek(&self, bucket: usize) -> (item: Option<&T>)
        ensures
            match item {
                Some(item) => self@.contains_key(bucket) && *item == self@[bucket].item,
                None => !self@.contains_key(bucket),
            },
    {
        if bucket < self.buckets.len() {
            match &self.buckets[bucket] {
                Some(filed) => Some(&filed.item),
                None => None,
            }
        } else {
            None
        }
    }

    /// The bucket that the next item goes to.
    fn next_bucket(&self) -> (bucket: usize)
        requires
            self.free_wf(),
        ensures
            bucket == self.next_free(),
            !self@.contains_key(bucket),
    {
        let n = self.free.len();
        if n > 0 {
            self.free[n - 1]
        } else {
            self.buckets.len()
        }
    }

    /// Fills the next bucket. The index has been told of it.
    fn fill(&mut self, bucket: usize, hash: u64, item: T)
        requires
            old(self).free_wf(),
            bucket == old(self).next_free(),
            old(self)@.dom().finite(),
            old(self).index@.len() == old(self)@.dom().len() + 1,
            forall|e: (u64, usize)|
                #[trigger] old(self).index@.count(e) == if e == (hash, bucket) || (
                old(self)@.contains_key(e.1) && old(self)@[e.1].hash == e.0) {
                    1nat
                } else {
                    0nat
                },
        ensures
            final(self).wf(),
            final(self)@ == old(self)@.insert(bucket, Filed { hash, item }),
            final(self).index == old(self).index,
    {
        if bucket < self.buckets.len() {
            let _ = self.free.pop();
            self.buckets[bucket] = Some(Filed { hash, item });
        } else {
            self.buckets.push(Some(Filed { hash, item }));
        }
        assert(self@ =~= old(self)@.insert(bucket, Filed { hash, item }));
    }

    /// Puts an item in a free bucket if that takes no more memory for the index, and hands it
    /// back otherwise. Where there is room for one more item, it takes none.
    pub fn try_insert_no_grow(&mut self, hash: u64, item: T) -> (placed: Result<usize, T>)
        requires
            old(self).wf(),
        ensures
            final(self).wf(),
            match placed {
                Ok(bucket) => {
                    &&& !old(self)@.contains_key(bucket)
                    &&& final(self)@ == old(self)@.insert(bucket, Filed { hash, item })
                    &&& old(self).room() <= final(self).room() <= old(self).room() + 1
                },
                Err(back) => {
                    &&& back == item
                    &&& final(self)@ == old(self)@
                    &&& final(self).room() == old(self).room()
                    &&& old(self).room() <= old(self)@.dom().len()
                },
            },
            final(self).slots() == old(self).slots(),
    {
        let bucket = self.next_bucket();
        if self.index.try_insert_no_grow((hash, bucket)) {
            self.fill(bucket, hash, item);
            Ok(bucket)
        } else {
            assert(self@ =~= old(self)@);
            Err(item)
        }
    }

    /// Puts an item in a free bucket.
    pub fn insert(&mut self, hash: u64, item: T) -> (bucket: usize)
        requires
            old(self).wf(),
            old(self)@.dom().len() < usize::MAX / 160,
        ensures
            final(self).wf(),
            !old(self)@.contains_key(bucket),
            final(self)@ == old(self)@.insert(bucket, Filed { hash, item }),
            old(self).room() <= final(self).room(),
            old(self).slots() <= final(self).slots(),
            old(self)@.dom().len() < old(self).room() ==> final(self).slots() == old(self).slots(),
    {
        let bucket = self.next_bucket();
        self.index.insert((hash, bucket));
        assert(self@ =~= old(self)@);
        self.fill(bucket, hash, item);
        bucket
    }

    /// A bucket has been emptied, but is not free for other items: the index still leads to it
    /// under `hash`.
    pub closed spec fn lifted(&self, bucket: usize, hash: u64) -> bool {
        &&& bucket < self.buckets@.len()
        &&& self.buckets@[bucket as int] is None
        &&& !self.free@.contains(bucket)
        &&& forall|e: (u64, usize)|
            #[trigger] self.index@.count(e) == if e == (hash, bucket) || (
            self@.contains_key(e.1) && self@[e.1].hash == e.0) {
                1nat
            } else {
                0nat
            }
        &&& self.free_wf()
        &&& self@.dom().finite()
        &&& self.index@.len() == self@.dom().len() + 1
    }

    /// Takes the item out of a bucket for a while.
    pub fn lift(&mut self, bucket: usize) -> (filed: Filed<T>)
        requires
            old(self).wf(),
            old(self)@.contains_key(bucket),
        ensures
            filed == old(self)@[bucket],
            final(self).lifted(bucket, filed.hash),
            final(self)@ == old(self)@.remove(bucket),
            final(self).room() == old(self).room(),
            final(self).slots() == old(self).slots(),
    {
        let taken = self.buckets[bucket].take();
        match taken {
            Some(filed) => {
                assert(self@ =~= old(self)@.remove(bucket));
                filed
            },
            None => vstd::pervasive::unreached(),
        }
    }

    /// Puts an item in the bucket that it was taken out of.
    pub fn put_back(&mut self, bucket: usize, filed: Filed<T>)
        requires
            old(self).lifted(bucket, filed.hash),
        ensures
            final(self).wf(),
            final(self)@ == old(self)@.insert(bucket, filed),
            final(self).room() == old(self).room(),
            final(self).slots() == old(self).slots(),
    {
        self.buckets[bucket] = Some(filed);
        assert(self@ =~= old(self)@.insert(bucket, filed));
    }

    /// Sets the bucket free that an item was taken out of.
    pub fn set_free(&mut self, bucket: usize, hash: u64)
        requires
            old(self).lifted(bucket, hash),
        ensures
            final(self).wf(),
            final(self)@ == old(self)@,
            final(self).room() <= old(self).room() <= final(self).room() + 1,
            final(self).slots() == old(self).slots(),
    {
        let pair = |e: &(u64, usize)| -> (same: bool)
            ensures
                same == (e.1 == bucket),
            { e.1 == bucket };
        assert(old(self).index@.count((hash, bucket)) == 1);
        let _ = self.index.remove_entry(hash, pair);
        self.free.push(bucket);
        assert(self@ =~= old(self)@);
    }

    /// Takes the item out of a bucket.
    pub fn remove(&mut self, bucket: usize) -> (item: T)
        requires
            old(self).wf(),
            old(self)@.contains_key(bucket),
        ensures
            final(self).wf(),
            item == old(self)@[bucket].item,
            final(self)@ == old(self)@.remove(bucket),
            final(self).room() <= old(self).room() <= final(self).room() + 1,
            final(self).slots() == old(self).slots(),
    {
        let filed = self.lift(bucket);
        self.set_free(bucket, filed.hash);
        filed.item
    }

    /// Takes every item out and keeps the memory.
    pub fn clear(&mut self)
        requires
            old(self).wf(),
        ensures
            final(self).wf(),
            final(self)@ == Map::<usize, Filed<T>>::empty(),
            old(self).room() <= final(self).room(),
            final(self).slots() == old(self).slots(),
    {
        self.index.clear();
        self.buckets.clear();
        self.free.clear();
        assert(self@ =~= Map::<usize, Filed<T>>::empty());
    }

    /// Takes every item out, keeps the memory of the index and hands the items out. Beside them
    /// stand the buckets that they lay in.
    pub fn take_all(&mut self) -> (taken: (Vec<T>, Ghost<Seq<usize>>))
        requires
            old(self).wf(),
        ensures
            final(self).wf(),
            final(self)@ == Map::<usize, Filed<T>>::empty(),
            old(self).room() <= final(self).room(),
            final(self).slots() == old(self).slots(),
            taken.0@.len() == taken.1@.len(),
            taken.1@.no_duplicates(),
            forall|i: int|
                0 <= i < taken.0@.len() ==> old(self)@.contains_key(#[trigger] taken.1@[i])
                    && taken.0@[i] == old(self)@[taken.1@[i]].item,
            forall|b: usize| #[trigger] old(self)@.contains_key(b) ==> taken.1@.contains(b),
    {
        let ghost pre = *self;
        let mut buckets: Vec<Option<Filed<T>>> = Vec::new();
        core::mem::swap(&mut self.buckets, &mut buckets);
        let total = buckets.len();
        self.free.clear();
        self.index.clear();
        assert(self@ =~= Map::<usize, Filed<T>>::empty());
        let mut items: Vec<T> = Vec::new();
        let mut at: Ghost<Seq<usize>> = Ghost(Seq::empty());
        while buckets.len() > 0
            invariant
                buckets@.len() <= pre.buckets@.len(),
                pre.buckets@.len() == total,
                buckets@ =~= pre.buckets@.take(buckets@.len() as int),
                items@.len() == at@.len(),
                at@.no_duplicates(),
                forall|i: int|
                    0 <= i < items@.len() ==> {
                        &&& buckets@.len() <= #[trigger] at@[i]
                        &&& pre@.contains_key(at@[i])
                        &&& items@[i] == pre@[at@[i]].item
                    },
                forall|b: usize|
                    buckets@.len() <= b && #[trigger] pre@.contains_key(b) ==> at@.contains(b),
            decreases buckets@.len(),
        {
            let ghost n = (buckets@.len() - 1) as usize;
            let ghost before = at@;
            if let Some(Some(filed)) = buckets.pop() {
                items.push(filed.item);
                proof {
                    at@ = before.push(n);
                    assert(at@.last() == n);
                    assert forall|b: usize|
                        n <= b && #[trigger] pre@.contains_key(b) implies at@.contains(b) by {
                        if b != n {
                            let i = before.index_of(b);
                            assert(at@[i] == b);
                        }
                    }
                }
            }
        }
        (items, at)
    }

    /// The number of items.
    pub fn len(&self) -> (n: usize)
        requires
            self.wf(),
        ensures
            n == self@.dom().len(),
    {
        self.index.len()
    }

    /// How many items there can be before more memory is got.
    pub fn capacity(&self) -> (n: usize)
        requires
            self.wf(),
        ensures
            n == self.room(),
            self@.dom().len() <= n <= usize::MAX / 8,
    {
        self.index.capacity()
    }

    /// Gets memory for `additional` more items. Where there is room for them already, the index
    /// gets none.
    pub fn reserve(&mut self, additional: usize)
        requires
            old(self).wf(),
            old(self)@.dom().len() + additional < usize::MAX / 160,
        ensures
            final(self).wf(),
            final(self)@ == old(self)@,
            old(self)@.dom().len() + additional <= final(self).room(),
            old(self).room() <= final(self).room(),
            old(self).slots() <= final(self).slots(),
            old(self)@.dom().len() + additional <= old(self).room() ==> final(self).room()
                == old(self).room() && final(self).slots() == old(self).slots(),
    {
        self.index.reserve(additional);
        let free = self.free.len();
        if additional > free {
            self.buckets.reserve(additional - free);
        }
        assert(self@ =~= old(self)@);
    }

    /// Gets memory for `additional` more items, if it can be had. Where there is room for them
    /// already, none is needed; for more items in all than the index can count slots for it can
    /// never be had.
    pub fn try_reserve(&mut self, additional: usize) -> (reserved: bool)
        requires
            old(self).wf(),
        ensures
            final(self).wf(),
            final(self)@ == old(self)@,
            old(self)@.dom().len() + additional <= old(self).room() ==> reserved
                && final(self).room() == old(self).room() && final(self).slots()
                == old(self).slots(),
            reserved ==> {
                &&& old(self)@.dom().len() + additional <= usize::MAX / 8
                &&& old(self)@.dom().len() + additional <= final(self).room()
                &&& old(self).room() <= final(self).room()
                &&& old(self).slots() <= final(self).slots()
            },
            !reserved ==> final(self).room() == old(self).room() && final(self).slots()
                == old(self).slots(),
    {
        let reserved = self.index.try_reserve(additional);
        assert(self@ =~= old(self)@);
        reserved
    }

    /// Drops the empty buckets past the last full one.
    fn trim(&mut self)
        requires
            old(self).wf(),
        ensures
            final(self).wf(),
            final(self)@ == old(self)@,
            final(self).index == old(self).index,
    {
        let mut n: usize = self.buckets.len();
        while n > 0 && self.buckets[n - 1].is_none()
            invariant
                n <= self.buckets@.len(),
                forall|b: int| n <= b < self.buckets@.len() ==> self.buckets@[b] is None,
            decreases n,
        {
            n -= 1;
        }
        self.buckets.truncate(n);
        let mut free: Vec<usize> = Vec::new();
        let mut i: usize = 0;
        while i < self.free.len()
            invariant
                i <= self.free@.len(),
                n == self.buckets@.len(),
                self.free@.no_duplicates(),
                forall|j: int|
                    0 <= j < self.free@.len() && self.free@[j] < n ==> self.buckets@[#[trigger] self.free@[j] as int] is None,
                forall|j: int|
                    0 <= j < free@.len() ==> #[trigger] free@[j] < n && self.buckets@[free@[j] as int] is None
                        && self.free@.take(i as int).contains(free@[j]),
                free@.no_duplicates(),
            decreases self.free@.len() - i,
        {
            let b = self.free[i];
            proof {
                let done = self.free@.take(i as int);
                let more = self.free@.take(i + 1);
                assert(more =~= done.push(b));
                assert(more[i as int] == b);
                assert forall|x: usize| done.contains(x) implies more.contains(x) && x != b by {
                    let k = done.index_of(x);
                    assert(more[k] == x);
                    assert(self.free@[k] == x);
                }
            }
            if b < n {
                free.push(b);
            }
            i += 1;
        }
        self.free = free;
        assert(self@ =~= old(self)@);
    }

    /// Gives memory back, down to what the items that are there and `min_size` items need. Where
    /// that is none, the index keeps none; else it keeps room for at most some twice as many.
    pub fn shrink_to(&mut self, min_size: usize)
        requires
            old(self).wf(),
        ensures
            final(self).wf(),
            final(self)@ == old(self)@,
            old(self)@.dom().len() <= final(self).room(),
            min_size <= old(self).room() ==> min_size <= final(self).room(),
            final(self).slots() <= old(self).slots(),
            old(self)@.dom().len() == 0 && min_size == 0 ==> final(self).room() == 0,
            final(self).room() <= 2 * old(self)@.dom().len() + 7 || final(self).room() <= 2
                * min_size + 7,
    {
        self.index.shrink_to(min_size);
        assert(self@ =~= old(self)@);
        self.trim();
        give_back(&mut self.buckets, min_size);
        assert(self@ =~= old(self)@);
    }
}

/// `Vec::shrink_to`: gives memory back, down to what the elements and `min_capacity` elements
/// need. The elements stay as they are. How much memory is left rests on the allocator.
#[verifier::external_body]
fn give_back<T>(v: &mut Vec<T>, min_capacity: usize)
    ensures
        final(v)@ == old(v)@,
{
    v.shrink_to(min_capacity)
}

} // verus!
