use endorphin::map::{Entry, HashMap};
use endorphin::policy::{Command, ExpirePolicy};
use endorphin::table::Table;
use endorphin::EntryId;

struct MockPolicy {}

impl MockPolicy {
    fn new() -> Self {
        Self {}
    }
}

impl ExpirePolicy for MockPolicy {
    type Info = ();

    type Storage = ();

    fn init_storage(&mut self, _: Self::Info) -> Self::Storage {}

    fn clear(&mut self) {}

    fn is_expired(&mut self, _: EntryId, _: &Self::Storage) -> bool {
        false
    }

    fn on_access(&mut self, _: EntryId, _: &Self::Storage) -> Command {
        Command::Noop
    }

    fn on_insert(&mut self, _: EntryId, _: &Self::Storage) -> Command {
        Command::Noop
    }

    fn on_resize(&mut self) -> Command {
        Command::Noop
    }
}

#[test]
fn test_zero_capacities() {
    let mut map = HashMap::new(MockPolicy::new());

    assert_eq!(map.capacity(), 0);

    map.insert(1, 1, ());
    map.insert(2, 2, ());
    map.remove(&1);
    map.remove(&2);
    map.shrink_to_fit();

    assert_eq!(map.capacity(), 0);
}

#[test]
fn test_insert() {
    let mut map = HashMap::new(MockPolicy::new());

    assert_eq!(map.len(), 0);
    assert!(map.insert(0, 0, ()).is_none());
    assert_eq!(map.len(), 1);
    assert!(map.insert(1, 1, ()).is_none());
    assert_eq!(map.len(), 2);

    assert!(map.insert(1, 2, ()).is_some());
    assert_eq!(map.len(), 2);

    assert_eq!(map.get(&0).unwrap(), &0);
    assert_eq!(map.get(&1).unwrap(), &2);
}

#[test]
fn test_get() {
    let mut map = HashMap::new(MockPolicy::new());

    assert!(map.get(&0).is_none());
    assert!(map.get(&1).is_none());

    assert!(map.insert(0, 0, ()).is_none());
    assert!(map.insert(1, 1, ()).is_none());

    assert_eq!(map.get(&0).unwrap(), &0);
    assert_eq!(map.get(&1).unwrap(), &1);
}

#[test]
fn test_get_mut() {
    let mut map = HashMap::new(MockPolicy::new());

    assert!(map.get_mut(&0).is_none());
    assert!(map.get_mut(&1).is_none());

    assert!(map.insert(0, 0, ()).is_none());
    assert!(map.insert(1, 1, ()).is_none());

    let v0 = map.get_mut(&0).unwrap();
    assert_eq!(v0, &0);
    *v0 = 10;

    let v1 = map.get_mut(&1).unwrap();
    assert_eq!(v1, &1);
    *v1 = 20;

    assert_eq!(map.get(&0).unwrap(), &10);
    assert_eq!(map.get(&1).unwrap(), &20);
}

#[test]
fn test_get_key_value() {
    let mut map = HashMap::new(MockPolicy::new());

    assert!(map.get_key_value(&0).is_none());
    assert!(map.get_key_value(&1).is_none());

    assert!(map.insert(0, 0, ()).is_none());
    assert!(map.insert(1, 1, ()).is_none());

    assert_eq!(map.get_key_value(&0).unwrap(), (&0, &0));
    assert_eq!(map.get_key_value(&1).unwrap(), (&1, &1));
}

#[test]
fn test_contains_key() {
    let mut map = HashMap::new(MockPolicy::new());

    assert_eq!(map.contains_key(&0), false);
    assert_eq!(map.contains_key(&1), false);

    assert!(map.insert(0, 0, ()).is_none());

    assert_eq!(map.contains_key(&0), true);
    assert_eq!(map.contains_key(&1), false);

    assert!(map.remove(&0).is_some());

    assert_eq!(map.contains_key(&0), false);
}

#[test]
fn test_remove() {
    let mut map = HashMap::new(MockPolicy::new());

    assert_eq!(map.contains_key(&0), false);

    assert!(map.insert(0, 1, ()).is_none());

    assert_eq!(map.contains_key(&0), true);

    assert_eq!(map.remove(&0).unwrap(), 1);

    assert_eq!(map.contains_key(&0), false);
}

#[test]
fn test_remove_entry() {
    let mut map = HashMap::new(MockPolicy::new());

    assert_eq!(map.contains_key(&0), false);

    assert!(map.insert(0, 1, ()).is_none());

    assert_eq!(map.contains_key(&0), true);

    assert_eq!(map.remove_entry(&0).unwrap(), (0, 1));

    assert_eq!(map.contains_key(&0), false);
}

#[test]
fn test_reserve() {
    let mut map = HashMap::<u32, u32, _>::new(MockPolicy::new());

    assert_eq!(map.capacity(), 0);

    map.reserve(10);

    assert!(map.capacity() > 0);
}

#[test]
fn test_shrink_to_fit() {
    let mut map = HashMap::new(MockPolicy::new());

    assert_eq!(map.capacity(), 0);

    map.insert(0, 0, ());
    map.insert(1, 1, ());

    map.shrink_to_fit();

    assert!(map.capacity() >= 2);

    map.remove(&0);
    map.remove(&1);
    map.shrink_to_fit();

    assert_eq!(map.capacity(), 0);
}

#[test]
fn test_shrink_to() {
    let mut map = HashMap::new(MockPolicy::new());

    map.reserve(32);

    assert!(map.capacity() >= 32);

    map.shrink_to(0);

    assert_eq!(map.capacity(), 0);

    map.insert(0, 0, ());
    map.insert(1, 1, ());
    map.insert(2, 2, ());
    map.insert(3, 3, ());

    map.shrink_to(0);
    assert!(map.capacity() >= 4);
}

#[test]
fn test_drain() {
    let mut map = HashMap::new(MockPolicy::new());

    map.insert(1, 1, ());
    map.insert(2, 2, ());
    map.insert(3, 3, ());
    map.insert(4, 4, ());

    {
        let mut sum = 0;

        let mut drains = map.drain();
        while let Some(e) = drains.next() {
            sum += e.0;
        }

        assert_eq!(sum, 10);
    }

    assert!(map.is_empty());
}

#[test]
fn test_clear() {
    let mut map = HashMap::new(MockPolicy::new());

    assert!(map.is_empty());
    assert_eq!(map.capacity(), 0);

    map.insert(1, 1, ());
    map.insert(2, 2, ());
    map.insert(3, 3, ());
    map.insert(4, 4, ());

    assert!(!map.is_empty());

    map.clear();

    assert!(map.is_empty());
    assert!(map.capacity() > 0);
}

#[test]
fn test_len() {
    let mut map = HashMap::new(MockPolicy::new());

    assert_eq!(map.len(), 0);

    map.insert(1, 1, ());
    assert_eq!(map.len(), 1);

    map.insert(2, 2, ());
    assert_eq!(map.len(), 2);

    map.remove(&1);
    assert_eq!(map.len(), 1);

    map.remove(&2);
    assert_eq!(map.len(), 0);
}

#[test]
fn test_entry() {
    let mut map = HashMap::new(MockPolicy::new());
    map.insert(0, 0, ());

    match map.entry(0) {
        Entry::Occupied(_) => assert!(true),
        Entry::Vacant(_) => unreachable!(),
    }

    match map.entry(1) {
        Entry::Occupied(_) => unreachable!(),
        Entry::Vacant(_) => assert!(true),
    }
}

#[test]
fn test_entry_insert() {
    let mut map = HashMap::new(MockPolicy::new());

    let mut entry = map.entry(0).insert("0", ());
    assert_eq!(entry.get(), &"0");

    entry.insert("1", ());
    assert_eq!(map.get(&0).unwrap(), &"1");
}

#[test]
fn test_entry_or_insert() {
    let mut map = HashMap::new(MockPolicy::new());

    assert_eq!(map.entry(0).or_insert(0, ()), &0);
    assert_eq!(map.get(&0).unwrap(), &0);

    *map.entry(0).or_insert(0, ()) += 5;
    assert_eq!(map.entry(0).or_insert(0, ()), &5);
    assert_eq!(map.get(&0).unwrap(), &5);
}

#[test]
fn test_entry_or_insert_with() {
    let five = || 5;

    let mut map = HashMap::new(MockPolicy::new());

    assert_eq!(map.entry(0).or_insert_with(five, ()), &five());

    *map.entry(0).or_insert_with(five, ()) *= 2;

    assert_eq!(map.entry(0).or_insert_with(five, ()), &(five() * 2));
    assert_eq!(map.get(&0).unwrap(), &(five() * 2));
}

#[test]
fn test_entry_or_insert_with_key() {
    let mut map = HashMap::new(MockPolicy::new());

    assert_eq!(map.entry(0).or_insert_with_key(|x| x + 1, ()), &1);
    *map.entry(0).or_insert_with_key(|x| x + 1, ()) += 5;

    assert_eq!(map.entry(0).or_insert_with_key(|x| x + 1, ()), &6);
    assert_eq!(map.get(&0).unwrap(), &6);
}

#[test]
fn test_entry_key() {
    let mut map = HashMap::<_, u32, _>::new(MockPolicy::new());

    for i in 0..100 {
        assert_eq!(map.entry(i).key(), &i);
    }
}

#[test]
fn test_entry_and_modify() {
    let mut map = HashMap::new(MockPolicy::new());
    map.insert(0, 0, ());

    let now = map
        .entry(0)
        .and_modify(|v| *v = *v + 5)
        .and_modify(|v| *v = *v * 10);
    assert_eq!(now.or_insert(0, ()), &50);
    assert_eq!(map.get(&0).unwrap(), &50);
}

#[test]
fn test_entry_and_replace_entry_with() {
    let mut map = HashMap::new(MockPolicy::new());
    map.insert(1, 10, ());

    map.entry(1).and_replace_entry_with(|k, v| Some(k + v));

    assert_eq!(map.get(&1).unwrap(), &11);
}

#[test]
fn test_occupied_entry_key() {
    let mut map = HashMap::new(MockPolicy::new());
    map.insert(1, 10, ());

    match map.entry(1) {
        Entry::Occupied(entry) => assert_eq!(entry.key(), &1),
        Entry::Vacant(_) => unreachable!(),
    }
}

#[test]
fn test_occupied_entry_remove_entry() {
    let mut map = HashMap::new(MockPolicy::new());
    map.insert(1, 10, ());

    match map.entry(1) {
        Entry::Occupied(entry) => assert_eq!(entry.remove_entry(), (1, 10)),
        Entry::Vacant(_) => unreachable!(),
    }

    assert_eq!(map.get(&1), None);
}

#[test]
fn test_occupied_entry_get() {
    let mut map = HashMap::new(MockPolicy::new());
    map.insert(1, 10, ());

    match map.entry(1) {
        Entry::Occupied(mut entry) => assert_eq!(entry.get(), &10),
        Entry::Vacant(_) => unreachable!(),
    }
}

#[test]
fn test_occupied_entry_get_mut() {
    let mut map = HashMap::new(MockPolicy::new());
    map.insert(1, 10, ());

    match map.entry(1) {
        Entry::Occupied(mut entry) => {
            let v = entry.get_mut();
            assert_eq!(v, &10);
            *v += 10;

            let _ = entry.get_mut(); // not moved
        }
        Entry::Vacant(_) => unreachable!(),
    }

    assert_eq!(map.get(&1).unwrap(), &20);
}

#[test]
fn test_occupied_entry_into_mut() {
    let mut map = HashMap::new(MockPolicy::new());
    map.insert(1, 10, ());

    match map.entry(1) {
        Entry::Occupied(entry) => {
            let v = entry.into_mut();
            assert_eq!(v, &10);
            *v += 10;
        }
        Entry::Vacant(_) => unreachable!(),
    }

    assert_eq!(map.get(&1).unwrap(), &20);
}

#[test]
fn test_occupied_entry_insert() {
    let mut map = HashMap::new(MockPolicy::new());
    map.insert(1, 10, ());

    assert_eq!(map.get(&1).unwrap(), &10);

    match map.entry(1) {
        Entry::Occupied(mut entry) => assert_eq!(entry.insert(20, ()), 10),
        Entry::Vacant(_) => unreachable!(),
    }

    assert_eq!(map.get(&1).unwrap(), &20);
}

#[test]
fn test_occupied_entry_remove() {
    let mut map = HashMap::new(MockPolicy::new());
    map.insert(1, 10, ());

    match map.entry(1) {
        Entry::Occupied(entry) => assert_eq!(entry.remove(), 10),
        Entry::Vacant(_) => unreachable!(),
    }

    assert_eq!(map.get(&1), None);
}

#[test]
fn test_occupied_entry_replace_entry() {
    let mut map = HashMap::new(MockPolicy::new());

    map.insert(0, Vec::<u32>::new(), ());

    match map.entry(0) {
        Entry::Occupied(entry) => {
            let old = entry.replace_entry(Vec::with_capacity(10));
            assert_eq!(old.0, 0);
            assert_eq!(old.1.capacity(), 0);
        }
        Entry::Vacant(_) => unreachable!(),
    }

    assert_eq!(map.get(&0).unwrap().capacity(), 10);
}

#[test]
fn test_occupied_entry_replace_key() {
    let mut map = HashMap::new(MockPolicy::new());

    let vec = Vec::<u32>::new();

    map.insert(vec.clone(), (), ());

    match map.entry(Vec::with_capacity(10)) {
        Entry::Occupied(entry) => {
            let old = entry.replace_key();
            assert_eq!(old.capacity(), 0);
        }
        Entry::Vacant(_) => unreachable!(),
    }

    match map.entry(Vec::with_capacity(3)) {
        Entry::Occupied(entry) => assert_eq!(entry.key().capacity(), 10),
        Entry::Vacant(_) => unreachable!(),
    }
}

#[test]
fn test_occupied_entry_replace_entry_with() {
    let mut map = HashMap::new(MockPolicy::new());

    map.insert(Vec::<u32>::new(), 10, ());

    let entry = match map.entry(Vec::new()) {
        Entry::Occupied(entry) => entry.replace_entry_with(|k, v| {
            assert_eq!(k.capacity(), 0);
            assert_eq!(v, 10);
            Some(v * 10)
        }),
        Entry::Vacant(_) => unreachable!(),
    };

    match entry {
        Entry::Occupied(mut entry) => {
            assert_eq!(entry.key().capacity(), 0);
            assert_eq!(entry.get(), &100)
        }
        Entry::Vacant(_) => unreachable!(),
    }

    let entry = match map.entry(Vec::new()) {
        Entry::Occupied(entry) => entry.replace_entry_with(|k, v| {
            assert_eq!(k.capacity(), 0);
            assert_eq!(v, 100);
            None
        }),
        Entry::Vacant(_) => unreachable!(),
    };

    match entry {
        Entry::Occupied(_) => unreachable!(),
        Entry::Vacant(_) => {
            assert_eq!(map.get(&Vec::new()), None)
        }
    };
}

#[test]
#[should_panic]
fn test_occupied_entry_insert_result_replace_key() {
    let mut map = HashMap::new(MockPolicy::new());

    map.entry(0).insert(0, ()).replace_key();
}

#[test]
#[should_panic]
fn test_occupied_entry_insert_result_replace_entry() {
    let mut map = HashMap::new(MockPolicy::new());

    map.entry(0).insert(0, ()).replace_entry(1);
}

#[test]
fn test_vacant_entry_key() {
    let mut map = HashMap::<u32, u32, _>::new(MockPolicy::new());

    match map.entry(0) {
        Entry::Occupied(_) => unreachable!(),
        Entry::Vacant(entry) => {
            assert_eq!(entry.key(), &0)
        }
    }
}

#[test]
fn test_vacant_entry_insert() {
    let mut map = HashMap::new(MockPolicy::new());

    assert_eq!(map.get(&0), None);

    match map.entry(0) {
        Entry::Occupied(_) => unreachable!(),
        Entry::Vacant(entry) => {
            let v = entry.insert(10, ());
            *v += 20;
        }
    }

    assert_eq!(map.get(&0).unwrap(), &30);
}

#[test]
fn test_vacant_entry_insert_entry() {
    let mut map = HashMap::new(MockPolicy::new());

    assert_eq!(map.get(&0), None);

    let mut entry = match map.entry(0) {
        Entry::Occupied(_) => unreachable!(),
        Entry::Vacant(entry) => entry.insert_entry(33, ()),
    };

    assert_eq!(entry.get(), &33);
    assert_eq!(map.get(&0).unwrap(), &33);
}

#[test]
fn memory_is_had_for_what_can_be_counted() {
    let mut table = Table::<u32>::new();
    assert!(table.try_reserve(0));
    assert_eq!(table.capacity(), 0);
    assert!(table.try_reserve(10));
    assert!(table.capacity() >= 10);
    assert!(!table.try_reserve(usize::MAX / 8 + 1));
    assert!(!table.try_reserve(usize::MAX));
    let bucket = table.insert(7, 70);
    assert!(table.try_reserve(0));
    assert!(!table.try_reserve(usize::MAX));
    assert_eq!(table.len(), 1);
    assert_eq!(table.get(bucket), &70);
}

#[test]
fn an_entry_that_was_inserted_has_no_key_to_set() {
    let mut map = HashMap::new(MockPolicy::new());
    map.insert(0, 0, ());
    assert!(map.entry(0).insert(1, ()).key.is_none());
    assert!(map.entry(1).insert(1, ()).key.is_none());
    assert_eq!(map.get(&0), Some(&1));
}

#[test]
fn room_follows_what_is_asked_for() {
    let mut map = HashMap::<u32, u32, _>::with_capacity(20, MockPolicy::new());
    assert!(map.capacity() >= 20);
    assert!(map.capacity() <= 47);
    for i in 0..10 {
        map.insert(i, i, ());
    }
    let room = map.capacity();
    map.reserve(5);
    assert_eq!(map.capacity(), room);
    map.reserve(1000);
    assert!(map.capacity() >= 1010);
    map.shrink_to(50);
    assert!(map.capacity() >= 50 && map.capacity() <= 107);
    map.shrink_to_fit();
    assert!(map.capacity() >= 10 && map.capacity() <= 27);
    for i in 0..10 {
        assert_eq!(map.get(&i), Some(&i));
    }
    let room = map.capacity();
    map.clear();
    assert!(map.capacity() >= room);
    map.shrink_to_fit();
    assert_eq!(map.capacity(), 0);
}

#[test]
fn buckets_past_the_last_entry_are_given_back() {
    let mut table = Table::<u32>::new();
    let mut buckets = Vec::new();
    for i in 0..100 {
        buckets.push(table.insert(i, i as u32));
    }
    for b in buckets.iter().skip(2) {
        table.remove(*b);
    }
    assert_eq!(table.bucket_count(), 100);
    table.shrink_to(0);
    assert_eq!(table.bucket_count(), 2);
    assert_eq!(table.get(buckets[1]), &1);
    assert_eq!(table.insert(7, 70), 2);
}

#[test]
fn a_walk_hands_out_as_many_as_are_counted() {
    let mut map = HashMap::new(MockPolicy::new());
    for i in 0..50 {
        map.insert(i, i, ());
    }
    for i in 0..20 {
        map.remove(&i);
    }
    let mut keys = Vec::new();
    let mut walk = map.keys();
    while let Some(k) = walk.next() {
        keys.push(*k);
    }
    assert_eq!(keys.len(), map.len());
    keys.sort();
    assert_eq!(keys, (20..50).collect::<Vec<_>>());
}

#[test]
fn a_full_table_grows_by_half_of_its_room_again() {
    let mut map = HashMap::new(MockPolicy::new());
    map.insert(0, 0, ());
    for _ in 0..3 {
        let room = map.capacity();
        for i in map.len()..room {
            map.insert(i, i, ());
            assert_eq!(map.capacity(), room);
        }
        map.insert(room, room, ());
        assert!(map.capacity() >= room + (room + 1) * 3 / 2);
    }
}
