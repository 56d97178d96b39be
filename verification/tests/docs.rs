//! Maps whose entries all live for ten milliseconds.
use endorphin::map::{Entry, HashMap};
use endorphin::policy::{LazyFixedTTLPolicy, TTLPolicy};
use endorphin::time::Duration;

fn ten_millis() -> LazyFixedTTLPolicy {
    LazyFixedTTLPolicy::new(Duration::from_millis(10))
}

fn ten_secs() -> LazyFixedTTLPolicy {
    LazyFixedTTLPolicy::new(Duration::from_secs(10))
}

fn wait(millis: u64) {
    let start = std::time::Instant::now();
    while start.elapsed() < std::time::Duration::from_millis(millis) {}
}

#[test]
fn entries_live_and_die() {
    let mut cache = HashMap::new(TTLPolicy::new());

    cache.insert("Still", "Alive", Duration::from_secs(3));
    cache.insert("Gonna", "Die", Duration::from_millis(10));

    wait(11);

    assert_eq!(cache.get(&"Still"), Some(&"Alive"));
    assert_eq!(cache.get(&"Gonna"), None);
}

#[test]
fn get_shows_what_has_not_expired() {
    let mut cache = HashMap::new(ten_secs());
    cache.insert(0, "0", ());
    assert_eq!(cache.get(&0), Some(&"0"));
    assert_eq!(cache.get(&1), None);

    let mut cache = HashMap::new(ten_millis());
    cache.insert(0, "0", ());
    wait(10);
    assert_eq!(cache.get(&0), None);
}

#[test]
fn get_key_value_shows_what_has_not_expired() {
    let mut cache = HashMap::new(ten_secs());
    cache.insert(0, "0", ());
    assert_eq!(cache.get_key_value(&0), Some((&0, &"0")));
    assert_eq!(cache.get_key_value(&1), None);

    let mut cache = HashMap::new(ten_millis());
    cache.insert(0, "0", ());
    wait(10);
    assert_eq!(cache.get_key_value(&0), None);
}

#[test]
fn get_mut_lets_the_value_be_changed() {
    let mut cache = HashMap::new(LazyFixedTTLPolicy::new(Duration::from_millis(200)));
    cache.insert(0, "0", ());
    if let Some(x) = cache.get_mut(&0) {
        *x = "1";

        wait(200);
        assert_eq!(*x, "1");
    }
    assert!(cache.get(&0).is_none());

    let mut cache = HashMap::new(ten_secs());
    cache.insert(0, "0", ());
    *cache.get_mut(&0).unwrap() = "1";
    assert_eq!(cache.get(&0), Some(&"1"));
}

#[test]
fn contains_key_is_false_once_expired() {
    let mut cache = HashMap::new(ten_secs());
    cache.insert(0, "0", ());
    assert!(cache.contains_key(&0));

    let mut cache = HashMap::new(ten_millis());
    cache.insert(0, "0", ());
    wait(10);
    assert!(!cache.contains_key(&0));
}

#[test]
fn insert_gives_the_old_value_out_unless_expired() {
    let mut cache = HashMap::new(ten_secs());
    assert_eq!(cache.insert(0, "a", ()), None);
    assert!(!cache.is_empty());
    assert_eq!(cache.insert(0, "b", ()), Some("a"));

    let mut cache = HashMap::new(ten_millis());
    cache.insert(0, "b", ());
    wait(10);
    assert_eq!(cache.insert(0, "c", ()), None);
}

#[test]
fn remove_gives_the_value_out_unless_expired() {
    let mut cache = HashMap::new(ten_secs());
    cache.insert(1, "b", ());
    assert_eq!(cache.remove(&1), Some("b"));
    assert_eq!(cache.remove(&1), None);

    let mut cache = HashMap::new(ten_millis());
    cache.insert(0, "a", ());
    wait(15);
    assert_eq!(cache.remove(&0), None);
}

#[test]
fn remove_entry_gives_key_and_value_out_unless_expired() {
    let mut cache = HashMap::new(ten_secs());
    cache.insert(1, "b", ());
    assert_eq!(cache.remove_entry(&1), Some((1, "b")));

    let mut cache = HashMap::new(ten_millis());
    cache.insert(0, "a", ());
    wait(15);
    assert_eq!(cache.remove_entry(&0), None);
}

#[test]
fn memory_is_reserved_and_given_back() {
    let mut cache = HashMap::<u32, u32, LazyFixedTTLPolicy>::new(ten_secs());
    cache.reserve(10);
    assert!(cache.capacity() >= 10);

    let mut cache = HashMap::with_capacity(20, ten_secs());
    cache.insert(0, "a", ());
    cache.insert(1, "b", ());
    assert!(cache.capacity() >= 20);
    cache.shrink_to(10);
    assert!(cache.capacity() >= 10);
    cache.shrink_to(0);
    assert!(cache.capacity() >= 2);
    cache.shrink_to_fit();
    assert!(cache.capacity() >= 2);
    assert_eq!(cache.get(&0), Some(&"a"));
    assert_eq!(cache.get(&1), Some(&"b"));
}

#[test]
fn letters_are_counted() {
    let mut letters = HashMap::new(ten_secs());

    for ch in "an easy-to-use cache library".chars() {
        let counter = letters.entry(ch).or_insert(0, ());
        *counter += 1;
    }

    assert_eq!(letters.get(&'a'), Some(&4));
    assert_eq!(letters.get(&'r'), Some(&2));
    assert_eq!(letters.get(&'t'), Some(&1));
    assert_eq!(letters.get(&'b'), Some(&1));
    assert_eq!(letters.get(&'l'), Some(&1));
    assert_eq!(letters.get(&'n'), Some(&1));
    assert_eq!(letters.get(&'d'), None);
}

#[test]
fn drain_hands_everything_out() {
    let mut cache = HashMap::new(ten_secs());
    cache.insert(0, "a", ());
    cache.insert(1, "b", ());

    let mut drained = Vec::new();
    let mut drain = cache.drain();
    while let Some((k, v)) = drain.next() {
        drained.push((k, v));
    }
    drained.sort();
    assert_eq!(drained, vec![(0, "a"), (1, "b")]);
    assert!(cache.is_empty());
    assert_eq!(cache.len_approx(), 0);
    assert_eq!(cache.insert(0, "c", ()), None);
    assert_eq!(cache.get(&0), Some(&"c"));
}

#[test]
fn drain_leaves_out_what_has_expired() {
    let mut cache = HashMap::new(ten_millis());
    cache.insert(0, "a", ());
    wait(10);
    assert_eq!(cache.drain().next(), None);
    assert_eq!(cache.len_approx(), 0);
}

#[test]
fn clear_empties_the_map() {
    let mut cache = HashMap::new(ten_secs());
    cache.insert(0, "a", ());
    cache.clear();
    assert!(cache.is_empty());
    assert_eq!(cache.get(&0), None);
}

#[test]
fn len_approx_counts_the_expired_ones_too() {
    let mut cache = HashMap::new(ten_millis());
    assert_eq!(cache.len_approx(), 0);
    assert_eq!(cache.len(), 0);
    cache.insert(0, "a", ());
    assert_eq!(cache.len_approx(), 1);

    wait(10);
    assert_eq!(cache.len(), 0);
    assert_eq!(cache.len_approx(), 1);
    assert!(cache.is_empty());
}

#[test]
fn values_are_changed_in_a_walk() {
    let mut cache = HashMap::new(ten_secs());
    cache.insert(0, 0, ());
    cache.insert(1, 1, ());
    cache.insert(2, 2, ());

    let mut iter = cache.iter_mut();
    while let Some((_, v)) = iter.next() {
        *v *= 2;
    }
    let mut values = cache.values_mut();
    while let Some(v) = values.next() {
        *v += 6;
    }

    let mut pairs = Vec::new();
    let mut iter = cache.iter();
    while let Some((k, v)) = iter.next() {
        pairs.push((*k, *v));
    }
    pairs.sort();
    assert_eq!(pairs, vec![(0, 6), (1, 8), (2, 10)]);

    let mut keys = Vec::new();
    let mut iter = cache.keys();
    while let Some(k) = iter.next() {
        keys.push(*k);
    }
    keys.sort();
    assert_eq!(keys, vec![0, 1, 2]);

    let mut all = Vec::new();
    let mut iter = cache.values();
    while let Some(v) = iter.next() {
        all.push(*v);
    }
    all.sort();
    assert_eq!(all, vec![6, 8, 10]);
}

#[test]
fn walks_leave_out_what_has_expired() {
    let mut cache = HashMap::new(ten_millis());
    cache.insert(0, 0, ());
    wait(10);
    assert_eq!(cache.iter().next(), None);
    assert_eq!(cache.iter_mut().next(), None);
    assert_eq!(cache.keys().next(), None);
    assert_eq!(cache.values().next(), None);
    assert_eq!(cache.values_mut().next(), None);
}

#[test]
fn entry_insert_sets_the_value() {
    let mut cache = HashMap::new(ten_secs());
    let mut entry = cache.entry(0).insert("a", ());
    assert_eq!(entry.key(), &0);
    assert_eq!(entry.get(), &"a");
    assert_eq!(cache.get(&0), Some(&"a"));

    let mut entry = cache.entry(0).insert("b", ());
    assert_eq!(entry.get(), &"b");
    assert_eq!(cache.get(&0), Some(&"b"));
    assert_eq!(cache.len(), 1);
}

#[test]
fn or_insert_fills_in_what_is_missing_or_expired() {
    let mut cache = HashMap::new(ten_secs());
    cache.entry(0).or_insert(0, ());
    assert_eq!(cache.get(&0), Some(&0));
    *cache.entry(0).or_insert(200, ()) += 10;
    assert_eq!(cache.get(&0), Some(&10));

    let mut cache = HashMap::new(LazyFixedTTLPolicy::new(Duration::from_millis(100)));
    cache.entry(0).or_insert(10, ());
    wait(100);
    cache.entry(0).or_insert(100, ());
    assert_eq!(cache.get(&0), Some(&100));
}

#[test]
fn or_insert_with_makes_what_is_missing() {
    let mut cache = HashMap::new(ten_secs());
    cache.entry("a").or_insert_with(|| "A".to_string(), ());
    assert_eq!(cache.get(&"a"), Some(&"A".to_string()));

    cache
        .entry("a")
        .or_insert_with(|| "B".to_string(), ())
        .push('B');
    assert_eq!(cache.get(&"a"), Some(&"AB".to_string()));

    cache
        .entry("endorphin")
        .or_insert_with_key(|k| k.to_string(), ());
    assert_eq!(cache.get(&"endorphin"), Some(&"endorphin".to_string()));
}

#[test]
fn or_default_fills_in_the_default() {
    let mut cache = HashMap::<_, u32, _>::new(ten_secs());
    cache.entry("endorphin").or_default(());
    assert_eq!(cache.get(&"endorphin"), Some(&0));
    *cache.entry("endorphin").or_default(()) += 5;
    assert_eq!(*cache.entry("endorphin").or_default(()), 5);
}

#[test]
fn and_modify_changes_what_is_there() {
    let mut cache = HashMap::new(ten_secs());
    cache
        .entry("endorphin")
        .and_modify(|_: &mut i32| unreachable!())
        .or_insert(0, ());
    assert_eq!(cache.get(&"endorphin"), Some(&0));

    cache
        .entry("endorphin")
        .and_modify(|v| *v += 10)
        .or_insert(123, ());
    assert_eq!(cache.get(&"endorphin"), Some(&10));
}

#[test]
fn and_replace_entry_with_makes_the_value_anew() {
    let mut cache: HashMap<i32, i32, _> = HashMap::new(ten_secs());
    match cache
        .entry(10)
        .and_replace_entry_with(|_k, _v| unreachable!())
    {
        Entry::Occupied(_) => unreachable!(),
        Entry::Vacant(entry) => assert_eq!(entry.key(), &10),
    }

    cache.insert(10, 200, ());
    match cache.entry(10).and_replace_entry_with(|k, v| Some(k + v)) {
        Entry::Occupied(mut entry) => assert_eq!(entry.get(), &210),
        Entry::Vacant(_) => unreachable!(),
    }

    match cache.entry(10).and_replace_entry_with(|_k, _v| None) {
        Entry::Occupied(_) => unreachable!(),
        Entry::Vacant(entry) => assert_eq!(entry.into_key(), 10),
    }
    assert_eq!(cache.get(&10), None);
    assert_eq!(cache.len_approx(), 0);
}

#[test]
fn replace_entry_keeps_the_key_that_it_was_opened_with() {
    let mut cache = HashMap::new(ten_secs());
    let key: Vec<u32> = Vec::new();
    cache.insert(key.clone(), 500, ());

    if let Entry::Occupied(entry) = cache.entry(Vec::with_capacity(10)) {
        let (old_k, old_v) = entry.replace_entry(200);
        assert_eq!(old_k.capacity(), 0);
        assert_eq!(old_v, 500);
    }

    if let Entry::Occupied(entry) = cache.entry(key.clone()) {
        let (k, v) = entry.remove_entry();
        assert!(k.capacity() >= 10);
        assert_eq!(v, 200);
    }
    assert_eq!(cache.len_approx(), 0);
}

#[test]
fn a_new_value_in_hand_is_found_afterwards() {
    let mut cache = HashMap::new(ten_secs());
    cache.insert("a", 100, ());
    if let Entry::Occupied(mut entry) = cache.entry("a") {
        assert_eq!(entry.insert(200, ()), 100);
        *entry.get_mut() += 22;
        assert_eq!(entry.get(), &222);
    }
    assert_eq!(cache.get(&"a"), Some(&222));

    if let Entry::Occupied(entry) = cache.entry("a") {
        assert_eq!(entry.remove(), 222);
    }
    assert!(!cache.contains_key(&"a"));
}

#[test]
fn there_is_room_for_more() {
    let mut cache = HashMap::new(ten_secs());
    assert!(cache.has_room());
    for i in 0..100 {
        cache.insert(i, i, ());
    }
    assert!(cache.has_room());
}
