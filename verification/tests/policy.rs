use std::cell::RefCell;
use std::rc::Rc;

use endorphin::map::{Entry, HashMap};
use endorphin::policy::mixed_policy::Storage;
use endorphin::policy::{
    align_instant, Command, Expiration, ExpirePolicy, LazyFixedTTLPolicy, MixedPolicy, Precision,
    TTIPolicy, TTLPolicy,
};
use endorphin::time::{Clock, Duration, Instant};
use endorphin::EntryId;

/// A policy whose answers the test decides.
#[derive(Clone, Default)]
struct Script {
    state: Rc<RefCell<State>>,
}

#[derive(Default)]
struct State {
    inserted: Vec<EntryId>,
    accessed: Vec<EntryId>,
    report_on_access: Vec<EntryId>,
    report_on_insert: bool,
    expired: Vec<EntryId>,
    cleared: usize,
}

impl ExpirePolicy for Script {
    type Info = u8;

    type Storage = u8;

    fn init_storage(&mut self, info: u8) -> u8 {
        info
    }

    fn clear(&mut self) {
        self.state.borrow_mut().cleared += 1;
    }

    fn is_expired(&mut self, entry: EntryId, _: &u8) -> bool {
        self.state.borrow().expired.contains(&entry)
    }

    fn on_access(&mut self, entry: EntryId, _: &u8) -> Command {
        let mut state = self.state.borrow_mut();
        state.accessed.push(entry);
        let list: Vec<EntryId> = state.report_on_access.drain(..).collect();
        match list.len() {
            0 => Command::Noop,
            1 => Command::Remove(list[0]),
            _ => Command::RemoveBulk(list.into_iter().map(Some).collect()),
        }
    }

    fn on_insert(&mut self, entry: EntryId, _: &u8) -> Command {
        let mut state = self.state.borrow_mut();
        state.inserted.push(entry);
        if state.report_on_insert {
            Command::Remove(entry)
        } else {
            Command::Noop
        }
    }

    fn on_resize(&mut self) -> Command {
        Command::Noop
    }
}

fn some_ids(n: usize) -> Vec<EntryId> {
    let script = Script::default();
    let mut map = HashMap::new(script.clone());
    for i in 0..n {
        map.insert(i, (), 0);
    }
    let ids = script.state.borrow().inserted.clone();
    ids
}

fn at(millis: u128) -> Instant {
    Instant { nanos: millis * 1_000_000 }
}

fn listed(command: Command) -> Option<Vec<Option<EntryId>>> {
    match command {
        Command::Remove(id) => Some(vec![Some(id)]),
        Command::RemoveBulk(list) => Some(list),
        Command::Noop => None,
    }
}

#[test]
fn ids_are_all_different() {
    let ids = some_ids(100);
    for i in 0..100 {
        for j in 0..i {
            assert_ne!(ids[i], ids[j]);
        }
    }
}

#[test]
fn a_reported_entry_is_hidden_at_once_and_taken_out_later() {
    let script = Script::default();
    let mut map = HashMap::new(script.clone());
    map.insert("a", 1, 0);
    map.insert("b", 2, 0);
    let a = script.state.borrow().inserted[0];

    script.state.borrow_mut().report_on_access.push(a);
    assert_eq!(map.get(&"b"), Some(&2));
    assert_eq!(map.len_approx(), 2);
    assert_eq!(map.len(), 1);
    assert_eq!(map.get(&"a"), None);
    assert_eq!(map.get_mut(&"a"), None);
    match map.entry("a") {
        Entry::Occupied(_) => unreachable!(),
        Entry::Vacant(entry) => assert_eq!(entry.key(), &"a"),
    }

    map.insert("c", 3, 0);
    assert_eq!(map.len_approx(), 2);
    assert_eq!(map.get(&"a"), None);
    assert_eq!(map.get(&"b"), Some(&2));
    assert_eq!(map.get(&"c"), Some(&3));
}

#[test]
fn one_list_is_dealt_with_at_a_time() {
    let script = Script::default();
    let mut map = HashMap::new(script.clone());
    for i in 0..6 {
        map.insert(i, i, 0);
    }
    let ids = script.state.borrow().inserted.clone();

    script.state.borrow_mut().report_on_access = vec![ids[0], ids[1]];
    assert_eq!(map.get(&5), Some(&5));
    script.state.borrow_mut().report_on_access = vec![ids[2]];
    assert_eq!(map.get(&5), Some(&5));
    assert_eq!(map.len_approx(), 6);
    assert_eq!(map.len(), 3);

    assert_eq!(map.remove(&9), None);
    assert_eq!(map.len_approx(), 4);
    assert_eq!(map.remove(&9), None);
    assert_eq!(map.len_approx(), 3);
    assert_eq!(map.remove(&9), None);
    assert_eq!(map.len_approx(), 3);
    assert_eq!(map.get(&3), Some(&3));
    assert_eq!(map.get(&4), Some(&4));
}

#[test]
fn an_id_that_is_reported_twice_does_no_harm() {
    let script = Script::default();
    let mut map = HashMap::new(script.clone());
    map.insert(0, 0, 0);
    map.insert(1, 1, 0);
    let ids = script.state.borrow().inserted.clone();
    for _ in 0..2 {
        script.state.borrow_mut().report_on_access = vec![ids[0], ids[0]];
        assert_eq!(map.get(&1), Some(&1));
    }
    assert_eq!(map.remove(&9), None);
    assert_eq!(map.remove(&9), None);
    assert_eq!(map.len_approx(), 1);
    assert_eq!(map.get(&1), Some(&1));
}

#[test]
fn an_entry_that_is_inserted_anew_goes_by_a_new_id() {
    let script = Script::default();
    let mut map = HashMap::new(script.clone());
    map.insert("a", 1, 0);
    assert_eq!(map.insert("a", 2, 0), Some(1));
    let ids = script.state.borrow().inserted.clone();
    assert_ne!(ids[0], ids[1]);

    script.state.borrow_mut().report_on_access.push(ids[0]);
    assert_eq!(map.get(&"a"), Some(&2));
    assert_eq!(map.get(&"a"), Some(&2));
    map.insert("b", 3, 0);
    assert_eq!(map.get(&"a"), Some(&2));
    assert_eq!(*script.state.borrow().accessed.last().unwrap(), ids[1]);
}

#[test]
fn an_entry_that_is_reported_when_inserted_is_never_shown() {
    let script = Script::default();
    script.state.borrow_mut().report_on_insert = true;
    let mut map = HashMap::new(script.clone());
    assert_eq!(map.insert("a", 1, 0), None);
    assert_eq!(map.get(&"a"), None);
    assert_eq!(map.insert("a", 2, 0), None);
}

#[test]
fn a_value_set_in_hand_escapes_the_report_of_its_insertion() {
    let script = Script::default();
    let mut map = HashMap::new(script.clone());
    map.insert("a", 1, 0);
    script.state.borrow_mut().report_on_insert = true;
    if let Entry::Occupied(mut entry) = map.entry("a") {
        assert_eq!(entry.insert(2, 0), 1);
    }
    assert_eq!(map.get(&"a"), Some(&2));
    script.state.borrow_mut().report_on_insert = false;
    map.insert("b", 3, 0);
    assert_eq!(map.get(&"a"), None);
}

#[test]
fn what_the_policy_finds_expired_is_left_out_everywhere() {
    let script = Script::default();
    let mut map = HashMap::new(script.clone());
    map.insert("a", 1, 0);
    map.insert("b", 2, 0);
    let a = script.state.borrow().inserted[0];
    script.state.borrow_mut().expired.push(a);

    assert_eq!(map.get(&"a"), None);
    assert_eq!(map.get_key_value(&"a"), None);
    assert!(!map.contains_key(&"a"));
    assert_eq!(map.len(), 1);
    assert_eq!(map.keys().next(), Some(&"b"));
    assert_eq!(map.remove(&"a"), None);
    assert_eq!(map.len_approx(), 1);
}

#[test]
fn removal_in_hand_gives_the_entry_out_whatever_the_policy_says() {
    let script = Script::default();
    let mut map = HashMap::new(script.clone());
    map.insert("a", 1, 0);
    let a = script.state.borrow().inserted[0];
    if let Entry::Occupied(entry) = map.entry("a") {
        script.state.borrow_mut().expired.push(a);
        assert_eq!(entry.remove_entry(), ("a", 1));
    }
    assert_eq!(map.len_approx(), 0);
}

#[test]
fn clear_and_drain_tell_the_policy() {
    let script = Script::default();
    let mut map = HashMap::new(script.clone());
    map.insert("a", 1, 0);
    map.clear();
    assert_eq!(script.state.borrow().cleared, 1);
    map.insert("b", 2, 0);
    assert_eq!(map.drain().next(), Some(("b", 2)));
    assert_eq!(script.state.borrow().cleared, 2);
}

#[test]
fn growing_deals_with_the_whole_backlog() {
    let script = Script::default();
    let mut map = HashMap::new(script.clone());
    map.insert(0, 0, 0);
    let room = map.capacity();
    for i in 1..room {
        map.insert(i, i, 0);
    }
    assert_eq!(map.capacity(), room);
    let ids = script.state.borrow().inserted.clone();
    for id in &ids[..2] {
        script.state.borrow_mut().report_on_access = vec![*id];
        assert_eq!(map.get(&(room - 1)), Some(&(room - 1)));
    }
    assert_eq!(map.len_approx(), room);
    map.insert(room, room, 0);
    map.insert(room + 1, room + 1, 0);
    assert_eq!(map.len_approx(), room);
    assert_eq!(map.len(), room);
    for i in 2..room + 2 {
        assert_eq!(map.get(&i), Some(&i));
    }
}

#[test]
fn many_entries_survive_growing() {
    let mut map = HashMap::new(LazyFixedTTLPolicy::new(Duration::from_secs(100)));
    for i in 0..10_000u32 {
        assert_eq!(map.insert(i, i * 2, ()), None);
    }
    assert_eq!(map.len(), 10_000);
    assert!(map.capacity() >= 10_000);
    for i in 0..10_000u32 {
        assert_eq!(map.get(&i), Some(&(i * 2)));
    }
    for i in (0..10_000u32).step_by(2) {
        assert_eq!(map.remove(&i), Some(i * 2));
    }
    assert_eq!(map.len(), 5_000);
    for i in 0..10_000u32 {
        assert_eq!(map.contains_key(&i), i % 2 == 1);
    }
}

#[test]
fn spans_and_points_in_time() {
    assert_eq!(Duration::from_secs(3).nanos, 3_000_000_000);
    assert_eq!(Duration::from_millis(3).nanos, 3_000_000);
    assert_eq!(Duration::from_millis(2_999).as_secs(), 2);
    assert_eq!(Duration { nanos: 2_999_999 }.as_millis(), 2);
    assert_eq!(at(5).plus(Duration::from_millis(7)), at(12));
    let end = Instant { nanos: u128::MAX };
    assert_eq!(end.plus(Duration::from_millis(1)), end);
}

#[test]
fn clocks_run_forward() {
    let mut clock = Clock::start();
    let mut last = clock.now();
    for _ in 0..1_000 {
        let now = clock.now();
        assert!(last.nanos <= now.nanos);
        last = now;
    }
    let start = std::time::Instant::now();
    while start.elapsed() < std::time::Duration::from_millis(5) {}
    assert!(clock.now().nanos >= last.nanos + 5_000_000);
}

#[test]
fn a_clock_shows_the_latest_reading() {
    let mut clock = Clock::start();
    assert_eq!(clock.read(70), Instant { nanos: 70 });
    assert_eq!(clock.read(50), Instant { nanos: 70 });
    assert_eq!(clock.read(90), Instant { nanos: 90 });
}

#[test]
fn points_in_time_fall_in_slots() {
    let by = Precision::new(Duration::from_millis(100));
    assert_eq!(align_instant(at(250), at(0), &by), at(300));
    assert_eq!(align_instant(at(300), at(0), &by), at(400));
    assert_eq!(align_instant(at(1), at(0), &by), at(100));
    assert_eq!(align_instant(at(0), at(0), &by), at(0));
    assert_eq!(align_instant(at(250), at(30), &by), at(330));
    assert_eq!(align_instant(at(30), at(30), &by), at(30));
    assert_eq!(align_instant(at(20), at(30), &by), at(30));
    let odd = Instant { nanos: 250_999_999 };
    assert_eq!(align_instant(odd, at(0), &by), Instant { nanos: 300_999_999 });
}

#[test]
fn fixed_lifetimes_end_on_time() {
    assert!(!LazyFixedTTLPolicy::is_expired_at(&at(10), at(9)));
    assert!(LazyFixedTTLPolicy::is_expired_at(&at(10), at(10)));
    assert!(LazyFixedTTLPolicy::is_expired_at(&at(10), at(11)));
    let id = some_ids(1)[0];
    assert_eq!(listed(LazyFixedTTLPolicy::on_access_at(id, &at(10), at(9))), None);
    assert_eq!(listed(LazyFixedTTLPolicy::on_access_at(id, &at(10), at(10))), Some(vec![Some(id)]));
    let mut policy = LazyFixedTTLPolicy::new(Duration::from_secs(5));
    let deadline = policy.init_storage(());
    assert!(deadline.nanos >= 5_000_000_000);
    assert!(!policy.is_expired(id, &deadline));
    assert!(policy.is_expired(id, &at(0)));
    assert_eq!(listed(policy.on_insert(id, &deadline)), None);
    assert_eq!(listed(policy.on_resize()), None);
}

#[test]
fn lifetimes_end_on_time() {
    assert!(!TTLPolicy::is_expired_at(&at(10), at(9)));
    assert!(!TTLPolicy::is_expired_at(&at(10), at(10)));
    assert!(TTLPolicy::is_expired_at(&at(10), at(11)));
}

#[test]
fn slots_are_looked_through_once_in_a_while() {
    let ids = some_ids(4);
    let mut policy = TTLPolicy::with_presision(Duration::from_millis(10));
    assert_eq!(listed(policy.on_access_at(at(100_000))), None);
    assert_eq!(listed(policy.on_insert_at(ids[0], &at(1_000_005), at(500_000))), None);
    assert_eq!(listed(policy.on_insert_at(ids[1], &at(1_000_009), at(500_001))), None);
    assert_eq!(listed(policy.on_insert_at(ids[2], &at(1_000_015), at(500_002))), None);
    assert_eq!(listed(policy.on_access_at(at(1_000_009))), None);
    assert_eq!(listed(policy.on_access_at(at(1_000_018))), None);
    assert_eq!(
        listed(policy.on_access_at(at(1_000_019))),
        Some(vec![Some(ids[0]), Some(ids[1])]),
    );
    assert_eq!(listed(policy.on_access_at(at(1_000_028))), None);
    assert_eq!(listed(policy.on_access_at(at(1_000_029))), Some(vec![Some(ids[2])]));
    assert_eq!(listed(policy.on_access_at(at(2_000_000))), None);
    policy.on_insert_at(ids[3], &at(3_000_000), at(2_000_000));
    policy.clear();
    assert_eq!(listed(policy.on_access_at(at(9_000_000))), None);
}

#[test]
fn no_more_than_sixteen_slots_are_looked_through() {
    let ids = some_ids(20);
    let mut policy = TTLPolicy::with_presision(Duration::from_millis(1));
    for (i, id) in ids.iter().enumerate() {
        policy.on_insert_at(*id, &at(1_000_000 + 10 * i as u128), at(1));
    }
    let first = listed(policy.on_access_at(at(2_000_000))).unwrap();
    assert_eq!(first, ids[..16].iter().map(|id| Some(*id)).collect::<Vec<_>>());
    let second = listed(policy.on_access_at(at(2_000_001))).unwrap();
    assert_eq!(second, ids[16..].iter().map(|id| Some(*id)).collect::<Vec<_>>());
}

#[test]
fn entries_are_reported_though_nobody_looks_at_them() {
    let mut map = HashMap::new(TTLPolicy::with_presision(Duration::from_millis(1)));
    map.insert("dead", 1, Duration::from_millis(1));
    map.insert("alive", 2, Duration::from_secs(100));
    let start = std::time::Instant::now();
    while start.elapsed() < std::time::Duration::from_millis(20) {}
    assert_eq!(map.len_approx(), 2);
    assert_eq!(map.get(&"alive"), Some(&2));
    map.insert("more", 3, Duration::from_secs(100));
    assert_eq!(map.len_approx(), 2);
    assert_eq!(map.get(&"dead"), None);
    assert_eq!(map.get(&"more"), Some(&3));
}

#[test]
fn a_look_gives_an_idle_entry_its_time_once_more() {
    let mut policy = TTIPolicy::with_presision(Duration::from_millis(10));
    let a = policy.init_storage_at(Duration::from_millis(100), at(0));
    let b = policy.init_storage_at(Duration::from_millis(100), at(0));
    assert_ne!(a.id, b.id);
    assert_eq!(a.deadline, at(100));
    assert!(!policy.is_expired_at(&a, at(99)));
    assert!(!policy.is_expired_at(&a, at(198)));
    assert!(policy.is_expired_at(&a, at(298)));
    assert!(policy.is_expired_at(&a, at(299)));
    assert!(policy.is_expired_at(&b, at(100)));
}

#[test]
fn idle_entries_are_reported_and_others_filed_anew() {
    let ids = some_ids(2);
    let mut policy = TTIPolicy::with_presision(Duration::from_millis(10));
    let tti = Duration::from_millis(100);
    let a = policy.init_storage_at(tti, at(1_000_000));
    let b = policy.init_storage_at(tti, at(1_000_000));
    assert_eq!(listed(policy.on_insert_at(ids[0], &a, at(1_000_000))), None);
    assert_eq!(listed(policy.on_insert_at(ids[1], &b, at(1_000_001))), None);
    assert!(!policy.is_expired_at(&b, at(1_000_090)));
    assert_eq!(listed(policy.on_access_at(at(1_000_109))), None);
    assert_eq!(listed(policy.on_access_at(at(1_000_119))), Some(vec![Some(ids[0])]));
    assert_eq!(listed(policy.on_access_at(at(1_000_195))), None);
    assert!(policy.is_expired_at(&a, at(1_000_195)));
    assert_eq!(listed(policy.on_access_at(at(1_000_215))), None);
    assert_eq!(listed(policy.on_access_at(at(1_000_230))), Some(vec![Some(ids[1])]));
    assert_eq!(listed(policy.on_access_at(at(1_000_300))), None);
}

#[test]
fn an_earliest_slot_may_hold_nothing_that_has_expired() {
    let ids = some_ids(1);
    let mut policy = TTIPolicy::with_presision(Duration::from_millis(10));
    let a = policy.init_storage_at(Duration::from_millis(100), at(1_000_000));
    policy.on_insert_at(ids[0], &a, at(1_000_000));
    assert!(!policy.is_expired_at(&a, at(1_000_099)));
    assert_eq!(listed(policy.on_access_at(at(1_000_110))), Some(vec![]));
    policy.clear();
    assert_eq!(listed(policy.on_access_at(at(9_000_000))), None);
}

#[test]
fn entries_live_as_long_as_they_are_looked_at() {
    let mut map = HashMap::new(TTIPolicy::new());
    map.insert("a", 1, Duration::from_millis(60));
    map.insert("b", 2, Duration::from_millis(60));
    let start = std::time::Instant::now();
    while start.elapsed() < std::time::Duration::from_millis(150) {
        assert_eq!(map.get(&"a"), Some(&1));
    }
    assert_eq!(map.get(&"b"), None);
}

#[test]
fn both_kinds_live_in_one_map() {
    let mut map = HashMap::new(MixedPolicy::new());
    map.insert("ttl", 1, Expiration::TTL(Duration::from_millis(60)));
    map.insert("tti", 2, Expiration::TTI(Duration::from_millis(60)));
    map.insert("long", 3, Expiration::TTL(Duration::from_secs(60)));
    let start = std::time::Instant::now();
    while start.elapsed() < std::time::Duration::from_millis(120) {
        assert_eq!(map.get(&"tti"), Some(&2));
    }
    assert_eq!(map.get(&"ttl"), None);
    assert_eq!(map.get(&"long"), Some(&3));
    map.clear();
    assert_eq!(map.get(&"tti"), None);
}

#[test]
fn mixed_storage_is_of_the_kind_that_was_asked_for() {
    let mut policy = MixedPolicy::with_presision(Duration::from_millis(50));
    let ttl = policy.init_storage(Expiration::TTL(Duration::from_secs(1)));
    assert!(matches!(ttl, Storage::TTL(_)));
    let tti = policy.init_storage(Expiration::TTI(Duration::from_secs(1)));
    assert!(matches!(tti, Storage::TTI(_)));
    let id = some_ids(1)[0];
    assert!(!policy.is_expired(id, &ttl));
    assert!(!policy.is_expired(id, &tti));
    assert_eq!(listed(policy.on_insert(id, &ttl)), None);
    assert_eq!(listed(policy.on_insert(id, &tti)), None);
    assert_eq!(listed(policy.on_access(id, &ttl)), None);
    assert_eq!(listed(policy.on_resize()), None);
}

#[test]
fn one_kind_does_not_report_the_other() {
    let ids = some_ids(2);
    let mut policy = MixedPolicy::with_presision(Duration::from_millis(1));
    let ttl = policy.init_storage(Expiration::TTL(Duration::from_millis(30)));
    let tti = policy.init_storage(Expiration::TTI(Duration::from_secs(60)));
    assert_eq!(listed(policy.on_insert(ids[0], &ttl)), None);
    assert_eq!(listed(policy.on_insert(ids[1], &tti)), None);
    let start = std::time::Instant::now();
    while start.elapsed() < std::time::Duration::from_millis(100) {}
    assert_eq!(listed(policy.on_access(ids[1], &tti)), None);
    assert!(policy.is_expired(ids[0], &ttl));
    assert_eq!(listed(policy.on_access(ids[0], &ttl)), Some(vec![Some(ids[0])]));
    assert_eq!(listed(policy.on_access(ids[0], &ttl)), None);
}

#[test]
fn a_look_through_the_slots_gives_an_entry_its_time_once_more() {
    let ids = some_ids(1);
    let mut policy = TTIPolicy::with_presision(Duration::from_millis(10));
    let a = policy.init_storage_at(Duration::from_millis(100), at(1_000_000));
    policy.on_insert_at(ids[0], &a, at(1_000_000));
    assert!(!policy.is_expired_at(&a, at(1_000_060)));
    assert_eq!(listed(policy.on_access_at(at(1_000_120))), Some(vec![]));
    assert!(!policy.is_expired_at(&a, at(1_000_219)));
    assert!(policy.is_expired_at(&a, at(1_000_319)));
}

#[test]
fn deadlines_outlive_a_clear() {
    let mut policy = TTIPolicy::new();
    let a = policy.init_storage_at(Duration::from_millis(100), at(1_000_000));
    assert!(!policy.is_expired_at(&a, at(1_000_060)));
    policy.clear();
    assert!(!policy.is_expired_at(&a, at(1_000_120)));
    assert!(policy.is_expired_at(&a, at(1_000_220)));
}

#[test]
fn each_insertion_is_reported_once() {
    let ids = some_ids(40);
    let mut policy = TTLPolicy::with_presision(Duration::from_millis(10));
    for (i, id) in ids.iter().enumerate() {
        policy.on_insert_at(*id, &at(1_000_001 + 7 * i as u128), at(1_000_000));
    }
    let mut seen = Vec::new();
    for i in 0..60 {
        if let Some(list) = listed(policy.on_access_at(at(1_001_000 + 20 * i))) {
            seen.extend(list.into_iter().flatten());
        }
    }
    let mut expected = ids.clone();
    expected.sort();
    seen.sort();
    assert_eq!(seen, expected);
}

#[test]
fn entries_live_through_what_is_done_to_others() {
    let mut map = HashMap::new(TTLPolicy::with_presision(Duration::from_millis(1)));
    map.insert("short", 1, Duration::from_millis(40));
    map.insert("long", 2, Duration::from_secs(60));
    assert_eq!(map.get(&"short"), Some(&1));
    let start = std::time::Instant::now();
    while start.elapsed() < std::time::Duration::from_millis(120) {
        map.insert("other", 3, Duration::from_millis(5));
        map.remove(&"other");
        assert!(map.len() >= 1);
    }
    assert_eq!(map.get(&"short"), None);
    assert_eq!(map.get(&"short"), None);
    assert_eq!(map.get(&"long"), Some(&2));
}

#[test]
fn drained_entries_are_asked_about_in_turn() {
    let mut map = HashMap::new(LazyFixedTTLPolicy::new(Duration::from_millis(60)));
    for i in 0..4 {
        map.insert(i, i, ());
    }
    let room = map.capacity();
    let mut drain = map.drain();
    assert!(drain.next().is_some());
    let start = std::time::Instant::now();
    while start.elapsed() < std::time::Duration::from_millis(100) {}
    assert_eq!(drain.next(), None);
    assert_eq!(map.len_approx(), 0);
    assert!(map.capacity() >= room);
}

#[test]
fn slots_are_counted_from_the_first_entry_on() {
    let ids = some_ids(2);
    let mut policy = TTLPolicy::with_presision(Duration::from_millis(10));
    policy.on_insert_at(ids[0], &at(1_000_104), at(1_000_004));
    policy.on_insert_at(ids[1], &at(1_000_105), at(1_000_005));
    assert_eq!(listed(policy.on_access_at(at(1_000_113))), None);
    assert_eq!(
        listed(policy.on_access_at(at(1_000_124))),
        Some(vec![Some(ids[0]), Some(ids[1])])
    );
    let mut other = TTIPolicy::with_presision(Duration::from_millis(10));
    let a = other.init_storage_at(Duration::from_millis(100), at(1_000_004));
    other.on_insert_at(ids[0], &a, at(1_000_004));
    assert_eq!(listed(other.on_access_at(at(1_000_113))), None);
    assert_eq!(listed(other.on_access_at(at(1_000_124))), Some(vec![Some(ids[0])]));
}
