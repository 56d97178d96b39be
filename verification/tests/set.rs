use endorphin::policy::LazyFixedTTLPolicy;
use endorphin::set::HashSet;
use endorphin::time::Duration;

type Numbers = HashSet<u32, LazyFixedTTLPolicy, hashbrown::hash_map::DefaultHashBuilder>;

fn lasting() -> LazyFixedTTLPolicy {
    LazyFixedTTLPolicy::new(Duration::from_secs(100))
}

fn numbers(members: &[u32]) -> Numbers {
    let mut set = HashSet::new(lasting());
    for m in members {
        set.insert(*m, ());
    }
    set
}

fn expired(members: &[u32]) -> Numbers {
    let mut set = HashSet::new(LazyFixedTTLPolicy::new(Duration { nanos: 0 }));
    for m in members {
        set.insert(*m, ());
    }
    set
}

fn sorted(mut members: Vec<u32>) -> Vec<u32> {
    members.sort();
    members
}

#[test]
fn members_come_and_go() {
    let mut set = HashSet::new(lasting());
    assert!(set.is_empty());
    assert!(set.insert("a", ()));
    assert!(!set.insert("a", ()));
    assert!(set.contains(&"a"));
    assert!(!set.contains(&"b"));
    assert_eq!(set.get(&"a"), Some(&"a"));
    assert_eq!(set.get(&"b"), None);
    assert_eq!(set.len(), 1);
    assert_eq!(set.len_approx(), 1);
    assert!(set.remove(&"a"));
    assert!(!set.remove(&"a"));
    assert!(!set.contains(&"a"));
    assert!(set.insert("c", ()));
    assert_eq!(set.take(&"c"), Some("c"));
    assert_eq!(set.take(&"c"), None);
    assert!(set.is_empty());
}

#[test]
fn replace_swaps_equal_members() {
    let mut set = HashSet::new(lasting());
    assert_eq!(set.replace(Vec::<u32>::new(), ()), None);
    assert_eq!(set.replace(Vec::with_capacity(10), ()).unwrap().capacity(), 0);
    assert_eq!(set.take(&Vec::new()).unwrap().capacity(), 10);
}

#[test]
fn expired_members_do_not_count() {
    let mut set = expired(&[1, 2]);
    assert_eq!(set.len(), 0);
    assert_eq!(set.len_approx(), 2);
    assert!(set.is_empty());
    assert!(!set.contains(&1));
    assert_eq!(set.get(&1), None);
    assert!(set.insert(1, ()));
    assert_eq!(set.replace(1, ()), None);
    assert_eq!(set.take(&1), None);
    assert!(!set.remove(&2));
    assert_eq!(set.iter().next(), None);
}

#[test]
fn set_memory_is_reserved_and_given_back() {
    let mut set: Numbers = HashSet::with_capacity(20, lasting());
    assert!(set.capacity() >= 20);
    set.insert(1, ());
    set.shrink_to(10);
    assert!(set.capacity() >= 10);
    set.shrink_to_fit();
    assert!(set.capacity() >= 1);
    set.reserve(50);
    assert!(set.capacity() >= 51);
    assert!(set.contains(&1));
    set.clear();
    assert_eq!(set.len_approx(), 0);
}

#[test]
fn members_are_walked_over_and_drained() {
    let mut set = numbers(&[1, 2, 3]);
    let mut met = Vec::new();
    let mut iter = set.iter();
    while let Some(m) = iter.next() {
        met.push(*m);
    }
    assert_eq!(sorted(met), vec![1, 2, 3]);
    let mut drained = Vec::new();
    let mut drain = set.drain();
    while let Some(m) = drain.next() {
        drained.push(m);
    }
    assert_eq!(sorted(drained), vec![1, 2, 3]);
    assert!(set.is_empty());
}

#[test]
fn difference_leaves_out_what_is_in_the_other() {
    let mut a = numbers(&[1, 2, 3]);
    let mut b = numbers(&[2, 3, 4]);
    let mut found = Vec::new();
    let mut members = a.difference(&mut b);
    while let Some(m) = members.next() {
        found.push(*m);
    }
    assert_eq!(found, vec![1]);

    let mut gone = expired(&[2, 3, 4]);
    let mut found = Vec::new();
    let mut members = a.difference(&mut gone);
    while let Some(m) = members.next() {
        found.push(*m);
    }
    assert_eq!(sorted(found), vec![1, 2, 3]);
}

#[test]
fn symmetric_difference_leaves_out_what_is_in_both() {
    let mut a = numbers(&[1, 2, 3]);
    let mut b = numbers(&[2, 3, 4]);
    let mut found = Vec::new();
    let mut members = a.symmetric_difference(&mut b);
    while let Some(m) = members.next() {
        found.push(*m);
    }
    assert_eq!(found, vec![1, 4]);
}

#[test]
fn intersection_is_what_is_in_both() {
    let mut a = numbers(&[1, 2, 3, 5]);
    let mut b = numbers(&[2, 3, 4]);
    for swap in [false, true] {
        let mut found = Vec::new();
        let mut members = if swap {
            b.intersection(&mut a)
        } else {
            a.intersection(&mut b)
        };
        while let Some(m) = members.next() {
            found.push(*m);
        }
        assert_eq!(sorted(found), vec![2, 3]);
    }
}

#[test]
fn union_is_what_is_in_either() {
    let mut a = numbers(&[1, 2, 3, 5]);
    let mut b = numbers(&[2, 3, 4]);
    for swap in [false, true] {
        let mut found = Vec::new();
        let mut members = if swap {
            b.union(&mut a)
        } else {
            a.union(&mut b)
        };
        while let Some(m) = members.next() {
            found.push(*m);
        }
        assert_eq!(found.last(), Some(&4));
        assert_eq!(sorted(found), vec![1, 2, 3, 4, 5]);
    }
}

#[test]
fn sets_are_compared() {
    let mut a = numbers(&[1, 2]);
    let mut b = numbers(&[1, 2, 3]);
    let mut c = numbers(&[4]);
    let mut none = numbers(&[]);
    assert!(a.is_subset(&mut b));
    assert!(!b.is_subset(&mut a));
    assert!(b.is_superset(&mut a));
    assert!(!a.is_superset(&mut b));
    assert!(!c.is_subset(&mut b));
    assert!(a.is_disjoint(&mut c));
    assert!(!a.is_disjoint(&mut b));
    assert!(none.is_subset(&mut a));
    assert!(none.is_disjoint(&mut a));
    assert!(a.is_disjoint(&mut none));
    let mut gone = expired(&[1, 2, 7]);
    assert!(gone.is_subset(&mut a));
    assert!(!a.is_subset(&mut gone));
    assert!(a.is_disjoint(&mut gone));
}

#[test]
fn a_member_is_had_or_inserted() {
    let mut set = numbers(&[1]);
    assert_eq!(set.get_or_insert(1, ()), &1);
    assert_eq!(set.len(), 1);
    assert_eq!(set.get_or_insert(2, ()), &2);
    assert_eq!(set.get_or_insert_owned(&3, ()), &3);
    assert_eq!(set.get_or_insert_owned(&3, ()), &3);
    assert_eq!(set.get_or_insert_with(&4, |n| *n, ()), &4);
    assert_eq!(set.get_or_insert_with(&4, |_| unreachable!(), ()), &4);
    assert_eq!(set.len(), 4);
    let mut gone = expired(&[7]);
    assert_eq!(gone.get_or_insert(7, ()), &7);
    assert_eq!(gone.len_approx(), 1);
}

#[test]
fn sets_have_the_room_that_was_asked_for() {
    let mut set = numbers(&[1, 2]);
    set.reserve(30);
    assert!(set.capacity() >= 32);
    set.shrink_to(10);
    assert!(set.capacity() >= 10 && set.capacity() <= 27);
    set.shrink_to_fit();
    assert!(set.capacity() >= 2 && set.capacity() <= 11);
    let room = set.capacity();
    assert!(set.drain().next().is_some());
    assert!(set.capacity() >= room);
    set.clear();
    assert!(set.capacity() >= room);
    set.shrink_to_fit();
    assert_eq!(set.capacity(), 0);
}

#[test]
fn members_are_looked_for_in_turn() {
    let mut a = numbers(&[1, 2, 3]);
    let mut b = numbers(&[2]);
    {
        let mut members = a.difference(&mut b);
        assert!(members.next().is_some());
        members.other.insert(1, ());
        members.other.insert(3, ());
        assert!(members.next().is_none());
    }
    assert_eq!(b.len(), 3);
}

#[test]
fn a_union_has_as_many_members_as_are_different() {
    let mut a = numbers(&[1, 2, 3, 4, 5]);
    let mut b = numbers(&[4, 5, 6]);
    let mut both = 0;
    let mut members = a.intersection(&mut b);
    while members.next().is_some() {
        both += 1;
    }
    let mut found = Vec::new();
    let mut members = a.union(&mut b);
    while let Some(m) = members.next() {
        found.push(*m);
    }
    assert_eq!(found.len() + both, a.len() + b.len());
    assert_eq!(sorted(found), vec![1, 2, 3, 4, 5, 6]);
}

#[test]
fn members_of_a_union_are_judged_in_turn() {
    let mut a = numbers(&[1, 2, 3]);
    let mut b = numbers(&[4]);
    {
        let mut members = a.union(&mut b);
        for _ in 0..3 {
            assert!(members.next().is_some());
        }
        members.larger.map.insert(4, (), ());
        assert_eq!(members.next(), None);
    }
    assert_eq!(a.len(), 4);
}

#[test]
fn members_of_a_symmetric_difference_are_looked_for_in_turn() {
    let mut a = numbers(&[1, 2]);
    let mut b = numbers(&[3]);
    {
        let mut members = a.symmetric_difference(&mut b);
        assert_eq!(members.next(), Some(&1));
        members.second.map.insert(2, (), ());
        members.first.map.insert(3, (), ());
        assert_eq!(members.next(), None);
    }
    assert_eq!(a.len(), 3);
    assert_eq!(b.len(), 2);
}
