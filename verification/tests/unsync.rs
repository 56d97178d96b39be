use std::time::Instant as StdInstant;

use endorphin::time::{Duration, Instant};
use endorphin::unsync::{
    plan, CleanUp, TTLTracer, Tick, UnsyncCache, UnsyncCacheInternal, ValueEntry,
};

fn secs(n: u128) -> Instant {
    Instant { nanos: n * 1_000_000_000 }
}

fn wait(millis: u64) {
    let start = StdInstant::now();
    while start.elapsed() < std::time::Duration::from_millis(millis) {}
}

#[test]
fn test1() {
    let mut cache = UnsyncCache::new();

    let now1 = StdInstant::now();
    for i in 0..10000000 {
        cache.insert(i, "hello!".to_string(), Duration::from_millis(100));
    }
    let now2 = StdInstant::now();

    println!("{:?}", now2 - now1);
}

#[test]
fn a_sign_comes_every_n_ticks() {
    let mut tick = Tick::<4>::new();
    let signs: Vec<bool> = (0..12).map(|_| tick.tick()).collect();
    for (i, sign) in signs.iter().enumerate() {
        assert_eq!(*sign, (i + 1) % 4 == 0);
    }
    tick.tick();
    tick.clear();
    assert_eq!(
        (0..4).map(|_| tick.tick()).collect::<Vec<_>>(),
        vec![false, false, false, true],
    );
    let mut always = Tick::<1>::new();
    assert!(always.tick() && always.tick());
}

#[test]
fn values_expire() {
    let mut entry = ValueEntry::new("v", secs(10));
    assert!(!entry.is_expired(secs(9)));
    assert!(!entry.is_expired(secs(10)));
    assert!(entry.is_expired(secs(11)));
    assert_eq!(entry.get(secs(10)), Some(&"v"));
    assert_eq!(entry.get(secs(11)), None);
    *entry.get_mut(secs(10)).unwrap() = "w";
    assert_eq!(entry.get_mut(secs(11)), None);
    assert_eq!(entry.take_inner(), Some("w"));
    assert!(entry.is_expired(secs(0)));
    assert_eq!(entry.get(secs(0)), None);
    assert_eq!(entry.into_inner(), None);
    assert_eq!(ValueEntry::new("v", secs(10)).into_inner(), Some("v"));
}

#[test]
fn entries_are_told_apart_by_number() {
    let entries: Vec<ValueEntry<u8>> = (0..16).map(|_| ValueEntry::new(0, secs(1))).collect();
    for i in 0..16 {
        for j in 0..16 {
            assert_eq!(entries[i] == entries[j], i == j);
        }
    }
}

#[test]
fn expired_values_are_counted_by_the_second() {
    let mut tracer = TTLTracer::new(secs(100));
    tracer.trace_ttl(secs(99));
    tracer.trace_ttl(secs(100));
    tracer.trace_ttl(Instant { nanos: 100_999_999_999 });
    tracer.trace_ttl(secs(101));
    tracer.trace_ttl(secs(105));
    assert_eq!(tracer.approx_count(secs(101)), 0);
    assert_eq!(tracer.approx_count(Instant { nanos: 101_000_000_001 }), 2);
    assert_eq!(tracer.approx_count(secs(103)), 3);
    assert_eq!(tracer.approx_count(secs(200)), 4);
    assert_eq!(tracer.expire_trace(secs(103)), 3);
    assert_eq!(tracer.approx_count(secs(103)), 0);
    assert_eq!(tracer.approx_count(secs(200)), 1);
    assert_eq!(tracer.expire_trace(secs(200)), 1);
    assert_eq!(tracer.expire_trace(secs(200)), 0);
}

#[test]
fn a_value_at_the_end_of_time_is_counted() {
    let mut tracer = TTLTracer::new(secs(0));
    let end = Instant { nanos: u128::MAX };
    tracer.trace_ttl(end);
    assert_eq!(tracer.approx_count(end), 0);
}

#[test]
fn clean_ups_are_planned() {
    assert_eq!(plan(true, 10, 28, 11), CleanUp::Leave);
    assert_eq!(plan(true, 10, 28, 0), CleanUp::Retain);
    assert_eq!(plan(true, 10, 28, 1), CleanUp::Resize(18));
    assert_eq!(plan(true, 10, 10, 10), CleanUp::Resize(0));
    assert_eq!(plan(false, 10, 28, 5), CleanUp::Leave);
    assert_eq!(plan(false, 27, 28, 0), CleanUp::Resize(56));
    assert_eq!(plan(false, 28, 28, 0), CleanUp::Resize(56));
    assert_eq!(plan(false, 0, 0, 0), CleanUp::Resize(0));
}

#[test]
fn cached_values_come_and_go() {
    let mut cache = UnsyncCache::new();
    let long = Duration::from_secs(100);
    assert_eq!(cache.get(&1), None);
    assert_eq!(cache.insert(1, "a", long), None);
    assert_eq!(cache.insert(1, "b", long), Some("a"));
    assert_eq!(cache.get(&1), Some(&"b"));
    *cache.get_mut(&1).unwrap() = "c";
    assert_eq!(cache.get(&1), Some(&"c"));
    assert_eq!(cache.get(&2), None);
    assert_eq!(cache.get_mut(&2), None);
    assert_eq!(cache.remove(&1), Some("c"));
    assert_eq!(cache.remove(&1), None);
    assert_eq!(cache.get(&1), None);
    cache.insert(2, "d", long);
    cache.clear();
    assert_eq!(cache.get(&2), None);
    assert_eq!(cache.insert(2, "e", long), None);
}

#[test]
fn cached_values_expire() {
    let mut cache = UnsyncCache::new();
    cache.insert(1, "a", Duration::from_millis(5));
    cache.insert(2, "b", Duration::from_secs(100));
    wait(6);
    assert_eq!(cache.get(&1), None);
    assert_eq!(cache.get_mut(&1), None);
    assert_eq!(cache.get(&2), Some(&"b"));
}

#[test]
fn values_survive_many_ticks() {
    let mut cache = UnsyncCache::new();
    for i in 0..1_000u32 {
        cache.insert(i, i + 1, Duration::from_secs(1_000));
    }
    for round in 0..300u32 {
        for i in 0..1_000u32 {
            assert_eq!(cache.get(&i), Some(&(i + 1)), "round {}", round);
        }
    }
}

#[test]
fn a_clean_up_takes_out_what_has_expired() {
    let mut cache = UnsyncCacheInternal::new();
    cache.insert(1, "a", Duration::from_millis(5));
    cache.insert(2, "b", Duration::from_secs(100));
    wait(6);
    cache.cleanup_resize(10);
    assert_eq!(cache.remove(&1), None);
    assert_eq!(cache.get(&2), Some(&"b"));
    cache.insert(3, "c", Duration::from_secs(1));
    cache.cleanup_resize_at(0, Instant { nanos: 50_000_000_000 });
    assert_eq!(cache.remove(&3), None);
    assert_eq!(cache.remove(&2), Some("b"));
    cache.tick();
    cache.clear();
    assert_eq!(cache.get(&2), None);
}

#[test]
fn an_expired_value_is_still_given_out_when_taken() {
    let mut cache = UnsyncCacheInternal::new();
    cache.insert(1, "a", Duration { nanos: 0 });
    wait(1);
    assert_eq!(cache.get(&1), None);
    assert_eq!(cache.remove(&1), Some("a"));
    cache.insert(1, "b", Duration { nanos: 0 });
    wait(1);
    assert_eq!(cache.insert(1, "c", Duration::from_secs(1)), Some("b"));
}

#[test]
fn one_tick_in_n_gives_a_sign() {
    for m in [0, 1, 6, 7, 8, 20, 21, 100] {
        let mut tick = Tick::<7>::new();
        let signs = (0..m).filter(|_| tick.tick()).count();
        assert_eq!(signs, m / 7);
    }
}

#[test]
fn no_value_is_counted_early_or_missed() {
    let millis = [0, 999, 1000, 1001, 2500, 7000, 7001, 9999];
    for now in (0..12_000).step_by(250) {
        let now = Instant { nanos: 50_000_000_000 + now * 1_000_000 };
        let mut tracer = TTLTracer::new(secs(50));
        let exps: Vec<Instant> = millis
            .iter()
            .rev()
            .map(|m| Instant { nanos: 50_000_000_000 + m * 1_000_000 })
            .collect();
        for e in &exps {
            tracer.trace_ttl(*e);
        }
        let overdue = exps.iter().filter(|e| e.nanos + 1_000_000_000 < now.nanos).count() as u64;
        let expired = exps.iter().filter(|e| e.nanos < now.nanos).count() as u64;
        let n = tracer.expire_trace(now);
        assert!(overdue <= n && n <= expired);
    }
}

#[test]
fn a_resized_cache_keeps_what_is_alive() {
    let mut cache = UnsyncCacheInternal::new();
    for i in 0..20 {
        cache.insert(i, i, Duration::from_secs(60));
    }
    cache.cleanup_resize(1000);
    for i in 0..20 {
        assert_eq!(cache.get(&i), Some(&i));
    }
}

#[test]
fn one_more_value_is_counted_past_its_slot() {
    let mut tracer = TTLTracer::new(secs(100));
    tracer.trace_ttl(secs(99));
    assert_eq!(tracer.approx_count(secs(1_000)), 0);
    tracer.trace_ttl(secs(100));
    assert_eq!(tracer.approx_count(secs(101)), 0);
    assert_eq!(tracer.approx_count(secs(102)), 1);
}

#[test]
fn what_is_forgotten_leaves_every_later_count() {
    let mut tracer = TTLTracer::new(secs(0));
    for n in 0..5 {
        tracer.trace_ttl(secs(n));
    }
    assert_eq!(tracer.approx_count(secs(100)), 5);
    assert_eq!(tracer.expire_trace(secs(3)), 2);
    assert_eq!(tracer.expire_trace(secs(3)), 0);
    assert_eq!(tracer.approx_count(secs(3)), 0);
    assert_eq!(tracer.approx_count(secs(4)), 1);
    assert_eq!(tracer.approx_count(secs(100)), 3);
}
