# Endorphin

Caches in memory whose entries expire, with the interface of a hash map or a hash set. When an
entry expires is up to a policy:

- `LazyFixedTTLPolicy`: all entries live for the same time, which is checked when an entry is
  looked at.
- `TTLPolicy`: each entry lives for a time of its own. Entries that have outlived it are reported
  even though nobody looks at them.
- `TTIPolicy`: each entry lives as long as it is looked at.
- `MixedPolicy`: some entries are of the one kind, some of the other.

Other policies can be written by implementing `ExpirePolicy`.

```rust
use endorphin::policy::TTLPolicy;
use endorphin::time::Duration;
use endorphin::HashMap;

let mut cache = HashMap::new(TTLPolicy::new());
cache.insert(1, "one", Duration::from_secs(3));
assert_eq!(cache.get(&1), Some(&"one"));
```

`unsync::UnsyncCache` is a simpler cache, whose values live for a given time and which cleans up
by itself once in a while.

## Layout

- `src/` is the library. It is verified with Verus.
  - `model.rs` says what a map is: its entries by id, the ids whose entries are gone, and the lists
    of entries that wait to be taken out. The contracts of `map/`, `set.rs` and the laws in
    `laws.rs` speak of it.
  - `table.rs` and `index.rs` hold the entries: buckets that stay where they are, and an index of
    hashes in a `hashbrown` raw table. `entry.rs` leads from ids to buckets through a `slotmap`.
    `backlog.rs` is the queue of lists, a `crossbeam` `SegQueue`.
  - `life.rs` says what can be done to a map, and how long an entry stays in it whatever is done in
    between.
  - `map/` and `set.rs` are the map and the set.
  - `policy/` has the trait and the four policies, each with the laws that it keeps. `records.rs`
    and `time.rs` serve them.
  - `unsync/` is the cache for one thread.
- `tests/` runs the library with the outside crates.
- `app/` has what Verus does not read: iterators, and maps that threads share.

A map is changed by a look at it, for the policy takes note of it; so the methods that look take
`&mut self`. Threads share a map behind a lock.

An outside result that a contract rests on is named or stated at one function that makes the
call; each says in its comment what it claims.
