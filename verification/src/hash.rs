//! Hashing keys and telling them apart.
use std::hash::{BuildHasher, Hash};

use vstd::prelude::*;
use vstd::std_specs::cmp::PartialEqSpec;

use crate::model::Item;

verus! {

/// The declaration of `hashbrown::hash_map::DefaultHashBuilder`, whose value stays unread.
#[verifier::external_type_specification]
#[verifier::external_body]
pub struct ExDefaultHashBuilder(hashbrown::hash_map::DefaultHashBuilder);

/// The hash that a builder gives a key, where the two are steady: some fixed function of the two,
/// of which no more is known. It is a name for what `make_hash` returns; `arbitrary` stands in for
/// a function without a body, which could not be generic in the key.
pub open spec fn hash_of<Q, H>(hash_builder: H, key: Q) -> u64 {
    arbitrary::<spec_fn(H, Q) -> u64>()(hash_builder, key)
}

/// The hashers of a builder are all alike: fed with the same bytes, they give the same hash. This
/// is some fixed property of the builder, of which no more is known than what `make_hash` and
/// `default_hash_builder` say; it is a name in the same way.
pub open spec fn is_steady<H>(hash_builder: H) -> bool {
    arbitrary::<spec_fn(H) -> bool>()(hash_builder)
}

/// Two keys stand for the same entry: they hash alike and compare equal. For a key type whose
/// `Hash` follows its `Eq` this is equality.
pub open spec fn same_key<K: Eq, H>(hash_builder: H, a: K, b: K) -> bool {
    &&& hash_of(hash_builder, a) == hash_of(hash_builder, b)
    &&& a.eq_spec(&b)
}

/// What is asked of a key type: that it feeds a hasher with the same bytes each time, which is the
/// least of what `obeys_key_model` says, and that `==` is a function of the two values and an
/// equivalence, as `Eq` demands.
pub open spec fn lawful_key<K: Eq>() -> bool {
    &&& vstd::std_specs::hash::obeys_key_model::<K>()
    &&& K::obeys_eq_spec()
    &&& forall|a: K| #[trigger] a.eq_spec(&a)
    &&& forall|a: K, b: K| #[trigger] a.eq_spec(&b) ==> b.eq_spec(&a)
    &&& forall|a: K, b: K, c: K|
        #[trigger] a.eq_spec(&b) && #[trigger] b.eq_spec(&c) ==> a.eq_spec(&c)
}

/// Keys that compare equal hash alike, as `Hash` demands of a type that has `Eq`.
pub open spec fn hash_follows<K: Eq, H>(hash_builder: H) -> bool {
    forall|a: K, b: K| #[trigger]
        a.eq_spec(&b) ==> hash_of(hash_builder, a) == hash_of(hash_builder, b)
}

/// To stand for the same entry is an equivalence of keys.
pub proof fn same_key_is_equivalence<K: Eq, H>(hash_builder: H, a: K, b: K, c: K)
    requires
        lawful_key::<K>(),
    ensures
        same_key(hash_builder, a, a),
        same_key(hash_builder, a, b) ==> same_key(hash_builder, b, a),
        same_key(hash_builder, a, b) && same_key(hash_builder, b, c) ==> same_key(
            hash_builder,
            a,
            c,
        ),
{
    assert(a.eq_spec(&a));
    assert(a.eq_spec(&b) ==> b.eq_spec(&a));
    assert(a.eq_spec(&b) && b.eq_spec(&c) ==> a.eq_spec(&c));
}

/// `BuildHasher::hash_one`: the hash of a key. Where the hashers of the builder are all alike and
/// the key feeds them with the same bytes each time, the hash is the same each time. Nothing is
/// said of it otherwise.
#[verifier::external_body]
pub(crate) fn make_hash<Q: Hash, H: BuildHasher>(hash_builder: &H, val: &Q) -> (hash: u64)
    ensures
        is_steady(*hash_builder) && vstd::std_specs::hash::obeys_key_model::<Q>() ==> hash
            == hash_of(*hash_builder, *val),
{
    hash_builder.hash_one(val)
}

/// `DefaultHashBuilder::default`: a builder with seeds of its own, which it gives to each of its
/// hashers. Nothing is said of the seeds.
#[verifier::external_body]
pub(crate) fn default_hash_builder() -> (
    hash_builder: hashbrown::hash_map::DefaultHashBuilder)
    ensures
        is_steady(hash_builder),
{
    Default::default()
}

/// The hash of a key that is being inserted.
pub fn make_insert_hash<K: Hash, H: BuildHasher>(hash_builder: &H, val: &K) -> (hash: u64)
    requires
        is_steady(*hash_builder),
        vstd::std_specs::hash::obeys_key_model::<K>(),
    ensures
        hash == hash_of(*hash_builder, *val),
{
    make_hash(hash_builder, val)
}

/// Whether two keys compare equal.
pub fn equivalent<K: Eq>(k: &K, x: &K) -> (equal: bool)
    requires
        K::obeys_eq_spec(),
    ensures
        equal == k.eq_spec(x),
{
    *k == *x
}

/// Whether an entry is for a key that compares equal.
pub fn equivalent_key<K: Eq, V, S>(k: &K, x: &Item<K, V, S>) -> (equal: bool)
    requires
        K::obeys_eq_spec(),
    ensures
        equal == k.eq_spec(&x.key),
{
    equivalent(k, &x.key)
}

} // verus!
