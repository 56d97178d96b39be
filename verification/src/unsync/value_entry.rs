//! A value that expires.
use vstd::prelude::*;

use crate::time::Instant;

verus! {

/// A value that expires at a given point in time.
pub struct ValueEntry<V> {
    /// A number that tells entries apart.
    pub value_uid: u64,
    /// The point in time after which the value has expired.
    pub value_exp: Instant,
    /// The value, until it is taken out.
    pub value: Option<V>,
}

/// `rand::random`: a random number. Nothing is said of it.
#[verifier::external_body]
fn random_uid() -> (uid: u64) {
    rand::random()
}

impl<V> ValueEntry<V> {
    /// The value is gone, or its time has passed.
    pub open spec fn is_over(&self, now: Instant) -> bool {
        self.value is None || self.value_exp.nanos < now.nanos
    }

    /// A value that expires at `exp_at`, with a number of its own.
    pub fn new(value: V, exp_at: Instant) -> (entry: ValueEntry<V>)
        ensures
            entry.value == Some(value),
            entry.value_exp == exp_at,
    {
        ValueEntry { value_uid: random_uid(), value_exp: exp_at, value: Some(value) }
    }

    /// Whether the value has expired.
    pub fn is_expired(&self, now: Instant) -> (expired: bool)
        ensures
            expired == self.is_over(now),
    {
        self.value.is_none() || self.value_exp.nanos < now.nanos
    }

    /// The value, unless it has expired.
    pub fn get(&self, now: Instant) -> (value: Option<&V>)
        ensures
            value == (if self.is_over(now) {
                None
            } else {
                Some(&self.value.unwrap())
            }),
    {
        if self.is_expired(now) {
            None
        } else {
            self.value.as_ref()
        }
    }

    /// The value, for change in place, unless it has expired.
    pub fn get_mut(&mut self, now: Instant) -> (value: Option<&mut V>)
        ensures
            match value {
                Some(v) => {
                    &&& !old(self).is_over(now)
                    &&& *v == old(self).value.unwrap()
                    &&& *final(self) == (ValueEntry { value: Some(*final(v)), ..*old(self) })
                },
                None => old(self).is_over(now) && *final(self) == *old(self),
            },
    {
        if self.is_expired(now) {
            None
        } else {
            self.value.as_mut()
        }
    }

    /// The value, whether it has expired or not.
    pub fn into_inner(self) -> (value: Option<V>)
        ensures
            value == self.value,
    {
        self.value
    }

    /// Takes the value out, whether it has expired or not.
    pub fn take_inner(&mut self) -> (value: Option<V>)
        ensures
            value == old(self).value,
            *final(self) == (ValueEntry { value: None, ..*old(self) }),
    {
        self.value.take()
    }
}

impl<V> PartialEq for ValueEntry<V> {
    fn eq(&self, other: &Self) -> (equal: bool) {
        self.value_uid == other.value_uid
    }
}

impl<V> vstd::std_specs::cmp::PartialEqSpecImpl for ValueEntry<V> {
    open spec fn obeys_eq_spec() -> bool {
        true
    }

    /// Two entries are equal if they have the same number.
    open spec fn eq_spec(&self, other: &Self) -> bool {
        self.value_uid == other.value_uid
    }
}

impl<V> Eq for ValueEntry<V> {

}

} // verus!
