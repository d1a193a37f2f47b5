//! A value carried together with a key, so that ordering- or hashing-
//! sensitive containers can arrange the pair by the key alone.

use vstd::prelude::*;

verus! {

/// A value paired with the key it is filed under.
pub struct Keyed<T, K>(T, K);

impl<T, K> Keyed<T, K> {
    /// The carried value.
    pub closed spec fn spec_value(&self) -> T {
        self.0
    }

    /// The key the value is filed under.
    pub closed spec fn spec_key(&self) -> K {
        self.1
    }

    /// Pair a value with a key.
    pub fn new(value: T, key: K) -> (r: Self)
        ensures
            r.spec_value() == value,
            r.spec_key() == key,
    {
        Keyed(value, key)
    }

    /// Borrow the carried value.
    pub fn value(&self) -> (r: &T)
        ensures
            *r == self.spec_value(),
    {
        &self.0
    }

    /// Borrow the key.
    pub fn key(&self) -> (r: &K)
        ensures
            *r == self.spec_key(),
    {
        &self.1
    }
}

/// Attach a key to any sized value.
pub trait ToKeyed: Sized {
    /// Pair `self` with `key`.
    fn with_key<K>(self, key: K) -> (r: Keyed<Self, K>)
        ensures
            r.spec_value() == self,
            r.spec_key() == key,
    ;
}

impl<T> ToKeyed for T {
    fn with_key<K>(self, key: K) -> (r: Keyed<T, K>) {
        Keyed(self, key)
    }
}

} // verus!
