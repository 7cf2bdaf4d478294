//! The store: a mapping from text keys to binary values.
//!
//! Every operation is one in-memory step on the map. A driver that shares a
//! store between connections guards it with a lock and holds the lock for
//! the length of one call.
//!
//! [`KeyValue`] is what every store offers, however it is laid out;
//! [`Store`] is the plain one, a single map.

use crate::payload::contents;
use bytes::Bytes;
use vstd::hash_map::StringHashMap;
use vstd::prelude::*;

verus! {

/// What a store offers: reading the value under a key, and writing one.
pub trait KeyValue {
    /// What the store holds.
    spec fn entries(&self) -> Map<Seq<char>, Seq<u8>>;

    /// The store is in a state in which it can be used.
    spec fn usable(&self) -> bool;

    /// The value stored under `key`, if there is one. The store is not
    /// changed.
    fn get(&self, key: &str) -> (value: Option<Bytes>)
        requires
            self.usable(),
        ensures
            match value {
                Some(b) => self.entries().contains_key(key@) && contents(b) == self.entries()[key@],
                None => !self.entries().contains_key(key@),
            },
    ;

    /// Stores `value` under `key`, in place of what was stored there before,
    /// and leaves every other key as it was.
    fn set(&mut self, key: String, value: Bytes)
        requires
            old(self).usable(),
        ensures
            final(self).usable(),
            final(self).entries() == old(self).entries().insert(key@, contents(value)),
    ;
}

/// A mapping from keys to values.
pub struct Store {
    entries: StringHashMap<Bytes>,
}

impl View for Store {
    type V = Map<Seq<char>, Seq<u8>>;

    closed spec fn view(&self) -> Map<Seq<char>, Seq<u8>> {
        self.entries@.map_values(|b: Bytes| contents(b))
    }
}

impl Store {
    /// A store that holds nothing.
    pub fn new() -> (store: Store)
        ensures
            store@ == Map::<Seq<char>, Seq<u8>>::empty(),
    {
        let store = Store { entries: StringHashMap::new() };
        assert(store@ =~= Map::<Seq<char>, Seq<u8>>::empty());
        store
    }

    /// The value stored under `key`, if there is one. The store is not
    /// changed. The handle returned shares the stored bytes.
    pub fn get(&self, key: &str) -> (value: Option<Bytes>)
        ensures
            match value {
                Some(b) => self@.contains_key(key@) && contents(b) == self@[key@],
                None => !self@.contains_key(key@),
            },
    {
        match self.entries.get(key) {
            Some(b) => Some(b.clone()),
            None => None,
        }
    }

    /// Stores `value` under `key`, in place of what was stored there before,
    /// and leaves every other key as it was.
    pub fn set(&mut self, key: String, value: Bytes)
        ensures
            final(self)@ == old(self)@.insert(key@, contents(value)),
    {
        self.entries.insert(key, value);
        assert(self@ =~= old(self)@.insert(key@, contents(value)));
    }
}

impl KeyValue for Store {
    open spec fn entries(&self) -> Map<Seq<char>, Seq<u8>> {
        self@
    }

    open spec fn usable(&self) -> bool {
        true
    }

    fn get(&self, key: &str) -> (value: Option<Bytes>) {
        Store::get(self, key)
    }

    fn set(&mut self, key: String, value: Bytes) {
        Store::set(self, key, value)
    }
}

} // verus!
