//! Sharding: the keys are spread over a fixed number of stores, so that
//! requests for keys in different shards need not wait for each other.
//!
//! A key always lives in the same shard, the one that its hash picks. A
//! driver may guard each shard with a lock of its own and use [`shard_of`]
//! to pick the lock; [`ShardedStore`] is the same arrangement without the
//! locks, and behaves as one store.

use crate::payload::contents;
use crate::store::{KeyValue, Store};
use bytes::Bytes;
use vstd::prelude::*;
use vstd::utf8::encode_utf8;

verus! {

/// The state from which the FNV-1a hash starts.
pub const FNV_OFFSET: u64 = 0xcbf29ce484222325;

/// The factor of the FNV-1a hash.
pub const FNV_PRIME: u64 = 0x100000001b3;

/// The 64-bit FNV-1a hash after `bytes`, starting from `state`.
pub open spec fn fnv1a_from(state: u64, bytes: Seq<u8>) -> u64
    decreases bytes.len(),
{
    if bytes.len() == 0 {
        state
    } else {
        (((fnv1a_from(state, bytes.drop_last()) ^ (bytes.last() as u64)) * FNV_PRIME)
            % 0x1_0000_0000_0000_0000) as u64
    }
}

/// The 64-bit FNV-1a hash of `bytes`.
pub open spec fn fnv1a(bytes: Seq<u8>) -> u64 {
    fnv1a_from(FNV_OFFSET, bytes)
}

/// The shard, among `shards`, in which `key` lives.
pub open spec fn shard_index(key: Seq<char>, shards: nat) -> nat {
    (fnv1a(encode_utf8(key)) as nat) % shards
}

/// Computes the 64-bit FNV-1a hash of `bytes`.
pub fn hash_bytes(bytes: &[u8]) -> (h: u64)
    ensures
        h == fnv1a(bytes@),
{
    let mut h: u64 = FNV_OFFSET;
    let mut i: usize = 0;
    while i < bytes.len()
        invariant
            i <= bytes.len(),
            h == fnv1a_from(FNV_OFFSET, bytes@.take(i as int)),
        decreases bytes.len() - i,
    {
        let mixed = h ^ (bytes[i] as u64);
        proof {
            let t = bytes@.take(i + 1);
            assert(t.drop_last() == bytes@.take(i as int));
            assert(t.last() == bytes@[i as int]);
        }
        h = mixed.wrapping_mul(FNV_PRIME);
        i += 1;
    }
    assert(bytes@.take(bytes.len() as int) == bytes@);
    h
}

/// Picks the shard in which `key` lives.
pub fn shard_of(key: &str, shards: usize) -> (index: usize)
    requires
        shards > 0,
    ensures
        index == shard_index(key@, shards as nat),
        index < shards,
{
    (hash_bytes(key.as_bytes()) % (shards as u64)) as usize
}

/// A store in shards.
pub struct ShardedStore {
    shards: Vec<Store>,
}

impl ShardedStore {
    /// There is at least one shard, and every key is held by the shard in
    /// which it lives and by no other.
    pub closed spec fn well_formed(&self) -> bool {
        &&& self.shards.len() > 0
        &&& forall|i: int, key: Seq<char>|
            0 <= i < self.shards.len() && (#[trigger] self.shards[i]@.contains_key(key))
                ==> shard_index(key, self.shards.len() as nat) == i
    }

    /// The number of shards.
    pub closed spec fn shard_count(&self) -> nat {
        self.shards.len() as nat
    }
}

impl View for ShardedStore {
    type V = Map<Seq<char>, Seq<u8>>;

    closed spec fn view(&self) -> Map<Seq<char>, Seq<u8>> {
        Map::new(
            |key: Seq<char>|
                self.shards[shard_index(key, self.shards.len() as nat) as int]@.contains_key(key),
            |key: Seq<char>| self.shards[shard_index(key, self.shards.len() as nat) as int]@[key],
        )
    }
}

impl ShardedStore {
    /// A store of `shards` shards that holds nothing.
    pub fn new(shards: usize) -> (store: ShardedStore)
        requires
            shards > 0,
        ensures
            store.well_formed(),
            store.shard_count() == shards,
            store@ == Map::<Seq<char>, Seq<u8>>::empty(),
    {
        let mut all: Vec<Store> = Vec::new();
        let mut i: usize = 0;
        while i < shards
            invariant
                i <= shards,
                all.len() == i,
                forall|j: int| 0 <= j < i ==> (#[trigger] all[j])@ == Map::<
                    Seq<char>,
                    Seq<u8>,
                >::empty(),
            decreases shards - i,
        {
            all.push(Store::new());
            i += 1;
        }
        let store = ShardedStore { shards: all };
        assert(store@ =~= Map::<Seq<char>, Seq<u8>>::empty());
        store
    }

    /// The value stored under `key`, if there is one. The store is not
    /// changed.
    pub fn get(&self, key: &str) -> (value: Option<Bytes>)
        requires
            self.well_formed(),
        ensures
            match value {
                Some(b) => self@.contains_key(key@) && contents(b) == self@[key@],
                None => !self@.contains_key(key@),
            },
    {
        let index = shard_of(key, self.shards.len());
        self.shards[index].get(key)
    }

    /// Stores `value` under `key`, in place of what was stored there before,
    /// and leaves every other key as it was.
    pub fn set(&mut self, key: String, value: Bytes)
        requires
            old(self).well_formed(),
        ensures
            final(self).well_formed(),
            final(self).shard_count() == old(self).shard_count(),
            final(self)@ == old(self)@.insert(key@, contents(value)),
    {
        let index = shard_of(key.as_str(), self.shards.len());
        self.shards[index].set(key, value);
        assert(self@ =~= old(self)@.insert(key@, contents(value)));
    }
}

impl KeyValue for ShardedStore {
    open spec fn entries(&self) -> Map<Seq<char>, Seq<u8>> {
        self@
    }

    open spec fn usable(&self) -> bool {
        self.well_formed()
    }

    fn get(&self, key: &str) -> (value: Option<Bytes>) {
        ShardedStore::get(self, key)
    }

    fn set(&mut self, key: String, value: Bytes) {
        ShardedStore::set(self, key, value)
    }
}

} // verus!
