use bytes::Bytes;
use my_redis::frame::Frame;
use my_redis::handler::{execute, State, Event};
use my_redis::shard::{hash_bytes, shard_of, ShardedStore};
use my_redis::store::{KeyValue, Store};

#[test]
fn the_hash_is_fnv1a() {
    assert_eq!(hash_bytes(b""), 0xcbf29ce484222325);
    assert_eq!(hash_bytes(b"a"), 0xaf63dc4c8601ec8c);
    assert_eq!(hash_bytes(b"foobar"), 0x85944171f73967e8);
}

#[test]
fn a_key_always_lives_in_the_same_shard() {
    for shards in [1usize, 2, 3, 16, 1000] {
        for key in ["", "hello", "world", "kéy", "a much longer key with spaces"] {
            let index = shard_of(key, shards);
            assert!(index < shards);
            assert_eq!(shard_of(key, shards), index);
            assert_eq!(index as u64, hash_bytes(key.as_bytes()) % shards as u64);
        }
    }
    assert_eq!(shard_of("anything", 1), 0);
    assert_eq!(shard_of("a", 16), 12);
}

#[test]
fn a_sharded_store_behaves_as_one_store() {
    for shards in [1usize, 2, 7, 64] {
        let mut store = ShardedStore::new(shards);
        assert_eq!(store.get("key-0"), None);
        for i in 0..100 {
            store.set(format!("key-{}", i), Bytes::from(format!("value-{}", i)));
        }
        for i in 0..100 {
            assert_eq!(store.get(&format!("key-{}", i)), Some(Bytes::from(format!("value-{}", i))));
        }
        assert_eq!(store.get("key-100"), None);
        store.set("key-7".to_string(), Bytes::from_static(b"again"));
        assert_eq!(store.get("key-7"), Some(Bytes::from_static(b"again")));
        assert_eq!(store.get("key-8"), Some(Bytes::from_static(b"value-8")));
    }
}

fn request(parts: &[&'static [u8]]) -> Frame {
    Frame::Array(parts.iter().map(|part| Frame::Bulk(Bytes::from_static(part))).collect())
}

/// Serves the same requests from any store and returns the replies.
fn replies<S: KeyValue>(store: &mut S) -> Vec<Frame> {
    let requests = vec![
        request(&[b"GET", b"a"]),
        request(&[b"SET", b"a", b"1"]),
        request(&[b"SET", b"b", b"2"]),
        request(&[b"GET", b"a"]),
        request(&[b"SET", b"a", b"3"]),
        request(&[b"DEL", b"a"]),
        request(&[b"GET", b"a"]),
        request(&[b"GET", b"b"]),
        request(&[b"GET", b"c"]),
    ];
    requests.into_iter().map(|frame| execute(store, frame)).collect()
}

#[test]
fn requests_are_served_alike_from_every_store() {
    let expected = vec![
        Frame::Null,
        Frame::Simple("OK".to_string()),
        Frame::Simple("OK".to_string()),
        Frame::Bulk(Bytes::from_static(b"1")),
        Frame::Simple("OK".to_string()),
        Frame::Error("ERR unknown command 'DEL'".to_string()),
        Frame::Bulk(Bytes::from_static(b"3")),
        Frame::Bulk(Bytes::from_static(b"2")),
        Frame::Null,
    ];
    assert_eq!(replies(&mut Store::new()), expected);
    for shards in [1usize, 2, 5, 32] {
        assert_eq!(replies(&mut ShardedStore::new(shards)), expected);
    }
}

#[test]
fn a_connection_is_served_from_a_sharded_store() {
    let mut store = ShardedStore::new(4);
    let state = State::start().on_event(Event::FrameRead(request(&[b"SET", b"k", b"v"])));
    let state = state.dispatch(&mut store);
    assert_eq!(state, State::Responding(Frame::Simple("OK".to_string())));
    assert_eq!(store.get("k"), Some(Bytes::from_static(b"v")));
    assert_eq!(KeyValue::get(&store, "k"), Some(Bytes::from_static(b"v")));
}
