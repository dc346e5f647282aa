//! End-to-end tests of the storage engine on its in-memory segment image.

use std::collections::HashMap;

use kvs::codec::Command;
use kvs::error::KvsError;
use kvs::store::{FileOp, KvStore, COMPACTION_THRESHOLD_BYTES};

fn open_empty() -> KvStore {
    let mut store = KvStore::open(Vec::new()).expect("open of an empty directory must succeed");
    store.take_pending();
    store
}

fn set(store: &mut KvStore, key: &str, value: &str) {
    assert!(store.can_set(&key.to_string(), &value.to_string()));
    store.set(key.to_string(), value.to_string()).unwrap();
}

fn get(store: &KvStore, key: &str) -> Option<String> {
    store.get(key.to_string()).unwrap()
}

#[test]
fn basic_set_get_remove() {
    let mut store = open_empty();
    set(&mut store, "k1", "v1");
    set(&mut store, "k2", "v2");
    assert_eq!(get(&store, "k1"), Some("v1".to_string()));
    assert_eq!(get(&store, "k2"), Some("v2".to_string()));
    store.remove("k1".to_string()).unwrap();
    assert_eq!(get(&store, "k1"), None);
    assert_eq!(get(&store, "k2"), Some("v2".to_string()));
}

#[test]
fn overwrite_and_reopen() {
    let mut store = open_empty();
    set(&mut store, "k", "a");
    set(&mut store, "k", "b");
    set(&mut store, "k", "c");
    assert_eq!(get(&store, "k"), Some("c".to_string()));
    let reopened = KvStore::open(store.segments().clone()).unwrap();
    assert_eq!(get(&reopened, "k"), Some("c".to_string()));
}

#[test]
fn get_absent_returns_none() {
    let store = open_empty();
    assert_eq!(get(&store, "missing"), None);
}

#[test]
fn remove_absent_fails_with_key_not_found() {
    let mut store = open_empty();
    let err = store.remove("missing".to_string()).unwrap_err();
    assert!(matches!(err, KvsError::KeyNotFound));
    assert_eq!(err.message(), "Key not found");
}

#[test]
fn set_then_remove_then_get_is_none() {
    let mut store = open_empty();
    set(&mut store, "k", "v");
    store.remove("k".to_string()).unwrap();
    assert_eq!(get(&store, "k"), None);
}

#[test]
fn empty_key_and_value_are_legal() {
    let mut store = open_empty();
    set(&mut store, "", "");
    assert_eq!(get(&store, ""), Some(String::new()));
    set(&mut store, "", "x");
    assert_eq!(get(&store, ""), Some("x".to_string()));
    store.remove("".to_string()).unwrap();
    assert_eq!(get(&store, ""), None);
}

#[test]
fn unicode_keys_and_values() {
    let mut store = open_empty();
    set(&mut store, "clé", "välÿ₤");
    assert_eq!(get(&store, "clé"), Some("välÿ₤".to_string()));
    let reopened = KvStore::open(store.segments().clone()).unwrap();
    assert_eq!(get(&reopened, "clé"), Some("välÿ₤".to_string()));
}

#[test]
fn compaction_bounds_disk_usage() {
    let mut store = open_empty();
    let value: String = std::iter::repeat('x').take(1024).collect();
    for _ in 0..10_000 {
        set(&mut store, "k", &value);
        store.take_pending();
    }
    assert_eq!(get(&store, "k"), Some(value));
    // One live record plus at most the compaction threshold of slack, not
    // ten thousand records.
    assert!(store.log_bytes() < 2 * COMPACTION_THRESHOLD_BYTES);
    assert!(store.uncompacted_bytes() <= COMPACTION_THRESHOLD_BYTES);
    assert!(store.active_log_number() > 0);
}

#[test]
fn value_larger_than_threshold_is_stored() {
    let mut store = open_empty();
    let huge: String = std::iter::repeat('y')
        .take((COMPACTION_THRESHOLD_BYTES + 1024) as usize)
        .collect();
    set(&mut store, "big", &huge);
    set(&mut store, "big", "small");
    assert_eq!(get(&store, "big"), Some("small".to_string()));
    let reopened = KvStore::open(store.segments().clone()).unwrap();
    assert_eq!(get(&reopened, "big"), Some("small".to_string()));
}

#[test]
fn reopen_after_mixed_operations_matches_memory() {
    let mut store = open_empty();
    let mut expected: HashMap<String, String> = HashMap::new();
    for i in 0..1000u32 {
        let key = format!("key-{}", i % 50);
        if i % 7 == 3 && expected.contains_key(&key) {
            store.remove(key.clone()).unwrap();
            expected.remove(&key);
        } else {
            let value = format!("value-{}", i);
            set(&mut store, &key, &value);
            expected.insert(key, value);
        }
    }
    // Drop the handle without any explicit shutdown, keeping only the
    // on-disk image, and reopen it.
    let segments = store.segments().clone();
    drop(store);
    let reopened = KvStore::open(segments).unwrap();
    for i in 0..50u32 {
        let key = format!("key-{}", i);
        assert_eq!(get(&reopened, &key), expected.get(&key).cloned());
    }
}

#[test]
fn disjoint_key_writers_read_their_own_values() {
    // Sixteen interleaved writers over disjoint keys: every read returns
    // the value that writer set, whatever the interleaving.
    let mut store = open_empty();
    for round in 0..200u32 {
        for client in 0..16u32 {
            let key = format!("client-{}-key-{}", client, round);
            let value = format!("client-{}-value-{}", client, round);
            set(&mut store, &key, &value);
        }
    }
    for round in 0..200u32 {
        for client in 0..16u32 {
            let key = format!("client-{}-key-{}", client, round);
            let value = format!("client-{}-value-{}", client, round);
            assert_eq!(get(&store, &key), Some(value));
        }
    }
}

#[test]
fn open_empty_directory_creates_segment_zero() {
    let mut store = KvStore::open(Vec::new()).unwrap();
    assert_eq!(store.active_log_number(), 0);
    assert_eq!(store.log_bytes(), 0);
    let ops = store.take_pending();
    assert_eq!(ops, vec![FileOp::Create(0)]);
}

#[test]
fn set_queues_exactly_the_encoded_record() {
    let mut store = open_empty();
    set(&mut store, "k", "v");
    let ops = store.take_pending();
    let encoded = kvs::codec::encode_command(&Command::Put("k".to_string(), "v".to_string()));
    assert_eq!(ops, vec![FileOp::Append(0, encoded)]);
    store.remove("k".to_string()).unwrap();
    let ops = store.take_pending();
    let encoded = kvs::codec::encode_command(&Command::Remove("k".to_string()));
    assert_eq!(ops, vec![FileOp::Append(0, encoded)]);
}

#[test]
fn applying_pending_ops_mirrors_the_segments() {
    // A mock directory: applying the queued file operations keeps it
    // identical to the store's own segment image.
    let mut store = KvStore::open(Vec::new()).unwrap();
    let mut files: HashMap<u64, Vec<u8>> = HashMap::new();
    let value: String = std::iter::repeat('z').take(4096).collect();
    for i in 0..400u32 {
        let key = format!("key-{}", i % 3);
        if i % 11 == 5 {
            let _ = store.remove(key);
        } else {
            set(&mut store, &key, &value);
        }
        for op in store.take_pending() {
            match op {
                FileOp::Create(id) => {
                    files.insert(id, Vec::new());
                },
                FileOp::Append(id, mut bytes) => {
                    files.entry(id).or_insert_with(Vec::new).append(&mut bytes);
                },
                FileOp::Delete(id) => {
                    files.remove(&id);
                },
            }
        }
        let segments = store.segments();
        assert_eq!(files.len(), segments.len());
        for seg in segments {
            assert_eq!(files.get(&seg.log_number), Some(&seg.data));
        }
    }
    assert!(store.active_log_number() > 0, "compaction should have fired");
}

#[test]
fn open_rejects_a_truncated_segment() {
    let mut store = open_empty();
    set(&mut store, "k", "v");
    let mut segments = store.segments().clone();
    let data = &mut segments[0].data;
    data.truncate(data.len() - 1);
    match KvStore::open(segments) {
        Ok(_reopened) => panic!("a truncated record must fail the open"),
        Err(err) => assert!(matches!(err, KvsError::Decode(_))),
    }
}

#[test]
fn replay_accounts_superseded_bytes() {
    let mut store = open_empty();
    set(&mut store, "k", "first");
    set(&mut store, "k", "second");
    let superseded =
        kvs::codec::encode_command(&Command::Put("k".to_string(), "first".to_string())).len()
            as u64;
    assert_eq!(store.uncompacted_bytes(), superseded);
    // Replay on reopen accounts the same superseded bytes.
    let reopened = KvStore::open(store.segments().clone()).unwrap();
    assert_eq!(reopened.uncompacted_bytes(), superseded);
}

#[test]
fn contains_key_tracks_the_live_keys() {
    let mut store = open_empty();
    assert!(!store.contains_key(&"k".to_string()));
    set(&mut store, "k", "v");
    assert!(store.contains_key(&"k".to_string()));
    store.remove("k".to_string()).unwrap();
    assert!(!store.contains_key(&"k".to_string()));
}
