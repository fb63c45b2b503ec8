//! Tests for the naive baseline store, the key codec, and the
//! duplication capability.

use versioned_map::dup::DupValue;
use versioned_map::treelike::as_bytes::AsFromBytes;
use versioned_map::trivial::VMapTriv;
use versioned_map::VersionedMap;

#[test]
fn triv_get_inserted() {
    let mut store: VMapTriv<String, u32> = VMapTriv::new();
    let entries = vec![
        ("a".to_owned(), 2u32),
        ("ab".to_owned(), 3),
        ("abc".to_owned(), 4),
        ("zzz".to_owned(), 5),
    ];
    for (key, value) in entries.clone() {
        assert_eq!(None, store.get(&key));
        store.insert(key, value);
    }
    for (key, value) in &entries {
        assert_eq!(Some(value), store.get(key));
    }
}

#[test]
fn triv_remove_inserted() {
    let mut store: VMapTriv<String, u32> = VMapTriv::new();
    store.insert("one".to_owned(), 1);
    assert_eq!(Some(1), store.remove(&"one".to_owned()));
    assert_eq!(None, store.get(&"one".to_owned()));
    assert_eq!(None, store.remove(&"one".to_owned()));
}

#[test]
fn triv_checkpoint_rollback_union() {
    let mut store: VMapTriv<String, u32> = VMapTriv::new();
    store.checkpoint("EMPTY".to_owned());
    store.insert("p".to_owned(), 1);
    store.checkpoint("ONE".to_owned());
    store.insert("q".to_owned(), 2);
    store.checkpoint("TWO".to_owned());

    assert_eq!(Some(&1), store.get(&"p".to_owned()));
    assert_eq!(Some(&2), store.get(&"q".to_owned()));
    assert!(store.rollback("EMPTY".to_owned()));
    assert_eq!(None, store.get(&"p".to_owned()));
    assert_eq!(None, store.get(&"q".to_owned()));
    assert!(store.rollback("ONE".to_owned()));
    assert_eq!(Some(&1), store.get(&"p".to_owned()));
    assert_eq!(None, store.get(&"q".to_owned()));
    assert!(store.rollback("TWO".to_owned()));
    assert_eq!(Some(&1), store.get(&"p".to_owned()));
    assert_eq!(Some(&2), store.get(&"q".to_owned()));
}

#[test]
fn triv_snapshots_prune() {
    let mut store: VMapTriv<String, u32> = VMapTriv::new();
    store.checkpoint("EMPTY".to_owned());
    store.insert("alpha".to_owned(), 5);
    store.checkpoint("ONE".to_owned());
    store.prune();
    assert!(!store.rollback("EMPTY".to_owned()));
    assert_eq!(Some(&5), store.get(&"alpha".to_owned()));
    assert!(!store.rollback("ONE".to_owned()));
}

#[test]
fn triv_checkpoint_is_independent_copy() {
    let mut store: VMapTriv<String, u32> = VMapTriv::new();
    store.insert("alpha".to_owned(), 5);
    store.checkpoint("T".to_owned());
    store.insert("alpha".to_owned(), 9);
    assert_eq!(Some(&9), store.get(&"alpha".to_owned()));
    assert!(store.rollback("T".to_owned()));
    assert_eq!(Some(&5), store.get(&"alpha".to_owned()));
}

#[test]
fn codec_string_round_trip() {
    let key = "checkpoint-key".to_owned();
    let bytes = AsFromBytes::as_bytes(&key).to_vec();
    assert_eq!(b"checkpoint-key".to_vec(), bytes);
    let back: Option<String> = AsFromBytes::read_from(&bytes);
    assert_eq!(Some(key), back);
}

#[test]
fn codec_rejects_invalid_bytes() {
    let bad = vec![0xffu8, 0xfe, 0xfd];
    let back: Option<String> = AsFromBytes::read_from(&bad);
    assert_eq!(None, back);
}

#[test]
fn dup_values_are_equal_and_independent() {
    let v: u32 = 42;
    assert_eq!(42, v.dup());
    let s = "payload".to_owned();
    let copy = s.dup();
    assert_eq!(s, copy);
    drop(s);
    assert_eq!("payload", copy);
}
