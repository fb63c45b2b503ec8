//! Tests for the version-chain store.

use versioned_map::treelike_no_trie::{VMapNoTrie, Version};
use versioned_map::VersionedMap;

#[test]
fn chain_get_inserted() {
    let mut store: VMapNoTrie<String, u32> = VMapNoTrie::new();
    let entries = vec![
        ("".to_owned(), 1u32),
        ("a".to_owned(), 2),
        ("ab".to_owned(), 3),
        ("abc".to_owned(), 4),
        ("zzz".to_owned(), 5),
    ];
    for (key, value) in entries.clone() {
        assert_eq!(None, store.get(&key));
        store.insert(key, value);
    }
    for (key, value) in &entries {
        assert_eq!(Some(value), store.get(key));
    }
}

#[test]
fn chain_remove_inserted() {
    let mut store: VMapNoTrie<String, u32> = VMapNoTrie::new();
    store.insert("one".to_owned(), 1);
    store.insert("two".to_owned(), 2);
    assert_eq!(Some(1), store.remove(&"one".to_owned()));
    assert_eq!(None, store.get(&"one".to_owned()));
    assert_eq!(Some(&2), store.get(&"two".to_owned()));
    assert_eq!(None, store.remove(&"one".to_owned()));
}

#[test]
fn chain_checkpoint_rollback_union() {
    let mut store: VMapNoTrie<String, u32> = VMapNoTrie::new();
    let a = vec![("p".to_owned(), 1u32), ("q".to_owned(), 2)];
    let b = vec![("r".to_owned(), 3u32), ("s".to_owned(), 4)];

    store.checkpoint("EMPTY".to_owned());
    for (k, v) in a.clone() {
        store.insert(k, v);
    }
    store.checkpoint("ONE".to_owned());
    for (k, v) in b.clone() {
        store.insert(k, v);
    }
    store.checkpoint("TWO".to_owned());

    for (k, v) in a.iter().chain(b.iter()) {
        assert_eq!(Some(v), store.get(k));
    }
    assert!(store.rollback("EMPTY".to_owned()));
    for (k, _v) in a.iter().chain(b.iter()) {
        assert_eq!(None, store.get(k));
    }
    assert!(store.rollback("ONE".to_owned()));
    for (k, v) in &a {
        assert_eq!(Some(v), store.get(k));
    }
    for (k, _v) in &b {
        assert_eq!(None, store.get(k));
    }
    assert!(store.rollback("TWO".to_owned()));
    for (k, v) in a.iter().chain(b.iter()) {
        assert_eq!(Some(v), store.get(k));
    }
}

#[test]
fn chain_checkpoint_rollback_difference() {
    let mut store: VMapNoTrie<String, u32> = VMapNoTrie::new();
    let full = vec![("p".to_owned(), 1u32), ("q".to_owned(), 2), ("r".to_owned(), 3)];
    let deleted = vec!["q".to_owned(), "r".to_owned()];

    for (k, v) in full.clone() {
        store.insert(k, v);
    }
    store.checkpoint("ONE".to_owned());
    for k in &deleted {
        store.remove(k);
    }
    store.checkpoint("TWO".to_owned());

    assert!(store.rollback("ONE".to_owned()));
    for (k, v) in &full {
        assert_eq!(Some(v), store.get(k));
    }
    assert!(store.rollback("TWO".to_owned()));
    for k in &deleted {
        assert_eq!(None, store.get(k));
    }
    assert_eq!(Some(&1), store.get(&"p".to_owned()));
}

#[test]
fn chain_snapshots_prune() {
    let mut store: VMapNoTrie<String, u32> = VMapNoTrie::new();
    store.checkpoint("EMPTY".to_owned());
    store.insert("alpha".to_owned(), 5);
    store.checkpoint("ONE".to_owned());
    store.prune();
    assert!(!store.rollback("EMPTY".to_owned()));
    assert_eq!(Some(&5), store.get(&"alpha".to_owned()));
    assert!(!store.rollback("ONE".to_owned()));
}

#[test]
fn chain_same_version_writes_coalesce() {
    let mut store: VMapNoTrie<String, u32> = VMapNoTrie::new();
    assert_eq!(None, store.insert("alpha".to_owned(), 5));
    assert_eq!(Some(5), store.insert("alpha".to_owned(), 6));
    assert_eq!(Some(6), store.insert("alpha".to_owned(), 7));
    assert_eq!(Some(&7), store.get(&"alpha".to_owned()));
    assert_eq!(Some(7), store.remove(&"alpha".to_owned()));
    assert_eq!(None, store.get(&"alpha".to_owned()));
}

#[test]
fn chain_key_created_after_checkpoint_reads_empty_on_rollback() {
    let mut store: VMapNoTrie<String, u32> = VMapNoTrie::new();
    store.insert("old".to_owned(), 1);
    store.checkpoint("T".to_owned());
    store.insert("new".to_owned(), 2);
    assert!(store.rollback("T".to_owned()));
    assert_eq!(Some(&1), store.get(&"old".to_owned()));
    assert_eq!(None, store.get(&"new".to_owned()));
    assert!(store.rollback("T".to_owned()));
    assert_eq!(None, store.get(&"new".to_owned()));
}

#[test]
fn chain_writes_after_rollback_land_on_restored_state() {
    let mut store: VMapNoTrie<String, u32> = VMapNoTrie::new();
    store.insert("alpha".to_owned(), 1);
    store.checkpoint("T".to_owned());
    store.insert("alpha".to_owned(), 2);
    assert!(store.rollback("T".to_owned()));
    assert_eq!(Some(&1), store.get(&"alpha".to_owned()));
    assert_eq!(Some(1), store.insert("alpha".to_owned(), 3));
    assert_eq!(Some(&3), store.get(&"alpha".to_owned()));
}

#[test]
fn version_num_reads_the_marker() {
    assert_eq!(4, Version::Actual(4).num());
    assert_eq!(9, Version::Link { linked_to: 2, this: 9 }.num());
}
