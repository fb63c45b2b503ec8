//! Tests for the trie-backed store.

use versioned_map::treelike::VMapTree;
use versioned_map::VersionedMap;

fn common_prefixes() -> Vec<String> {
    vec![
        "".to_owned(),
        "a".to_owned(),
        "ab".to_owned(),
        "abc".to_owned(),
        "abcd".to_owned(),
    ]
}

/// Cross a key set with the shared prefixes, keeping keys non-empty and
/// short, so shared trie branches are exercised.
fn cartesian_product(input: Vec<String>) -> Vec<String> {
    let prefixes = common_prefixes();
    let mut product: Vec<String> = Vec::new();
    for item_y in input
        .iter()
        .filter(|item_y| !item_y.is_empty() && item_y.len() < 100)
    {
        for item_x in &prefixes {
            let mut new_str = item_x.clone();
            new_str.push_str(item_y);
            if !product.contains(&new_str) {
                product.push(new_str);
            }
        }
    }
    product
}

fn attach_values(input: Vec<String>) -> Vec<(String, u32)> {
    input
        .into_iter()
        .enumerate()
        .map(|(i, key)| (key, 1000 + i as u32))
        .collect()
}

fn sample_keys_one() -> Vec<String> {
    vec!["k".to_owned(), "key".to_owned(), "abcde".to_owned(), "zzz".to_owned()]
}

fn sample_keys_two() -> Vec<String> {
    vec!["w".to_owned(), "wide".to_owned(), "abf".to_owned()]
}

#[test]
fn get_inserted() {
    let keys = sample_keys_one();
    let entries = attach_values(cartesian_product(keys));

    let treelike = VMapTree::new();
    let mut under_test: Box<dyn VersionedMap<String, u32>> = Box::new(treelike);

    for (key, value) in entries.clone() {
        assert_eq!(None, under_test.get(&key));
        under_test.insert(key, value);
    }
    for (key, value) in &entries {
        assert_eq!(Some(value), under_test.get(key));
    }
}

#[test]
fn remove_inserted() {
    let keys = sample_keys_one();
    let entries = attach_values(cartesian_product(keys));

    let treelike = VMapTree::new();
    let mut under_test: Box<dyn VersionedMap<String, u32>> = Box::new(treelike);

    for (key, value) in entries.clone() {
        under_test.insert(key, value);
    }

    for (key, value) in entries {
        let val_removed = under_test.remove(&key);
        assert_eq!(Some(value), val_removed);
        assert_eq!(None, under_test.get(&key));
    }
}

#[test]
fn checkpoint_rollback_union() {
    let mut keys_one = cartesian_product(sample_keys_one());
    let keys_two = cartesian_product(sample_keys_two());

    keys_one.retain(|k| !keys_two.contains(k));

    let epochs: Vec<Vec<(String, u32)>> = [keys_one, keys_two]
        .into_iter()
        .map(attach_values)
        .collect();

    let treelike = VMapTree::new();
    let mut under_test: Box<dyn VersionedMap<String, u32>> = Box::new(treelike);

    under_test.checkpoint("EMPTY".to_owned());

    for (key, value) in epochs[0].clone() {
        under_test.insert(key, value);
    }

    under_test.checkpoint("ONE".to_owned());

    for (key, value) in epochs[1].clone() {
        under_test.insert(key, value);
    }

    under_test.checkpoint("TWO".to_owned());

    for entries in &epochs {
        for (k, v) in entries {
            assert_eq!(Some(v), under_test.get(k))
        }
    }
    assert!(under_test.rollback("EMPTY".to_owned()));
    for entries in &epochs {
        for (k, _v) in entries {
            assert_eq!(None, under_test.get(k))
        }
    }
    assert!(under_test.rollback("ONE".to_owned()));
    for (k, v) in &epochs[0] {
        assert_eq!(Some(v), under_test.get(k))
    }
    for (k, _v) in &epochs[1] {
        assert_eq!(None, under_test.get(k))
    }

    assert!(under_test.rollback("TWO".to_owned()));
    for entries in &epochs {
        for (k, v) in entries {
            assert_eq!(Some(v), under_test.get(k))
        }
    }
}

#[test]
fn checkpoint_rollback_difference() {
    let mut keys_left = cartesian_product(sample_keys_one());
    let keys_deleted = cartesian_product(sample_keys_two());

    keys_left.retain(|k| !keys_deleted.contains(k));
    let mut keys_full = keys_left.clone();
    for k in &keys_deleted {
        if !keys_full.contains(k) {
            keys_full.push(k.clone());
        }
    }

    let epochs: Vec<Vec<(String, u32)>> = [keys_full, keys_deleted]
        .into_iter()
        .map(attach_values)
        .collect();

    let treelike = VMapTree::new();
    let mut under_test: Box<dyn VersionedMap<String, u32>> = Box::new(treelike);

    for (key, value) in epochs[0].clone().into_iter() {
        under_test.insert(key, value);
    }

    under_test.checkpoint("ONE".to_owned());

    for (key, _v) in &epochs[1] {
        under_test.remove(key);
    }

    under_test.checkpoint("TWO".to_owned());

    assert!(under_test.rollback("ONE".to_owned()));
    for (k, v) in &epochs[0] {
        assert_eq!(Some(v), under_test.get(k));
    }

    assert!(under_test.rollback("TWO".to_owned()));
    for (k, _v) in &epochs[1] {
        assert_eq!(None, under_test.get(k));
    }
}

#[test]
fn snapshots_prune() {
    let entries_one = attach_values(cartesian_product(sample_keys_one()));

    let treelike = VMapTree::new();
    let mut under_test: Box<dyn VersionedMap<String, u32>> = Box::new(treelike);

    under_test.checkpoint("EMPTY".to_owned());

    for (key, value) in entries_one.clone().into_iter() {
        under_test.insert(key, value);
    }

    under_test.checkpoint("ONE".to_owned());

    under_test.prune();
    assert!(!under_test.rollback("EMPTY".to_owned()));

    for (k, v) in &entries_one {
        assert_eq!(Some(v), under_test.get(k))
    }
    assert!(!under_test.rollback("ONE".to_owned()));
}

#[test]
fn tree_insert_returns_prior_binding() {
    let mut store: VMapTree<String, u32> = VMapTree::new();
    assert_eq!(None, store.insert("alpha".to_owned(), 5));
    assert_eq!(Some(5), store.insert("alpha".to_owned(), 7));
    assert_eq!(Some(&7), store.get(&"alpha".to_owned()));
}

#[test]
fn tree_remove_absent_returns_none() {
    let mut store: VMapTree<String, u32> = VMapTree::new();
    store.insert("alpha".to_owned(), 5);
    assert_eq!(None, store.remove(&"beta".to_owned()));
    assert_eq!(Some(&5), store.get(&"alpha".to_owned()));
}

#[test]
fn tree_rollback_unknown_tag_is_false() {
    let mut store: VMapTree<String, u32> = VMapTree::new();
    store.insert("alpha".to_owned(), 5);
    assert!(!store.rollback("NOPE".to_owned()));
    assert_eq!(Some(&5), store.get(&"alpha".to_owned()));
}

#[test]
fn tree_recheckpoint_replaces_capture() {
    let mut store: VMapTree<String, u32> = VMapTree::new();
    store.insert("alpha".to_owned(), 5);
    store.checkpoint("T".to_owned());
    store.insert("beta".to_owned(), 6);
    store.checkpoint("T".to_owned());
    store.insert("gamma".to_owned(), 7);
    assert!(store.rollback("T".to_owned()));
    assert_eq!(Some(&5), store.get(&"alpha".to_owned()));
    assert_eq!(Some(&6), store.get(&"beta".to_owned()));
    assert_eq!(None, store.get(&"gamma".to_owned()));
}

#[test]
fn tree_rollback_is_repeatable() {
    let mut store: VMapTree<String, u32> = VMapTree::new();
    store.insert("alpha".to_owned(), 5);
    store.checkpoint("T".to_owned());
    store.insert("alpha".to_owned(), 9);
    assert!(store.rollback("T".to_owned()));
    assert_eq!(Some(&5), store.get(&"alpha".to_owned()));
    assert!(store.rollback("T".to_owned()));
    assert_eq!(Some(&5), store.get(&"alpha".to_owned()));
}

#[test]
fn tree_get_is_side_effect_free() {
    let mut store: VMapTree<String, u32> = VMapTree::new();
    store.insert("shared".to_owned(), 11);
    let k = "shared".to_owned();
    let missing = "other".to_owned();
    for _ in 0..3 {
        assert_eq!(Some(&11), store.get(&k));
        assert_eq!(None, store.get(&missing));
    }
}

#[test]
fn tree_checkpoint_of_empty_state() {
    let mut store: VMapTree<String, u32> = VMapTree::new();
    store.checkpoint("EMPTY".to_owned());
    store.insert("x".to_owned(), 1);
    assert!(store.rollback("EMPTY".to_owned()));
    assert_eq!(None, store.get(&"x".to_owned()));
}

#[test]
fn tree_deep_keys_share_branches() {
    let mut store: VMapTree<String, u32> = VMapTree::new();
    let long_a = "a".repeat(150);
    let long_b = format!("{}b", "a".repeat(149));
    store.insert(long_a.clone(), 1);
    store.checkpoint("DEEP".to_owned());
    store.insert(long_b.clone(), 2);
    store.remove(&long_a);
    assert_eq!(None, store.get(&long_a));
    assert_eq!(Some(&2), store.get(&long_b));
    assert!(store.rollback("DEEP".to_owned()));
    assert_eq!(Some(&1), store.get(&long_a));
    assert_eq!(None, store.get(&long_b));
}

#[test]
fn tree_checkpoint_allocates_no_nodes() {
    let mut store: VMapTree<String, u32> = VMapTree::new();
    store.insert("alpha".to_owned(), 1);
    store.insert("beta".to_owned(), 2);
    let before = store.node_count();
    store.checkpoint("T".to_owned());
    assert_eq!(before, store.node_count());
}

#[test]
fn tree_prune_reclaims_unreachable_nodes() {
    let mut store: VMapTree<String, u32> = VMapTree::new();
    store.insert("alpha".to_owned(), 1);
    // overwriting duplicates the path and orphans the old one
    store.insert("alpha".to_owned(), 2);
    store.insert("alpha".to_owned(), 3);
    let before = store.node_count();
    store.prune();
    assert!(store.node_count() < before);
    assert_eq!(Some(&3), store.get(&"alpha".to_owned()));
}

#[test]
fn tree_recheckpoint_reclaims_replaced_capture() {
    let mut store: VMapTree<String, u32> = VMapTree::new();
    store.insert("alpha".to_owned(), 1);
    store.checkpoint("T".to_owned());
    // overwrite twice: the capture keeps old paths alive until replaced
    store.insert("alpha".to_owned(), 2);
    store.insert("alpha".to_owned(), 3);
    let before = store.node_count();
    store.checkpoint("T".to_owned());
    assert!(store.node_count() < before);
    assert_eq!(Some(&3), store.get(&"alpha".to_owned()));
}

#[test]
fn tree_rollback_reclaims_abandoned_writes() {
    let mut store: VMapTree<String, u32> = VMapTree::new();
    store.insert("alpha".to_owned(), 1);
    store.checkpoint("T".to_owned());
    store.insert("beta".to_owned(), 2);
    store.insert("beta".to_owned(), 3);
    let before = store.node_count();
    assert!(store.rollback("T".to_owned()));
    assert!(store.node_count() < before);
    assert_eq!(Some(&1), store.get(&"alpha".to_owned()));
    assert_eq!(None, store.get(&"beta".to_owned()));
}
