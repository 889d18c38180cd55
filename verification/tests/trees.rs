use rgraph::index::btree::{BPlusTree, BPlusTreeConfig, BTreeError, IndexRecordType};
use rgraph::index::key::{node_id_key, property_index_key, CompositeKey};
use rgraph::index::page::BTreePage;
use std::collections::BTreeSet;

#[test]
fn search_empty_tree() {
    let mut tree = BPlusTree::new(BPlusTreeConfig::default());
    let k = node_id_key(1);
    assert!(tree.search(&k).is_none());
}

#[test]
fn insert_and_search() {
    let mut tree = BPlusTree::new(BPlusTreeConfig::default());
    let k = node_id_key(42);
    tree.insert(&k, b"answer").unwrap();
    let (pid, slot) = tree.search(&k).unwrap();
    assert_eq!(pid, 1);
    let page = tree.get_page(pid).unwrap();
    let kv = page.key(slot).unwrap();
    let key_len = u16::from_be_bytes([kv[0], kv[1]]) as usize;
    let val = &kv[2 + key_len..];
    assert_eq!(val, b"answer");
}

#[test]
fn insert_many_triggers_split() {
    let mut tree = BPlusTree::new(BPlusTreeConfig::default());
    for i in 1u128..=1000 {
        let k = node_id_key(i);
        tree.insert(&k, &i.to_be_bytes()).unwrap();
    }
    // After many inserts, root should have become a branch.
    let root = tree
        .get_page(tree.root_page_id())
        .unwrap();
    assert!(root.is_branch() || root.key_count() > 0);
}

#[test]
fn search_after_split() {
    let mut tree = BPlusTree::new(BPlusTreeConfig::default());
    for i in 1u128..=500 {
        let k = node_id_key(i);
        tree.insert(&k, &i.to_be_bytes()).unwrap();
    }
    let k = node_id_key(250);
    let (pid, slot) = tree.search(&k).unwrap();
    let page = tree.get_page(pid).unwrap();
    let kv = page.key(slot).unwrap();
    let key_len = u16::from_be_bytes([kv[0], kv[1]]) as usize;
    let val = &kv[2 + key_len..];
    assert_eq!(val, &250u128.to_be_bytes());
}

#[test]
fn delete_existing_key() {
    let mut tree = BPlusTree::new(BPlusTreeConfig::default());
    let k = node_id_key(7);
    tree.insert(&k, b"seven").unwrap();
    assert!(tree.delete(&k).unwrap());
    assert!(tree.search(&k).is_none());
}

#[test]
fn delete_missing_key() {
    let mut tree = BPlusTree::new(BPlusTreeConfig::default());
    let k = node_id_key(99);
    assert!(!tree.delete(&k).unwrap());
}

#[test]
fn insert_overwrite_value() {
    let mut tree = BPlusTree::new(BPlusTreeConfig::default());
    let k = node_id_key(1);
    tree.insert(&k, b"first").unwrap();
    tree.insert(&k, b"second").unwrap();
    let (pid, slot) = tree.search(&k).unwrap();
    let page = tree.get_page(pid).unwrap();
    let kv = page.key(slot).unwrap();
    let key_len = u16::from_be_bytes([kv[0], kv[1]]) as usize;
    let val = &kv[2 + key_len..];
    assert_eq!(val, b"second");
}

#[test]
fn all_keys_searchable_after_bulk_insert() {
    let mut tree = BPlusTree::new(BPlusTreeConfig::default());
    for i in 1u128..=200 {
        let k = node_id_key(i);
        tree.insert(&k, &i.to_be_bytes()).unwrap();
    }
    for i in 1u128..=200 {
        let k = node_id_key(i);
        assert!(tree.search(&k).is_some(), "key {} should be present", i);
    }
}

#[test]
fn tree_invariants_after_splits() {
    let mut tree = BPlusTree::new(BPlusTreeConfig::default());
    for i in 1u128..=300 {
        let k = node_id_key(i);
        tree.insert(&k, &i.to_be_bytes()).unwrap();
    }
    // Verify root is valid.
    let root = tree
        .get_page(tree.root_page_id())
        .unwrap();
    assert!(root.is_branch() || root.key_count() > 0);
}

#[test]
fn optimistic_search_finds_keys() {
    let mut tree = BPlusTree::new(BPlusTreeConfig::default());
    for i in 1u128..=100 {
        let k = node_id_key(i);
        tree.insert(&k, &i.to_be_bytes()).unwrap();
    }
    for i in 1u128..=100 {
        let k = node_id_key(i);
        let result = tree.optimistic_search(&k);
        assert!(result.is_some(), "optimistic_search should find key {}", i);
        let (pid, slot) = result.unwrap();
        let page = tree.get_page(pid).unwrap();
        let kv = page.key(slot).unwrap();
        let key_len = u16::from_be_bytes([kv[0], kv[1]]) as usize;
        let val = &kv[2 + key_len..];
        assert_eq!(val, &i.to_be_bytes());
    }
}

#[test]
fn optimistic_search_returns_none_for_missing_key() {
    let mut tree = BPlusTree::new(BPlusTreeConfig::default());
    tree.insert(&node_id_key(1), b"one").unwrap();
    assert!(tree.optimistic_search(&node_id_key(2)).is_none());
}

#[test]
fn pool_mode_grows_multi_level_and_branch_split_succeeds() {
    // The tree must grow to multiple levels without error.
    let mut tree = BPlusTree::new(BPlusTreeConfig::default());
    for i in 1u128..=4000 {
        tree.insert(&node_id_key(i), &i.to_be_bytes())
            .unwrap_or_else(|e| panic!("insert {i} failed: {}", e.message()));
    }
    let root = tree
        .get_page(tree.root_page_id())
        .unwrap();
    assert!(root.is_branch(), "4000 keys must produce a branch root");
    assert!(
        root.btree_header().level >= 1,
        "tree must have at least one internal level"
    );
    for i in 1u128..=4000 {
        assert!(
            tree.search(&node_id_key(i)).is_some(),
            "key {i} must be findable in pool-mode tree"
        );
    }
}

#[test]
fn full_split_then_many_deletes_stays_balanced_and_searchable() {
    let mut tree = BPlusTree::new(BPlusTreeConfig::default());
    let n = 2000u128;
    for i in 1..=n {
        tree.insert(&node_id_key(i), &i.to_be_bytes()).unwrap();
    }
    // Delete the lower half; every remaining key must still be findable and
    // every deleted key must be gone.
    for i in 1..=(n / 2) {
        assert!(
            tree.delete(&node_id_key(i)).unwrap(),
            "delete {i} not found"
        );
    }
    for i in 1..=(n / 2) {
        assert!(
            tree.search(&node_id_key(i)).is_none(),
            "deleted key {i} still present"
        );
    }
    for i in (n / 2 + 1)..=n {
        assert!(
            tree.search(&node_id_key(i)).is_some(),
            "surviving key {i} missing after deletes"
        );
    }
}

#[test]
fn delete_until_empty_reclaims_and_keeps_searches_correct() {
    let mut tree = BPlusTree::new(BPlusTreeConfig::default());
    let n = 1500u128;
    for i in 1..=n {
        tree.insert(&node_id_key(i), &i.to_be_bytes()).unwrap();
    }
    // Delete every key in a scrambled order.
    let mut order: Vec<u128> = (1..=n).collect();
    // Simple deterministic shuffle.
    order.sort_by_key(|&x| (x.wrapping_mul(2654435761)) & 0xffff);
    for &i in &order {
        assert!(
            tree.delete(&node_id_key(i)).unwrap(),
            "delete {i} not found"
        );
        assert!(
            tree.search(&node_id_key(i)).is_none(),
            "key {i} present right after its own delete"
        );
    }
    // The tree is now empty: no key is findable and the root has collapsed
    // back to (at most) a single leaf.
    for i in 1..=n {
        assert!(tree.search(&node_id_key(i)).is_none(), "key {i} survived");
    }
    let root = tree
        .get_page(tree.root_page_id())
        .unwrap();
    assert!(
        root.is_leaf(),
        "after emptying, the root must collapse to a leaf (was a {:?})",
        if root.is_branch() { "branch" } else { "leaf" }
    );
    assert_eq!(root.key_count(), 0, "empty tree root must hold no keys");

    // The tree must remain usable: re-insert and find.
    tree.insert(&node_id_key(42), b"again").unwrap();
    assert!(tree.search(&node_id_key(42)).is_some());
}

#[test]
fn insert_random_order_all_keys_findable() {
    // Random insertion order exercises middle-of-tree splits and separator
    // updates that ascending insertion never reaches.
    let mut tree = BPlusTree::new(BPlusTreeConfig::default());
    let n = 2000u128;
    let mut order: Vec<u128> = (1..=n).collect();
    order.sort_by_key(|&x| (x.wrapping_mul(2654435761)) & 0xffff);
    for &k in &order {
        tree.insert(&node_id_key(k), &k.to_be_bytes()).unwrap();
    }
    for k in 1..=n {
        assert!(tree.search(&node_id_key(k)).is_some(), "key {k} missing");
    }
}

#[test]
fn large_value_splits_preserve_all_keys() {
    // ~600-byte values pack ~12 records per 8 KiB leaf, so splits begin at
    // low key counts.
    let mut tree = BPlusTree::new(BPlusTreeConfig::default());
    let big = vec![0xABu8; 600];
    let order: [u128; 20] = [
        10, 20, 30, 40, 50, 25, 15, 35, 5, 45, 12, 22, 32, 8, 18, 28, 38, 48, 2, 42,
    ];
    for &k in &order {
        tree.insert(&node_id_key(k), &big).unwrap();
    }
    for &k in &order {
        let (pid, slot) = tree
            .search(&node_id_key(k))
            .unwrap_or_else(|| panic!("key {k} missing after large-value splits"));
        let page = tree.get_page(pid).unwrap();
        let kv = page.key(slot).unwrap();
        let kl = u16::from_be_bytes([kv[0], kv[1]]) as usize;
        assert_eq!(&kv[2 + kl..], &big[..], "key {k} value corrupted");
    }
}

#[test]
fn insert_batch_is_atomic_and_searchable() {
    let mut tree = BPlusTree::new(BPlusTreeConfig::default());
    let entries: Vec<(CompositeKey, Vec<u8>)> = (1u128..=1000)
        .map(|i| (node_id_key(i), i.to_be_bytes().to_vec()))
        .collect();
    tree.insert_batch(&entries).unwrap();
    for i in 1u128..=1000 {
        assert!(
            tree.search(&node_id_key(i)).is_some(),
            "batch key {i} missing"
        );
    }
    // The batch built a multi-level tree.
    let root = tree
        .get_page(tree.root_page_id())
        .unwrap();
    assert!(
        root.is_branch(),
        "1000-key batch must produce a branch root"
    );
}

#[test]
fn insert_batch_then_long_value_keys() {
    // Variable-length keys (long property values) survive a batch insert.
    let mut tree = BPlusTree::new(BPlusTreeConfig::default());
    let mut entries: Vec<(CompositeKey, Vec<u8>)> = Vec::new();
    for i in 0u128..200 {
        let value = vec![(i % 251) as u8; 80]; // 80-byte value -> >40-byte key
        let key = property_index_key(1, &value, i);
        entries.push((key, i.to_be_bytes().to_vec()));
    }
    tree.insert_batch(&entries).unwrap();
    for (k, _) in &entries {
        assert!(tree.search(k).is_some(), "long batch key missing");
    }
}

#[test]
fn interleaved_insert_delete_search_consistency() {
    let mut tree = BPlusTree::new(BPlusTreeConfig::default());
    let mut present: BTreeSet<u128> = BTreeSet::new();
    for step in 0u128..3000 {
        let key = (step.wrapping_mul(48271) % 1000) + 1;
        if present.contains(&key) {
            tree.delete(&node_id_key(key)).unwrap();
            present.remove(&key);
        } else {
            tree.insert(&node_id_key(key), &key.to_be_bytes()).unwrap();
            present.insert(key);
        }
    }
    for k in 1u128..=1000 {
        let found = tree.search(&node_id_key(k)).is_some();
        assert_eq!(
            found,
            present.contains(&k),
            "key {k}: tree.search={found} but model={}",
            present.contains(&k)
        );
    }
}

#[test]
fn every_key_has_its_value() {
    let mut tree = BPlusTree::new(BPlusTreeConfig::default());
    for i in 0u128..700 {
        let key = node_id_key(i * 7919 % 701);
        tree.insert(&key, &i.to_be_bytes()[12..]).unwrap();
    }
    for i in 0u128..700 {
        let key = node_id_key(i * 7919 % 701);
        assert_eq!(tree.get(&key), Some(i.to_be_bytes()[12..].to_vec()));
    }
    assert_eq!(tree.get(&node_id_key(701)), None);
}

#[test]
fn range_search_is_half_open_and_sorted() {
    let mut tree = BPlusTree::new(BPlusTreeConfig::default());
    for i in (1u128..=900).rev() {
        tree.insert(&node_id_key(i), &[i as u8]).unwrap();
    }
    let found = tree.range_search(&node_id_key(100), &node_id_key(700));
    assert_eq!(found.len(), 600);
    assert_eq!(found[0].0.as_slice(), node_id_key(100).as_slice());
    assert_eq!(found[599].0.as_slice(), node_id_key(699).as_slice());
    assert_eq!(found[599].1, vec![187]);
    assert!(tree.range_search(&node_id_key(5), &node_id_key(5)).is_empty());
}

#[test]
fn scan_prefix_takes_the_keys_below_a_prefix() {
    let mut tree = BPlusTree::new(BPlusTreeConfig::default());
    for key in [&b"a"[..], b"ab", b"abc", b"ac", b"b"] {
        tree.insert(&CompositeKey::from_slice(key), key).unwrap();
    }
    let found: Vec<Vec<u8>> = tree.scan_prefix(b"ab").into_iter().map(|e| e.0).collect();
    assert_eq!(found, vec![b"ab".to_vec(), b"abc".to_vec()]);
    assert_eq!(tree.scan(b"", None).len(), 5);
}

#[test]
fn oversized_entry_is_refused() {
    let mut tree = BPlusTree::new(BPlusTreeConfig::default());
    tree.insert(&node_id_key(1), b"x").unwrap();
    let huge = vec![0u8; 9000];
    assert_eq!(tree.insert(&node_id_key(2), &huge), Err(BTreeError::SplitFailed));
    assert_eq!(tree.get(&node_id_key(1)), Some(b"x".to_vec()));
    assert_eq!(tree.get(&node_id_key(2)), None);
}

#[test]
fn logged_batch_names_the_pages_it_wrote() {
    let mut tree = BPlusTree::new(BPlusTreeConfig::default());
    let entries: Vec<(CompositeKey, Vec<u8>)> = (1u128..=30)
        .map(|i| (node_id_key(i), i.to_be_bytes().to_vec()))
        .collect();
    let log = tree.insert_batch_logged(&entries, 1).unwrap();
    assert!(!log.is_empty());
    for record in &log {
        assert_eq!(record.txid, 1);
        let page = tree.get_page(record.page_id).unwrap();
        assert_eq!(record.after.key_count(), page.key_count());
    }
    assert_eq!(log[0].after.key_count(), 30);
    let again = tree.insert_batch_logged(&entries, 2).unwrap();
    assert_eq!(again[0].record_type, IndexRecordType::IndexPageUpdate);
    assert_eq!(again[0].before.as_ref().unwrap().key_count(), 30);
}

#[test]
fn error_messages() {
    assert_eq!(BTreeError::MissingRoot.message(), "B+ tree root page missing");
    assert_eq!(BTreeError::MissingLeaf.message(), "B+ tree leaf page missing");
    assert_eq!(BTreeError::MissingParent.message(), "B+ tree parent page missing");
    assert_eq!(BTreeError::SplitFailed.message(), "B+ tree split failed");
    assert_eq!(BTreeError::MergeFailed.message(), "B+ tree merge failed");
}

#[test]
fn btree_persists_through_buffer_pool() {
    let mut tree = BPlusTree::new(BPlusTreeConfig::default());
    for i in 1u128..=50 {
        let k = node_id_key(i);
        tree.insert(&k, &i.to_be_bytes()).unwrap();
    }
    // The root page out of its image.
    let root = tree.get_page(tree.root_page_id()).unwrap();
    let persisted = BTreePage::from_buf(&root.to_buf()).unwrap();
    // The page should be a leaf (all 50 small keys fit in one page).
    assert!(persisted.is_leaf(), "persisted root should still be a leaf");
    assert_eq!(persisted.key_count(), 50, "all 50 keys should be present");
}

#[test]
fn a_page_is_split_above_the_threshold() {
    // A record takes 114 of the 8096 bytes of a page.
    for (percent, most) in [(85, 60), (100, 71), (50, 35)] {
        let config = BPlusTreeConfig { split_percent: percent, ..BPlusTreeConfig::default() };
        let mut tree = BPlusTree::new(config);
        for i in 1..=most {
            tree.insert(&node_id_key(i), &[7; 92]).unwrap();
        }
        assert_eq!(tree.all_page_ids().len(), 1);
        tree.insert(&node_id_key(most + 1), &[7; 92]).unwrap();
        assert_eq!(tree.all_page_ids().len(), 3);
    }
}

#[test]
fn full_leaf_is_split_in_the_middle() {
    let mut tree = BPlusTree::new(BPlusTreeConfig::default());
    let mut n = 0u128;
    while tree.get_page(tree.root_page_id()).unwrap().is_leaf() {
        n += 1;
        tree.insert(&node_id_key(n), &[7; 92]).unwrap();
    }
    assert_eq!(tree.root_page_id(), 3);
    let left = tree.get_page(1).unwrap();
    let right = tree.get_page(2).unwrap();
    let root = tree.get_page(3).unwrap();
    assert_eq!(left.slot_count() as u128, n / 2);
    assert_eq!(right.slot_count() as u128, n - n / 2);
    assert_eq!(left.btree_header().sibling_next, 2);
    assert_eq!(right.btree_header().sibling_prev, 1);
    assert_eq!(root.btree_header().level, 1);
    assert_eq!(root.separator_key(0).unwrap(), node_id_key(n / 2 + 1).as_slice());
    assert_eq!(root.child_pointer(0), Some(1));
    assert_eq!(root.btree_header().rightmost_child, 2);

    // There is room again on the right: nothing but that leaf changes.
    tree.insert(&node_id_key(n + 1), b"x").unwrap();
    assert_eq!(tree.all_page_ids().len(), 3);
    assert_eq!(tree.get_page(2).unwrap().slot_count(), right.slot_count() + 1);
    assert_eq!(tree.get_page(1).unwrap().page_lsn(), left.page_lsn());
}
