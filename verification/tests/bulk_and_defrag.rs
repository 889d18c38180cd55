use rgraph::index::btree::{BPlusTree, BPlusTreeConfig};
use rgraph::index::bulk::{BulkLoader, BulkLoaderConfig};
use rgraph::index::defrag::PageDefragmenter;
use rgraph::index::key::node_id_key;
use rgraph::index::page::BTreePage;

#[test]
fn bulk_load_empty() {
    let loader = BulkLoader::new(BulkLoaderConfig::default());
    let tree = loader.finish();
    // Empty tree: searching anything yields nothing, but the root exists.
    assert!(tree.search(&node_id_key(1)).is_none());
}

#[test]
fn bulk_load_small_searchable() {
    let mut loader = BulkLoader::new(BulkLoaderConfig::default());
    for i in 1u128..=10 {
        loader.push(&node_id_key(i), &i.to_be_bytes());
    }
    let tree = loader.finish();
    for i in 1u128..=10 {
        assert!(tree.search(&node_id_key(i)).is_some(), "key {i} missing");
    }
}

#[test]
fn bulk_load_large_searchable() {
    let mut loader = BulkLoader::new(BulkLoaderConfig::default());
    for i in 1u128..=1000 {
        loader.push(&node_id_key(i), &i.to_be_bytes());
    }
    let tree = loader.finish();
    for i in 1u128..=1000 {
        assert!(tree.search(&node_id_key(i)).is_some(), "key {i} missing");
    }
    // The tree must have grown past a single leaf.
    let root = tree
        .get_page(tree.root_page_id())
        .unwrap();
    assert!(
        root.is_branch(),
        "1000 keys must produce a multi-level tree"
    );
}

#[test]
fn bulk_load_unsorted_input_builds_correct_tree() {
    let mut loader = BulkLoader::new(BulkLoaderConfig::default());
    // Push in a deliberately scrambled order.
    let order = [7u128, 3, 9, 1, 5, 10, 2, 8, 4, 6];
    for &i in &order {
        loader.push(&node_id_key(i), &i.to_be_bytes());
    }
    let tree = loader.finish();
    for i in 1u128..=10 {
        let found = tree.search(&node_id_key(i));
        assert!(found.is_some(), "key {i} missing after unsorted bulk load");
    }
}

#[test]
fn bulk_load_dedups_last_write_wins() {
    let mut loader = BulkLoader::new(BulkLoaderConfig::default());
    loader.push(&node_id_key(1), b"first");
    loader.push(&node_id_key(1), b"second");
    let tree = loader.finish();
    let (pid, slot) = tree.search(&node_id_key(1)).unwrap();
    let page = tree.get_page(pid).unwrap();
    let kv = page.key(slot).unwrap();
    let key_len = u16::from_be_bytes([kv[0], kv[1]]) as usize;
    assert_eq!(&kv[2 + key_len..], b"second");
}

#[test]
fn bulk_load_range_scan_spans_leaves() {
    let mut loader = BulkLoader::new(BulkLoaderConfig::default());
    for i in 1u128..=1000 {
        loader.push(&node_id_key(i), &i.to_be_bytes());
    }
    let tree = loader.finish();
    let results = tree.range_search(&node_id_key(1), &node_id_key(1001));
    assert_eq!(results.len(), 1000, "range scan must cross sibling leaves");
}

#[test]
fn bulk_load_replaces_what_a_tree_held() {
    let mut tree = BPlusTree::new(BPlusTreeConfig::default());
    tree.insert(&node_id_key(5), b"old").unwrap();
    let mut loader = BulkLoader::new(BulkLoaderConfig::default());
    for i in 10u128..=600 {
        loader.push(&node_id_key(i), &[1]);
    }
    let root = loader.load_into(&mut tree);
    assert_eq!(root, tree.root_page_id());
    assert_eq!(tree.get(&node_id_key(5)), None);
    assert_eq!(tree.scan(b"", None).len(), 591);
}

#[test]
fn insert_all_adds_to_what_a_tree_held() {
    let mut tree = BPlusTree::new(BPlusTreeConfig::default());
    tree.insert(&node_id_key(5), b"old").unwrap();
    let mut loader = BulkLoader::new(BulkLoaderConfig::default());
    loader.push(&node_id_key(6), b"new");
    loader.insert_all(&mut tree).unwrap();
    assert_eq!(tree.get(&node_id_key(5)), Some(b"old".to_vec()));
    assert_eq!(tree.get(&node_id_key(6)), Some(b"new".to_vec()));
}

#[test]
fn defrag_preserves_live_records() {
    // One leaf with fifty records.
    let mut tree = BPlusTree::new(BPlusTreeConfig::default());
    for i in 1u128..=50 {
        tree.insert(&node_id_key(i), &i.to_be_bytes()).unwrap();
    }
    // Every other record goes.
    for i in (1u128..=50).step_by(2) {
        assert!(tree.delete(&node_id_key(i)).unwrap());
    }

    let defragger = PageDefragmenter::new();
    assert!(defragger.needs_defrag(&tree.get_page(1).unwrap()));
    let rewritten = defragger.run(&mut tree);
    assert!(rewritten > 0, "defrag should rewrite the page");

    let page_after = tree.get_page(1).unwrap();
    // The remaining keys are intact.
    for i in (2u128..=50).step_by(2) {
        let key = node_id_key(i);
        let mut found = false;
        for slot in 0..page_after.slot_count() {
            if let Some(data) = page_after.key(slot) {
                let key_len = u16::from_be_bytes([data[0], data[1]]) as usize;
                if &data[2..2 + key_len] == key.as_slice() {
                    found = true;
                    break;
                }
            }
        }
        assert!(found, "key {} should survive defragmentation", i);
    }
}

#[test]
fn compact_page_keeps_the_records() {
    let mut page = BTreePage::new_leaf(1);
    for i in 0..10u8 {
        page.insert_raw(&[i; 20]).unwrap();
    }
    for _ in 0..5 {
        page.delete(0);
    }
    let compact = PageDefragmenter::new().compact_page(&page);
    assert_eq!(compact.key_count(), 5);
    for i in 0..5u16 {
        assert_eq!(compact.key(i), page.key(i));
    }
}

fn pages_of_load(entries: u128, config: BulkLoaderConfig) -> usize {
    let mut loader = BulkLoader::new(config);
    for i in 1..=entries {
        loader.push(&node_id_key(i), &[7; 92]);
    }
    let tree = loader.finish();
    for i in 1..=entries {
        assert!(tree.search(&node_id_key(i)).is_some(), "key {i} missing");
    }
    tree.all_page_ids().len()
}

#[test]
fn bulk_load_keeps_to_the_leaf_fill() {
    // A record takes 114 of the 8096 bytes of a page. The first page of the tree
    // stays, unused.
    let full = BulkLoaderConfig::default();
    assert_eq!(pages_of_load(142, full), 1 + 2 + 1);
    let half = BulkLoaderConfig { leaf_fill_percent: 50, ..full };
    assert_eq!(pages_of_load(142, half), 1 + 5 + 1);
}

#[test]
fn bulk_load_keeps_to_the_internal_fill() {
    // One record for each leaf; a branch entry takes 28 bytes.
    let sparse = BulkLoaderConfig { leaf_fill_percent: 1, ..BulkLoaderConfig::default() };
    assert_eq!(pages_of_load(218, sparse), 1 + 218 + 2 + 1);
    let full = BulkLoaderConfig { internal_fill_percent: 100, ..sparse };
    assert_eq!(pages_of_load(218, full), 1 + 218 + 1);
}

#[test]
fn bulk_load_lists_each_key_once_with_its_last_value() {
    let mut loader = BulkLoader::new(BulkLoaderConfig::default());
    for (i, v) in [(7u128, 1u8), (3, 2), (7, 3), (5, 4), (3, 5), (7, 6)] {
        loader.push(&node_id_key(i), &[v]);
    }
    let mut tree = BPlusTree::new(BPlusTreeConfig::default());
    loader.load_into(&mut tree);
    let listed = tree.range_search(&node_id_key(0), &node_id_key(100));
    assert_eq!(
        listed,
        vec![
            (node_id_key(3), vec![5]),
            (node_id_key(5), vec![4]),
            (node_id_key(7), vec![6]),
        ]
    );
    assert_eq!(tree.get(&node_id_key(4)), None);
}

#[test]
fn defrag_writes_sparse_leaves_and_no_other_page() {
    let mut tree = BPlusTree::new(BPlusTreeConfig::default());
    for i in 1u128..=300 {
        tree.insert(&node_id_key(i), &[1; 40]).unwrap();
    }
    let defragger = PageDefragmenter::new();
    let ids = tree.all_page_ids();
    let mut before = Vec::new();
    for &id in &ids {
        before.push(tree.get_page(id).unwrap());
    }
    let mut newest = 0;
    for page in &before {
        newest = newest.max(page.page_lsn());
    }
    let sparse = before.iter().filter(|p| p.is_leaf() && defragger.needs_defrag(p)).count();
    assert_eq!(defragger.run(&mut tree), sparse);
    for (&id, old) in ids.iter().zip(&before) {
        let new = tree.get_page(id).unwrap();
        if old.is_leaf() && defragger.needs_defrag(old) {
            assert!(new.page_lsn() > newest, "page {id} gets a fresh number");
            newest = new.page_lsn();
        } else {
            assert_eq!(new.page_lsn(), old.page_lsn());
        }
        assert_eq!(new.btree_header(), old.btree_header());
        for slot in 0..old.slot_count() {
            assert_eq!(new.key(slot), old.key(slot));
        }
    }
}
