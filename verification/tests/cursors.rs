use rgraph::index::btree::{BPlusTree, BPlusTreeConfig};
use rgraph::index::cursor::{BTreeCursor, BTreeRangeScan};
use rgraph::index::key::{node_id_key, CompositeKey};
use rgraph::index::latch::LatchCoupling;
use rgraph::index::page::{BTreeHeader, BTreePage};

fn make_kv(key: &CompositeKey, value: &[u8]) -> Vec<u8> {
    let mut buf = Vec::new();
    let key_len = key.len() as u16;
    buf.extend_from_slice(&key_len.to_be_bytes());
    buf.extend_from_slice(key.as_slice());
    buf.extend_from_slice(value);
    buf
}

fn insert_kv(page: &mut BTreePage, key: &CompositeKey, value: &[u8]) {
    let record = make_kv(key, value);
    page.insert_raw(&record);
}

#[test]
fn cursor_seek_and_next() {
    let latch = LatchCoupling::new();
    let mut page = BTreePage::new_leaf(1);
    let k1 = node_id_key(1);
    let k2 = node_id_key(2);
    let k3 = node_id_key(3);
    insert_kv(&mut page, &k1, b"v1");
    insert_kv(&mut page, &k2, b"v2");
    insert_kv(&mut page, &k3, b"v3");

    let cursor = BTreeCursor::seek(&latch, page, &k2);
    let (key, val) = cursor.current().unwrap();
    assert_eq!(key, k2.as_slice());
    assert_eq!(val, b"v2");
}

#[test]
fn cursor_next_advances() {
    let latch = LatchCoupling::new();
    let mut page = BTreePage::new_leaf(1);
    let k1 = node_id_key(1);
    let k2 = node_id_key(2);
    insert_kv(&mut page, &k1, b"v1");
    insert_kv(&mut page, &k2, b"v2");

    let mut cursor = BTreeCursor::seek_first(&latch, page);
    let (key, _val) = cursor.current().unwrap();
    assert_eq!(key, k1.as_slice());
    assert!(cursor.next());
    let (key2, _val2) = cursor.current().unwrap();
    assert_eq!(key2, k2.as_slice());
    assert!(!cursor.next());
}

#[test]
fn cursor_prev_moves_back() {
    let latch = LatchCoupling::new();
    let mut page = BTreePage::new_leaf(1);
    let k1 = node_id_key(1);
    let k2 = node_id_key(2);
    insert_kv(&mut page, &k1, b"v1");
    insert_kv(&mut page, &k2, b"v2");

    let mut cursor = BTreeCursor::seek_last(&latch, page);
    let (key, _val) = cursor.current().unwrap();
    assert_eq!(key, k2.as_slice());
    assert!(cursor.prev());
    let (key2, _val2) = cursor.current().unwrap();
    assert_eq!(key2, k1.as_slice());
    assert!(!cursor.prev());
}

#[test]
fn range_scan_bounds() {
    let latch = LatchCoupling::new();
    let mut page = BTreePage::new_leaf(1);
    let k1 = node_id_key(1);
    let k2 = node_id_key(2);
    let k3 = node_id_key(3);
    insert_kv(&mut page, &k1, b"v1");
    insert_kv(&mut page, &k2, b"v2");
    insert_kv(&mut page, &k3, b"v3");

    let cursor = BTreeCursor::seek_first(&latch, page);
    let mut scan = BTreeRangeScan::new(cursor, Some(k3));
    let mut keys = Vec::new();
    while let Some((k, _v)) = scan.next() {
        keys.push(k.to_vec());
    }
    assert_eq!(keys.len(), 2);
    assert_eq!(keys[0], k1.as_slice());
    assert_eq!(keys[1], k2.as_slice());
}

#[test]
fn empty_cursor_has_no_current() {
    let latch = LatchCoupling::new();
    let page = BTreePage::new_leaf(1);
    let cursor = BTreeCursor::seek_first(&latch, page);
    assert!(cursor.current().is_none());
}

#[test]
fn seek_lower_bound() {
    let latch = LatchCoupling::new();
    let mut page = BTreePage::new_leaf(1);
    let k1 = node_id_key(1);
    let k3 = node_id_key(3);
    insert_kv(&mut page, &k1, b"v1");
    insert_kv(&mut page, &k3, b"v3");

    let k2 = node_id_key(2);
    let cursor = BTreeCursor::seek(&latch, page, &k2);
    let (key, _val) = cursor.current().unwrap();
    assert_eq!(key, k3.as_slice());
}

#[test]
fn range_cursor_spans_multiple_leaves() {
    // Insert enough keys to force several leaves, then scan a range that
    // straddles leaf boundaries.  The cursor must follow sibling pointers.
    let mut tree = BPlusTree::new(BPlusTreeConfig::default());
    let n = 1500u128;
    for i in 1..=n {
        tree.insert(&node_id_key(i), &i.to_be_bytes()).unwrap();
    }
    let from = node_id_key(1);
    let to = node_id_key(n + 1);
    let results = tree.into_range(&from, &to);
    assert_eq!(results.len() as u128, n, "cursor must visit every key across leaves");
    // Keys must be returned in ascending order.
    for w in results.windows(2) {
        assert!(w[0].0 < w[1].0, "range cursor must yield sorted keys");
    }

    // Crossing at least one leaf boundary: confirm by scanning a window in
    // the middle and checking the count.
    let mid = tree.into_range(&node_id_key(500), &node_id_key(800));
    assert_eq!(mid.len(), 300, "half-open [500,800) must contain 300 keys");
}

#[test]
fn range_cursor_advance_to_skips_ahead_across_leaves() {
    let mut tree = BPlusTree::new(BPlusTreeConfig::default());
    for i in 1u128..=1500 {
        tree.insert(&node_id_key(i), &i.to_be_bytes()).unwrap();
    }
    let mut cursor = tree
        .cursor_from(&node_id_key(1), None)
        .expect("cursor should construct");
    // Skip directly to key 1234, which lives on a later leaf.
    assert!(cursor.advance_to(&node_id_key(1234)));
    let (k, _v) = cursor.current().unwrap();
    assert_eq!(k, node_id_key(1234).as_slice());
    // Iterate to the end and ensure monotonic progression.
    let mut last = 1234u128;
    while cursor.next() {
        let (k, _) = cursor.current().unwrap();
        let mut a = [0u8; 16];
        a.copy_from_slice(&k[..16]);
        let cur = u128::from_be_bytes(a);
        assert!(cur > last, "must advance strictly forward");
        last = cur;
    }
    assert_eq!(last, 1500, "cursor must reach the final key");
}

#[test]
fn range_cursor_respects_upper_bound() {
    let mut tree = BPlusTree::new(BPlusTreeConfig::default());
    for i in 1u128..=1000 {
        tree.insert(&node_id_key(i), &i.to_be_bytes()).unwrap();
    }
    let results = tree.into_range(&node_id_key(10), &node_id_key(20));
    assert_eq!(results.len(), 10, "[10,20) is exactly 10 keys");
    // The bound is exclusive: key 20 must not appear.
    assert!(results.iter().all(|(k, _)| {
        let mut a = [0u8; 16];
        a.copy_from_slice(&k[..16]);
        u128::from_be_bytes(a) < 20
    }));
}

#[test]
fn cursor_from_starts_at_the_first_key_not_below() {
    let mut tree = BPlusTree::new(BPlusTreeConfig::default());
    for i in [10u128, 20, 30] {
        tree.insert(&node_id_key(i), &[i as u8]).unwrap();
    }
    let mut cursor = tree.cursor_from(&node_id_key(11), Some(node_id_key(30))).unwrap();
    assert_eq!(cursor.current(), Some((node_id_key(20).as_slice().to_vec(), vec![20])));
    assert!(!cursor.next());
    assert_eq!(cursor.current(), None);
    let rest = tree.cursor_from(&node_id_key(20), None).unwrap().collect_range();
    assert_eq!(rest.len(), 2);
    assert!(!tree.cursor_from(&node_id_key(5), None).unwrap().advance_to(&node_id_key(31)));
}

#[test]
fn seek_on_an_unordered_page_bisects() {
    let latch = LatchCoupling::new();
    let mut page = BTreePage::new_leaf(1);
    for i in [9u128, 1, 5] {
        insert_kv(&mut page, &node_id_key(i), &[i as u8]);
    }
    // The middle record is below the key, the last one is not.
    let cursor = BTreeCursor::seek(&latch, page, &node_id_key(4));
    assert_eq!(cursor.current().unwrap().1, [5]);

    // A record that holds no key ends the keys below.
    let mut page = BTreePage::new_leaf(1);
    page.insert_raw(&[0]).unwrap();
    let cursor = BTreeCursor::seek(&latch, page, &node_id_key(4));
    assert!(cursor.current().is_none());
    assert!(!{ cursor }.prev());
}

#[test]
fn cursor_keeps_to_what_the_header_counts() {
    let latch = LatchCoupling::new();
    let mut page = BTreePage::new_leaf(1);
    for i in 1u128..=3 {
        insert_kv(&mut page, &node_id_key(i), &[i as u8]);
    }
    page.write_btree_header(&BTreeHeader { key_count: 2, ..page.btree_header() });
    let last = BTreeCursor::seek_last(&latch, page.clone());
    assert_eq!(last.current().unwrap().1, [2]);
    let mut cursor = BTreeCursor::seek(&latch, page.clone(), &node_id_key(2));
    assert_eq!(cursor.current().unwrap().1, [2]);
    assert!(!cursor.next());
    let cursor = BTreeCursor::seek_first(&latch, page);
    let mut scan = BTreeRangeScan::new(cursor, None);
    assert!(scan.next().is_some());
    assert!(scan.next().is_some());
    assert!(scan.next().is_none());
}

#[test]
fn range_cursor_tells_its_leaf() {
    let mut tree = BPlusTree::new(BPlusTreeConfig::default());
    for i in 1u128..=1000 {
        tree.insert(&node_id_key(i), &[7]).unwrap();
    }
    let mut cursor = tree.cursor_from(&node_id_key(1), None).unwrap();
    let first = cursor.current_leaf_id();
    assert_eq!(Some(first), tree.search(&node_id_key(1)).map(|p| p.0));
    assert!(cursor.advance_to(&node_id_key(990)));
    assert_eq!(Some(cursor.current_leaf_id()), tree.search(&node_id_key(990)).map(|p| p.0));
    assert_ne!(cursor.current_leaf_id(), first);
}

#[test]
fn range_cursor_tells_its_leaf_past_the_last_key() {
    let mut tree = BPlusTree::new(BPlusTreeConfig::default());
    for i in 1u128..=1000 {
        tree.insert(&node_id_key(i), &[7]).unwrap();
    }
    let last = tree.search(&node_id_key(1000)).map(|p| p.0);
    let first = tree.search(&node_id_key(1)).map(|p| p.0);
    assert_ne!(first, last);
    let beyond = tree.cursor_from(&node_id_key(5000), None).unwrap();
    assert_eq!(Some(beyond.current_leaf_id()), last);
    let mut cursor = tree.cursor_from(&node_id_key(1), None).unwrap();
    assert_eq!(Some(cursor.current_leaf_id()), first);
    assert!(!cursor.advance_to(&node_id_key(5000)));
    assert_eq!(Some(cursor.current_leaf_id()), last);
    let mut cursor = tree.cursor_from(&node_id_key(1000), None).unwrap();
    assert!(!cursor.next());
    assert_eq!(cursor.current(), None);
    assert_eq!(Some(cursor.current_leaf_id()), last);
}
