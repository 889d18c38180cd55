use rgraph::index::epoch::EpochPageTable;
use rgraph::index::page::{BTreeHeader, BTreePage};

#[test]
fn leaf_init() {
    let page = BTreePage::new_leaf(42);
    assert!(page.is_leaf());
    assert!(!page.is_branch());
    assert_eq!(page.page_id(), 42);
    assert_eq!(page.key_count(), 0);
}

#[test]
fn insert_raw_at_after_delete() {
    let mut page = BTreePage::new_leaf(1);
    let key1 = b"aaa";
    page.insert_raw(key1).unwrap();
    assert_eq!(page.key_count(), 1);
    page.delete(0);
    assert_eq!(page.key_count(), 0);
    let key2 = b"bbb";
    page.insert_raw_at(0, key2).unwrap();
    assert_eq!(page.key_count(), 1);
    assert_eq!(page.key(0).unwrap(), key2);
}

#[test]
fn branch_init() {
    let page = BTreePage::new_branch(7, 2);
    assert!(page.is_branch());
    assert!(!page.is_leaf());
    assert_eq!(page.btree_header().level, 2);
}

#[test]
fn insert_and_read_key() {
    let mut page = BTreePage::new_leaf(1);
    let key = b"hello";
    let slot = page.insert_raw(key).unwrap();
    assert_eq!(page.key(slot).unwrap(), key);
    assert_eq!(page.key_count(), 1);
}

#[test]
fn siblings_roundtrip() {
    let mut page = BTreePage::new_leaf(1);
    page.set_siblings(10, 20);
    let bh = page.btree_header();
    assert_eq!(bh.sibling_prev, 10);
    assert_eq!(bh.sibling_next, 20);
}

#[test]
fn rightmost_child_roundtrip() {
    let mut page = BTreePage::new_branch(1, 1);
    page.set_rightmost_child(99);
    assert_eq!(page.btree_header().rightmost_child, 99);
}

#[test]
fn branch_entry_encoding() {
    let mut page = BTreePage::new_branch(1, 1);
    let mut record = vec![b'k'; 16];
    record.extend_from_slice(&100u64.to_be_bytes());
    let slot = page.insert_raw(&record).unwrap();
    assert_eq!(page.child_pointer(slot).unwrap(), 100);
    assert_eq!(page.separator_key(slot).unwrap(), &record[..16]);
}

#[test]
fn checksum_persists() {
    let mut page = BTreePage::new_leaf(1);
    page.update_checksum();
    assert!(page.verify_checksum());
}

#[test]
fn delete_updates_key_count() {
    let mut page = BTreePage::new_leaf(1);
    let slot = page.insert_raw(b"x").unwrap();
    assert_eq!(page.key_count(), 1);
    assert!(page.delete(slot));
    assert_eq!(page.key_count(), 0);
}

#[test]
fn image_roundtrip() {
    let mut page = BTreePage::new_leaf(9);
    page.insert_raw(b"one").unwrap();
    page.insert_raw(b"two").unwrap();
    page.set_siblings(3, 4);
    page.update_checksum();
    let copy = BTreePage::from_buf(&page.to_buf()).unwrap();
    assert_eq!(copy.page_id(), 9);
    assert_eq!(copy.key(0).unwrap(), b"one");
    assert_eq!(copy.key(1).unwrap(), b"two");
    assert_eq!(copy.btree_header().sibling_next, 4);
    assert!(copy.verify_checksum());
    assert!(BTreePage::from_buf(&[0u8; 10]).is_none());
}

#[test]
fn checksum_notices_a_change() {
    let mut page = BTreePage::new_leaf(1);
    page.update_checksum();
    page.insert_raw(b"x").unwrap();
    assert!(!page.verify_checksum());
}

#[test]
fn full_page_refuses_a_record() {
    let mut page = BTreePage::new_leaf(1);
    while page.has_room_for(1000) {
        page.insert_raw(&[7u8; 1000]).unwrap();
    }
    let count = page.key_count();
    assert_eq!(page.insert_raw(&[7u8; 1000]), None);
    assert_eq!(page.key_count(), count);
    assert_eq!(count, 8);
}

#[test]
fn insert_and_load_roundtrip() {
    let mut table = EpochPageTable::new();
    let page = BTreePage::new_leaf(1);
    table.insert(1, page.clone());
    let loaded = table.load(1).unwrap();
    assert_eq!(loaded.page_id(), 1);
    assert!(loaded.is_leaf());
}

#[test]
fn replace_page_retires_old() {
    let mut table = EpochPageTable::new();
    let page_v1 = BTreePage::new_leaf(1);
    table.insert(1, page_v1);
    let before = table.load(1).unwrap();
    let mut page_v2 = BTreePage::new_leaf(1);
    page_v2.insert_raw(b"x").unwrap();
    table.insert(1, page_v2);
    let loaded = table.load(1).unwrap();
    assert!(loaded.is_leaf());
    assert_eq!(loaded.key_count(), 1);
    assert_eq!(before.key_count(), 0);
}

#[test]
fn load_missing_page_returns_none() {
    let table = EpochPageTable::default();
    assert!(table.load(99).is_none());
}

#[test]
fn header_is_read_back_as_written() {
    let mut page = BTreePage::new_branch(3, 1);
    let header = BTreeHeader {
        level: 4,
        key_count: 0,
        sibling_prev: 11,
        sibling_next: 12,
        rightmost_child: 13,
    };
    page.write_btree_header(&header);
    let read = page.btree_header();
    assert_eq!(read.level, 4);
    assert_eq!(read.key_count, 0);
    assert_eq!(read.sibling_prev, 11);
    assert_eq!(read.sibling_next, 12);
    assert_eq!(read.rightmost_child, 13);
    assert_eq!(page.page_id(), 3);
}

#[test]
fn header_keeps_a_count_of_its_own() {
    let mut page = BTreePage::new_leaf(3);
    page.insert_raw(b"one").unwrap();
    page.insert_raw(b"two").unwrap();
    let header = BTreeHeader { key_count: 900, ..page.btree_header() };
    page.write_btree_header(&header);
    assert_eq!(page.btree_header(), header);
    assert_eq!(page.key_count(), 900);
    assert_eq!(page.slot_count(), 2);
    assert_eq!(page.key(1).unwrap(), b"two");
    assert_eq!(page.key(2), None);

    // It counts on from there, and is stored with the page.
    page.insert_raw(b"three").unwrap();
    assert_eq!(page.key_count(), 901);
    assert!(page.delete(0));
    page.compact();
    assert_eq!(page.key_count(), 900);
    page.update_checksum();
    let copy = BTreePage::from_buf(&page.to_buf()).unwrap();
    assert!(copy.verify_checksum());
    assert_eq!(copy.btree_header(), page.btree_header());
    assert_eq!(copy.slot_count(), 2);

    // At 0 it stays.
    page.write_btree_header(&BTreeHeader { key_count: 0, ..header });
    assert!(page.delete(0));
    assert_eq!(page.key_count(), 0);
    assert_eq!(page.slot_count(), 1);
}

#[test]
fn image_with_a_stale_checksum_is_read() {
    let mut page = BTreePage::new_leaf(9);
    page.update_checksum();
    page.insert_raw(b"one").unwrap();
    assert!(!page.verify_checksum());
    let image = page.to_buf();
    let mut copy = BTreePage::from_buf(&image).unwrap();
    assert_eq!(copy.to_buf(), image);
    assert_eq!(copy.key(0).unwrap(), b"one");
    assert!(!copy.verify_checksum());
    copy.update_checksum();
    assert!(copy.verify_checksum());
    assert_ne!(copy.to_buf(), image);
    assert!(BTreePage::from_buf(&[0xFFu8; 8192]).is_none());
}

#[test]
fn header_changes_leave_the_checksum_stale() {
    let mut page = BTreePage::new_leaf(9);
    page.insert_raw(b"one").unwrap();
    page.update_checksum();
    page.set_siblings(3, 4);
    assert!(!page.verify_checksum());
    page.update_checksum();
    page.set_page_lsn(77);
    assert!(!page.verify_checksum());
    page.set_page_lsn(0);
    assert!(page.verify_checksum());
}
