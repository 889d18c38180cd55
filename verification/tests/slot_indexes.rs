use rgraph::graph::record::{SlotRef, ValueType};
use rgraph::index::adjacency_index::AdjacencyIndex;
use rgraph::index::label::LabelIndex;
use rgraph::index::property::PropertyIndex;
use rgraph::index::slots::{decode_slot_ref, encode_slot_ref};
use rgraph::index::type_index::TypeIndex;

#[test]
fn adjacency_index_insert_and_lookup() {
    let mut idx = AdjacencyIndex::new();
    let slot = SlotRef::new(5, 3);
    idx.insert(1, 10, 100, slot).unwrap();
    assert_eq!(idx.lookup(1, 10, 100), Some(slot));
}

#[test]
fn adjacency_index_lookup_missing_returns_none() {
    let idx = AdjacencyIndex::new();
    assert!(idx.lookup(1, 10, 999).is_none());
}

#[test]
fn adjacency_index_delete_removes_entry() {
    let mut idx = AdjacencyIndex::new();
    let slot = SlotRef::new(5, 3);
    idx.insert(1, 10, 100, slot).unwrap();
    assert!(idx.delete(1, 10, 100).unwrap());
    assert!(idx.lookup(1, 10, 100).is_none());
}

#[test]
fn scan_outgoing_returns_all_matching() {
    let mut idx = AdjacencyIndex::new();
    for i in 1u128..=50 {
        idx.insert(7, 3, i, SlotRef::new(i as u32, 0)).unwrap();
    }
    // Insert some with a different source.
    for i in 1u128..=10 {
        idx.insert(99, 3, i, SlotRef::new(1000 + i as u32, 0)).unwrap();
    }

    let results = idx.scan_outgoing(7, 3);
    assert_eq!(results.len(), 50);
    for (i, slot) in results.iter().enumerate() {
        assert_eq!(slot.page_id(), (i + 1) as u32);
    }
}

#[test]
fn scan_outgoing_after_split() {
    let mut idx = AdjacencyIndex::new();
    for i in 1u128..=500 {
        idx.insert(3, 2, i, SlotRef::new(i as u32, 0)).unwrap();
    }
    let results = idx.scan_outgoing(3, 2);
    assert_eq!(results.len(), 500);
}

#[test]
fn scan_incoming_finds_target() {
    let mut idx = AdjacencyIndex::new();
    idx.insert(1, 10, 42, SlotRef::new(1, 0)).unwrap();
    idx.insert(2, 10, 42, SlotRef::new(2, 0)).unwrap();
    idx.insert(3, 10, 99, SlotRef::new(3, 0)).unwrap();

    let results = idx.scan_incoming(42);
    assert_eq!(results.len(), 2);
}

#[test]
fn property_insert_and_lookup() {
    let mut idx = PropertyIndex::new();
    let slot = SlotRef::new(5, 3);
    idx.insert(1, ValueType::Int64, &42i64.to_be_bytes(), 100, slot).unwrap();
    assert_eq!(idx.lookup(1, ValueType::Int64, &42i64.to_be_bytes(), 100), Some(slot));
}

#[test]
fn property_lookup_missing_returns_none() {
    let idx = PropertyIndex::new();
    assert!(idx.lookup(1, ValueType::Int64, &99i64.to_be_bytes(), 999).is_none());
}

#[test]
fn property_delete_removes_entry() {
    let mut idx = PropertyIndex::new();
    let slot = SlotRef::new(5, 3);
    idx.insert(1, ValueType::Int64, &42i64.to_be_bytes(), 100, slot).unwrap();
    assert!(idx.delete(1, ValueType::Int64, &42i64.to_be_bytes(), 100).unwrap());
    assert!(idx.lookup(1, ValueType::Int64, &42i64.to_be_bytes(), 100).is_none());
}

#[test]
fn scan_returns_all_matching_property() {
    let mut idx = PropertyIndex::new();
    for i in 1u128..=50 {
        let payload = (i as i64).to_be_bytes();
        idx.insert(7, ValueType::Int64, &payload, i, SlotRef::new(i as u32, 0)).unwrap();
    }
    // Insert some with a different value.
    for i in 1u128..=10 {
        let payload = (1000i64 + i as i64).to_be_bytes();
        idx.insert(7, ValueType::Int64, &payload, i, SlotRef::new(1000 + i as u32, 0)).unwrap();
    }

    let results = idx.scan(7, ValueType::Int64, &42i64.to_be_bytes());
    assert_eq!(results.len(), 1);
    assert_eq!(results[0].page_id(), 42);
}

#[test]
fn property_scan_after_split() {
    let mut idx = PropertyIndex::new();
    for i in 1u128..=500 {
        let payload = (42i64).to_be_bytes();
        idx.insert(3, ValueType::Int64, &payload, i, SlotRef::new(i as u32, 0)).unwrap();
    }
    let results = idx.scan(3, ValueType::Int64, &42i64.to_be_bytes());
    assert_eq!(results.len(), 500);
}

#[test]
fn string_property_roundtrip() {
    let mut idx = PropertyIndex::new();
    let slot = SlotRef::new(7, 2);
    let payload = b"hello".to_vec();
    idx.insert(10, ValueType::String, &payload, 200, slot).unwrap();
    assert_eq!(
        idx.lookup(10, ValueType::String, &payload, 200),
        Some(slot)
    );
}

#[test]
fn type_index_insert_and_lookup() {
    let mut idx = TypeIndex::new();
    let slot = SlotRef::new(7, 2);
    idx.insert(10, 200, slot).unwrap();
    assert_eq!(idx.lookup(10, 200), Some(slot));
}

#[test]
fn type_index_lookup_missing_returns_none() {
    let idx = TypeIndex::new();
    assert!(idx.lookup(10, 999).is_none());
}

#[test]
fn type_index_delete_removes_entry() {
    let mut idx = TypeIndex::new();
    let slot = SlotRef::new(7, 2);
    idx.insert(10, 200, slot).unwrap();
    assert!(idx.delete(10, 200).unwrap());
    assert!(idx.lookup(10, 200).is_none());
}

#[test]
fn scan_returns_all_matching_type() {
    let mut idx = TypeIndex::new();
    for i in 1u128..=50 {
        idx.insert(5, i, SlotRef::new(i as u32, 0)).unwrap();
    }
    for i in 1u128..=10 {
        idx.insert(88, i, SlotRef::new(1000 + i as u32, 0)).unwrap();
    }

    let results = idx.scan(5);
    assert_eq!(results.len(), 50);
    for (i, slot) in results.iter().enumerate() {
        assert_eq!(slot.page_id(), (i + 1) as u32);
    }
}

#[test]
fn type_index_scan_after_split() {
    let mut idx = TypeIndex::new();
    for i in 1u128..=500 {
        idx.insert(2, i, SlotRef::new(i as u32, 0)).unwrap();
    }
    let results = idx.scan(2);
    assert_eq!(results.len(), 500);
}

#[test]
fn adjacency_scans_go_both_ways() {
    let mut idx = AdjacencyIndex::default();
    idx.insert(1, 10, 2, SlotRef::new(1, 0)).unwrap();
    idx.insert(1, 11, 2, SlotRef::new(2, 0)).unwrap();
    assert_eq!(idx.scan_outgoing(1, 10), vec![SlotRef::new(1, 0)]);
    assert!(idx.scan_outgoing(2, 10).is_empty());
    assert!(idx.scan_incoming(1).is_empty());
    assert!(!idx.delete(2, 10, 1).unwrap());
}

#[test]
fn label_scan_takes_one_label() {
    let mut idx = LabelIndex::new();
    for i in 1u128..=300 {
        idx.insert((i % 3) as u64, i, SlotRef::new(i as u32, 1)).unwrap();
    }
    let found = idx.scan(1);
    assert_eq!(found.len(), 100);
    assert_eq!(found[0], SlotRef::new(1, 1));
    assert_eq!(found[99], SlotRef::new(298, 1));
    assert_eq!(idx.lookup(2, 2), Some(SlotRef::new(2, 1)));
    assert!(idx.delete(2, 2).unwrap());
    assert!(!idx.delete(2, 2).unwrap());
    assert_eq!(idx.lookup(2, 2), None);
}

#[test]
fn property_scan_tells_the_entities() {
    let mut idx = PropertyIndex::default();
    idx.insert(1, ValueType::String, b"ab", 7, SlotRef::new(1, 0)).unwrap();
    idx.insert(1, ValueType::String, b"ab", 9, SlotRef::new(2, 0)).unwrap();
    idx.insert(1, ValueType::String, b"abc", 8, SlotRef::new(3, 0)).unwrap();
    assert_eq!(
        idx.scan_entities(1, ValueType::String, b"ab"),
        vec![(7, SlotRef::new(1, 0)), (9, SlotRef::new(2, 0))]
    );
}

#[test]
fn slot_bytes() {
    let slot = SlotRef::new(0x0102_03, 0x04);
    let bytes = encode_slot_ref(slot);
    assert_eq!(bytes, vec![1, 2, 3, 4]);
    assert_eq!(decode_slot_ref(&bytes), Some(slot));
    assert_eq!(decode_slot_ref(&bytes[..3]), None);
}
