use rgraph::graph::record::{
    edge_flags, node_flags, EdgeRecord, NodeRecord, OverflowHandle, PropertyHeader, PropertyRecord,
    SlotRef, ValueType,
};
use rgraph::graph::stored::{StoredEdge, StoredProperty};
use std::mem::size_of;

#[test]
fn slot_ref_roundtrip() {
    let s = SlotRef::new(42, 7);
    assert_eq!(s.page_id(), 42);
    assert_eq!(s.slot_index(), 7);
    assert!(!s.is_null());
}

#[test]
fn slot_ref_null() {
    assert!(SlotRef::null().is_null());
    assert_eq!(SlotRef::null().page_id(), 0);
    assert_eq!(SlotRef::null().slot_index(), 0);
}

#[test]
fn slot_ref_max_values() {
    let s = SlotRef::new(SlotRef::MAX_PAGE_ID, SlotRef::MAX_SLOT_INDEX);
    assert_eq!(s.page_id(), SlotRef::MAX_PAGE_ID);
    assert_eq!(s.slot_index(), SlotRef::MAX_SLOT_INDEX);
}

#[test]
fn node_record_size_is_32() {
    assert_eq!(size_of::<NodeRecord>(), 32);
}

#[test]
fn node_record_encode_decode_roundtrip() {
    let mut rec = NodeRecord::new(123, 456);
    rec.first_outgoing_edge = SlotRef::new(1, 2);
    rec.first_incoming_edge = SlotRef::new(3, 4);
    rec.first_property = SlotRef::new(5, 6);
    rec.flags = node_flags::DELETED;
    rec.generation = 7;

    let mut buf = [0u8; NodeRecord::SIZE];
    rec.encode(&mut buf);
    let decoded = NodeRecord::decode(&buf).unwrap();

    assert_eq!(decoded.node_id, 123);
    assert_eq!(decoded.label_id, 456);
    assert_eq!(decoded.first_outgoing_edge, SlotRef::new(1, 2));
    assert_eq!(decoded.first_incoming_edge, SlotRef::new(3, 4));
    assert_eq!(decoded.first_property, SlotRef::new(5, 6));
    assert_eq!(decoded.flags, node_flags::DELETED);
    assert_eq!(decoded.generation, 7);
}

#[test]
fn node_record_decode_wrong_size_fails() {
    assert!(NodeRecord::decode(&[0u8; 31]).is_none());
    assert!(NodeRecord::decode(&[0u8; 33]).is_none());
}

#[test]
fn edge_record_size_is_48() {
    assert_eq!(size_of::<EdgeRecord>(), 48);
}

#[test]
fn edge_record_encode_decode_roundtrip() {
    let mut rec = EdgeRecord::new(999, 10, SlotRef::new(1, 2), SlotRef::new(3, 4));
    rec.prev_source_edge = SlotRef::new(5, 6);
    rec.next_source_edge = SlotRef::new(7, 8);
    rec.prev_target_edge = SlotRef::new(9, 10);
    rec.next_target_edge = SlotRef::new(11, 12);
    rec.first_property = SlotRef::new(13, 14);
    rec.flags = edge_flags::HAS_OVERFLOW;
    rec.generation = 3;

    let mut buf = [0u8; EdgeRecord::SIZE];
    rec.encode(&mut buf);
    let decoded = EdgeRecord::decode(&buf).unwrap();

    assert_eq!(decoded.edge_id, 999);
    assert_eq!(decoded.type_id, 10);
    assert_eq!(decoded.source_node, SlotRef::new(1, 2));
    assert_eq!(decoded.target_node, SlotRef::new(3, 4));
    assert_eq!(decoded.prev_source_edge, SlotRef::new(5, 6));
    assert_eq!(decoded.next_source_edge, SlotRef::new(7, 8));
    assert_eq!(decoded.prev_target_edge, SlotRef::new(9, 10));
    assert_eq!(decoded.next_target_edge, SlotRef::new(11, 12));
    assert_eq!(decoded.first_property, SlotRef::new(13, 14));
    assert_eq!(decoded.flags, edge_flags::HAS_OVERFLOW);
    assert_eq!(decoded.generation, 3);
}

#[test]
fn edge_record_decode_wrong_size_fails() {
    assert!(EdgeRecord::decode(&[0u8; 47]).is_none());
    assert!(EdgeRecord::decode(&[0u8; 49]).is_none());
}

#[test]
fn property_header_size_is_8() {
    assert_eq!(size_of::<PropertyHeader>(), 8);
}

#[test]
fn property_header_encode_decode() {
    let h = PropertyHeader::new(42, ValueType::String, 100);
    let mut buf = [0u8; PropertyHeader::SIZE];
    h.encode(&mut buf);
    let d = PropertyHeader::decode(&buf).unwrap();
    assert_eq!(d.property_key_id, 42);
    assert_eq!(d.value_type, ValueType::String.code());
    assert_eq!(d.value_length, 100);
}

#[test]
fn inline_property_roundtrip() {
    let rec = PropertyRecord::inline(7, ValueType::Int64, vec![1, 2, 3, 4, 5, 6, 7, 8]);
    let bytes = rec.encode();
    let decoded = PropertyRecord::decode(&bytes).unwrap();
    assert_eq!(decoded.header.property_key_id, 7);
    assert_eq!(decoded.header.value_type, ValueType::Int64.code());
    assert_eq!(decoded.payload, vec![1, 2, 3, 4, 5, 6, 7, 8]);
    assert!(decoded.is_inline());
}

#[test]
fn overflow_property_roundtrip() {
    let handle = OverflowHandle::new(99, 123);
    let rec = PropertyRecord::overflow(5, ValueType::String, handle);
    let bytes = rec.encode();
    let decoded = PropertyRecord::decode(&bytes).unwrap();
    let h = decoded.overflow_handle().unwrap();
    assert_eq!(h.page_id, 99);
    assert_eq!(h.offset, 123);
}

#[test]
fn property_from_str() {
    let rec: PropertyRecord = "hello".into();
    assert_eq!(rec.header.value_type, ValueType::String.code());
    assert_eq!(rec.payload, b"hello");
}

#[test]
fn property_decode_too_short_fails() {
    assert!(PropertyRecord::decode(&[0u8; 4]).is_none());
}

#[test]
fn overflow_handle_size_is_8() {
    assert_eq!(size_of::<OverflowHandle>(), 8);
}

#[test]
fn node_record_alignment_is_4() {
    assert_eq!(size_of::<NodeRecord>() % 4, 0);
}

#[test]
fn edge_record_alignment_is_4() {
    assert_eq!(size_of::<EdgeRecord>() % 4, 0);
}

#[test]
fn slot_ref_packs_page_above_slot() {
    assert_eq!(SlotRef::new(0x0001_0203, 0x04).raw, 0x0102_0304);
}

#[test]
fn value_type_codes() {
    let kinds = [
        ValueType::Null,
        ValueType::Bool,
        ValueType::Int64,
        ValueType::Float64,
        ValueType::String,
        ValueType::List,
        ValueType::Dict,
    ];
    for (i, kind) in kinds.iter().enumerate() {
        assert_eq!(kind.code() as usize, i);
        assert_eq!(ValueType::from_u8(i as u8), Some(*kind));
    }
    assert_eq!(ValueType::from_u8(7), None);
}

#[test]
fn node_record_bytes_are_little_endian() {
    let rec = NodeRecord::new(0x0102, 0x0304);
    let mut buf = [0u8; NodeRecord::SIZE];
    rec.encode(&mut buf);
    assert_eq!(&buf[0..12], &[2, 1, 0, 0, 0, 0, 0, 0, 4, 3, 0, 0]);
}

#[test]
fn stored_edge_roundtrip() {
    let mut e = StoredEdge::new(5, 6, 7, 8, SlotRef::new(1, 2), SlotRef::new(3, 4));
    e.record.next_target_edge = SlotRef::new(9, 9);
    let bytes = e.encode();
    assert_eq!(bytes.len(), StoredEdge::SIZE);
    assert_eq!(&bytes[48..50], &[7, 0]);
    assert_eq!(StoredEdge::decode(&bytes), Some(e));
    assert_eq!(StoredEdge::decode(&bytes[1..]), None);
}

#[test]
fn stored_property_roundtrip() {
    let p = StoredProperty::inline("näme", 3, ValueType::String, b"Alice".to_vec());
    let bytes = p.encode();
    let q = StoredProperty::decode(&bytes).unwrap();
    assert_eq!(q.name, "näme");
    assert_eq!(q.record.payload, b"Alice");
    assert_eq!(q.record.header.property_key_id, 3);
    assert!(q.next_property.is_null());
    assert!(StoredProperty::decode(&bytes[..3]).is_none());
}

#[test]
fn stored_property_name_must_be_text() {
    let p = StoredProperty::inline("ab", 1, ValueType::Bool, vec![1]);
    let mut bytes = p.encode();
    let at = bytes.windows(2).position(|w| w == b"ab").unwrap();
    bytes[at] = 0xFF;
    assert!(StoredProperty::decode(&bytes).is_none());
}

#[test]
fn on_disk_size_is_the_length_of_the_bytes() {
    let rec = PropertyRecord::inline(7, ValueType::Int64, vec![0; 12]);
    assert_eq!(rec.on_disk_size(), 20);
    assert_eq!(rec.encode().len(), 20);
}

#[test]
fn property_from_a_long_str_keeps_its_length() {
    let text = "x".repeat(300);
    let rec = PropertyRecord::from(text.as_str());
    assert_eq!(rec.header.value_length, 300);
    let rec = PropertyRecord::from("y".repeat(0x1_0005).as_str());
    assert_eq!(rec.header.value_length, 5);
}
