use rgraph::index::key::{
    decode_u128_be, decode_u64_be, edge_adjacency_key, edge_id_key, encode_u128_be, encode_u64_be,
    label_index_key, node_id_key, property_index_key, rdf_osp_key, rdf_pos_key, rdf_spo_key,
    type_index_key, CompositeKey, MAX_KEY_LEN,
};
use std::cmp::Ordering;

#[test]
fn node_id_key_order() {
    let a = node_id_key(1);
    let b = node_id_key(2);
    assert!(a.as_slice() < b.as_slice());
}

#[test]
fn edge_adjacency_key_order() {
    let a = edge_adjacency_key(1, 10, 100);
    let b = edge_adjacency_key(1, 10, 101);
    let c = edge_adjacency_key(1, 11, 0);
    let d = edge_adjacency_key(2, 0, 0);
    assert!(a.as_slice() < b.as_slice());
    assert!(b.as_slice() < c.as_slice());
    assert!(c.as_slice() < d.as_slice());
}

#[test]
fn label_index_key_order() {
    let a = label_index_key(1, 10);
    let b = label_index_key(1, 11);
    let c = label_index_key(2, 0);
    assert!(a.as_slice() < b.as_slice());
    assert!(b.as_slice() < c.as_slice());
}

#[test]
fn edge_id_key_order() {
    let a = edge_id_key(1);
    let b = edge_id_key(2);
    assert!(a.as_slice() < b.as_slice());
}

#[test]
fn type_index_key_order() {
    let a = type_index_key(1, 10);
    let b = type_index_key(1, 11);
    let c = type_index_key(2, 0);
    assert!(a.as_slice() < b.as_slice());
    assert!(b.as_slice() < c.as_slice());
}

#[test]
fn property_index_key_order() {
    let a = property_index_key(1, &[10u8], 100);
    let b = property_index_key(1, &[10u8], 101);
    let c = property_index_key(1, &[11u8], 0);
    let d = property_index_key(2, &[], 0);
    assert!(a.as_slice() < b.as_slice());
    assert!(b.as_slice() < c.as_slice());
    assert!(c.as_slice() < d.as_slice());
}

#[test]
fn rdf_spo_key_order() {
    let a = rdf_spo_key(1, 10, 100);
    let b = rdf_spo_key(1, 10, 101);
    let c = rdf_spo_key(1, 11, 0);
    let d = rdf_spo_key(2, 0, 0);
    assert!(a.as_slice() < b.as_slice());
    assert!(b.as_slice() < c.as_slice());
    assert!(c.as_slice() < d.as_slice());
}

#[test]
fn composite_key_roundtrip() {
    let k = edge_adjacency_key(0xDEADBEEF, 0xCAFE, 0xBABE);
    assert_eq!(k.len(), 40);
    let buf = k.as_slice();
    assert_eq!(decode_u128_be(&buf[0..16]), 0xDEADBEEF);
    assert_eq!(decode_u64_be(&buf[16..24]), 0xCAFE);
    assert_eq!(decode_u128_be(&buf[24..40]), 0xBABE);
}

#[test]
fn empty_key_is_empty() {
    let k = CompositeKey::empty();
    assert!(k.is_empty());
    assert_eq!(k.len(), 0);
}

#[test]
fn from_slice_preserves_long_keys() {
    // Keys longer than the inline capacity must be stored in full (no
    // truncation) so ordering and uniqueness hold.
    let long = vec![0xAB; MAX_KEY_LEN + 10];
    let k = CompositeKey::from_slice(&long);
    assert_eq!(k.len(), MAX_KEY_LEN + 10);
    assert_eq!(k.as_slice(), long.as_slice());
}

#[test]
fn long_property_keys_round_trip_and_order() {
    // Two distinct long values that share a 60-byte prefix must remain
    // distinct and correctly ordered.
    let mut v1 = vec![0x10u8; 60];
    let mut v2 = v1.clone();
    v1.push(0x01);
    v2.push(0x02);
    let k1 = property_index_key(7, &v1, 100);
    let k2 = property_index_key(7, &v2, 100);
    assert_ne!(k1, k2, "long values must not collapse to the same key");
    assert!(k1.as_slice() < k2.as_slice(), "ordering must follow value bytes");
    // Round-trip: the serialized value is recoverable between the 8-byte
    // property id and the trailing 16-byte entity id.
    let buf = k1.as_slice();
    assert_eq!(decode_u64_be(&buf[0..8]), 7);
    let value = &buf[8..buf.len() - 16];
    assert_eq!(value, v1.as_slice());
    assert_eq!(decode_u128_be(&buf[buf.len() - 16..]), 100);
}

#[test]
fn prefix_order() {
    // All keys sharing the same prefix should sort by the next field.
    let k1 = property_index_key(5, &[100u8], 1);
    let k2 = property_index_key(5, &[100u8], 2);
    let k3 = property_index_key(5, &[101u8], 0);
    assert!(k1.as_slice() < k2.as_slice());
    assert!(k2.as_slice() < k3.as_slice());
}

#[test]
fn key_bytes_are_big_endian() {
    let k = label_index_key(0x0102, 3);
    assert_eq!(k.len(), 24);
    assert_eq!(k.as_slice()[..8], [0, 0, 0, 0, 0, 0, 1, 2]);
    assert_eq!(k.as_slice()[23], 3);
    let mut out = [0xFFu8; 10];
    assert_eq!(encode_u64_be(5, &mut out), 8);
    assert_eq!(out, [0, 0, 0, 0, 0, 0, 0, 5, 0xFF, 0xFF]);
    let mut wide = [0u8; 16];
    assert_eq!(encode_u128_be(1 << 64, &mut wide), 16);
    assert_eq!(wide[7], 1);
}

#[test]
fn rdf_keys_permute_the_parts() {
    let pos = rdf_pos_key(10, 100, 1);
    assert_eq!(decode_u64_be(&pos.as_slice()[0..8]), 10);
    assert_eq!(decode_u128_be(&pos.as_slice()[8..24]), 100);
    assert_eq!(decode_u128_be(&pos.as_slice()[24..40]), 1);
    let osp = rdf_osp_key(100, 1, 10);
    assert_eq!(decode_u128_be(&osp.as_slice()[0..16]), 100);
    assert_eq!(decode_u128_be(&osp.as_slice()[16..32]), 1);
    assert_eq!(decode_u64_be(&osp.as_slice()[32..40]), 10);
}

#[test]
fn keys_compare_by_bytes() {
    let a = CompositeKey::from_slice(b"ab");
    let b = CompositeKey::from_slice(b"abc");
    assert_eq!(CompositeKey::cmp_keys(&a, &b), Ordering::Less);
    assert_eq!(CompositeKey::cmp_keys(&b, &a), Ordering::Greater);
    assert_eq!(CompositeKey::cmp_keys(&a, &a.clone()), Ordering::Equal);
}
