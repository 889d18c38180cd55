use rgraph::error::{exit_code_for, RGraphError};
use rgraph::id::Id;
use rgraph::server::{global_concurrency, thread_count};
use std::collections::HashSet;

#[test]
fn id_generation_produces_valid_uuid() {
    let id = Id::new();
    let bytes = id.to_bytes();
    assert_eq!(bytes.len(), 16);
    // Version 7 nibble should be 0x7.
    assert_eq!(bytes[6] >> 4, 0x7);
}

#[test]
fn roundtrip_bytes() {
    let id = Id::new();
    let bytes = id.to_bytes();
    let recovered = Id::from_bytes(bytes).unwrap();
    assert_eq!(id, recovered);
}

#[test]
fn roundtrip_u128() {
    let id = Id::new();
    let val = id.to_u128();
    let recovered = Id::from_bytes(val.to_be_bytes()).unwrap();
    assert_eq!(id, recovered);
}

#[test]
fn roundtrip_bincode() {
    let id = Id::new();
    let encoded = id.encode().unwrap();
    let recovered = Id::decode(&encoded).unwrap();
    assert_eq!(id, recovered);
}

#[test]
fn ids_are_monotonically_increasing() {
    let mut prev = Id::new();
    for _ in 0..1000 {
        let next = Id::new();
        assert!(
            prev.to_u128() < next.to_u128(),
            "expected monotonic increase: {} < {}",
            prev.to_u128(),
            next.to_u128()
        );
        prev = next;
    }
}

#[test]
fn one_million_ids_no_collisions() {
    let mut seen = HashSet::with_capacity(1_000_000);
    for _ in 0..1_000_000 {
        let id = Id::new();
        let key = id.to_u128();
        assert!(
            seen.insert(key),
            "collision detected for id {}",
            id.text()
        );
    }
    assert_eq!(seen.len(), 1_000_000);
}

#[test]
fn invalid_bytes_rejected() {
    // A slice shorter than 16 bytes cannot be converted to Id.
    let short: &[u8] = &[0u8; 15];
    // from_bytes expects [u8; 16]; we test encode/decode instead.
    assert!(Id::decode(short).is_err());
}

#[test]
fn display_is_uuid_string() {
    let id = Id::new();
    let s = id.text();
    assert_eq!(s.len(), 36); // standard UUID string length
}

#[test]
fn exit_codes_are_distinct() {
    let variants = vec![
        RGraphError::Syntax("x".into()),
        RGraphError::Semantic("x".into()),
        RGraphError::Type("x".into()),
        RGraphError::Argument("x".into()),
        RGraphError::NotFound("x".into()),
        RGraphError::AlreadyExists("x".into()),
        RGraphError::Io("x".into()),
        RGraphError::Corruption("x".into()),
        RGraphError::Index("x".into()),
        RGraphError::Storage("x".into()),
        RGraphError::Transaction("x".into()),
        RGraphError::ResourceExhausted("x".into()),
        RGraphError::Internal("x".into()),
    ];
    let mut codes = std::collections::HashSet::new();
    for err in &variants {
        let code = exit_code_for(err);
        assert!(
            codes.insert(code),
            "duplicate exit code {} for {:?}",
            code,
            err
        );
    }
    assert_eq!(codes.len(), variants.len());
}

#[test]
fn internal_error_uses_bug_exit_code() {
    let err = RGraphError::Internal("oops".into());
    assert_eq!(exit_code_for(&err), 101);
}

#[test]
fn id_text_is_hexadecimal() {
    let bytes = [
        0x01, 0x8f, 0x00, 0x11, 0x22, 0x33, 0x74, 0x55, 0x86, 0x77, 0x88, 0x99, 0xaa, 0xbb, 0xcc,
        0xdd,
    ];
    let id = Id::from_bytes(bytes).unwrap();
    assert_eq!(id.text(), "018f0011-2233-7455-8677-8899aabbccdd");
    assert_eq!(id.to_u128(), 0x018f0011_22337455_86778899_aabbccdd);
}

#[test]
fn wire_form_is_sixteen_little_endian_bytes() {
    let mut bytes = [0u8; 16];
    bytes[15] = 0x0A;
    bytes[0] = 0xB0;
    let wire = Id::from_bytes(bytes).unwrap().encode().unwrap();
    assert_eq!(wire.len(), 16);
    assert_eq!(wire[0], 0x0A);
    assert_eq!(wire[15], 0xB0);
    assert_eq!(Id::decode(&wire).unwrap().to_bytes(), bytes);
    match Id::decode(&wire[1..]) {
        Err(RGraphError::Argument(message)) => {
            assert!(message.starts_with("id decode failed: "));
            assert!(message.len() > "id decode failed: ".len());
        }
        other => panic!("decoded {:?}", other),
    }
}

#[test]
fn exit_code_of_each_error() {
    assert_eq!(exit_code_for(&RGraphError::Syntax("x".into())), 2);
    assert_eq!(exit_code_for(&RGraphError::Io("x".into())), 8);
    assert_eq!(exit_code_for(&RGraphError::ResourceExhausted("x".into())), 13);
}

#[test]
fn server_sizes() {
    assert_eq!(thread_count(5, 16), 5);
    assert_eq!(thread_count(0, 16), 16);
    assert_eq!(thread_count(0, 1), 2);
    assert_eq!(global_concurrency(0), 1);
    assert_eq!(global_concurrency(10), 40);
    assert_eq!(global_concurrency(usize::MAX), usize::MAX);
}
