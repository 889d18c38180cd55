use rgraph::index::prefix::{
    common_prefix, compress_record, decompress_record, extract_key, strip_prefix,
};

#[test]
fn common_prefix_empty() {
    assert_eq!(common_prefix(&[]), Vec::<u8>::new());
}

#[test]
fn common_prefix_single() {
    assert_eq!(common_prefix(&[b"hello".as_slice()]), b"hello");
}

#[test]
fn common_prefix_multiple() {
    let keys: Vec<&[u8]> = vec![b"foobar", b"foobaz", b"foobat"];
    assert_eq!(common_prefix(&keys), b"fooba");
}

#[test]
fn common_prefix_no_match() {
    let keys: Vec<&[u8]> = vec![b"abc", b"xyz"];
    assert_eq!(common_prefix(&keys), b"");
}

#[test]
fn compress_decompress_roundtrip() {
    let prefix = b"http://example.org/";
    let key = b"http://example.org/node/42";
    let value = b"slot-ref";
    let mut record = Vec::new();
    record.extend_from_slice(&(key.len() as u16).to_be_bytes());
    record.extend_from_slice(key);
    record.extend_from_slice(value);

    let compressed = compress_record(&record, prefix).unwrap();
    let decompressed = decompress_record(&compressed, prefix).unwrap();
    assert_eq!(decompressed, record);
}

#[test]
fn compress_rejects_wrong_prefix() {
    let record = vec![0x00, 0x05, b'h', b'e', b'l', b'l', b'o'];
    assert!(compress_record(&record, b"xyz").is_none());
}

#[test]
fn compression_ratio_example() {
    let prefix = b"http://example.org/";
    let keys = [
        b"http://example.org/node/1",
        b"http://example.org/node/2",
        b"http://example.org/node/3",
    ];
    let mut total_raw = 0usize;
    let mut total_compressed = 0usize;
    for key in &keys {
        let mut record = Vec::new();
        record.extend_from_slice(&(key.len() as u16).to_be_bytes());
        record.extend_from_slice(*key);
        total_raw += record.len();
        let compressed = compress_record(&record, prefix.as_slice()).unwrap();
        total_compressed += compressed.len();
    }
    assert!(total_compressed < total_raw, "compression must reduce size");
}

#[test]
fn compressed_record_starts_with_the_lengths() {
    let record = [0, 5, b'h', b'e', b'l', b'l', b'o', b'!'];
    let compressed = compress_record(&record, b"he").unwrap();
    assert_eq!(decompress_record(&compressed, b"he").unwrap(), record);
    assert_eq!(extract_key(&record).unwrap(), b"hello");
    assert_eq!(extract_key(&record[..4]), None);
    assert_eq!(strip_prefix(b"hello", b"he"), b"llo");
}
