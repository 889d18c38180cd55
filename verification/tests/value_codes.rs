use rgraph::graph::record::ValueType;
use rgraph::index::value_codec::{
    decode, encode, encode_property_value, order_f64_bits, order_i64, unorder_f64_bits,
    unorder_i64, Value, MAX_ENCODED_LEN,
};

fn from_f64(x: f64) -> Value {
    Value::from_f64_bits(x.to_bits())
}

fn roundtrip(v: &Value) {
    let mut buf = Vec::new();
    let n = encode(v, &mut buf).expect("encode succeeded");
    let (decoded, consumed) = decode(&buf).expect("decode succeeded");
    assert_eq!(consumed, n, "consumed bytes must match encoded length");
    assert_eq!(decoded, *v, "round-trip failed");
}

#[test]
fn null_roundtrip() {
    roundtrip(&Value::Null);
}

#[test]
fn bool_roundtrip() {
    roundtrip(&Value::Bool(false));
    roundtrip(&Value::Bool(true));
}

#[test]
fn i64_roundtrip() {
    roundtrip(&Value::Int64(0));
    roundtrip(&Value::Int64(i64::MAX));
    roundtrip(&Value::Int64(i64::MIN));
    roundtrip(&Value::Int64(42));
    roundtrip(&Value::Int64(-42));
}

#[test]
fn f64_roundtrip() {
    roundtrip(&from_f64(0.0));
    roundtrip(&from_f64(-0.0));
    roundtrip(&from_f64(1.5));
    roundtrip(&from_f64(-1.5));
    roundtrip(&from_f64(f64::MAX));
    roundtrip(&from_f64(f64::MIN));
    roundtrip(&from_f64(f64::INFINITY));
    roundtrip(&from_f64(f64::NEG_INFINITY));
    roundtrip(&from_f64(f64::NAN));
}

#[test]
fn string_roundtrip() {
    roundtrip(&Value::from_str(""));
    roundtrip(&Value::from_str("hello"));
    roundtrip(&Value::from_str("🚀 unicode"));
}

#[test]
fn list_and_map_roundtrip() {
    roundtrip(&Value::List(vec![1, 2, 3]));
    roundtrip(&Value::Dict(vec![0xAB, 0xCD]));
}

#[test]
fn null_sorts_first() {
    let mut null_buf = Vec::new();
    encode(&Value::Null, &mut null_buf);
    let mut bool_buf = Vec::new();
    encode(&Value::Bool(false), &mut bool_buf);
    assert!(null_buf < bool_buf, "NULL must sort before Bool");
}

#[test]
fn bool_ordering() {
    let mut false_buf = Vec::new();
    encode(&Value::Bool(false), &mut false_buf);
    let mut true_buf = Vec::new();
    encode(&Value::Bool(true), &mut true_buf);
    assert!(false_buf < true_buf, "false must sort before true");
}

#[test]
fn i64_ordering() {
    let values = [i64::MIN, -1000i64, -1i64, 0i64, 1i64, 1000i64, i64::MAX];
    let mut encoded: Vec<Vec<u8>> = Vec::new();
    for v in values {
        let mut buf = Vec::new();
        encode(&Value::Int64(v), &mut buf);
        encoded.push(buf);
    }
    for i in 1..encoded.len() {
        assert!(
            encoded[i - 1] < encoded[i],
            "i64 ordering violated at index {}: {:?} vs {:?}",
            i,
            values[i - 1],
            values[i]
        );
    }
}

#[test]
fn f64_ordering() {
    let values = [
        f64::NEG_INFINITY,
        -1000.0,
        -1.0,
        -0.0,
        0.0,
        1.0,
        1000.0,
        f64::INFINITY,
        f64::NAN,
    ];
    let mut encoded: Vec<Vec<u8>> = Vec::new();
    for v in values {
        let mut buf = Vec::new();
        encode(&from_f64(v), &mut buf);
        encoded.push(buf);
    }
    for i in 1..encoded.len() {
        assert!(
            encoded[i - 1] < encoded[i],
            "f64 ordering violated at index {}: {:?} vs {:?}",
            i,
            values[i - 1],
            values[i]
        );
    }
}

#[test]
fn string_ordering() {
    let values = ["", "a", "ab", "b", "ba", "🚀"];
    let mut encoded: Vec<Vec<u8>> = Vec::new();
    for s in values {
        let mut buf = Vec::new();
        encode(&Value::from_str(s), &mut buf);
        encoded.push(buf);
    }
    for i in 1..encoded.len() {
        assert!(
            encoded[i - 1] < encoded[i],
            "string ordering violated at index {}",
            i
        );
    }
}

#[test]
fn cross_type_ordering() {
    // Verify: Null < Bool < Int64 < Float64 < String < List < Map
    let mut null_buf = Vec::new();
    encode(&Value::Null, &mut null_buf);
    let mut bool_buf = Vec::new();
    encode(&Value::Bool(true), &mut bool_buf);
    let mut int_buf = Vec::new();
    encode(&Value::Int64(0), &mut int_buf);
    let mut float_buf = Vec::new();
    encode(&from_f64(0.0), &mut float_buf);
    let mut string_buf = Vec::new();
    encode(&Value::from_str(""), &mut string_buf);
    let mut list_buf = Vec::new();
    encode(&Value::List(vec![]), &mut list_buf);
    let mut map_buf = Vec::new();
    encode(&Value::Dict(vec![]), &mut map_buf);

    let all = [
        null_buf, bool_buf, int_buf, float_buf, string_buf, list_buf, map_buf,
    ];
    for i in 1..all.len() {
        assert!(all[i - 1] < all[i], "cross-type ordering violated at index {}", i);
    }
}

#[test]
fn encode_property_value_from_payload() {
    let payload = 42i64.to_be_bytes();
    let encoded = encode_property_value(ValueType::Int64, &payload).unwrap();
    let (decoded, _) = decode(&encoded).unwrap();
    assert_eq!(decoded, Value::Int64(42));
}

#[test]
fn encode_property_value_float_roundtrip() {
    let payload = 3.14f64.to_bits().to_be_bytes();
    let encoded = encode_property_value(ValueType::Float64, &payload).unwrap();
    let (decoded, _) = decode(&encoded).unwrap();
    assert_eq!(decoded.to_f64_bits().map(f64::from_bits), Some(3.14));
}

#[test]
fn encoded_bytes() {
    let mut buf = Vec::new();
    assert_eq!(encode(&Value::Int64(1), &mut buf), Some(9));
    assert_eq!(buf[1..], [0x80, 0, 0, 0, 0, 0, 0, 1]);
    assert_eq!(order_i64(-1), 0x7FFF_FFFF_FFFF_FFFF);
    assert_eq!(unorder_i64(order_i64(-12345)), -12345);
    assert_eq!(order_f64_bits(0), 0x8000_0000_0000_0000);
    assert_eq!(unorder_f64_bits(order_f64_bits((-2.5f64).to_bits())), (-2.5f64).to_bits());
}

#[test]
fn too_long_values_are_refused() {
    let mut buf = vec![1, 2];
    let long = Value::String(vec![0u8; MAX_ENCODED_LEN]);
    assert_eq!(encode(&long, &mut buf), None);
    assert_eq!(encode_property_value(ValueType::List, &vec![0u8; MAX_ENCODED_LEN]), None);
}

#[test]
fn malformed_values_are_refused() {
    assert_eq!(decode(&[]), None);
    assert_eq!(decode(&[0xEE]), None);
    let mut buf = Vec::new();
    encode(&Value::from_str("hello"), &mut buf);
    assert_eq!(decode(&buf[..buf.len() - 1]), None);
    assert_eq!(encode_property_value(ValueType::Int64, &[1, 2, 3]), None);
}

#[test]
fn every_nan_payload_has_one_encoding_above_infinity() {
    let canonical = [0x03, 0xFF, 0xF8, 0, 0, 0, 0, 0, 0];
    let payloads = [
        f64::NAN.to_bits(),
        (-f64::NAN).to_bits(),
        0x7FF0_0000_0000_0001u64,
        0xFFF0_0000_0000_0001u64,
        0xFFFF_FFFF_FFFF_FFFFu64,
        0x7FFF_FFFF_FFFF_FFFFu64,
    ];
    for bits in payloads {
        let encoded = encode_property_value(ValueType::Float64, &bits.to_be_bytes()).unwrap();
        assert_eq!(encoded, canonical, "payload {bits:#x}");
    }
    let infinity = f64::INFINITY.to_bits().to_be_bytes();
    let top = encode_property_value(ValueType::Float64, &infinity).unwrap();
    assert_eq!(top, [0x03, 0xFF, 0xF0, 0, 0, 0, 0, 0, 0]);
    assert!(top.as_slice() < canonical.as_slice());
    // The infinities themselves are no NaN.
    let bottom = encode_property_value(
        ValueType::Float64,
        &f64::NEG_INFINITY.to_bits().to_be_bytes(),
    )
    .unwrap();
    assert_eq!(bottom, [0x03, 0x00, 0x0F, 0xFF, 0xFF, 0xFF, 0xFF, 0xFF, 0xFF]);
}
