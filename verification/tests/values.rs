use rgraph::graph::builder::{BuilderError, NodeBuilder, RelationshipBuilder};
use rgraph::graph::display::{decimal_text, signed_text, Piece};
use rgraph::graph::float::OrderedF64;
use rgraph::graph::hashing::HashPart;
use rgraph::graph::property::{Property, PropertyMap};
use std::cmp::Ordering;
use std::hash::{Hash, Hasher};

fn float(x: f64) -> OrderedF64 {
    OrderedF64(x.to_bits())
}

/// The text of a property, with the floats written as decimals.
fn text(p: &Property) -> String {
    let mut out = String::new();
    for piece in p.pieces() {
        match piece {
            Piece::Text(t) => out.push_str(&t),
            Piece::Float(v) => out.push_str(&format!("{}", f64::from_bits(v.0))),
        }
    }
    out
}

#[test]
fn from_i64() {
    let p: Property = 42i64.into();
    assert_eq!(p, Property::Integer(42));
}

#[test]
fn from_f64() {
    let p: Property = float(3.14).into();
    assert_eq!(p, Property::Float(float(3.14)));
}

#[test]
fn from_string() {
    let p: Property = "hello".into();
    assert_eq!(p, Property::String("hello".to_string()));
}

#[test]
fn from_bool() {
    let p: Property = true.into();
    assert_eq!(p, Property::Boolean(true));
}

#[test]
fn from_list() {
    let p: Property = vec![Property::Integer(1), Property::Integer(2)].into();
    assert_eq!(
        p,
        Property::List(vec![Property::Integer(1), Property::Integer(2)])
    );
}

#[test]
fn from_map() {
    let mut m = PropertyMap::new();
    m.insert("name".to_string(), Property::String("Alice".to_string()));
    let mut same = PropertyMap::new();
    same.insert("name".to_string(), Property::String("Alice".to_string()));
    let p: Property = m.into();
    assert_eq!(p, Property::Dict(same));
}

#[test]
fn from_the_narrow_integers() {
    assert_eq!(Property::from(-7i32), Property::Integer(-7));
    assert_eq!(Property::from(u32::MAX), Property::Integer(4294967295));
    assert_eq!(
        Property::from("x".to_string()),
        Property::String("x".to_string())
    );
}

#[test]
fn null_singleton() {
    let a = Property::Null;
    let b = Property::Null;
    assert_eq!(a, b);
    assert!(a.is_null());
}

#[test]
fn is_scalar_and_composite() {
    assert!(Property::Integer(1).is_scalar());
    assert!(Property::Boolean(false).is_scalar());
    assert!(!Property::Null.is_scalar());
    assert!(!Property::List(vec![]).is_scalar());
    assert!(Property::List(vec![]).is_composite());
    assert!(Property::Dict(PropertyMap::new()).is_composite());
}

#[test]
fn nan_inequality_cypher_semantics() {
    let a = Property::Float(float(f64::NAN));
    let b = Property::Float(float(f64::NAN));
    // NaN differs from NaN.
    assert_ne!(a, b, "NaN must not equal NaN in Cypher semantics");
}

#[test]
fn ordered_f64_total_order() {
    let values = [
        float(f64::NEG_INFINITY),
        float(-1000.0),
        float(-1.0),
        float(-0.0),
        float(0.0),
        float(1.0),
        float(1000.0),
        float(f64::INFINITY),
        float(f64::NAN),
    ];
    for i in 1..values.len() {
        assert!(
            values[i - 1] < values[i],
            "total order violated at index {}: {:?} vs {:?}",
            i,
            values[i - 1].0,
            values[i].0
        );
        assert_eq!(values[i].total_cmp(&values[i - 1]), Ordering::Greater);
    }
}

#[test]
fn zeros_are_equal_and_ordered() {
    assert_eq!(float(-0.0), float(0.0));
    assert_eq!(float(-0.0).total_cmp(&float(0.0)), Ordering::Less);
    assert_eq!(float(2.5).total_cmp(&float(2.5)), Ordering::Equal);
}

#[test]
fn ordered_f64_hash_canonicalises_nan() {
    let a = float(f64::NAN);
    let b = OrderedF64(0x7FF4_0000_0000_0000); // signaling NaN
    let mut hasher_a = std::collections::hash_map::DefaultHasher::new();
    let mut hasher_b = std::collections::hash_map::DefaultHasher::new();
    a.canonical_bits().hash(&mut hasher_a);
    b.canonical_bits().hash(&mut hasher_b);
    assert_eq!(hasher_a.finish(), hasher_b.finish(), "all NaNs should hash the same");
    assert_eq!(a.canonical_bits(), OrderedF64::CANONICAL_NAN_BITS);
    assert_eq!(float(1.5).canonical_bits(), 1.5f64.to_bits());
    assert_eq!(Property::Float(a).hash_parts(), Property::Float(b).hash_parts());
}

#[test]
fn hash_goes_by_kind_and_content() {
    assert_eq!(Property::Null.hash_parts(), vec![HashPart::Kind(0)]);
    assert_eq!(
        Property::Date(5).hash_parts(),
        vec![HashPart::Kind(5), HashPart::Integer(5)]
    );
    assert_ne!(Property::Date(5).hash_parts(), Property::Duration(5).hash_parts());
    let mut ab = PropertyMap::new();
    ab.insert("a".to_string(), Property::Boolean(true));
    ab.insert("b".to_string(), Property::List(vec![Property::Integer(1)]));
    let mut ba = PropertyMap::new();
    ba.insert("b".to_string(), Property::List(vec![Property::Integer(1)]));
    ba.insert("a".to_string(), Property::Boolean(true));
    let parts = Property::Dict(ab).hash_parts();
    assert_eq!(parts, Property::Dict(ba).hash_parts());
    assert_eq!(
        parts,
        vec![
            HashPart::Kind(9),
            HashPart::Text("a".to_string()),
            HashPart::Kind(4),
            HashPart::Flag(true),
            HashPart::Text("b".to_string()),
            HashPart::Kind(8),
            HashPart::Kind(1),
            HashPart::Integer(1),
        ]
    );
    let flat = Property::Point {
        srid: 7,
        x: float(1.0),
        y: float(2.0),
        z: None,
    };
    assert_eq!(
        flat.hash_parts(),
        vec![
            HashPart::Kind(7),
            HashPart::System(7),
            HashPart::Bits(1.0f64.to_bits()),
            HashPart::Bits(2.0f64.to_bits()),
            HashPart::Third(false),
        ]
    );
}

#[test]
fn display_null() {
    assert_eq!(text(&Property::Null), "NULL");
}

#[test]
fn display_integer() {
    assert_eq!(text(&Property::Integer(42)), "42");
}

#[test]
fn display_list() {
    let list = Property::List(vec![
        Property::Integer(1),
        Property::String("two".to_string()),
    ]);
    assert_eq!(text(&list), "[1, 'two']");
}

#[test]
fn display_map() {
    let mut m = PropertyMap::new();
    m.insert("a".to_string(), Property::Integer(1));
    m.insert("b".to_string(), Property::Integer(2));
    let map = Property::Dict(m);
    let s = text(&map);
    assert!(s.contains("a: 1"));
    assert!(s.contains("b: 2"));
}

#[test]
fn display_the_other_kinds() {
    assert_eq!(text(&Property::Boolean(true)), "true");
    assert_eq!(text(&Property::Boolean(false)), "false");
    assert_eq!(text(&Property::Float(float(2.5))), "2.5");
    assert_eq!(text(&Property::Date(-3)), "date(-3)");
    assert_eq!(text(&Property::Duration(90)), "duration(90)");
    assert_eq!(text(&Property::String("it".to_string())), "'it'");
    assert_eq!(
        text(&Property::Point {
            srid: 4326,
            x: float(1.0),
            y: float(-2.5),
            z: None
        }),
        "point({srid:4326, x:1, y:-2.5})"
    );
    assert_eq!(
        text(&Property::Point {
            srid: 7,
            x: float(1.0),
            y: float(2.0),
            z: Some(float(3.0))
        }),
        "point({srid:7, x:1, y:2, z:3})"
    );
    assert_eq!(text(&Property::List(vec![])), "[]");
    assert_eq!(text(&Property::Dict(PropertyMap::new())), "{}");
}

#[test]
fn display_map_goes_by_name() {
    let mut m = PropertyMap::new();
    m.insert("b".to_string(), Property::Null);
    m.insert("a".to_string(), Property::List(vec![Property::Integer(-1)]));
    m.insert("ab".to_string(), Property::Integer(3));
    assert_eq!(text(&Property::Dict(m)), "{a: [-1], ab: 3, b: NULL}");
}

#[test]
fn numerals() {
    assert_eq!(decimal_text(0), "0");
    assert_eq!(decimal_text(u64::MAX), "18446744073709551615");
    assert_eq!(signed_text(0), "0");
    assert_eq!(signed_text(i64::MIN), "-9223372036854775808");
    assert_eq!(signed_text(i64::MAX), "9223372036854775807");
}

#[test]
fn property_discriminant_order() {
    let variants = [
        Property::Null,
        Property::Boolean(false),
        Property::Integer(0),
        Property::Float(float(0.0)),
        Property::String("".to_string()),
        Property::List(vec![]),
        Property::Dict(PropertyMap::new()),
        Property::Point {
            srid: 4326,
            x: float(0.0),
            y: float(0.0),
            z: None,
        },
        Property::Date(0),
        Property::Duration(0),
    ];
    for i in 1..variants.len() {
        assert!(
            variants[i - 1].discriminant_ord() < variants[i].discriminant_ord(),
            "discriminant order violated at index {}",
            i
        );
    }
}

#[test]
fn property_map_keeps_the_last_value() {
    let mut m = PropertyMap::new();
    assert!(m.is_empty());
    m.insert("k".to_string(), Property::Integer(1));
    m.insert("a".to_string(), Property::Integer(2));
    m.insert("k".to_string(), Property::Integer(3));
    assert_eq!(m.len(), 2);
    assert_eq!(m.get("k"), Some(&Property::Integer(3)));
    assert_eq!(m.get("a"), Some(&Property::Integer(2)));
    assert_eq!(m.get("b"), None);
}

#[test]
fn node_builder_defaults() {
    let builder = NodeBuilder::new();
    assert_eq!(builder.label_id(), 0);
}

#[test]
fn node_builder_with_label() {
    // The id is 0 until one is allocated.
    let node = NodeBuilder::new().label(42).build();
    assert_eq!(node.node_id, 0);
    assert_eq!(node.label_id, 42);
}

#[test]
fn node_builder_with_properties() {
    let builder = NodeBuilder::new()
        .label(42)
        .property("name", "Alice".into())
        .property("age", 30i64.into());
    let props = builder.properties();
    assert_eq!(props.len(), 2);
    assert_eq!(props.get("name"), Some(&Property::String("Alice".to_string())));
    assert_eq!(props.get("age"), Some(&Property::Integer(30)));
}

#[test]
fn relationship_builder_full() {
    let edge = RelationshipBuilder::new()
        .from(1)
        .to(2)
        .type_id(7)
        .property("since", 2020i64.into())
        .build()
        .unwrap();
    // The id is 0 until one is allocated.
    assert_eq!(edge.record.edge_id, 0);
    assert_eq!(edge.record.type_id, 7);
    assert_eq!(edge.source_id, 1);
    assert_eq!(edge.target_id, 2);
    // The slots are null until the engine resolves them.
    assert!(edge.record.source_node.is_null());
    assert!(edge.record.target_node.is_null());
}

#[test]
fn relationship_builder_missing_source() {
    let result = RelationshipBuilder::new().to(2).type_id(7).build();
    assert_eq!(result, Err(BuilderError::MissingSource));
}

#[test]
fn relationship_builder_missing_target() {
    let result = RelationshipBuilder::new().from(1).type_id(7).build();
    assert_eq!(result, Err(BuilderError::MissingTarget));
}

#[test]
fn relationship_builder_missing_type() {
    let result = RelationshipBuilder::new().from(1).to(2).build();
    assert_eq!(result, Err(BuilderError::MissingType));
}

#[test]
fn relationship_builder_properties() {
    let builder = RelationshipBuilder::new()
        .from(1)
        .to(2)
        .type_id(7)
        .property("since", 2020i64.into())
        .property("active", true.into());
    let props = builder.properties();
    assert_eq!(props.get("since"), Some(&Property::Integer(2020)));
    assert_eq!(props.get("active"), Some(&Property::Boolean(true)));
}

#[test]
fn builder_consuming_methods() {
    // The methods take the builder by value.
    let b = NodeBuilder::new();
    let b2 = b.label(10);
    let _node = b2.build();
}

#[test]
fn builder_parts() {
    let (node, props) = NodeBuilder::default()
        .label(3)
        .property("k", Property::Null)
        .into_parts();
    assert_eq!(node.label_id, 3);
    assert_eq!(props.get("k"), Some(&Property::Null));

    let (edge, props) = RelationshipBuilder::default()
        .from(1)
        .to(1)
        .type_id(3)
        .into_parts()
        .unwrap();
    assert_eq!(edge.source_id, 1);
    assert!(props.is_empty());
    assert!(matches!(
        RelationshipBuilder::new().into_parts(),
        Err(BuilderError::MissingSource)
    ));
    // A type of 0 counts as not set.
    assert!(matches!(
        RelationshipBuilder::new().from(1).to(2).type_id(0).build(),
        Err(BuilderError::MissingType)
    ));
}

#[test]
fn only_values_that_fit_a_record_are_storable() {
    let mut m = PropertyMap::new();
    assert!(m.is_storable());
    m.insert("short".to_string(), Property::String("x".repeat(256)));
    assert!(m.is_storable());
    m.insert("long".to_string(), Property::String("x".repeat(257)));
    assert!(!m.is_storable());
}

#[test]
fn copies_of_values() {
    let mut inner = PropertyMap::new();
    inner.insert("b".to_string(), Property::Boolean(true));
    inner.insert("a".to_string(), Property::List(vec![Property::Integer(1), Property::Null]));
    let value = Property::List(vec![
        Property::Dict(inner.clone()),
        Property::Float(float(2.5)),
        Property::String("x".to_string()),
    ]);
    let copy = value.clone();
    assert_eq!(copy, value);
    let mut changed = inner.clone();
    changed.insert("c".to_string(), Property::Null);
    assert_eq!(changed.len(), 3);
    assert_eq!(inner.len(), 2);
    assert_eq!(inner.get("b"), Some(&Property::Boolean(true)));
}
