//! How property values are stored.
//!
//! A value is stored as the number of its type and a payload. Lists, values by
//! name, points, dates and durations have no such form.

use vstd::prelude::*;
use vstd::slice::slice_subrange;
use vstd::string::StringSliceAdditionalSpecFns;
use vstd::utf8::decode_utf8;
use vstd::utf8::encode_utf8;
use vstd::utf8::encode_utf8_decode_utf8;
use vstd::utf8::encode_utf8_valid_utf8;
use vstd::utf8::valid_utf8;

use crate::bytes::be_bytes;
use crate::bytes::be_bytes_len;
use crate::bytes::be_value;
use crate::bytes::copy_range;
use crate::bytes::lemma_be_roundtrip;
use crate::bytes::lemma_be_value_roundtrip;
use crate::bytes::lemma_pow256_sizes;
use crate::bytes::push_be;
use crate::bytes::read_be;
use crate::graph::float::OrderedF64;
use crate::graph::property::Property;
use crate::graph::property::PropertyModel;
use crate::graph::record::ValueType;
use crate::index::property::index_value;
use crate::index::value_codec::canonical_bits;
use crate::index::value_codec::encoded;
use crate::index::value_codec::encoded_property;
use crate::index::value_codec::from_two_complement;
use crate::index::value_codec::law_bool_property;
use crate::index::value_codec::law_bytes_property_fits;
use crate::index::value_codec::law_encoded_injective;
use crate::index::value_codec::law_float_order;
use crate::index::value_codec::property_value;
use crate::index::value_codec::two_complement;
use crate::text::utf8_text;

verus! {

/// The two's complement of an integer.
pub open spec fn complement_of(v: i64) -> nat {
    if v < 0 {
        (v + 0x1_0000_0000_0000_0000) as nat
    } else {
        v as nat
    }
}

/// The type and the payload that stand for a value.
pub open spec fn stored_form(m: PropertyModel) -> Option<(ValueType, Seq<u8>)> {
    match m {
        PropertyModel::Null => Some((ValueType::Null, Seq::empty())),
        PropertyModel::Boolean(b) => Some(
            (
                ValueType::Bool,
                if b {
                    seq![1u8]
                } else {
                    seq![0u8]
                },
            ),
        ),
        PropertyModel::Integer(v) => Some((ValueType::Int64, be_bytes(complement_of(v), 8))),
        PropertyModel::Float(f) => Some((ValueType::Float64, be_bytes(f.0 as nat, 8))),
        PropertyModel::String(s) => Some((ValueType::String, encode_utf8(s))),
        _ => None,
    }
}

/// The type and the payload that are stored for a value: those of no value where it
/// has none.
pub open spec fn form_or_null(m: PropertyModel) -> (ValueType, Seq<u8>) {
    match stored_form(m) {
        Some(form) => form,
        None => (ValueType::Null, Seq::empty()),
    }
}

/// The value with a type and a payload; no value where the payload is too short, no
/// text, or of a type without a stored form.
pub open spec fn read_form(value_type: ValueType, payload: Seq<u8>) -> PropertyModel {
    match value_type {
        ValueType::Null => PropertyModel::Null,
        ValueType::Bool => PropertyModel::Boolean(payload.len() > 0 && payload[0] != 0),
        ValueType::Int64 => if payload.len() < 8 {
            PropertyModel::Null
        } else {
            PropertyModel::Integer(two_complement(be_value(payload.take(8))))
        },
        ValueType::Float64 => if payload.len() < 8 {
            PropertyModel::Null
        } else {
            PropertyModel::Float(OrderedF64(be_value(payload.take(8)) as u64))
        },
        ValueType::String => if valid_utf8(payload) {
            PropertyModel::String(decode_utf8(payload))
        } else {
            PropertyModel::Null
        },
        ValueType::List => PropertyModel::Null,
        ValueType::Dict => PropertyModel::Null,
    }
}

/// A value that has a stored form is read back from it; from what is stored for any
/// other, no value is read.
pub proof fn law_stored_value_roundtrip(m: PropertyModel)
    ensures
        read_form(form_or_null(m).0, form_or_null(m).1) == (if stored_form(m) is Some {
            m
        } else {
            PropertyModel::Null
        }),
{
    broadcast use be_bytes_len;

    lemma_pow256_sizes();
    let payload = form_or_null(m).1;
    match m {
        PropertyModel::Integer(v) => {
            lemma_be_roundtrip(complement_of(v), 8);
            assert(payload.take(8) =~= payload);
        },
        PropertyModel::Float(f) => {
            lemma_be_roundtrip(f.0 as nat, 8);
            assert(payload.take(8) =~= payload);
        },
        PropertyModel::String(s) => {
            encode_utf8_valid_utf8(s);
            encode_utf8_decode_utf8(s);
        },
        _ => {},
    }
}

/// Null, truth values, integers, floats and texts are stored, and each is read back as it
/// was. No other value is stored: where one was to be, no value is read.
pub proof fn law_kinds_read_back(m: PropertyModel)
    ensures
        (m is Null || m is Boolean || m is Integer || m is Float || m is String) ==> (
        stored_form(m) matches Some(form) && read_form(form.0, form.1) == m && form_or_null(m)
            == form),
        !(m is Null || m is Boolean || m is Integer || m is Float || m is String) ==> stored_form(
            m,
        ) is None && read_form(form_or_null(m).0, form_or_null(m).1) == PropertyModel::Null,
{
    law_stored_value_roundtrip(m);
}

/// What stands for a value: the type of its kind, and a payload that is 1 or 0 for a truth
/// value, the two's complement of an integer or the bits of a float in eight bytes with
/// the highest first, and the bytes of a text.
pub proof fn law_stored_payload(m: PropertyModel)
    ensures
        ({
            let (value_type, payload) = form_or_null(m);
            &&& m is Null ==> value_type == ValueType::Null && payload.len() == 0
            &&& m matches PropertyModel::Boolean(b) ==> value_type == ValueType::Bool
                && payload.len() == 1 && payload[0] == (if b {
                1int
            } else {
                0int
            })
            &&& m matches PropertyModel::Integer(v) ==> value_type == ValueType::Int64
                && payload.len() == 8 && be_value(payload) == (if v < 0 {
                v + 0x1_0000_0000_0000_0000
            } else {
                v as int
            })
            &&& m matches PropertyModel::Float(f) ==> value_type == ValueType::Float64
                && payload.len() == 8 && be_value(payload) == f.0
            &&& m matches PropertyModel::String(t) ==> value_type == ValueType::String && payload
                == encode_utf8(t)
        }),
{
    broadcast use be_bytes_len;

    lemma_pow256_sizes();
    match m {
        PropertyModel::Integer(v) => {
            lemma_be_roundtrip(complement_of(v), 8);
        },
        PropertyModel::Float(f) => {
            lemma_be_roundtrip(f.0 as nat, 8);
        },
        _ => {},
    }
}

/// A payload is read by its type: a truth value is false if the payload is empty or starts
/// with 0, a number stands in the first eight bytes and is missing where there are fewer,
/// and bytes that are no text stand for no value.
pub proof fn law_payload_meaning(payload: Seq<u8>)
    ensures
        read_form(ValueType::Null, payload) == PropertyModel::Null,
        read_form(ValueType::Bool, payload) == PropertyModel::Boolean(
            !(payload.len() == 0 || payload[0] == 0),
        ),
        payload.len() < 8 ==> read_form(ValueType::Int64, payload) == PropertyModel::Null
            && read_form(ValueType::Float64, payload) == PropertyModel::Null,
        payload.len() >= 8 ==> (read_form(ValueType::Int64, payload) matches PropertyModel::Integer(
            v,
        ) && be_value(payload.take(8)) == (if v < 0 {
            v + 0x1_0000_0000_0000_0000
        } else {
            v as int
        })),
        payload.len() >= 8 ==> (read_form(ValueType::Float64, payload) matches PropertyModel::Float(
            f,
        ) && be_value(payload.take(8)) == f.0),
        read_form(ValueType::String, payload) == (if valid_utf8(payload) {
            PropertyModel::String(decode_utf8(payload))
        } else {
            PropertyModel::Null
        }),
        read_form(ValueType::List, payload) == PropertyModel::Null,
        read_form(ValueType::Dict, payload) == PropertyModel::Null,
{
    lemma_pow256_sizes();
    if payload.len() >= 8 {
        lemma_be_value_roundtrip(payload.take(8));
    }
}

/// Values that have an encoding are indexed apart: two of them are indexed alike only if
/// they are equal, or both are no numbers.
pub proof fn law_indexed_apart(a: PropertyModel, b: PropertyModel)
    requires
        a is Null || a is Boolean || a is Integer || a is Float || a is String,
        b is Null || b is Boolean || b is Integer || b is Float || b is String,
        encoded_property(form_or_null(a).0, form_or_null(a).1) is Some,
        encoded_property(form_or_null(b).0, form_or_null(b).1) is Some,
    ensures
        index_value(form_or_null(a).0, form_or_null(a).1) == index_value(
            form_or_null(b).0,
            form_or_null(b).1,
        ) <==> a == b || (a matches PropertyModel::Float(x) && b matches PropertyModel::Float(y)
            && x.0 as int % 0x8000_0000_0000_0000 > 0x7FF0_0000_0000_0000 && y.0 as int
            % 0x8000_0000_0000_0000 > 0x7FF0_0000_0000_0000),
{
    broadcast use be_bytes_len;

    law_stored_payload(a);
    law_stored_payload(b);
    let p = form_or_null(a).1;
    let q = form_or_null(b).1;
    let v = property_value(form_or_null(a).0, p)->0;
    let w = property_value(form_or_null(b).0, q)->0;
    if encoded(v) == encoded(w) {
        law_encoded_injective(v, w);
    }
    if p.len() == 8 {
        assert(p.take(8) =~= p);
    }
    if q.len() == 8 {
        assert(q.take(8) =~= q);
    }
    match (a, b) {
        (PropertyModel::Float(x), PropertyModel::Float(y)) => {
            law_float_order(canonical_bits(x.0), canonical_bits(y.0));
        },
        (PropertyModel::String(x), PropertyModel::String(y)) => {
            encode_utf8_decode_utf8(x);
            encode_utf8_decode_utf8(y);
        },
        _ => {},
    }
}

/// Every value but a long text has an encoding. What has none is indexed as null is.
pub proof fn law_indexed_kinds(m: PropertyModel)
    ensures
        ({
            let (value_type, payload) = form_or_null(m);
            &&& !(m is String) ==> encoded_property(value_type, payload) is Some
            &&& payload.len() <= 255 ==> encoded_property(value_type, payload) is Some
            &&& encoded_property(value_type, payload) is None ==> index_value(value_type, payload)
                == index_value(ValueType::Null, Seq::empty())
        }),
{
    broadcast use be_bytes_len;

    law_stored_payload(m);
    let (value_type, payload) = form_or_null(m);
    law_bool_property(payload);
    law_bool_property(Seq::empty());
    if m is String {
        law_bytes_property_fits(value_type, payload);
    }
}

impl Property {
    /// The type and the payload that stand for the value, if it has a stored form.
    pub fn to_value_type_payload(&self) -> (r: Option<(ValueType, Vec<u8>)>)
        ensures
            match r {
                Some(form) => stored_form(self.model()) == Some((form.0, form.1@)),
                None => stored_form(self.model()) is None,
            },
    {
        let mut payload: Vec<u8> = Vec::new();
        match self {
            Property::Null => {
                assert(payload@ =~= Seq::<u8>::empty());
                Some((ValueType::Null, payload))
            },
            Property::Boolean(b) => {
                payload.push(
                    if *b {
                        1
                    } else {
                        0
                    },
                );
                assert(payload@ =~= (if *b {
                    seq![1u8]
                } else {
                    seq![0u8]
                }));
                Some((ValueType::Bool, payload))
            },
            Property::Integer(v) => {
                let bits: u64 = if *v < 0 {
                    (*v as i128 + 0x1_0000_0000_0000_0000i128) as u64
                } else {
                    *v as u64
                };
                push_be(&mut payload, bits as u128, 8);
                assert(payload@ =~= be_bytes(complement_of(*v), 8));
                Some((ValueType::Int64, payload))
            },
            Property::Float(f) => {
                push_be(&mut payload, f.0 as u128, 8);
                assert(payload@ =~= be_bytes(f.0 as nat, 8));
                Some((ValueType::Float64, payload))
            },
            Property::String(s) => {
                let bytes = s.as_str().as_bytes();
                let text = copy_range(bytes, 0, bytes.len());
                assert(text@ =~= bytes@);
                Some((ValueType::String, text))
            },
            _ => None,
        }
    }
}

/// The value with a type and a payload.
pub fn decode_property_value(value_type: ValueType, payload: &[u8]) -> (r: Property)
    ensures
        r.model() == read_form(value_type, payload@),
{
    proof {
        lemma_pow256_sizes();
    }
    match value_type {
        ValueType::Null => Property::Null,
        ValueType::Bool => Property::Boolean(payload.len() > 0 && payload[0] != 0),
        ValueType::Int64 => {
            if payload.len() < 8 {
                return Property::Null;
            }
            let head = slice_subrange(payload, 0, 8);
            assert(head@ =~= payload@.take(8));
            Property::Integer(from_two_complement(read_be(head) as u64))
        },
        ValueType::Float64 => {
            if payload.len() < 8 {
                return Property::Null;
            }
            let head = slice_subrange(payload, 0, 8);
            assert(head@ =~= payload@.take(8));
            Property::Float(OrderedF64(read_be(head) as u64))
        },
        ValueType::String => {
            match utf8_text(payload) {
                Some(s) => {
                    proof {
                        encode_utf8_decode_utf8(s@);
                    }
                    Property::String(s.to_owned())
                },
                None => Property::Null,
            }
        },
        ValueType::List => Property::Null,
        ValueType::Dict => Property::Null,
    }
}

} // verus!
