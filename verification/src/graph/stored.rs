//! Records as the storage engine keeps them.
//!
//! The engine stores with an edge the ids of its two end nodes, and with a
//! property its name and the slot of the next property of the same entity.

use vstd::prelude::*;
use vstd::slice::slice_subrange;
use vstd::string::StringSliceAdditionalSpecFns;
use vstd::utf8::decode_utf8;
use vstd::utf8::encode_utf8;
use vstd::utf8::valid_utf8;

use crate::bytes::append_slice;
use crate::bytes::copy_range;
use crate::bytes::le_bytes;
use crate::bytes::le_bytes_len;
use crate::bytes::le_value;
use crate::bytes::lemma_le_roundtrip;
use crate::bytes::lemma_le_value_roundtrip;
use crate::bytes::lemma_pow256_sizes;
use crate::bytes::push_le;
use crate::bytes::read_le;
use crate::graph::record::law_edge_record_roundtrip;
use crate::graph::record::EdgeRecord;
use crate::graph::record::MAX_INLINE_PROPERTY_LEN;
use crate::graph::record::PropertyHeader;
use crate::graph::record::PropertyRecord;
use crate::graph::record::SlotRef;
use crate::graph::record::ValueType;
use crate::text::utf8_text;

verus! {

/// An edge record and the ids of its end nodes.
#[derive(Debug, Clone, Copy, PartialEq, Eq, Structural)]
pub struct StoredEdge {
    pub record: EdgeRecord,
    pub source_id: u64,
    pub target_id: u64,
}

impl StoredEdge {
    /// Size of a stored edge in bytes.
    pub const SIZE: usize = 64;

    /// The bytes of a stored edge: the record, then the two ids.
    pub open spec fn spec_bytes(self) -> Seq<u8> {
        self.record.spec_bytes() + le_bytes(self.source_id as nat, 8) + le_bytes(
            self.target_id as nat,
            8,
        )
    }

    /// The edge between two nodes, given by their ids and their slots, that no
    /// list holds yet.
    pub open spec fn spec_new(
        edge_id: u64,
        type_id: u32,
        source_id: u64,
        target_id: u64,
        source: SlotRef,
        target: SlotRef,
    ) -> StoredEdge {
        StoredEdge {
            record: EdgeRecord::spec_new(edge_id, type_id, source, target),
            source_id,
            target_id,
        }
    }

    /// The edge between two nodes, given by their ids and their slots, that no
    /// list holds yet.
    pub fn new(
        edge_id: u64,
        type_id: u32,
        source_id: u64,
        target_id: u64,
        source: SlotRef,
        target: SlotRef,
    ) -> (r: Self)
        ensures
            r == Self::spec_new(edge_id, type_id, source_id, target_id, source, target),
    {
        StoredEdge { record: EdgeRecord::new(edge_id, type_id, source, target), source_id, target_id }
    }

    /// The bytes of the stored edge.
    pub fn encode(&self) -> (r: Vec<u8>)
        ensures
            r@ == self.spec_bytes(),
            r@.len() == StoredEdge::SIZE,
    {
        let mut buf: Vec<u8> = vec![0; 48];
        self.record.encode(buf.as_mut_slice());
        push_le(&mut buf, self.source_id as u128, 8);
        push_le(&mut buf, self.target_id as u128, 8);
        proof {
            broadcast use le_bytes_len;

            assert(buf@ =~= self.spec_bytes());
        }
        buf
    }

    /// The stored edge with these bytes; `None` unless there are as many as a
    /// stored edge takes.
    pub fn decode(bytes: &[u8]) -> (r: Option<Self>)
        ensures
            match r {
                Some(edge) => bytes@.len() == StoredEdge::SIZE && edge.spec_bytes() == bytes@,
                None => bytes@.len() != StoredEdge::SIZE,
            },
    {
        if bytes.len() != StoredEdge::SIZE {
            return None;
        }
        let source_bytes = slice_subrange(bytes, 48, 56);
        let target_bytes = slice_subrange(bytes, 56, 64);
        proof {
            lemma_pow256_sizes();
            lemma_le_value_roundtrip(source_bytes@);
            lemma_le_value_roundtrip(target_bytes@);
        }
        match EdgeRecord::decode(slice_subrange(bytes, 0, 48)) {
            Some(record) => {
                let edge = StoredEdge {
                    record,
                    source_id: read_le(source_bytes) as u64,
                    target_id: read_le(target_bytes) as u64,
                };
                assert(edge.spec_bytes() =~= bytes@);
                Some(edge)
            },
            None => None,
        }
    }
}

/// Equal bytes hold equal edges: decoding gives back what was encoded.
pub proof fn law_stored_edge_roundtrip(a: StoredEdge, b: StoredEdge)
    requires
        a.spec_bytes() == b.spec_bytes(),
    ensures
        a == b,
{
    broadcast use le_bytes_len;

    lemma_pow256_sizes();
    let x = a.spec_bytes();
    let y = b.spec_bytes();
    assert(x.subrange(0, 48) =~= a.record.spec_bytes());
    assert(y.subrange(0, 48) =~= b.record.spec_bytes());
    law_edge_record_roundtrip(a.record, b.record);
    assert(x.subrange(48, 56) =~= le_bytes(a.source_id as nat, 8));
    assert(y.subrange(48, 56) =~= le_bytes(b.source_id as nat, 8));
    assert(x.subrange(56, 64) =~= le_bytes(a.target_id as nat, 8));
    assert(y.subrange(56, 64) =~= le_bytes(b.target_id as nat, 8));
    lemma_le_roundtrip(a.source_id as nat, 8);
    lemma_le_roundtrip(b.source_id as nat, 8);
    lemma_le_roundtrip(a.target_id as nat, 8);
    lemma_le_roundtrip(b.target_id as nat, 8);
}

// ---------------------------------------------------------------------------
// Properties
// ---------------------------------------------------------------------------

/// A property with its name and the slot of the next property of the same
/// entity.
#[derive(Debug)]
pub struct StoredProperty {
    pub name: String,
    pub next_property: SlotRef,
    pub record: PropertyRecord,
}

/// What a stored property holds.
#[verifier::ext_equal]
pub struct PropertyView {
    pub name: Seq<char>,
    pub next_property: SlotRef,
    pub key_id: u32,
    pub value_type: u8,
    pub payload: Seq<u8>,
}

impl View for StoredProperty {
    type V = PropertyView;

    open spec fn view(&self) -> PropertyView {
        PropertyView {
            name: self.name@,
            next_property: self.next_property,
            key_id: self.record.header.property_key_id,
            value_type: self.record.header.value_type,
            payload: self.record.payload@,
        }
    }
}

/// The bytes of a stored property: the next slot, the name with its length in
/// front, then the record.
pub open spec fn property_bytes(p: PropertyView) -> Seq<u8> {
    le_bytes(p.next_property.raw as nat, 4) + le_bytes(encode_utf8(p.name).len(), 2) + encode_utf8(
        p.name,
    ) + le_bytes(p.key_id as nat, 4) + le_bytes(p.payload.len(), 2) + seq![
        p.value_type,
        0u8,
    ] + p.payload
}

/// Can the lengths of the name and the payload be written down?
pub open spec fn property_fits(p: PropertyView) -> bool {
    encode_utf8(p.name).len() <= u16::MAX && p.payload.len() <= u16::MAX
}

/// The property at the front of these bytes; `None` where there is none.
pub open spec fn property_of(bytes: Seq<u8>) -> Option<PropertyView> {
    let n = le_value(bytes.subrange(4, 6)) as int;
    let m = le_value(bytes.subrange(10 + n, 12 + n)) as int;
    if bytes.len() < 6 || bytes.len() < 14 + n || bytes.len() < 14 + n + m || !valid_utf8(
        bytes.subrange(6, 6 + n),
    ) {
        None
    } else {
        Some(
            PropertyView {
                name: decode_utf8(bytes.subrange(6, 6 + n)),
                next_property: SlotRef { raw: le_value(bytes.take(4)) as u32 },
                key_id: le_value(bytes.subrange(6 + n, 10 + n)) as u32,
                value_type: bytes[12 + n],
                payload: bytes.subrange(14 + n, 14 + n + m),
            },
        )
    }
}

/// Where the parts of a stored edge stand: the record, then the ids of its ends.
pub proof fn law_stored_edge_layout(e: StoredEdge)
    ensures
        e.spec_bytes().len() == 64,
        e.spec_bytes().take(48) == e.record.spec_bytes(),
        le_value(e.spec_bytes().subrange(48, 56)) == e.source_id,
        le_value(e.spec_bytes().subrange(56, 64)) == e.target_id,
{
    broadcast use le_bytes_len;

    lemma_pow256_sizes();
    assert(e.spec_bytes().take(48) =~= e.record.spec_bytes());
    assert(e.spec_bytes().subrange(48, 56) =~= le_bytes(e.source_id as nat, 8));
    assert(e.spec_bytes().subrange(56, 64) =~= le_bytes(e.target_id as nat, 8));
    lemma_le_roundtrip(e.source_id as nat, 8);
    lemma_le_roundtrip(e.target_id as nat, 8);
}

/// Where the parts of a stored property stand: the next slot, the length of the name, the
/// name, the id of the key, the length of the value, its kind, a 0, and the value.
pub proof fn law_stored_property_layout(p: PropertyView)
    requires
        property_fits(p),
    ensures
        ({
            let b = property_bytes(p);
            let n = encode_utf8(p.name).len() as int;
            &&& b.len() == 14 + n + p.payload.len()
            &&& le_value(b.subrange(0, 4)) == p.next_property.raw
            &&& le_value(b.subrange(4, 6)) == n
            &&& b.subrange(6, 6 + n) == encode_utf8(p.name)
            &&& le_value(b.subrange(6 + n, 10 + n)) == p.key_id
            &&& le_value(b.subrange(10 + n, 12 + n)) == p.payload.len()
            &&& b[12 + n] == p.value_type
            &&& b[13 + n] == 0
            &&& b.skip(14 + n) == p.payload
        }),
{
    broadcast use le_bytes_len;

    lemma_pow256_sizes();
    let b = property_bytes(p);
    let n = encode_utf8(p.name).len() as int;
    assert(b.subrange(0, 4) =~= le_bytes(p.next_property.raw as nat, 4));
    assert(b.subrange(4, 6) =~= le_bytes(n as nat, 2));
    assert(b.subrange(6, 6 + n) =~= encode_utf8(p.name));
    assert(b.subrange(6 + n, 10 + n) =~= le_bytes(p.key_id as nat, 4));
    assert(b.subrange(10 + n, 12 + n) =~= le_bytes(p.payload.len(), 2));
    assert(b.skip(14 + n) =~= p.payload);
    lemma_le_roundtrip(p.next_property.raw as nat, 4);
    lemma_le_roundtrip(n as nat, 2);
    lemma_le_roundtrip(p.key_id as nat, 4);
    lemma_le_roundtrip(p.payload.len(), 2);
}

/// A stored property is read back from its bytes.
pub proof fn law_stored_property_roundtrip(p: PropertyView)
    requires
        property_fits(p),
    ensures
        property_of(property_bytes(p)) == Some(p),
{
    broadcast use le_bytes_len;
    broadcast use vstd::utf8::encode_utf8_valid_utf8;
    broadcast use vstd::utf8::encode_utf8_decode_utf8;

    lemma_pow256_sizes();
    let bytes = property_bytes(p);
    let name = encode_utf8(p.name);
    let n = name.len() as int;
    let m = p.payload.len() as int;
    assert(bytes.take(4) =~= le_bytes(p.next_property.raw as nat, 4));
    lemma_le_roundtrip(p.next_property.raw as nat, 4);
    assert(bytes.subrange(4, 6) =~= le_bytes(name.len(), 2));
    lemma_le_roundtrip(name.len(), 2);
    assert(bytes.subrange(6, 6 + n) =~= name);
    assert(bytes.subrange(6 + n, 10 + n) =~= le_bytes(p.key_id as nat, 4));
    lemma_le_roundtrip(p.key_id as nat, 4);
    assert(bytes.subrange(10 + n, 12 + n) =~= le_bytes(p.payload.len(), 2));
    lemma_le_roundtrip(p.payload.len(), 2);
    assert(bytes[12 + n] == p.value_type);
    assert(bytes.subrange(14 + n, 14 + n + m) =~= p.payload);
    assert(property_of(bytes)->0 =~= p);
}

impl StoredProperty {
    /// The header gives the length of the payload and nothing stands in its last
    /// byte.
    pub open spec fn wf(&self) -> bool {
        self.record.wf() && self.record.header._pad == 0
    }

    /// The property with a name and a value that is stored inline.
    pub fn inline(name: &str, property_key_id: u32, value_type: ValueType, payload: Vec<u8>) -> (r:
        Self)
        requires
            payload@.len() <= MAX_INLINE_PROPERTY_LEN,
        ensures
            r.wf(),
            r@ == (PropertyView {
                name: name@,
                next_property: SlotRef::null(),
                key_id: property_key_id,
                value_type: value_type.spec_code(),
                payload: payload@,
            }),
    {
        StoredProperty {
            name: name.to_owned(),
            next_property: SlotRef::null(),
            record: PropertyRecord::inline(property_key_id, value_type, payload),
        }
    }

    /// The bytes of the stored property.
    pub fn encode(&self) -> (r: Vec<u8>)
        requires
            self.wf(),
            property_fits(self@),
        ensures
            r@ == property_bytes(self@),
    {
        broadcast use le_bytes_len;

        let name = self.name.as_str().as_bytes();
        let mut out: Vec<u8> = Vec::new();
        push_le(&mut out, self.next_property.raw as u128, 4);
        push_le(&mut out, name.len() as u128, 2);
        append_slice(&mut out, name);
        let record = self.record.encode();
        append_slice(&mut out, record.as_slice());
        proof {
            assert(le_bytes(0, 1) =~= seq![0u8]) by {
                reveal_with_fuel(le_bytes, 2);
            }
            let v = self.record.header.value_type;
            assert(le_bytes(v as nat, 1) =~= seq![v]) by {
                reveal_with_fuel(le_bytes, 2);
            }
            assert(out@ =~= property_bytes(self@));
        }
        out
    }

    /// The property at the front of these bytes; `None` where there is none.
    pub fn decode(bytes: &[u8]) -> (r: Option<Self>)
        ensures
            match r {
                Some(p) => property_of(bytes@) == Some(p@) && p.wf(),
                None => property_of(bytes@) is None,
            },
    {
        broadcast use le_bytes_len;

        proof {
            lemma_pow256_sizes();
        }
        if bytes.len() < 6 {
            return None;
        }
        let next = slice_subrange(bytes, 0, 4);
        assert(next@ =~= bytes@.take(4));
        let n: usize = read_le(slice_subrange(bytes, 4, 6)) as usize;
        if bytes.len() - 6 < n || bytes.len() - 6 - n < 8 {
            return None;
        }
        let key_id: u32 = read_le(slice_subrange(bytes, 6 + n, 10 + n)) as u32;
        let length: u16 = read_le(slice_subrange(bytes, 10 + n, 12 + n)) as u16;
        let m: usize = length as usize;
        if bytes.len() - 14 - n < m {
            return None;
        }
        let name_bytes = slice_subrange(bytes, 6, 6 + n);
        match utf8_text(name_bytes) {
            Some(name) => {
                let payload = copy_range(bytes, 14 + n, 14 + n + m);
                let p = StoredProperty {
                    name: name.to_owned(),
                    next_property: SlotRef { raw: read_le(next) as u32 },
                    record: PropertyRecord {
                        header: PropertyHeader {
                            property_key_id: key_id,
                            value_length: length,
                            value_type: bytes[12 + n],
                            _pad: 0,
                        },
                        payload,
                    },
                };
                proof {
                    broadcast use vstd::utf8::encode_utf8_decode_utf8;

                    assert(decode_utf8(name_bytes@) == name@);
                    assert(property_of(bytes@)->0 =~= p@);
                }
                Some(p)
            },
            None => None,
        }
    }
}

} // verus!
