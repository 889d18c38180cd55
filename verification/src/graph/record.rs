//! Graph record formats.
//!
//! A node record takes 32 bytes and an edge record 48; every field is
//! little-endian and stands at a fixed offset. A property record is a header of
//! 8 bytes and a payload. A [`SlotRef`] packs a page id of 24 bits and a slot
//! index of 8 bits into one number.

use vstd::prelude::*;
use vstd::slice::slice_subrange;
use vstd::std_specs::convert::FromSpecImpl;
use vstd::string::StringSliceAdditionalSpecFns;

use crate::bytes::append_slice;
use crate::bytes::copy_into;
use crate::bytes::copy_range;
use crate::bytes::le_bytes;
use crate::bytes::le_bytes_len;
use crate::bytes::le_value;
use crate::bytes::lemma_le_roundtrip;
use crate::bytes::lemma_le_value_roundtrip;
use crate::bytes::lemma_pow256_sizes;
use crate::bytes::push_le;
use crate::bytes::read_le;

pub mod edge_flags;
pub mod node_flags;

verus! {

// ---------------------------------------------------------------------------
// Slot references
// ---------------------------------------------------------------------------

/// A page id (upper 24 bits) and a slot index (lower 8 bits) in one number.
#[derive(Debug, Clone, Copy, PartialEq, Eq, PartialOrd, Ord, Hash, Structural)]
pub struct SlotRef {
    pub raw: u32,
}

impl SlotRef {
    /// The largest page id.
    pub const MAX_PAGE_ID: u32 = 0x00FF_FFFF;

    /// The largest slot index.
    pub const MAX_SLOT_INDEX: u8 = 0xFF;

    /// No slot.
    pub open spec fn spec_null() -> SlotRef {
        SlotRef { raw: 0 }
    }

    /// The page id.
    pub open spec fn spec_page_id(self) -> nat {
        self.raw as nat / 256
    }

    /// The slot index.
    pub open spec fn spec_slot_index(self) -> nat {
        self.raw as nat % 256
    }

    /// Is this the reference to no slot?
    pub open spec fn spec_is_null(self) -> bool {
        self.raw == 0
    }

    /// No slot.
    #[verifier::when_used_as_spec(spec_null)]
    pub fn null() -> (r: Self)
        ensures
            r == SlotRef::spec_null(),
    {
        SlotRef { raw: 0 }
    }

    /// The reference to a slot of a page.
    pub fn new(page_id: u32, slot_index: u8) -> (r: Self)
        requires
            page_id <= SlotRef::MAX_PAGE_ID,
        ensures
            r.raw == page_id * 256 + slot_index,
            r.spec_page_id() == page_id,
            r.spec_slot_index() == slot_index,
    {
        SlotRef { raw: page_id * 256 + slot_index as u32 }
    }

    /// The page id.
    pub fn page_id(&self) -> (r: u32)
        ensures
            r == self.spec_page_id(),
            r <= SlotRef::MAX_PAGE_ID,
    {
        self.raw / 256
    }

    /// The slot index.
    pub fn slot_index(&self) -> (r: u8)
        ensures
            r == self.spec_slot_index(),
    {
        (self.raw % 256) as u8
    }

    /// Is this the reference to no slot?
    pub fn is_null(&self) -> (r: bool)
        ensures
            r == self.spec_is_null(),
    {
        self.raw == 0
    }
}

// ---------------------------------------------------------------------------
// Node records
// ---------------------------------------------------------------------------

/// A node record of 32 bytes.
#[derive(Debug, Clone, Copy, PartialEq, Eq, Structural)]
pub struct NodeRecord {
    pub node_id: u64,
    pub label_id: u32,
    pub first_outgoing_edge: SlotRef,
    pub first_incoming_edge: SlotRef,
    pub first_property: SlotRef,
    pub flags: u16,
    pub generation: u16,
    pub _pad: u32,
}

impl NodeRecord {
    /// Size of the record in bytes.
    pub const SIZE: usize = 32;

    /// Is the node marked for deletion?
    pub open spec fn is_deleted(self) -> bool {
        self.flags & node_flags::DELETED != 0
    }

    /// The record of a node with no edges and no properties.
    pub open spec fn spec_new(node_id: u64, label_id: u32) -> NodeRecord {
        NodeRecord {
            node_id,
            label_id,
            first_outgoing_edge: SlotRef::null(),
            first_incoming_edge: SlotRef::null(),
            first_property: SlotRef::null(),
            flags: 0,
            generation: 0,
            _pad: 0,
        }
    }

    /// The record of a node with no edges and no properties.
    pub fn new(node_id: u64, label_id: u32) -> (r: Self)
        ensures
            r == Self::spec_new(node_id, label_id),
    {
        NodeRecord {
            node_id,
            label_id,
            first_outgoing_edge: SlotRef::null(),
            first_incoming_edge: SlotRef::null(),
            first_property: SlotRef::null(),
            flags: 0,
            generation: 0,
            _pad: 0,
        }
    }

    /// The bytes of the record: each field little-endian, in order.
    pub open spec fn spec_bytes(self) -> Seq<u8> {
        le_bytes(self.node_id as nat, 8)
            + le_bytes(self.label_id as nat, 4)
            + le_bytes(self.first_outgoing_edge.raw as nat, 4)
            + le_bytes(self.first_incoming_edge.raw as nat, 4)
            + le_bytes(self.first_property.raw as nat, 4)
            + le_bytes(self.flags as nat, 2)
            + le_bytes(self.generation as nat, 2)
            + le_bytes(self._pad as nat, 4)
    }

    /// Writes the bytes of the record to `out`.
    pub fn encode(&self, out: &mut [u8])
        requires
            old(out)@.len() == NodeRecord::SIZE,
        ensures
            final(out)@ == self.spec_bytes(),
    {
        let mut buf: Vec<u8> = Vec::new();
        push_le(&mut buf, self.node_id as u128, 8);
        push_le(&mut buf, self.label_id as u128, 4);
        push_le(&mut buf, self.first_outgoing_edge.raw as u128, 4);
        push_le(&mut buf, self.first_incoming_edge.raw as u128, 4);
        push_le(&mut buf, self.first_property.raw as u128, 4);
        push_le(&mut buf, self.flags as u128, 2);
        push_le(&mut buf, self.generation as u128, 2);
        push_le(&mut buf, self._pad as u128, 4);
        proof {
            broadcast use le_bytes_len;

            assert(buf@ =~= self.spec_bytes());
        }
        copy_into(out, buf.as_slice());
    }

    /// The record with these bytes; `None` unless there are NodeRecord::SIZE of them.
    pub fn decode(bytes: &[u8]) -> (r: Option<Self>)
        ensures
            match r {
                Some(rec) => bytes@.len() == NodeRecord::SIZE && rec.spec_bytes() == bytes@,
                None => bytes@.len() != NodeRecord::SIZE,
            },
    {
        if bytes.len() != NodeRecord::SIZE {
            return None;
        }
        proof {
            lemma_pow256_sizes();
            reveal_with_fuel(crate::bytes::pow256, 2);
        }
        let node_id_bytes = slice_subrange(bytes, 0, 8);
        let label_id_bytes = slice_subrange(bytes, 8, 12);
        let first_outgoing_edge_bytes = slice_subrange(bytes, 12, 16);
        let first_incoming_edge_bytes = slice_subrange(bytes, 16, 20);
        let first_property_bytes = slice_subrange(bytes, 20, 24);
        let flags_bytes = slice_subrange(bytes, 24, 26);
        let generation_bytes = slice_subrange(bytes, 26, 28);
        let _pad_bytes = slice_subrange(bytes, 28, 32);
        proof {
            lemma_le_value_roundtrip(node_id_bytes@);
            lemma_le_value_roundtrip(label_id_bytes@);
            lemma_le_value_roundtrip(first_outgoing_edge_bytes@);
            lemma_le_value_roundtrip(first_incoming_edge_bytes@);
            lemma_le_value_roundtrip(first_property_bytes@);
            lemma_le_value_roundtrip(flags_bytes@);
            lemma_le_value_roundtrip(generation_bytes@);
            lemma_le_value_roundtrip(_pad_bytes@);
        }
        let rec = NodeRecord {
            node_id: read_le(node_id_bytes) as u64,
            label_id: read_le(label_id_bytes) as u32,
            first_outgoing_edge: SlotRef { raw: read_le(first_outgoing_edge_bytes) as u32 },
            first_incoming_edge: SlotRef { raw: read_le(first_incoming_edge_bytes) as u32 },
            first_property: SlotRef { raw: read_le(first_property_bytes) as u32 },
            flags: read_le(flags_bytes) as u16,
            generation: read_le(generation_bytes) as u16,
            _pad: read_le(_pad_bytes) as u32,
        };
        assert(rec.spec_bytes() =~= bytes@);
        Some(rec)
    }
}

/// Equal bytes hold equal node records: decoding gives back what was encoded.
pub proof fn law_node_record_roundtrip(a: NodeRecord, b: NodeRecord)
    requires
        a.spec_bytes() == b.spec_bytes(),
    ensures
        a == b,
{
    broadcast use le_bytes_len;

    lemma_pow256_sizes();
    reveal_with_fuel(crate::bytes::pow256, 2);
    let x = a.spec_bytes();
    let y = b.spec_bytes();
    assert(x.subrange(0, 8) =~= le_bytes(a.node_id as nat, 8));
    assert(y.subrange(0, 8) =~= le_bytes(b.node_id as nat, 8));
    lemma_le_roundtrip(a.node_id as nat, 8);
    lemma_le_roundtrip(b.node_id as nat, 8);
    assert(x.subrange(8, 12) =~= le_bytes(a.label_id as nat, 4));
    assert(y.subrange(8, 12) =~= le_bytes(b.label_id as nat, 4));
    lemma_le_roundtrip(a.label_id as nat, 4);
    lemma_le_roundtrip(b.label_id as nat, 4);
    assert(x.subrange(12, 16) =~= le_bytes(a.first_outgoing_edge.raw as nat, 4));
    assert(y.subrange(12, 16) =~= le_bytes(b.first_outgoing_edge.raw as nat, 4));
    lemma_le_roundtrip(a.first_outgoing_edge.raw as nat, 4);
    lemma_le_roundtrip(b.first_outgoing_edge.raw as nat, 4);
    assert(x.subrange(16, 20) =~= le_bytes(a.first_incoming_edge.raw as nat, 4));
    assert(y.subrange(16, 20) =~= le_bytes(b.first_incoming_edge.raw as nat, 4));
    lemma_le_roundtrip(a.first_incoming_edge.raw as nat, 4);
    lemma_le_roundtrip(b.first_incoming_edge.raw as nat, 4);
    assert(x.subrange(20, 24) =~= le_bytes(a.first_property.raw as nat, 4));
    assert(y.subrange(20, 24) =~= le_bytes(b.first_property.raw as nat, 4));
    lemma_le_roundtrip(a.first_property.raw as nat, 4);
    lemma_le_roundtrip(b.first_property.raw as nat, 4);
    assert(x.subrange(24, 26) =~= le_bytes(a.flags as nat, 2));
    assert(y.subrange(24, 26) =~= le_bytes(b.flags as nat, 2));
    lemma_le_roundtrip(a.flags as nat, 2);
    lemma_le_roundtrip(b.flags as nat, 2);
    assert(x.subrange(26, 28) =~= le_bytes(a.generation as nat, 2));
    assert(y.subrange(26, 28) =~= le_bytes(b.generation as nat, 2));
    lemma_le_roundtrip(a.generation as nat, 2);
    lemma_le_roundtrip(b.generation as nat, 2);
    assert(x.subrange(28, 32) =~= le_bytes(a._pad as nat, 4));
    assert(y.subrange(28, 32) =~= le_bytes(b._pad as nat, 4));
    lemma_le_roundtrip(a._pad as nat, 4);
    lemma_le_roundtrip(b._pad as nat, 4);
}

// ---------------------------------------------------------------------------
// Edge records
// ---------------------------------------------------------------------------

/// An edge record of 48 bytes: the edge, and its place in the adjacency lists
/// of its source and its target.
#[derive(Debug, Clone, Copy, PartialEq, Eq, Structural)]
pub struct EdgeRecord {
    pub edge_id: u64,
    pub type_id: u32,
    pub source_node: SlotRef,
    pub target_node: SlotRef,
    pub prev_source_edge: SlotRef,
    pub next_source_edge: SlotRef,
    pub prev_target_edge: SlotRef,
    pub next_target_edge: SlotRef,
    pub first_property: SlotRef,
    pub flags: u16,
    pub generation: u16,
    pub _pad: u32,
}

impl EdgeRecord {
    /// Size of the record in bytes.
    pub const SIZE: usize = 48;

    /// Is the edge marked for deletion?
    pub open spec fn is_deleted(self) -> bool {
        self.flags & edge_flags::DELETED != 0
    }

    /// The record of an edge that no list holds yet.
    pub open spec fn spec_new(
        edge_id: u64,
        type_id: u32,
        source: SlotRef,
        target: SlotRef,
    ) -> EdgeRecord {
        EdgeRecord {
            edge_id,
            type_id,
            source_node: source,
            target_node: target,
            prev_source_edge: SlotRef::spec_null(),
            next_source_edge: SlotRef::spec_null(),
            prev_target_edge: SlotRef::spec_null(),
            next_target_edge: SlotRef::spec_null(),
            first_property: SlotRef::spec_null(),
            flags: 0,
            generation: 0,
            _pad: 0,
        }
    }

    /// The record of an edge that no list holds yet.
    pub fn new(edge_id: u64, type_id: u32, source: SlotRef, target: SlotRef) -> (r: Self)
        ensures
            r == EdgeRecord::spec_new(edge_id, type_id, source, target),
    {
        EdgeRecord {
            edge_id,
            type_id,
            source_node: source,
            target_node: target,
            prev_source_edge: SlotRef::null(),
            next_source_edge: SlotRef::null(),
            prev_target_edge: SlotRef::null(),
            next_target_edge: SlotRef::null(),
            first_property: SlotRef::null(),
            flags: 0,
            generation: 0,
            _pad: 0,
        }
    }

    /// The bytes of the record: each field little-endian, in order.
    pub open spec fn spec_bytes(self) -> Seq<u8> {
        le_bytes(self.edge_id as nat, 8)
            + le_bytes(self.type_id as nat, 4)
            + le_bytes(self.source_node.raw as nat, 4)
            + le_bytes(self.target_node.raw as nat, 4)
            + le_bytes(self.prev_source_edge.raw as nat, 4)
            + le_bytes(self.next_source_edge.raw as nat, 4)
            + le_bytes(self.prev_target_edge.raw as nat, 4)
            + le_bytes(self.next_target_edge.raw as nat, 4)
            + le_bytes(self.first_property.raw as nat, 4)
            + le_bytes(self.flags as nat, 2)
            + le_bytes(self.generation as nat, 2)
            + le_bytes(self._pad as nat, 4)
    }

    /// Writes the bytes of the record to `out`.
    pub fn encode(&self, out: &mut [u8])
        requires
            old(out)@.len() == EdgeRecord::SIZE,
        ensures
            final(out)@ == self.spec_bytes(),
    {
        let mut buf: Vec<u8> = Vec::new();
        push_le(&mut buf, self.edge_id as u128, 8);
        push_le(&mut buf, self.type_id as u128, 4);
        push_le(&mut buf, self.source_node.raw as u128, 4);
        push_le(&mut buf, self.target_node.raw as u128, 4);
        push_le(&mut buf, self.prev_source_edge.raw as u128, 4);
        push_le(&mut buf, self.next_source_edge.raw as u128, 4);
        push_le(&mut buf, self.prev_target_edge.raw as u128, 4);
        push_le(&mut buf, self.next_target_edge.raw as u128, 4);
        push_le(&mut buf, self.first_property.raw as u128, 4);
        push_le(&mut buf, self.flags as u128, 2);
        push_le(&mut buf, self.generation as u128, 2);
        push_le(&mut buf, self._pad as u128, 4);
        proof {
            broadcast use le_bytes_len;

            assert(buf@ =~= self.spec_bytes());
        }
        copy_into(out, buf.as_slice());
    }

    /// The record with these bytes; `None` unless there are EdgeRecord::SIZE of them.
    pub fn decode(bytes: &[u8]) -> (r: Option<Self>)
        ensures
            match r {
                Some(rec) => bytes@.len() == EdgeRecord::SIZE && rec.spec_bytes() == bytes@,
                None => bytes@.len() != EdgeRecord::SIZE,
            },
    {
        if bytes.len() != EdgeRecord::SIZE {
            return None;
        }
        proof {
            lemma_pow256_sizes();
            reveal_with_fuel(crate::bytes::pow256, 2);
        }
        let edge_id_bytes = slice_subrange(bytes, 0, 8);
        let type_id_bytes = slice_subrange(bytes, 8, 12);
        let source_node_bytes = slice_subrange(bytes, 12, 16);
        let target_node_bytes = slice_subrange(bytes, 16, 20);
        let prev_source_edge_bytes = slice_subrange(bytes, 20, 24);
        let next_source_edge_bytes = slice_subrange(bytes, 24, 28);
        let prev_target_edge_bytes = slice_subrange(bytes, 28, 32);
        let next_target_edge_bytes = slice_subrange(bytes, 32, 36);
        let first_property_bytes = slice_subrange(bytes, 36, 40);
        let flags_bytes = slice_subrange(bytes, 40, 42);
        let generation_bytes = slice_subrange(bytes, 42, 44);
        let _pad_bytes = slice_subrange(bytes, 44, 48);
        proof {
            lemma_le_value_roundtrip(edge_id_bytes@);
            lemma_le_value_roundtrip(type_id_bytes@);
            lemma_le_value_roundtrip(source_node_bytes@);
            lemma_le_value_roundtrip(target_node_bytes@);
            lemma_le_value_roundtrip(prev_source_edge_bytes@);
            lemma_le_value_roundtrip(next_source_edge_bytes@);
            lemma_le_value_roundtrip(prev_target_edge_bytes@);
            lemma_le_value_roundtrip(next_target_edge_bytes@);
            lemma_le_value_roundtrip(first_property_bytes@);
            lemma_le_value_roundtrip(flags_bytes@);
            lemma_le_value_roundtrip(generation_bytes@);
            lemma_le_value_roundtrip(_pad_bytes@);
        }
        let rec = EdgeRecord {
            edge_id: read_le(edge_id_bytes) as u64,
            type_id: read_le(type_id_bytes) as u32,
            source_node: SlotRef { raw: read_le(source_node_bytes) as u32 },
            target_node: SlotRef { raw: read_le(target_node_bytes) as u32 },
            prev_source_edge: SlotRef { raw: read_le(prev_source_edge_bytes) as u32 },
            next_source_edge: SlotRef { raw: read_le(next_source_edge_bytes) as u32 },
            prev_target_edge: SlotRef { raw: read_le(prev_target_edge_bytes) as u32 },
            next_target_edge: SlotRef { raw: read_le(next_target_edge_bytes) as u32 },
            first_property: SlotRef { raw: read_le(first_property_bytes) as u32 },
            flags: read_le(flags_bytes) as u16,
            generation: read_le(generation_bytes) as u16,
            _pad: read_le(_pad_bytes) as u32,
        };
        assert(rec.spec_bytes() =~= bytes@);
        Some(rec)
    }
}

/// Equal bytes hold equal edge records: decoding gives back what was encoded.
pub proof fn law_edge_record_roundtrip(a: EdgeRecord, b: EdgeRecord)
    requires
        a.spec_bytes() == b.spec_bytes(),
    ensures
        a == b,
{
    broadcast use le_bytes_len;

    lemma_pow256_sizes();
    reveal_with_fuel(crate::bytes::pow256, 2);
    let x = a.spec_bytes();
    let y = b.spec_bytes();
    assert(x.subrange(0, 8) =~= le_bytes(a.edge_id as nat, 8));
    assert(y.subrange(0, 8) =~= le_bytes(b.edge_id as nat, 8));
    lemma_le_roundtrip(a.edge_id as nat, 8);
    lemma_le_roundtrip(b.edge_id as nat, 8);
    assert(x.subrange(8, 12) =~= le_bytes(a.type_id as nat, 4));
    assert(y.subrange(8, 12) =~= le_bytes(b.type_id as nat, 4));
    lemma_le_roundtrip(a.type_id as nat, 4);
    lemma_le_roundtrip(b.type_id as nat, 4);
    assert(x.subrange(12, 16) =~= le_bytes(a.source_node.raw as nat, 4));
    assert(y.subrange(12, 16) =~= le_bytes(b.source_node.raw as nat, 4));
    lemma_le_roundtrip(a.source_node.raw as nat, 4);
    lemma_le_roundtrip(b.source_node.raw as nat, 4);
    assert(x.subrange(16, 20) =~= le_bytes(a.target_node.raw as nat, 4));
    assert(y.subrange(16, 20) =~= le_bytes(b.target_node.raw as nat, 4));
    lemma_le_roundtrip(a.target_node.raw as nat, 4);
    lemma_le_roundtrip(b.target_node.raw as nat, 4);
    assert(x.subrange(20, 24) =~= le_bytes(a.prev_source_edge.raw as nat, 4));
    assert(y.subrange(20, 24) =~= le_bytes(b.prev_source_edge.raw as nat, 4));
    lemma_le_roundtrip(a.prev_source_edge.raw as nat, 4);
    lemma_le_roundtrip(b.prev_source_edge.raw as nat, 4);
    assert(x.subrange(24, 28) =~= le_bytes(a.next_source_edge.raw as nat, 4));
    assert(y.subrange(24, 28) =~= le_bytes(b.next_source_edge.raw as nat, 4));
    lemma_le_roundtrip(a.next_source_edge.raw as nat, 4);
    lemma_le_roundtrip(b.next_source_edge.raw as nat, 4);
    assert(x.subrange(28, 32) =~= le_bytes(a.prev_target_edge.raw as nat, 4));
    assert(y.subrange(28, 32) =~= le_bytes(b.prev_target_edge.raw as nat, 4));
    lemma_le_roundtrip(a.prev_target_edge.raw as nat, 4);
    lemma_le_roundtrip(b.prev_target_edge.raw as nat, 4);
    assert(x.subrange(32, 36) =~= le_bytes(a.next_target_edge.raw as nat, 4));
    assert(y.subrange(32, 36) =~= le_bytes(b.next_target_edge.raw as nat, 4));
    lemma_le_roundtrip(a.next_target_edge.raw as nat, 4);
    lemma_le_roundtrip(b.next_target_edge.raw as nat, 4);
    assert(x.subrange(36, 40) =~= le_bytes(a.first_property.raw as nat, 4));
    assert(y.subrange(36, 40) =~= le_bytes(b.first_property.raw as nat, 4));
    lemma_le_roundtrip(a.first_property.raw as nat, 4);
    lemma_le_roundtrip(b.first_property.raw as nat, 4);
    assert(x.subrange(40, 42) =~= le_bytes(a.flags as nat, 2));
    assert(y.subrange(40, 42) =~= le_bytes(b.flags as nat, 2));
    lemma_le_roundtrip(a.flags as nat, 2);
    lemma_le_roundtrip(b.flags as nat, 2);
    assert(x.subrange(42, 44) =~= le_bytes(a.generation as nat, 2));
    assert(y.subrange(42, 44) =~= le_bytes(b.generation as nat, 2));
    lemma_le_roundtrip(a.generation as nat, 2);
    lemma_le_roundtrip(b.generation as nat, 2);
    assert(x.subrange(44, 48) =~= le_bytes(a._pad as nat, 4));
    assert(y.subrange(44, 48) =~= le_bytes(b._pad as nat, 4));
    lemma_le_roundtrip(a._pad as nat, 4);
    lemma_le_roundtrip(b._pad as nat, 4);
}

// ---------------------------------------------------------------------------
// Property records
// ---------------------------------------------------------------------------

/// The kind of a property value.
#[derive(Debug, Clone, Copy, PartialEq, Eq, Structural)]
pub enum ValueType {
    Null,
    Bool,
    Int64,
    Float64,
    String,
    List,
    Dict,
}

impl ValueType {
    /// The number that stands for the kind in a record.
    pub open spec fn spec_code(self) -> u8 {
        match self {
            ValueType::Null => 0,
            ValueType::Bool => 1,
            ValueType::Int64 => 2,
            ValueType::Float64 => 3,
            ValueType::String => 4,
            ValueType::List => 5,
            ValueType::Dict => 6,
        }
    }

    /// The number that stands for the kind in a record.
    pub fn code(self) -> (r: u8)
        ensures
            r == self.spec_code(),
    {
        match self {
            ValueType::Null => 0,
            ValueType::Bool => 1,
            ValueType::Int64 => 2,
            ValueType::Float64 => 3,
            ValueType::String => 4,
            ValueType::List => 5,
            ValueType::Dict => 6,
        }
    }

    /// The kind that a number stands for.
    pub fn from_u8(v: u8) -> (r: Option<Self>)
        ensures
            match r {
                Some(t) => t.spec_code() == v,
                None => v > 6,
            },
    {
        match v {
            0 => Some(ValueType::Null),
            1 => Some(ValueType::Bool),
            2 => Some(ValueType::Int64),
            3 => Some(ValueType::Float64),
            4 => Some(ValueType::String),
            5 => Some(ValueType::List),
            6 => Some(ValueType::Dict),
            _ => None,
        }
    }
}

/// The largest payload that is stored inline.
pub const MAX_INLINE_PROPERTY_LEN: usize = 256;

/// Header of a property record.
#[derive(Debug, Clone, Copy, PartialEq, Eq, Structural)]
pub struct PropertyHeader {
    pub property_key_id: u32,
    pub value_length: u16,
    pub value_type: u8,
    pub _pad: u8,
}

impl PropertyHeader {
    /// Size of the header in bytes.
    pub const SIZE: usize = 8;

    /// The header of a value.
    pub fn new(property_key_id: u32, value_type: ValueType, value_length: u16) -> (r: Self)
        ensures
            r.property_key_id == property_key_id,
            r.value_type == value_type.spec_code(),
            r.value_length == value_length,
            r._pad == 0,
    {
        PropertyHeader { property_key_id, value_length, value_type: value_type.code(), _pad: 0 }
    }

    /// The bytes of the record: each field little-endian, in order.
    pub open spec fn spec_bytes(self) -> Seq<u8> {
        le_bytes(self.property_key_id as nat, 4)
            + le_bytes(self.value_length as nat, 2)
            + le_bytes(self.value_type as nat, 1)
            + le_bytes(self._pad as nat, 1)
    }

    /// Writes the bytes of the record to `out`.
    pub fn encode(&self, out: &mut [u8])
        requires
            old(out)@.len() == PropertyHeader::SIZE,
        ensures
            final(out)@ == self.spec_bytes(),
    {
        let mut buf: Vec<u8> = Vec::new();
        push_le(&mut buf, self.property_key_id as u128, 4);
        push_le(&mut buf, self.value_length as u128, 2);
        push_le(&mut buf, self.value_type as u128, 1);
        push_le(&mut buf, self._pad as u128, 1);
        proof {
            broadcast use le_bytes_len;

            assert(buf@ =~= self.spec_bytes());
        }
        copy_into(out, buf.as_slice());
    }

    /// The record with these bytes; `None` unless there are PropertyHeader::SIZE of them.
    pub fn decode(bytes: &[u8]) -> (r: Option<Self>)
        ensures
            match r {
                Some(rec) => bytes@.len() == PropertyHeader::SIZE && rec.spec_bytes() == bytes@,
                None => bytes@.len() != PropertyHeader::SIZE,
            },
    {
        if bytes.len() != PropertyHeader::SIZE {
            return None;
        }
        proof {
            lemma_pow256_sizes();
            reveal_with_fuel(crate::bytes::pow256, 2);
        }
        let property_key_id_bytes = slice_subrange(bytes, 0, 4);
        let value_length_bytes = slice_subrange(bytes, 4, 6);
        let value_type_bytes = slice_subrange(bytes, 6, 7);
        let _pad_bytes = slice_subrange(bytes, 7, 8);
        proof {
            lemma_le_value_roundtrip(property_key_id_bytes@);
            lemma_le_value_roundtrip(value_length_bytes@);
            lemma_le_value_roundtrip(value_type_bytes@);
            lemma_le_value_roundtrip(_pad_bytes@);
        }
        let rec = PropertyHeader {
            property_key_id: read_le(property_key_id_bytes) as u32,
            value_length: read_le(value_length_bytes) as u16,
            value_type: read_le(value_type_bytes) as u8,
            _pad: read_le(_pad_bytes) as u8,
        };
        assert(rec.spec_bytes() =~= bytes@);
        Some(rec)
    }
}

/// Equal bytes hold equal property headers: decoding gives back what was encoded.
pub proof fn law_property_header_roundtrip(a: PropertyHeader, b: PropertyHeader)
    requires
        a.spec_bytes() == b.spec_bytes(),
    ensures
        a == b,
{
    broadcast use le_bytes_len;

    lemma_pow256_sizes();
    reveal_with_fuel(crate::bytes::pow256, 2);
    let x = a.spec_bytes();
    let y = b.spec_bytes();
    assert(x.subrange(0, 4) =~= le_bytes(a.property_key_id as nat, 4));
    assert(y.subrange(0, 4) =~= le_bytes(b.property_key_id as nat, 4));
    lemma_le_roundtrip(a.property_key_id as nat, 4);
    lemma_le_roundtrip(b.property_key_id as nat, 4);
    assert(x.subrange(4, 6) =~= le_bytes(a.value_length as nat, 2));
    assert(y.subrange(4, 6) =~= le_bytes(b.value_length as nat, 2));
    lemma_le_roundtrip(a.value_length as nat, 2);
    lemma_le_roundtrip(b.value_length as nat, 2);
    assert(x.subrange(6, 7) =~= le_bytes(a.value_type as nat, 1));
    assert(y.subrange(6, 7) =~= le_bytes(b.value_type as nat, 1));
    lemma_le_roundtrip(a.value_type as nat, 1);
    lemma_le_roundtrip(b.value_type as nat, 1);
    assert(x.subrange(7, 8) =~= le_bytes(a._pad as nat, 1));
    assert(y.subrange(7, 8) =~= le_bytes(b._pad as nat, 1));
    lemma_le_roundtrip(a._pad as nat, 1);
    lemma_le_roundtrip(b._pad as nat, 1);
}

/// Where a large value is kept: a place on an overflow page.
#[derive(Debug, Clone, Copy, PartialEq, Eq, Structural)]
pub struct OverflowHandle {
    pub page_id: u32,
    pub offset: u16,
    pub _pad: u16,
}

impl OverflowHandle {
    /// Size of the handle in bytes.
    pub const SIZE: usize = 8;

    /// The handle of a place on a page.
    pub fn new(page_id: u32, offset: u16) -> (r: Self)
        ensures
            r.page_id == page_id,
            r.offset == offset,
            r._pad == 0,
    {
        OverflowHandle { page_id, offset, _pad: 0 }
    }

    /// The bytes of the record: each field little-endian, in order.
    pub open spec fn spec_bytes(self) -> Seq<u8> {
        le_bytes(self.page_id as nat, 4)
            + le_bytes(self.offset as nat, 2)
            + le_bytes(self._pad as nat, 2)
    }

    /// Writes the bytes of the record to `out`.
    pub fn encode(&self, out: &mut [u8])
        requires
            old(out)@.len() == OverflowHandle::SIZE,
        ensures
            final(out)@ == self.spec_bytes(),
    {
        let mut buf: Vec<u8> = Vec::new();
        push_le(&mut buf, self.page_id as u128, 4);
        push_le(&mut buf, self.offset as u128, 2);
        push_le(&mut buf, self._pad as u128, 2);
        proof {
            broadcast use le_bytes_len;

            assert(buf@ =~= self.spec_bytes());
        }
        copy_into(out, buf.as_slice());
    }

    /// The record with these bytes; `None` unless there are OverflowHandle::SIZE of them.
    pub fn decode(bytes: &[u8]) -> (r: Option<Self>)
        ensures
            match r {
                Some(rec) => bytes@.len() == OverflowHandle::SIZE && rec.spec_bytes() == bytes@,
                None => bytes@.len() != OverflowHandle::SIZE,
            },
    {
        if bytes.len() != OverflowHandle::SIZE {
            return None;
        }
        proof {
            lemma_pow256_sizes();
            reveal_with_fuel(crate::bytes::pow256, 2);
        }
        let page_id_bytes = slice_subrange(bytes, 0, 4);
        let offset_bytes = slice_subrange(bytes, 4, 6);
        let _pad_bytes = slice_subrange(bytes, 6, 8);
        proof {
            lemma_le_value_roundtrip(page_id_bytes@);
            lemma_le_value_roundtrip(offset_bytes@);
            lemma_le_value_roundtrip(_pad_bytes@);
        }
        let rec = OverflowHandle {
            page_id: read_le(page_id_bytes) as u32,
            offset: read_le(offset_bytes) as u16,
            _pad: read_le(_pad_bytes) as u16,
        };
        assert(rec.spec_bytes() =~= bytes@);
        Some(rec)
    }
}

/// Equal bytes hold equal overflow handles: decoding gives back what was encoded.
pub proof fn law_overflow_handle_roundtrip(a: OverflowHandle, b: OverflowHandle)
    requires
        a.spec_bytes() == b.spec_bytes(),
    ensures
        a == b,
{
    broadcast use le_bytes_len;

    lemma_pow256_sizes();
    reveal_with_fuel(crate::bytes::pow256, 2);
    let x = a.spec_bytes();
    let y = b.spec_bytes();
    assert(x.subrange(0, 4) =~= le_bytes(a.page_id as nat, 4));
    assert(y.subrange(0, 4) =~= le_bytes(b.page_id as nat, 4));
    lemma_le_roundtrip(a.page_id as nat, 4);
    lemma_le_roundtrip(b.page_id as nat, 4);
    assert(x.subrange(4, 6) =~= le_bytes(a.offset as nat, 2));
    assert(y.subrange(4, 6) =~= le_bytes(b.offset as nat, 2));
    lemma_le_roundtrip(a.offset as nat, 2);
    lemma_le_roundtrip(b.offset as nat, 2);
    assert(x.subrange(6, 8) =~= le_bytes(a._pad as nat, 2));
    assert(y.subrange(6, 8) =~= le_bytes(b._pad as nat, 2));
    lemma_le_roundtrip(a._pad as nat, 2);
    lemma_le_roundtrip(b._pad as nat, 2);
}

/// A property value: its header and its payload, which is the value itself or
/// the handle of an overflow page.
#[derive(Debug, Clone, PartialEq, Eq)]
pub struct PropertyRecord {
    pub header: PropertyHeader,
    pub payload: Vec<u8>,
}

impl PropertyRecord {
    /// The bytes of the record: the header, then the payload.
    pub open spec fn spec_bytes(self) -> Seq<u8> {
        self.header.spec_bytes() + self.payload@
    }

    /// Does the header give the length of the payload?
    pub open spec fn wf(self) -> bool {
        self.header.value_length == self.payload@.len()
    }

    /// The record of a value that is stored inline.
    pub fn inline(property_key_id: u32, value_type: ValueType, payload: Vec<u8>) -> (r: Self)
        requires
            payload@.len() <= MAX_INLINE_PROPERTY_LEN,
        ensures
            r.header.property_key_id == property_key_id,
            r.header.value_type == value_type.spec_code(),
            r.header._pad == 0,
            r.payload@ == payload@,
            r.wf(),
    {
        PropertyRecord {
            header: PropertyHeader::new(property_key_id, value_type, payload.len() as u16),
            payload,
        }
    }

    /// The record of a value that is kept on an overflow page.
    pub fn overflow(property_key_id: u32, value_type: ValueType, handle: OverflowHandle) -> (r:
        Self)
        ensures
            r.header.property_key_id == property_key_id,
            r.header.value_type == value_type.spec_code(),
            r.header._pad == 0,
            r.payload@ == handle.spec_bytes(),
            r.wf(),
    {
        let mut payload: Vec<u8> = vec![0; 8];
        handle.encode(payload.as_mut_slice());
        proof {
            broadcast use le_bytes_len;

        }
        PropertyRecord {
            header: PropertyHeader::new(property_key_id, value_type, payload.len() as u16),
            payload,
        }
    }

    /// Size of the record in bytes.
    pub fn on_disk_size(&self) -> (r: usize)
        requires
            self.payload@.len() <= usize::MAX - PropertyHeader::SIZE,
        ensures
            r == self.spec_bytes().len(),
    {
        proof {
            broadcast use le_bytes_len;

        }
        PropertyHeader::SIZE + self.payload.len()
    }

    /// The bytes of the record.
    pub fn encode(&self) -> (r: Vec<u8>)
        ensures
            r@ == self.spec_bytes(),
    {
        let mut buf: Vec<u8> = vec![0; 8];
        self.header.encode(buf.as_mut_slice());
        append_slice(&mut buf, self.payload.as_slice());
        buf
    }

    /// The record at the front of `bytes`; `None` where they end before the
    /// record does.
    pub fn decode(bytes: &[u8]) -> (r: Option<Self>)
        ensures
            match r {
                Some(rec) => rec.wf() && rec.spec_bytes().len() <= bytes@.len()
                    && rec.spec_bytes() == bytes@.take(rec.spec_bytes().len() as int),
                None => bytes@.len() < PropertyHeader::SIZE || bytes@.len()
                    < PropertyHeader::SIZE + le_value(bytes@.subrange(4, 6)),
            },
    {
        if bytes.len() < PropertyHeader::SIZE {
            return None;
        }
        let head = slice_subrange(bytes, 0, PropertyHeader::SIZE);
        match PropertyHeader::decode(head) {
            Some(header) => {
                let payload_len: usize = header.value_length as usize;
                proof {
                    broadcast use le_bytes_len;

                    lemma_pow256_sizes();
                    assert(header.spec_bytes().subrange(4, 6) =~= le_bytes(
                        header.value_length as nat,
                        2,
                    ));
                    assert(head@.subrange(4, 6) =~= bytes@.subrange(4, 6));
                    lemma_le_roundtrip(header.value_length as nat, 2);
                }
                if bytes.len() - PropertyHeader::SIZE < payload_len {
                    return None;
                }
                let payload = copy_range(
                    bytes,
                    PropertyHeader::SIZE,
                    PropertyHeader::SIZE + payload_len,
                );
                let rec = PropertyRecord { header, payload };
                assert(rec.spec_bytes() =~= bytes@.take(8 + payload_len));
                Some(rec)
            },
            None => None,
        }
    }

    /// Is the value small enough to be stored inline?
    pub fn is_inline(&self) -> (r: bool)
        ensures
            r == (self.payload@.len() <= MAX_INLINE_PROPERTY_LEN && self.header.value_length
                <= MAX_INLINE_PROPERTY_LEN),
    {
        self.payload.len() <= MAX_INLINE_PROPERTY_LEN && self.header.value_length as usize
            <= MAX_INLINE_PROPERTY_LEN
    }

    /// The payload as an overflow handle; `None` where it has another length.
    pub fn overflow_handle(&self) -> (r: Option<OverflowHandle>)
        ensures
            match r {
                Some(handle) => handle.spec_bytes() == self.payload@,
                None => self.payload@.len() != OverflowHandle::SIZE,
            },
    {
        OverflowHandle::decode(self.payload.as_slice())
    }
}

/// A record whose header gives the length of its payload is read back from its
/// bytes, and so is its payload.
pub proof fn law_property_record_roundtrip(a: PropertyRecord, b: PropertyRecord)
    requires
        a.wf(),
        b.wf(),
        a.spec_bytes() == b.spec_bytes(),
    ensures
        a.header == b.header,
        a.payload@ == b.payload@,
{
    broadcast use le_bytes_len;

    assert(a.spec_bytes().take(8) =~= a.header.spec_bytes());
    assert(b.spec_bytes().take(8) =~= b.header.spec_bytes());
    law_property_header_roundtrip(a.header, b.header);
    assert(a.spec_bytes().skip(8) =~= a.payload@);
    assert(b.spec_bytes().skip(8) =~= b.payload@);
}

/// Where the fields of a node record stand, the lowest byte of each first.
pub proof fn law_node_record_layout(r: NodeRecord)
    ensures
        r.spec_bytes().len() == 32,
        le_value(r.spec_bytes().subrange(0, 8)) == r.node_id,
        le_value(r.spec_bytes().subrange(8, 12)) == r.label_id,
        le_value(r.spec_bytes().subrange(12, 16)) == r.first_outgoing_edge.raw,
        le_value(r.spec_bytes().subrange(16, 20)) == r.first_incoming_edge.raw,
        le_value(r.spec_bytes().subrange(20, 24)) == r.first_property.raw,
        le_value(r.spec_bytes().subrange(24, 26)) == r.flags,
        le_value(r.spec_bytes().subrange(26, 28)) == r.generation,
        le_value(r.spec_bytes().subrange(28, 32)) == r._pad,
{
    broadcast use le_bytes_len;

    lemma_pow256_sizes();
    reveal_with_fuel(crate::bytes::pow256, 2);
    assert(r.spec_bytes().subrange(0, 8) =~= le_bytes(r.node_id as nat, 8));
    lemma_le_roundtrip(r.node_id as nat, 8);
    assert(r.spec_bytes().subrange(8, 12) =~= le_bytes(r.label_id as nat, 4));
    lemma_le_roundtrip(r.label_id as nat, 4);
    assert(r.spec_bytes().subrange(12, 16) =~= le_bytes(r.first_outgoing_edge.raw as nat, 4));
    lemma_le_roundtrip(r.first_outgoing_edge.raw as nat, 4);
    assert(r.spec_bytes().subrange(16, 20) =~= le_bytes(r.first_incoming_edge.raw as nat, 4));
    lemma_le_roundtrip(r.first_incoming_edge.raw as nat, 4);
    assert(r.spec_bytes().subrange(20, 24) =~= le_bytes(r.first_property.raw as nat, 4));
    lemma_le_roundtrip(r.first_property.raw as nat, 4);
    assert(r.spec_bytes().subrange(24, 26) =~= le_bytes(r.flags as nat, 2));
    lemma_le_roundtrip(r.flags as nat, 2);
    assert(r.spec_bytes().subrange(26, 28) =~= le_bytes(r.generation as nat, 2));
    lemma_le_roundtrip(r.generation as nat, 2);
    assert(r.spec_bytes().subrange(28, 32) =~= le_bytes(r._pad as nat, 4));
    lemma_le_roundtrip(r._pad as nat, 4);
}

/// Where the fields of an edge record stand, the lowest byte of each first.
pub proof fn law_edge_record_layout(r: EdgeRecord)
    ensures
        r.spec_bytes().len() == 48,
        le_value(r.spec_bytes().subrange(0, 8)) == r.edge_id,
        le_value(r.spec_bytes().subrange(8, 12)) == r.type_id,
        le_value(r.spec_bytes().subrange(12, 16)) == r.source_node.raw,
        le_value(r.spec_bytes().subrange(16, 20)) == r.target_node.raw,
        le_value(r.spec_bytes().subrange(20, 24)) == r.prev_source_edge.raw,
        le_value(r.spec_bytes().subrange(24, 28)) == r.next_source_edge.raw,
        le_value(r.spec_bytes().subrange(28, 32)) == r.prev_target_edge.raw,
        le_value(r.spec_bytes().subrange(32, 36)) == r.next_target_edge.raw,
        le_value(r.spec_bytes().subrange(36, 40)) == r.first_property.raw,
        le_value(r.spec_bytes().subrange(40, 42)) == r.flags,
        le_value(r.spec_bytes().subrange(42, 44)) == r.generation,
        le_value(r.spec_bytes().subrange(44, 48)) == r._pad,
{
    broadcast use le_bytes_len;

    lemma_pow256_sizes();
    reveal_with_fuel(crate::bytes::pow256, 2);
    assert(r.spec_bytes().subrange(0, 8) =~= le_bytes(r.edge_id as nat, 8));
    lemma_le_roundtrip(r.edge_id as nat, 8);
    assert(r.spec_bytes().subrange(8, 12) =~= le_bytes(r.type_id as nat, 4));
    lemma_le_roundtrip(r.type_id as nat, 4);
    assert(r.spec_bytes().subrange(12, 16) =~= le_bytes(r.source_node.raw as nat, 4));
    lemma_le_roundtrip(r.source_node.raw as nat, 4);
    assert(r.spec_bytes().subrange(16, 20) =~= le_bytes(r.target_node.raw as nat, 4));
    lemma_le_roundtrip(r.target_node.raw as nat, 4);
    assert(r.spec_bytes().subrange(20, 24) =~= le_bytes(r.prev_source_edge.raw as nat, 4));
    lemma_le_roundtrip(r.prev_source_edge.raw as nat, 4);
    assert(r.spec_bytes().subrange(24, 28) =~= le_bytes(r.next_source_edge.raw as nat, 4));
    lemma_le_roundtrip(r.next_source_edge.raw as nat, 4);
    assert(r.spec_bytes().subrange(28, 32) =~= le_bytes(r.prev_target_edge.raw as nat, 4));
    lemma_le_roundtrip(r.prev_target_edge.raw as nat, 4);
    assert(r.spec_bytes().subrange(32, 36) =~= le_bytes(r.next_target_edge.raw as nat, 4));
    lemma_le_roundtrip(r.next_target_edge.raw as nat, 4);
    assert(r.spec_bytes().subrange(36, 40) =~= le_bytes(r.first_property.raw as nat, 4));
    lemma_le_roundtrip(r.first_property.raw as nat, 4);
    assert(r.spec_bytes().subrange(40, 42) =~= le_bytes(r.flags as nat, 2));
    lemma_le_roundtrip(r.flags as nat, 2);
    assert(r.spec_bytes().subrange(42, 44) =~= le_bytes(r.generation as nat, 2));
    lemma_le_roundtrip(r.generation as nat, 2);
    assert(r.spec_bytes().subrange(44, 48) =~= le_bytes(r._pad as nat, 4));
    lemma_le_roundtrip(r._pad as nat, 4);
}

/// Where the fields of a property header stand, the lowest byte of each first.
pub proof fn law_property_header_layout(r: PropertyHeader)
    ensures
        r.spec_bytes().len() == 8,
        le_value(r.spec_bytes().subrange(0, 4)) == r.property_key_id,
        le_value(r.spec_bytes().subrange(4, 6)) == r.value_length,
        le_value(r.spec_bytes().subrange(6, 7)) == r.value_type,
        le_value(r.spec_bytes().subrange(7, 8)) == r._pad,
{
    broadcast use le_bytes_len;

    lemma_pow256_sizes();
    reveal_with_fuel(crate::bytes::pow256, 2);
    assert(r.spec_bytes().subrange(0, 4) =~= le_bytes(r.property_key_id as nat, 4));
    lemma_le_roundtrip(r.property_key_id as nat, 4);
    assert(r.spec_bytes().subrange(4, 6) =~= le_bytes(r.value_length as nat, 2));
    lemma_le_roundtrip(r.value_length as nat, 2);
    assert(r.spec_bytes().subrange(6, 7) =~= le_bytes(r.value_type as nat, 1));
    lemma_le_roundtrip(r.value_type as nat, 1);
    assert(r.spec_bytes().subrange(7, 8) =~= le_bytes(r._pad as nat, 1));
    lemma_le_roundtrip(r._pad as nat, 1);
}

/// Where the fields of an overflow handle stand, the lowest byte of each first.
pub proof fn law_overflow_handle_layout(r: OverflowHandle)
    ensures
        r.spec_bytes().len() == 8,
        le_value(r.spec_bytes().subrange(0, 4)) == r.page_id,
        le_value(r.spec_bytes().subrange(4, 6)) == r.offset,
        le_value(r.spec_bytes().subrange(6, 8)) == r._pad,
{
    broadcast use le_bytes_len;

    lemma_pow256_sizes();
    reveal_with_fuel(crate::bytes::pow256, 2);
    assert(r.spec_bytes().subrange(0, 4) =~= le_bytes(r.page_id as nat, 4));
    lemma_le_roundtrip(r.page_id as nat, 4);
    assert(r.spec_bytes().subrange(4, 6) =~= le_bytes(r.offset as nat, 2));
    lemma_le_roundtrip(r.offset as nat, 2);
    assert(r.spec_bytes().subrange(6, 8) =~= le_bytes(r._pad as nat, 2));
    lemma_le_roundtrip(r._pad as nat, 2);
}

/// A new node has its id and its label, no edges, no properties and no marks.
pub proof fn law_new_node(node_id: u64, label_id: u32)
    ensures
        ({
            let r = NodeRecord::spec_new(node_id, label_id);
            &&& r.node_id == node_id
            &&& r.label_id == label_id
            &&& r.first_outgoing_edge.raw == 0
            &&& r.first_incoming_edge.raw == 0
            &&& r.first_property.raw == 0
            &&& r.flags == 0
            &&& r.generation == 0
            &&& !r.is_deleted()
        }),
{
    assert(0u16 & 0x0001u16 == 0) by (bit_vector);
}

/// A new edge has its id, its type and its ends, no neighbours, no properties and no marks.
pub proof fn law_new_edge(edge_id: u64, type_id: u32, source: SlotRef, target: SlotRef)
    ensures
        ({
            let r = EdgeRecord::spec_new(edge_id, type_id, source, target);
            &&& r.edge_id == edge_id
            &&& r.type_id == type_id
            &&& r.source_node == source
            &&& r.target_node == target
            &&& r.prev_source_edge.raw == 0
            &&& r.next_source_edge.raw == 0
            &&& r.prev_target_edge.raw == 0
            &&& r.next_target_edge.raw == 0
            &&& r.first_property.raw == 0
            &&& r.flags == 0
            &&& r.generation == 0
            &&& !r.is_deleted()
        }),
{
    assert(0u16 & 0x0001u16 == 0) by (bit_vector);
}

/// A record is deleted if and only if the lowest of its marks is set.
pub proof fn law_deleted_mark(n: NodeRecord, e: EdgeRecord)
    ensures
        n.is_deleted() <==> n.flags & 1 != 0,
        e.is_deleted() <==> e.flags & 1 != 0,
{
}

/// A slot is a page and a place on it: the page is the slot's number without its lowest
/// byte, the place is that byte, and 0 stands for no slot.
pub proof fn law_slot_parts(s: SlotRef)
    ensures
        s.raw == s.spec_page_id() * 256 + s.spec_slot_index(),
        s.spec_slot_index() < 256,
        s.spec_is_null() <==> s.raw == 0,
        SlotRef::spec_null().raw == 0,
{
}

/// The numbers that stand for the kinds of values.
pub proof fn law_value_codes()
    ensures
        ValueType::Null.spec_code() == 0,
        ValueType::Bool.spec_code() == 1,
        ValueType::Int64.spec_code() == 2,
        ValueType::Float64.spec_code() == 3,
        ValueType::String.spec_code() == 4,
        ValueType::List.spec_code() == 5,
        ValueType::Dict.spec_code() == 6,
{
}

impl FromSpecImpl<&str> for PropertyRecord {
    open spec fn obeys_from_spec() -> bool {
        false
    }

    open spec fn from_spec(v: &str) -> PropertyRecord {
        arbitrary()
    }
}

impl From<&str> for PropertyRecord {
    /// A string property; one that is too long for a record is to be moved to
    /// an overflow page by the caller. Its header has the low 16 bits of the length.
    fn from(s: &str) -> (r: PropertyRecord)
        ensures
            r.header.property_key_id == 0,
            r.header.value_type == ValueType::String.spec_code(),
            r.header._pad == 0,
            r.payload@ == s.spec_bytes(),
            r.header.value_length == s.spec_bytes().len() % 0x1_0000,
            s.spec_bytes().len() <= MAX_INLINE_PROPERTY_LEN ==> r.wf(),
    {
        let bytes = s.as_bytes();
        let payload = copy_range(bytes, 0, bytes.len());
        assert(payload@ =~= bytes@);
        if payload.len() <= MAX_INLINE_PROPERTY_LEN {
            PropertyRecord::inline(0, ValueType::String, payload)
        } else {
            let length: u16 = (payload.len() % 0x1_0000) as u16;
            PropertyRecord { header: PropertyHeader::new(0, ValueType::String, length), payload }
        }
    }
}

} // verus!
