//! Records of the write-ahead log.

use vstd::prelude::*;

use crate::bytes::append_slice;
use crate::bytes::be_bytes_len;
use crate::bytes::be_value;
use crate::bytes::lemma_be_roundtrip;
use crate::bytes::lemma_pow256_sizes;
use crate::bytes::push_be;
use crate::graph::record::SlotRef;
use crate::index::key::be_u64;
use crate::index::slots::encode_slot_ref;
use crate::index::slots::slot_bytes;

verus! {

/// What a log record tells of.
#[derive(Debug, Clone, Copy, PartialEq, Eq, Structural)]
pub enum RecordType {
    NodeInsert,
    NodeDelete,
    EdgeInsert,
    EdgeDelete,
    PropertyInsert,
    CompactionBegin,
    CompactionEnd,
}

/// A log record.
#[derive(Debug)]
pub struct WalRecord {
    pub record_type: RecordType,
    pub txid: u64,
    pub payload: Vec<u8>,
}

/// What a log record holds.
#[verifier::ext_equal]
pub struct WalView {
    pub record_type: RecordType,
    pub txid: u64,
    pub payload: Seq<u8>,
}

impl View for WalRecord {
    type V = WalView;

    open spec fn view(&self) -> WalView {
        WalView { record_type: self.record_type, txid: self.txid, payload: self.payload@ }
    }
}

/// The views of a list of log records.
pub open spec fn wal_views(records: Seq<WalRecord>) -> Seq<WalView> {
    records.map_values(|r: WalRecord| r@)
}

impl RecordType {
    /// The number of the kind in the log.
    pub open spec fn spec_code(self) -> u8 {
        match self {
            RecordType::NodeInsert => 1,
            RecordType::NodeDelete => 2,
            RecordType::EdgeInsert => 3,
            RecordType::EdgeDelete => 4,
            RecordType::PropertyInsert => 5,
            RecordType::CompactionBegin => 6,
            RecordType::CompactionEnd => 7,
        }
    }

    /// The number of the kind in the log.
    pub fn code(&self) -> (r: u8)
        ensures
            r == self.spec_code(),
    {
        match self {
            RecordType::NodeInsert => 1,
            RecordType::NodeDelete => 2,
            RecordType::EdgeInsert => 3,
            RecordType::EdgeDelete => 4,
            RecordType::PropertyInsert => 5,
            RecordType::CompactionBegin => 6,
            RecordType::CompactionEnd => 7,
        }
    }
}

/// The bytes of a log record: its kind, its transaction, the length of its payload
/// and the payload.
pub open spec fn wal_bytes(r: WalView) -> Seq<u8> {
    seq![r.record_type.spec_code()] + be_u64(r.txid) + be_u64(r.payload.len() as u64) + r.payload
}

/// Where the parts of a log record stand: its kind in the first byte, its transaction in the
/// next eight, the length of its payload in the eight behind them, and then the payload.
/// The kinds are numbered from 1 on.
pub proof fn law_wal_layout(r: WalView)
    requires
        r.payload.len() <= u64::MAX,
    ensures
        wal_bytes(r).len() == 17 + r.payload.len(),
        wal_bytes(r)[0] == (match r.record_type {
            RecordType::NodeInsert => 1int,
            RecordType::NodeDelete => 2,
            RecordType::EdgeInsert => 3,
            RecordType::EdgeDelete => 4,
            RecordType::PropertyInsert => 5,
            RecordType::CompactionBegin => 6,
            RecordType::CompactionEnd => 7,
        }),
        be_value(wal_bytes(r).subrange(1, 9)) == r.txid,
        be_value(wal_bytes(r).subrange(9, 17)) == r.payload.len(),
        wal_bytes(r).skip(17) == r.payload,
{
    broadcast use be_bytes_len;

    lemma_pow256_sizes();
    lemma_be_roundtrip(r.txid as nat, 8);
    lemma_be_roundtrip(r.payload.len(), 8);
    assert(wal_bytes(r).subrange(1, 9) =~= be_u64(r.txid));
    assert(wal_bytes(r).subrange(9, 17) =~= be_u64(r.payload.len() as u64));
    assert(wal_bytes(r).skip(17) =~= r.payload);
}

/// Records of the log with the same bytes are the same.
pub proof fn law_wal_bytes_injective(a: WalView, b: WalView)
    requires
        a.payload.len() <= u64::MAX,
        b.payload.len() <= u64::MAX,
        wal_bytes(a) == wal_bytes(b),
    ensures
        a == b,
{
    law_wal_layout(a);
    law_wal_layout(b);
}

/// Where the parts of a payload stand: the id, the slot, the transactions that made and
/// removed the version, and the bytes of the record.
pub proof fn law_payload_layout(id: u64, slot: SlotRef, version: TupleHeader, bytes: Seq<u8>)
    ensures
        ({
            let p = versioned_payload(id, slot, version, bytes);
            &&& be_value(p.subrange(0, 8)) == id
            &&& be_value(p.subrange(8, 12)) == slot.raw
            &&& be_value(p.subrange(12, 20)) == version.xmin
            &&& be_value(p.subrange(20, 28)) == version.xmax
            &&& p.skip(28) == bytes
        }),
        ({
            let p = plain_payload(id, slot, bytes);
            &&& be_value(p.subrange(0, 8)) == id
            &&& be_value(p.subrange(8, 12)) == slot.raw
            &&& p.skip(12) == bytes
        }),
{
    broadcast use be_bytes_len;

    lemma_pow256_sizes();
    lemma_be_roundtrip(id as nat, 8);
    lemma_be_roundtrip(slot.raw as nat, 4);
    lemma_be_roundtrip(version.xmin as nat, 8);
    lemma_be_roundtrip(version.xmax as nat, 8);
    let p = versioned_payload(id, slot, version, bytes);
    assert(p.subrange(0, 8) =~= be_u64(id));
    assert(p.subrange(8, 12) =~= slot_bytes(slot));
    assert(p.subrange(12, 20) =~= be_u64(version.xmin));
    assert(p.subrange(20, 28) =~= be_u64(version.xmax));
    assert(p.skip(28) =~= bytes);
    let q = plain_payload(id, slot, bytes);
    assert(q.subrange(0, 8) =~= be_u64(id));
    assert(q.subrange(8, 12) =~= slot_bytes(slot));
    assert(q.skip(12) =~= bytes);
}

impl WalRecord {
    /// The bytes of the record.
    pub fn encode(&self) -> (r: Vec<u8>)
        ensures
            r@ == wal_bytes(self@),
    {
        let mut out: Vec<u8> = Vec::new();
        out.push(self.record_type.code());
        push_be(&mut out, self.txid as u128, 8);
        push_be(&mut out, self.payload.len() as u128, 8);
        append_slice(&mut out, self.payload.as_slice());
        assert(out@ =~= wal_bytes(self@));
        out
    }
}

/// The transactions that made and removed a version of a record.
#[derive(Debug, Clone, Copy, PartialEq, Eq, Structural)]
pub struct TupleHeader {
    /// The transaction that inserted the version.
    pub xmin: u64,
    /// The transaction that deleted it, or 0.
    pub xmax: u64,
}

impl TupleHeader {
    /// Size of the header in bytes.
    pub const SIZE: usize = 16;
}

/// The payload of a record about an entity: its id, its slot, its version and
/// its bytes.
pub open spec fn versioned_payload(id: u64, slot: SlotRef, version: TupleHeader, bytes: Seq<u8>) -> Seq<
    u8,
> {
    be_u64(id) + slot_bytes(slot) + be_u64(version.xmin) + be_u64(version.xmax) + bytes
}

/// The payload of a record about an overwritten entity: its id, its slot and its
/// bytes.
pub open spec fn plain_payload(id: u64, slot: SlotRef, bytes: Seq<u8>) -> Seq<u8> {
    be_u64(id) + slot_bytes(slot) + bytes
}

/// The payload of a record about an entity.
pub fn build_versioned_payload(id: u64, slot: SlotRef, version: TupleHeader, bytes: &[u8]) -> (r:
    Vec<u8>)
    ensures
        r@ == versioned_payload(id, slot, version, bytes@),
{
    let mut out: Vec<u8> = Vec::new();
    push_be(&mut out, id as u128, 8);
    let slot_part = encode_slot_ref(slot);
    append_slice(&mut out, slot_part.as_slice());
    push_be(&mut out, version.xmin as u128, 8);
    push_be(&mut out, version.xmax as u128, 8);
    append_slice(&mut out, bytes);
    assert(out@ =~= versioned_payload(id, slot, version, bytes@));
    out
}

/// The payload of a record about an overwritten entity.
pub fn build_plain_payload(id: u64, slot: SlotRef, bytes: &[u8]) -> (r: Vec<u8>)
    ensures
        r@ == plain_payload(id, slot, bytes@),
{
    let mut out: Vec<u8> = Vec::new();
    push_be(&mut out, id as u128, 8);
    let slot_part = encode_slot_ref(slot);
    append_slice(&mut out, slot_part.as_slice());
    append_slice(&mut out, bytes);
    assert(out@ =~= plain_payload(id, slot, bytes@));
    out
}

} // verus!
