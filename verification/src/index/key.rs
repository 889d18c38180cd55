//! Composite keys for every index.
//!
//! A key is a byte string whose lexicographic order is the order of the fields
//! it is made of: every integer field is big-endian.
//!
//! | key                | layout                                              |
//! |--------------------|-----------------------------------------------------|
//! | node id, edge id   | `id: u128`                                          |
//! | edge adjacency     | `source: u128`, `type: u64`, `target: u128`         |
//! | label, edge type   | `label or type: u64`, `id: u128`                    |
//! | property           | `property: u64`, serialized value, `entity: u128`   |
//! | RDF SPO            | `subject: u128`, `predicate: u64`, `object: u128`   |
//! | RDF POS            | `predicate: u64`, `object: u128`, `subject: u128`   |
//! | RDF OSP            | `object: u128`, `subject: u128`, `predicate: u64`   |
//!
//! Keys of up to [`MAX_KEY_LEN`] bytes are stored inline; longer keys spill to
//! the heap and are never truncated.

use smallvec::SmallVec;
use vstd::prelude::*;
use vstd::slice::slice_subrange;

use crate::bytes::be_bytes;
use crate::bytes::be_value;
use crate::bytes::bytes_eq;
use crate::bytes::bytes_le;
use crate::bytes::lex_le;
use crate::bytes::lex_lt;
use crate::bytes::push_be;
use crate::bytes::read_be;

verus! {

/// Bytes that a key holds inline before it spills to the heap.
pub const MAX_KEY_LEN: usize = 40;

/// Storage of a key's bytes: a `smallvec::SmallVec`, inline up to
/// [`MAX_KEY_LEN`] bytes and on the heap beyond.
#[verifier::external_body]
#[derive(Debug, PartialEq, Eq, PartialOrd, Ord, Hash)]
pub struct KeyBytes {
    inner: SmallVec<[u8; 40]>,
}

/// The bytes that a key's storage holds, in order.
pub uninterp spec fn stored_bytes(bytes: KeyBytes) -> Seq<u8>;

/// Most bytes that a key may grow to by appending.
pub open spec fn max_grown_len() -> int {
    usize::MAX as int / 4
}

/// `SmallVec::new`: the storage is empty.
#[verifier::external_body]
fn storage_new() -> (r: KeyBytes)
    ensures
        stored_bytes(r) == Seq::<u8>::empty(),
{
    KeyBytes { inner: SmallVec::new() }
}

/// `SmallVec::from_slice`: the storage holds a copy of the whole slice.
#[verifier::external_body]
fn storage_from_slice(data: &[u8]) -> (r: KeyBytes)
    ensures
        stored_bytes(r) == data@,
{
    KeyBytes { inner: SmallVec::from_slice(data) }
}

/// `SmallVec::extend_from_slice`: the slice is appended. The capacity it grows
/// to is rounded up to a power of two, so the grown length is bounded to keep
/// that from overflowing.
#[verifier::external_body]
fn storage_extend(bytes: &mut KeyBytes, data: &[u8])
    requires
        stored_bytes(*old(bytes)).len() + data@.len() <= max_grown_len(),
    ensures
        stored_bytes(*final(bytes)) == stored_bytes(*old(bytes)) + data@,
{
    bytes.inner.extend_from_slice(data)
}

/// `SmallVec::as_slice`: the bytes that are held.
#[verifier::external_body]
fn storage_as_slice(bytes: &KeyBytes) -> (r: &[u8])
    ensures
        r@ == stored_bytes(*bytes),
{
    bytes.inner.as_slice()
}

/// `SmallVec::len`: the number of bytes that are held.
#[verifier::external_body]
fn storage_len(bytes: &KeyBytes) -> (n: usize)
    ensures
        n as nat == stored_bytes(*bytes).len(),
{
    bytes.inner.len()
}

/// `SmallVec::is_empty`: are no bytes held?
#[verifier::external_body]
fn storage_is_empty(bytes: &KeyBytes) -> (b: bool)
    ensures
        b == (stored_bytes(*bytes).len() == 0),
{
    bytes.inner.is_empty()
}

/// `SmallVec::clone`: a storage with the same bytes.
#[verifier::external_body]
fn storage_clone(bytes: &KeyBytes) -> (r: KeyBytes)
    ensures
        stored_bytes(r) == stored_bytes(*bytes),
{
    KeyBytes { inner: bytes.inner.clone() }
}

/// A key of any length.
#[derive(Debug, PartialEq, Eq, PartialOrd, Ord, Hash)]
pub struct CompositeKey {
    bytes: KeyBytes,
}

impl View for CompositeKey {
    type V = Seq<u8>;

    closed spec fn view(&self) -> Seq<u8> {
        stored_bytes(self.bytes)
    }
}

impl Clone for CompositeKey {
    fn clone(&self) -> (r: Self)
        ensures
            r@ == self@,
    {
        CompositeKey { bytes: storage_clone(&self.bytes) }
    }
}

impl CompositeKey {
    /// The empty key.
    pub fn empty() -> (k: Self)
        ensures
            k@ == Seq::<u8>::empty(),
    {
        CompositeKey { bytes: storage_new() }
    }

    /// The key with the bytes of `data`, without truncation.
    pub fn from_slice(data: &[u8]) -> (k: Self)
        ensures
            k@ == data@,
    {
        CompositeKey { bytes: storage_from_slice(data) }
    }

    /// The key over storage that is already filled.
    pub fn from_bytes(bytes: KeyBytes) -> (k: Self)
        ensures
            k@ == stored_bytes(bytes),
    {
        CompositeKey { bytes }
    }

    /// The bytes of the key.
    pub fn as_slice(&self) -> (r: &[u8])
        ensures
            r@ == self@,
    {
        storage_as_slice(&self.bytes)
    }

    /// Compares two keys lexicographically.
    pub fn cmp_keys(a: &Self, b: &Self) -> (o: std::cmp::Ordering)
        ensures
            (o == std::cmp::Ordering::Less) == lex_lt(a@, b@),
            (o == std::cmp::Ordering::Equal) == (a@ == b@),
            (o == std::cmp::Ordering::Greater) == lex_lt(b@, a@),
    {
        broadcast use crate::bytes::group_lex_order;

        if bytes_eq(a.as_slice(), b.as_slice()) {
            std::cmp::Ordering::Equal
        } else if bytes_le(a.as_slice(), b.as_slice()) {
            std::cmp::Ordering::Less
        } else {
            std::cmp::Ordering::Greater
        }
    }

    /// Length of the key in bytes.
    pub fn len(&self) -> (n: usize)
        ensures
            n as nat == self@.len(),
    {
        storage_len(&self.bytes)
    }

    /// Is the key empty?
    pub fn is_empty(&self) -> (b: bool)
        ensures
            b == (self@.len() == 0),
    {
        storage_is_empty(&self.bytes)
    }
}

/// Accumulates the fields of a key.
struct KeyBuilder {
    bytes: KeyBytes,
}

impl View for KeyBuilder {
    type V = Seq<u8>;

    closed spec fn view(&self) -> Seq<u8> {
        stored_bytes(self.bytes)
    }
}

impl KeyBuilder {
    fn new() -> (b: Self)
        ensures
            b@ == Seq::<u8>::empty(),
    {
        KeyBuilder { bytes: storage_new() }
    }

    fn push_u64_be(&mut self, v: u64)
        requires
            old(self)@.len() + 8 <= max_grown_len(),
        ensures
            final(self)@ == old(self)@ + be_u64(v),
    {
        let mut field: Vec<u8> = Vec::new();
        push_be(&mut field, v as u128, 8);
        proof {
            crate::bytes::lemma_be_len(v as nat, 8);
            assert(field@ =~= be_u64(v));
        }
        storage_extend(&mut self.bytes, field.as_slice());
    }

    fn push_u128_be(&mut self, v: u128)
        requires
            old(self)@.len() + 16 <= max_grown_len(),
        ensures
            final(self)@ == old(self)@ + be_u128(v),
    {
        let mut field: Vec<u8> = Vec::new();
        push_be(&mut field, v, 16);
        proof {
            crate::bytes::lemma_be_len(v as nat, 16);
            assert(field@ =~= be_u128(v));
        }
        storage_extend(&mut self.bytes, field.as_slice());
    }

    fn push_slice(&mut self, s: &[u8])
        requires
            old(self)@.len() + s@.len() <= max_grown_len(),
        ensures
            final(self)@ == old(self)@ + s@,
    {
        storage_extend(&mut self.bytes, s);
    }

    fn finish(self) -> (k: CompositeKey)
        ensures
            k@ == self@,
    {
        CompositeKey { bytes: self.bytes }
    }
}

/// The 8 big-endian bytes of `v`.
pub open spec fn be_u64(v: u64) -> Seq<u8> {
    be_bytes(v as nat, 8)
}

/// The 16 big-endian bytes of `v`.
pub open spec fn be_u128(v: u128) -> Seq<u8> {
    be_bytes(v as nat, 16)
}

/// Types that can be encoded into a composite key.
pub trait KeyEncoder {
    /// Writes the encoding into `out` and returns the number of bytes written.
    fn encode(&self, out: &mut [u8]) -> usize;
}

fn overwrite_front(out: &mut [u8], field: &Vec<u8>)
    requires
        field@.len() <= old(out)@.len(),
    ensures
        final(out)@ == field@ + old(out)@.skip(field@.len() as int),
{
    let ghost before = out@;
    let n: usize = field.len();
    let mut i: usize = 0;
    while i < n
        invariant
            i <= n,
            n == field@.len(),
            n <= before.len(),
            out@.len() == before.len(),
            forall|j: int| 0 <= j < i ==> out@[j] == field@[j],
            forall|j: int| i <= j < before.len() ==> out@[j] == before[j],
        decreases n - i,
    {
        out[i] = field[i];
        i += 1;
    }
    assert(out@ =~= field@ + before.skip(n as int));
}

/// Writes `v` big-endian into the first 8 bytes of `out` and returns 8.
pub fn encode_u64_be(v: u64, out: &mut [u8]) -> (n: usize)
    requires
        old(out)@.len() >= 8,
    ensures
        n == 8,
        final(out)@ == be_u64(v) + old(out)@.skip(8),
{
    let mut field: Vec<u8> = Vec::new();
    push_be(&mut field, v as u128, 8);
    proof {
        crate::bytes::lemma_be_len(v as nat, 8);
        assert(field@ =~= be_u64(v));
    }
    overwrite_front(out, &field);
    8
}

/// Writes `v` big-endian into the first 16 bytes of `out` and returns 16.
pub fn encode_u128_be(v: u128, out: &mut [u8]) -> (n: usize)
    requires
        old(out)@.len() >= 16,
    ensures
        n == 16,
        final(out)@ == be_u128(v) + old(out)@.skip(16),
{
    let mut field: Vec<u8> = Vec::new();
    push_be(&mut field, v, 16);
    proof {
        crate::bytes::lemma_be_len(v as nat, 16);
        assert(field@ =~= be_u128(v));
    }
    overwrite_front(out, &field);
    16
}

/// The `u64` in the first 8 bytes.
pub fn decode_u64_be(bytes: &[u8]) -> (v: u64)
    requires
        bytes@.len() >= 8,
    ensures
        v as nat == be_value(bytes@.take(8)),
{
    let head = slice_subrange(bytes, 0, 8);
    proof {
        assert(head@ =~= bytes@.take(8));
        crate::bytes::lemma_pow256_sizes();
    }
    read_be(head) as u64
}

/// The `u128` whose 16 bytes are `bytes`.
pub fn decode_u128_be(bytes: &[u8]) -> (v: u128)
    requires
        bytes@.len() == 16,
    ensures
        v as nat == be_value(bytes@),
{
    read_be(bytes)
}

/// The node-id primary key.
pub fn node_id_key(node_id: u128) -> (k: CompositeKey)
    ensures
        k@ == be_u128(node_id),
{
    let mut b = KeyBuilder::new();
    b.push_u128_be(node_id);
    assert(b@ =~= be_u128(node_id));
    b.finish()
}

/// The edge-id primary key.
pub fn edge_id_key(edge_id: u128) -> (k: CompositeKey)
    ensures
        k@ == be_u128(edge_id),
{
    node_id_key(edge_id)
}

/// The layout of an edge adjacency key, and of an RDF SPO key.
pub open spec fn key_16_8_16(a: u128, b: u64, c: u128) -> Seq<u8> {
    be_u128(a) + be_u64(b) + be_u128(c)
}

/// The layout of a label key and of an edge type key.
pub open spec fn key_8_16(a: u64, b: u128) -> Seq<u8> {
    be_u64(a) + be_u128(b)
}

/// The layout of an RDF POS key.
pub open spec fn key_8_16_16(a: u64, b: u128, c: u128) -> Seq<u8> {
    be_u64(a) + be_u128(b) + be_u128(c)
}

/// The layout of an RDF OSP key.
pub open spec fn key_16_16_8(a: u128, b: u128, c: u64) -> Seq<u8> {
    be_u128(a) + be_u128(b) + be_u64(c)
}

/// The layout of a property key.
pub open spec fn key_property(property_id: u64, value: Seq<u8>, entity_id: u128) -> Seq<u8> {
    be_u64(property_id) + value + be_u128(entity_id)
}

/// A key is its parts one behind the other, each with its highest byte first.
pub proof fn law_key_layout(a: u128, b: u128, c: u64, v: Seq<u8>)
    ensures
        be_value(key_16_8_16(a, c, b).take(16)) == a,
        be_value(key_16_8_16(a, c, b).subrange(16, 24)) == c,
        be_value(key_16_8_16(a, c, b).skip(24)) == b,
        be_value(key_8_16(c, a).take(8)) == c,
        be_value(key_8_16(c, a).skip(8)) == a,
        be_value(key_8_16_16(c, a, b).take(8)) == c,
        be_value(key_8_16_16(c, a, b).subrange(8, 24)) == a,
        be_value(key_8_16_16(c, a, b).skip(24)) == b,
        be_value(key_16_16_8(a, b, c).take(16)) == a,
        be_value(key_16_16_8(a, b, c).subrange(16, 32)) == b,
        be_value(key_16_16_8(a, b, c).skip(32)) == c,
        key_16_8_16(a, c, b).len() == 40,
        key_8_16(c, a).len() == 24,
        key_8_16_16(c, a, b).len() == 40,
        key_16_16_8(a, b, c).len() == 40,
        be_value(key_property(c, v, a).take(8)) == c,
        key_property(c, v, a).subrange(8, 8 + v.len() as int) == v,
        be_value(key_property(c, v, a).skip(8 + v.len() as int)) == a,
        key_property(c, v, a).len() == 24 + v.len(),
{
    broadcast use crate::bytes::be_bytes_len;

    law_decode_encode_u128(a);
    law_decode_encode_u128(b);
    law_decode_encode_u64(c);
    assert(key_16_8_16(a, c, b).take(16) =~= be_u128(a));
    assert(key_16_8_16(a, c, b).subrange(16, 24) =~= be_u64(c));
    assert(key_16_8_16(a, c, b).skip(24) =~= be_u128(b));
    assert(key_8_16(c, a).take(8) =~= be_u64(c));
    assert(key_8_16(c, a).skip(8) =~= be_u128(a));
    assert(key_8_16_16(c, a, b).take(8) =~= be_u64(c));
    assert(key_8_16_16(c, a, b).subrange(8, 24) =~= be_u128(a));
    assert(key_8_16_16(c, a, b).skip(24) =~= be_u128(b));
    assert(key_16_16_8(a, b, c).take(16) =~= be_u128(a));
    assert(key_16_16_8(a, b, c).subrange(16, 32) =~= be_u128(b));
    assert(key_16_16_8(a, b, c).skip(32) =~= be_u64(c));
    assert(key_property(c, v, a).take(8) =~= be_u64(c));
    assert(key_property(c, v, a).subrange(8, 8 + v.len() as int) =~= v);
    assert(key_property(c, v, a).skip(8 + v.len() as int) =~= be_u128(a));
}

/// The edge adjacency key.
pub fn edge_adjacency_key(source_id: u128, type_id: u64, target_id: u128) -> (k: CompositeKey)
    ensures
        k@ == key_16_8_16(source_id, type_id, target_id),
{
    broadcast use crate::bytes::be_bytes_len;

    let mut b = KeyBuilder::new();
    b.push_u128_be(source_id);
    b.push_u64_be(type_id);
    b.push_u128_be(target_id);
    assert(b@ =~= key_16_8_16(source_id, type_id, target_id));
    b.finish()
}

/// The label index key.
pub fn label_index_key(label_hash: u64, node_id: u128) -> (k: CompositeKey)
    ensures
        k@ == key_8_16(label_hash, node_id),
{
    broadcast use crate::bytes::be_bytes_len;

    let mut b = KeyBuilder::new();
    b.push_u64_be(label_hash);
    b.push_u128_be(node_id);
    assert(b@ =~= key_8_16(label_hash, node_id));
    b.finish()
}

/// The edge type index key.
pub fn type_index_key(type_id: u64, edge_id: u128) -> (k: CompositeKey)
    ensures
        k@ == key_8_16(type_id, edge_id),
{
    label_index_key(type_id, edge_id)
}

/// The property index key. The serialized value is kept in full.
pub fn property_index_key(
    property_id: u64,
    serialized_value: &[u8],
    entity_id: u128,
) -> (k: CompositeKey)
    requires
        serialized_value@.len() + 24 <= max_grown_len(),
    ensures
        k@ == key_property(property_id, serialized_value@, entity_id),
{
    broadcast use crate::bytes::be_bytes_len;

    let mut b = KeyBuilder::new();
    b.push_u64_be(property_id);
    b.push_slice(serialized_value);
    b.push_u128_be(entity_id);
    assert(b@ =~= key_property(property_id, serialized_value@, entity_id));
    b.finish()
}

/// The RDF SPO triple key.
pub fn rdf_spo_key(subject: u128, predicate: u64, object: u128) -> (k: CompositeKey)
    ensures
        k@ == key_16_8_16(subject, predicate, object),
{
    edge_adjacency_key(subject, predicate, object)
}

/// The RDF POS triple key.
pub fn rdf_pos_key(predicate: u64, object: u128, subject: u128) -> (k: CompositeKey)
    ensures
        k@ == key_8_16_16(predicate, object, subject),
{
    broadcast use crate::bytes::be_bytes_len;

    let mut b = KeyBuilder::new();
    b.push_u64_be(predicate);
    b.push_u128_be(object);
    b.push_u128_be(subject);
    assert(b@ =~= key_8_16_16(predicate, object, subject));
    b.finish()
}

/// The RDF OSP triple key.
pub fn rdf_osp_key(object: u128, subject: u128, predicate: u64) -> (k: CompositeKey)
    ensures
        k@ == key_16_16_8(object, subject, predicate),
{
    broadcast use crate::bytes::be_bytes_len;

    let mut b = KeyBuilder::new();
    b.push_u128_be(object);
    b.push_u128_be(subject);
    b.push_u64_be(predicate);
    assert(b@ =~= key_16_16_8(object, subject, predicate));
    b.finish()
}

// ---------------------------------------------------------------------------
// Laws
// ---------------------------------------------------------------------------

/// Field by field, a fixed-width big-endian field decides the order before
/// anything behind it is looked at.
pub proof fn law_field_order(a: nat, b: nat, n: nat, x: Seq<u8>, y: Seq<u8>)
    requires
        a < crate::bytes::pow256(n),
        b < crate::bytes::pow256(n),
    ensures
        lex_le(be_bytes(a, n) + x, be_bytes(b, n) + y) == (a < b || (a == b && lex_le(x, y))),
{
    crate::bytes::lemma_be_order(a, b, n);
    crate::bytes::lemma_be_len(a, n);
    crate::bytes::lemma_be_len(b, n);
    if a == b {
        crate::bytes::lemma_lex_prefix(be_bytes(a, n), x, y);
    } else {
        if be_bytes(a, n) == be_bytes(b, n) {
            crate::bytes::lemma_be_injective(a, b, n);
        }
        crate::bytes::lemma_lex_heads(be_bytes(a, n), be_bytes(b, n), x, y);
    }
}

/// Node-id keys order as the ids do, and so do edge-id keys.
pub proof fn law_id_key_order(a: u128, b: u128)
    ensures
        lex_le(be_u128(a), be_u128(b)) == (a <= b),
{
    crate::bytes::lemma_pow256_sizes();
    crate::bytes::lemma_be_order(a as nat, b as nat, 16);
}

/// Adjacency keys and SPO keys order by first, then second, then third field.
pub proof fn law_16_8_16_order(a: (u128, u64, u128), b: (u128, u64, u128))
    ensures
        lex_le(key_16_8_16(a.0, a.1, a.2), key_16_8_16(b.0, b.1, b.2)) == (a.0 < b.0 || (a.0 == b.0
            && (a.1 < b.1 || (a.1 == b.1 && a.2 <= b.2)))),
{
    crate::bytes::lemma_pow256_sizes();
    assert(key_16_8_16(a.0, a.1, a.2) =~= be_u128(a.0) + (be_u64(a.1) + be_u128(a.2)));
    assert(key_16_8_16(b.0, b.1, b.2) =~= be_u128(b.0) + (be_u64(b.1) + be_u128(b.2)));
    law_field_order(
        a.0 as nat,
        b.0 as nat,
        16,
        be_u64(a.1) + be_u128(a.2),
        be_u64(b.1) + be_u128(b.2),
    );
    law_field_order(a.1 as nat, b.1 as nat, 8, be_u128(a.2), be_u128(b.2));
    law_id_key_order(a.2, b.2);
}

/// Label keys and edge type keys order by the label or type, then by the id.
pub proof fn law_8_16_order(a: (u64, u128), b: (u64, u128))
    ensures
        lex_le(key_8_16(a.0, a.1), key_8_16(b.0, b.1)) == (a.0 < b.0 || (a.0 == b.0 && a.1
            <= b.1)),
{
    crate::bytes::lemma_pow256_sizes();
    law_field_order(a.0 as nat, b.0 as nat, 8, be_u128(a.1), be_u128(b.1));
    law_id_key_order(a.1, b.1);
}

/// POS keys order by predicate, then object, then subject.
pub proof fn law_8_16_16_order(a: (u64, u128, u128), b: (u64, u128, u128))
    ensures
        lex_le(key_8_16_16(a.0, a.1, a.2), key_8_16_16(b.0, b.1, b.2)) == (a.0 < b.0 || (a.0 == b.0
            && (a.1 < b.1 || (a.1 == b.1 && a.2 <= b.2)))),
{
    crate::bytes::lemma_pow256_sizes();
    assert(key_8_16_16(a.0, a.1, a.2) =~= be_u64(a.0) + (be_u128(a.1) + be_u128(a.2)));
    assert(key_8_16_16(b.0, b.1, b.2) =~= be_u64(b.0) + (be_u128(b.1) + be_u128(b.2)));
    law_field_order(
        a.0 as nat,
        b.0 as nat,
        8,
        be_u128(a.1) + be_u128(a.2),
        be_u128(b.1) + be_u128(b.2),
    );
    law_field_order(a.1 as nat, b.1 as nat, 16, be_u128(a.2), be_u128(b.2));
    law_id_key_order(a.2, b.2);
}

/// OSP keys order by object, then subject, then predicate.
pub proof fn law_16_16_8_order(a: (u128, u128, u64), b: (u128, u128, u64))
    ensures
        lex_le(key_16_16_8(a.0, a.1, a.2), key_16_16_8(b.0, b.1, b.2)) == (a.0 < b.0 || (a.0 == b.0
            && (a.1 < b.1 || (a.1 == b.1 && a.2 <= b.2)))),
{
    crate::bytes::lemma_pow256_sizes();
    assert(key_16_16_8(a.0, a.1, a.2) =~= be_u128(a.0) + (be_u128(a.1) + be_u64(a.2)));
    assert(key_16_16_8(b.0, b.1, b.2) =~= be_u128(b.0) + (be_u128(b.1) + be_u64(b.2)));
    law_field_order(
        a.0 as nat,
        b.0 as nat,
        16,
        be_u128(a.1) + be_u64(a.2),
        be_u128(b.1) + be_u64(b.2),
    );
    law_field_order(a.1 as nat, b.1 as nat, 16, be_u64(a.2), be_u64(b.2));
    crate::bytes::lemma_be_order(a.2 as nat, b.2 as nat, 8);
}

/// Decoding a big-endian field gives back the number that was encoded.
pub proof fn law_decode_encode_u64(v: u64)
    ensures
        be_value(be_u64(v)) == v,
        be_u64(v).len() == 8,
{
    crate::bytes::lemma_pow256_sizes();
    crate::bytes::lemma_be_roundtrip(v as nat, 8);
}

/// Decoding a big-endian field gives back the number that was encoded.
pub proof fn law_decode_encode_u128(v: u128)
    ensures
        be_value(be_u128(v)) == v,
        be_u128(v).len() == 16,
{
    crate::bytes::lemma_pow256_sizes();
    crate::bytes::lemma_be_roundtrip(v as nat, 16);
}

/// A field keeps its place in the key: equal keys have equal fields.
pub proof fn law_16_8_16_injective(a: (u128, u64, u128), b: (u128, u64, u128))
    requires
        key_16_8_16(a.0, a.1, a.2) == key_16_8_16(b.0, b.1, b.2),
    ensures
        a == b,
{
    crate::bytes::lemma_lex_refl(key_16_8_16(a.0, a.1, a.2));
    law_16_8_16_order(a, b);
    law_16_8_16_order(b, a);
}

/// A field keeps its place in the key: equal keys have equal fields.
pub proof fn law_8_16_injective(a: (u64, u128), b: (u64, u128))
    requires
        key_8_16(a.0, a.1) == key_8_16(b.0, b.1),
    ensures
        a == b,
{
    crate::bytes::lemma_lex_refl(key_8_16(a.0, a.1));
    law_8_16_order(a, b);
    law_8_16_order(b, a);
}

/// Property keys of one property order by the serialized value, where the two
/// values take the same number of bytes.
pub proof fn law_property_key_order(p: u64, v: Seq<u8>, w: Seq<u8>, e: u128, f: u128)
    requires
        v.len() == w.len(),
        v != w,
    ensures
        lex_le(key_property(p, v, e), key_property(p, w, f)) == lex_le(v, w),
{
    assert(key_property(p, v, e) =~= be_u64(p) + (v + be_u128(e)));
    assert(key_property(p, w, f) =~= be_u64(p) + (w + be_u128(f)));
    crate::bytes::lemma_lex_prefix(be_u64(p), v + be_u128(e), w + be_u128(f));
    crate::bytes::lemma_lex_heads(v, w, be_u128(e), be_u128(f));
}

} // verus!
