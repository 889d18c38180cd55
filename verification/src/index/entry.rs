//! Record formats of B+ tree pages.
//!
//! A leaf record is `[key length: u16 BE][key][value]`; a branch record is
//! `[separator][child page id: u64 BE]`.

use vstd::prelude::*;
use vstd::slice::slice_subrange;

use crate::bytes::append_slice;
use crate::bytes::be_bytes;
use crate::bytes::be_value;
use crate::bytes::lemma_be_roundtrip;
use crate::bytes::lemma_be_value_roundtrip;
use crate::bytes::lemma_pow256_sizes;
use crate::bytes::push_be;
use crate::bytes::read_be;
use crate::index::page::branch_record_child;
use crate::index::page::branch_record_key;
use crate::storage::page::PageId;

verus! {

/// The leaf record of `key` and `value`.
pub open spec fn kv_record(key: Seq<u8>, value: Seq<u8>) -> Seq<u8> {
    be_bytes(key.len(), 2) + key + value
}

/// The key length that a leaf record announces.
pub open spec fn kv_key_len(rec: Seq<u8>) -> nat {
    be_value(rec.take(2))
}

/// Is the record long enough for the key length it announces?
pub open spec fn valid_kv(rec: Seq<u8>) -> bool {
    rec.len() >= 2 && 2 + kv_key_len(rec) <= rec.len()
}

/// The key of a leaf record.
pub open spec fn kv_key(rec: Seq<u8>) -> Seq<u8> {
    rec.subrange(2, 2 + kv_key_len(rec) as int)
}

/// The value of a leaf record.
pub open spec fn kv_value(rec: Seq<u8>) -> Seq<u8> {
    rec.skip(2 + kv_key_len(rec) as int)
}

/// The branch record of a separator and the child to its left.
pub open spec fn branch_record(sep: Seq<u8>, child: PageId) -> Seq<u8> {
    sep + be_bytes(child as nat, 8)
}

/// A leaf record gives back the key and the value it was made of.
pub proof fn law_kv_roundtrip(key: Seq<u8>, value: Seq<u8>)
    requires
        key.len() <= u16::MAX,
    ensures
        valid_kv(kv_record(key, value)),
        kv_key(kv_record(key, value)) == key,
        kv_value(kv_record(key, value)) == value,
        kv_record(key, value).len() == 2 + key.len() + value.len(),
{
    let rec = kv_record(key, value);
    lemma_pow256_sizes();
    lemma_be_roundtrip(key.len(), 2);
    assert(rec.take(2) =~= be_bytes(key.len(), 2));
    assert(kv_key(rec) =~= key);
    assert(kv_value(rec) =~= value);
}

/// Where the parts of records stand: a leaf record starts with the length of its key in two
/// bytes, the highest first, and a branch record ends with its child in eight.
pub proof fn law_record_layout(key: Seq<u8>, value: Seq<u8>, child: PageId)
    requires
        key.len() <= u16::MAX,
    ensures
        be_value(kv_record(key, value).take(2)) == key.len(),
        kv_record(key, value).subrange(2, 2 + key.len() as int) == key,
        kv_record(key, value).skip(2 + key.len() as int) == value,
        branch_record(key, child).take(key.len() as int) == key,
        branch_record(key, child).len() == key.len() + 8,
        be_value(branch_record(key, child).skip(key.len() as int)) == child,
{
    let rec = kv_record(key, value);
    let branch = branch_record(key, child);
    lemma_pow256_sizes();
    lemma_be_roundtrip(key.len(), 2);
    lemma_be_roundtrip(child as nat, 8);
    assert(rec.take(2) =~= be_bytes(key.len(), 2));
    assert(rec.subrange(2, 2 + key.len() as int) =~= key);
    assert(rec.skip(2 + key.len() as int) =~= value);
    assert(branch.take(key.len() as int) =~= key);
    assert(branch.skip(key.len() as int) =~= be_bytes(child as nat, 8));
}

/// A well-formed record is the record of its key and its value.
pub proof fn law_kv_record_of_parts(rec: Seq<u8>)
    requires
        valid_kv(rec),
    ensures
        kv_record(kv_key(rec), kv_value(rec)) == rec,
        kv_key(rec).len() <= u16::MAX,
{
    lemma_pow256_sizes();
    lemma_be_value_roundtrip(rec.take(2));
    assert(be_bytes(kv_key_len(rec), 2) == rec.take(2));
    assert(kv_record(kv_key(rec), kv_value(rec)) =~= rec);
}

/// A branch record gives back the separator and the child it was made of.
pub proof fn law_branch_roundtrip(sep: Seq<u8>, child: PageId)
    ensures
        branch_record(sep, child).len() == sep.len() + 8,
        branch_record_key(branch_record(sep, child)) == sep,
        branch_record_child(branch_record(sep, child)) == child,
{
    let rec = branch_record(sep, child);
    lemma_pow256_sizes();
    lemma_be_roundtrip(child as nat, 8);
    assert(rec.take(rec.len() - 8) =~= sep);
    assert(rec.skip(rec.len() - 8) =~= be_bytes(child as nat, 8));
}

/// The leaf record of `key` and `value`.
pub fn encode_kv(key: &[u8], value: &[u8]) -> (rec: Vec<u8>)
    ensures
        rec@ == kv_record(key@, value@),
{
    let mut rec: Vec<u8> = Vec::new();
    push_be(&mut rec, key.len() as u128, 2);
    append_slice(&mut rec, key);
    append_slice(&mut rec, value);
    assert(rec@ =~= kv_record(key@, value@));
    rec
}

/// The branch record of a separator and the child to its left.
pub fn encode_branch_entry(key: &[u8], child: PageId) -> (rec: Vec<u8>)
    ensures
        rec@ == branch_record(key@, child),
{
    let mut rec: Vec<u8> = Vec::new();
    append_slice(&mut rec, key);
    push_be(&mut rec, child as u128, 8);
    assert(rec@ =~= branch_record(key@, child));
    rec
}

/// Splits a leaf record into key and value; `None` where it is malformed.
pub fn decode_kv(kv: &[u8]) -> (r: Option<(&[u8], &[u8])>)
    ensures
        match r {
            Some((k, v)) => valid_kv(kv@) && k@ == kv_key(kv@) && v@ == kv_value(kv@),
            None => !valid_kv(kv@),
        },
{
    if kv.len() < 2 {
        return None;
    }
    let head = slice_subrange(kv, 0, 2);
    assert(head@ =~= kv@.take(2));
    proof {
        lemma_pow256_sizes();
    }
    let key_len: usize = read_be(head) as usize;
    if key_len > kv.len() - 2 {
        return None;
    }
    let k = slice_subrange(kv, 2, 2 + key_len);
    let v = slice_subrange(kv, 2 + key_len, kv.len());
    assert(v@ =~= kv_value(kv@));
    Some((k, v))
}

/// The key of a leaf record; empty where the record is malformed.
pub fn leaf_record_key(record: &[u8]) -> (k: &[u8])
    ensures
        k@ == (if valid_kv(record@) {
            kv_key(record@)
        } else {
            Seq::empty()
        }),
{
    match decode_kv(record) {
        Some((k, _v)) => k,
        None => {
            let k = slice_subrange(record, 0, 0);
            assert(k@ =~= Seq::empty());
            k
        },
    }
}

} // verus!
