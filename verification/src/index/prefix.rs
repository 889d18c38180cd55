//! Prefix compression for B+ tree pages.
//!
//! The longest prefix shared by all keys of a page can be stored once, and
//! each record then holds only the rest of its key.

use vstd::prelude::*;
use vstd::slice::slice_subrange;

use crate::bytes::append_slice;
use crate::bytes::copy_range;
use crate::bytes::has_prefix;
use crate::bytes::push_be;
use crate::bytes::starts_with;
use crate::index::entry::decode_kv;
use crate::index::entry::kv_key;
use crate::index::entry::kv_record;
use crate::index::entry::kv_value;
use crate::index::entry::law_kv_record_of_parts;
use crate::index::entry::law_kv_roundtrip;
use crate::index::entry::valid_kv;

verus! {

/// Do all keys start with `p`?
pub open spec fn is_common_prefix(keys: Seq<&[u8]>, p: Seq<u8>) -> bool {
    forall|i: int| 0 <= i < keys.len() ==> has_prefix((#[trigger] keys[i])@, p)
}

/// The longest prefix that all keys share; empty where there are no keys.
pub fn common_prefix(keys: &[&[u8]]) -> (r: Vec<u8>)
    ensures
        keys@.len() == 0 ==> r@.len() == 0,
        is_common_prefix(keys@, r@),
        keys@.len() > 0 ==> forall|p: Seq<u8>|
            is_common_prefix(keys@, p) ==> #[trigger] p.len() <= r@.len(),
{
    if keys.len() == 0 {
        return Vec::new();
    }
    let first: &[u8] = keys[0];
    let mut prefix_len: usize = first.len();
    let mut k: usize = 1;
    assert(first@.take(prefix_len as int) =~= first@);
    while k < keys.len()
        invariant
            1 <= k <= keys@.len(),
            first@ == keys@[0]@,
            prefix_len <= first@.len(),
            forall|i: int|
                0 <= i < k ==> has_prefix(
                    (#[trigger] keys@[i])@,
                    first@.take(prefix_len as int),
                ),
            forall|p: Seq<u8>|
                is_common_prefix(keys@, p) ==> #[trigger] p.len() <= prefix_len,
        decreases keys@.len() - k,
    {
        let key: &[u8] = keys[k];
        let bound: usize = if key.len() < prefix_len {
            key.len()
        } else {
            prefix_len
        };
        let mut i: usize = 0;
        while i < bound && first[i] == key[i]
            invariant
                i <= bound <= first@.len(),
                bound <= key@.len(),
                forall|j: int| 0 <= j < i ==> first@[j] == key@[j],
            decreases bound - i,
        {
            i += 1;
        }
        proof {
            let shorter = first@.take(i as int);
            assert forall|n: int| 0 <= n < k + 1 implies has_prefix(
                (#[trigger] keys@[n])@,
                shorter,
            ) by {
                if n < k {
                    assert(has_prefix(keys@[n]@, first@.take(prefix_len as int)));
                    assert(keys@[n]@.take(i as int) =~= keys@[n]@.take(prefix_len as int).take(
                        i as int,
                    ));
                    assert(shorter =~= first@.take(prefix_len as int).take(i as int));
                } else {
                    assert(key@.take(i as int) =~= shorter);
                }
            }
            assert forall|p: Seq<u8>| is_common_prefix(keys@, p) implies #[trigger] p.len()
                <= i by {
                assert(p.len() <= prefix_len);
                assert(has_prefix(keys@[0]@, p) && has_prefix(keys@[k as int]@, p));
                if p.len() > i {
                    assert(first@.take(p.len() as int)[i as int] == key@.take(
                        p.len() as int,
                    )[i as int]);
                }
            }
        }
        prefix_len = i;
        k += 1;
    }
    let r = copy_range(first, 0, prefix_len);
    assert(r@ =~= first@.take(prefix_len as int));
    r
}

/// The rest of `key` behind `prefix`.
pub fn strip_prefix<'a>(key: &'a [u8], prefix: &[u8]) -> (r: &'a [u8])
    requires
        has_prefix(key@, prefix@),
    ensures
        r@ == key@.skip(prefix@.len() as int),
{
    let r = slice_subrange(key, prefix.len(), key.len());
    assert(r@ =~= key@.skip(prefix@.len() as int));
    r
}

/// The record with `prefix` put back in front of its key; `None` where the
/// record is malformed.
pub fn decompress_record(record: &[u8], prefix: &[u8]) -> (r: Option<Vec<u8>>)
    ensures
        match r {
            Some(out) => valid_kv(record@) && out@ == kv_record(
                prefix@ + kv_key(record@),
                kv_value(record@),
            ),
            None => !valid_kv(record@),
        },
{
    match decode_kv(record) {
        Some((suffix, value)) => {
            let mut out: Vec<u8> = Vec::new();
            push_be(&mut out, prefix.len() as u128 + suffix.len() as u128, 2);
            append_slice(&mut out, prefix);
            append_slice(&mut out, suffix);
            append_slice(&mut out, value);
            assert(out@ =~= kv_record(prefix@ + kv_key(record@), kv_value(record@)));
            Some(out)
        },
        None => None,
    }
}

/// The record with `prefix` taken off its key; `None` where the record is
/// malformed or its key does not start with `prefix`.
pub fn compress_record(record: &[u8], prefix: &[u8]) -> (r: Option<Vec<u8>>)
    ensures
        match r {
            Some(out) => valid_kv(record@) && has_prefix(kv_key(record@), prefix@) && out@
                == kv_record(kv_key(record@).skip(prefix@.len() as int), kv_value(record@)),
            None => !(valid_kv(record@) && has_prefix(kv_key(record@), prefix@)),
        },
{
    match decode_kv(record) {
        Some((key, value)) => {
            if !starts_with(key, prefix) {
                return None;
            }
            let suffix = strip_prefix(key, prefix);
            let mut out: Vec<u8> = Vec::new();
            push_be(&mut out, suffix.len() as u128, 2);
            append_slice(&mut out, suffix);
            append_slice(&mut out, value);
            assert(out@ =~= kv_record(suffix@, value@));
            Some(out)
        },
        None => None,
    }
}

/// The key of a record; `None` where the record is malformed.
pub fn extract_key(record: &[u8]) -> (r: Option<&[u8]>)
    ensures
        match r {
            Some(key) => valid_kv(record@) && key@ == kv_key(record@),
            None => !valid_kv(record@),
        },
{
    match decode_kv(record) {
        Some((key, _value)) => Some(key),
        None => None,
    }
}

/// Decompressing what was compressed gives the record back.
pub proof fn law_compress_roundtrip(record: Seq<u8>, prefix: Seq<u8>)
    requires
        valid_kv(record),
        has_prefix(kv_key(record), prefix),
    ensures
        ({
            let short = kv_record(kv_key(record).skip(prefix.len() as int), kv_value(record));
            &&& valid_kv(short)
            &&& kv_record(prefix + kv_key(short), kv_value(short)) == record
            &&& short.len() == record.len() - prefix.len()
        }),
{
    law_kv_record_of_parts(record);
    let key = kv_key(record);
    let suffix = key.skip(prefix.len() as int);
    law_kv_roundtrip(suffix, kv_value(record));
    law_kv_roundtrip(key, kv_value(record));
    assert(prefix + suffix =~= key);
}

} // verus!
