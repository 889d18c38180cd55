//! Pages as bytes.
//!
//! A page is stored as [`PAGE_SIZE`] bytes: a header of [`HEADER_SIZE`] bytes
//! that starts with a checksum of all that follows, then the records, each with
//! its length in front, then zeros.
//!
//! ```text
//! 0   checksum     u32        24  previous page   u64
//! 4   page id      u64        32  next page       u64
//! 12  lsn          u64        40  rightmost page  u64
//! 20  kind         u8         48  key count       u16
//! 21  level        u8         50  zeros
//! 22  record count u16        64  records
//! ```

use vstd::prelude::*;
use vstd::slice::slice_subrange;

use crate::bytes::append_slice;
use crate::bytes::copy_range;
use crate::bytes::le_bytes;
use crate::bytes::le_bytes_len;
use crate::bytes::le_value;
use crate::bytes::lemma_le_roundtrip;
use crate::bytes::lemma_le_value_roundtrip;
use crate::bytes::lemma_pow256_sizes;
use crate::bytes::push_le;
use crate::bytes::read_le;
use crate::storage::page::HEADER_SIZE;
use crate::storage::page::PAGE_SIZE;

verus! {

/// A page: its header fields and its records.
#[derive(Debug)]
pub struct PageImage {
    pub page_id: u64,
    pub lsn: u64,
    pub kind: u8,
    pub level: u8,
    pub prev: u64,
    pub next: u64,
    pub rightmost: u64,
    /// The number of keys that the page notes down of itself.
    pub key_count: u16,
    pub records: Vec<Vec<u8>>,
}

/// What a page holds.
#[verifier::ext_equal]
pub struct ImageView {
    pub page_id: u64,
    pub lsn: u64,
    pub kind: u8,
    pub level: u8,
    pub prev: u64,
    pub next: u64,
    pub rightmost: u64,
    /// The number of keys that the page notes down of itself.
    pub key_count: u16,
    pub records: Seq<Seq<u8>>,
}

impl View for PageImage {
    type V = ImageView;

    open spec fn view(&self) -> ImageView {
        ImageView {
            page_id: self.page_id,
            lsn: self.lsn,
            kind: self.kind,
            level: self.level,
            prev: self.prev,
            next: self.next,
            rightmost: self.rightmost,
            key_count: self.key_count,
            records: record_views(self.records@),
        }
    }
}

/// The views of a list of records.
pub open spec fn record_views(records: Seq<Vec<u8>>) -> Seq<Seq<u8>> {
    records.map_values(|r: Vec<u8>| r@)
}

// ---------------------------------------------------------------------------
// Checksums
// ---------------------------------------------------------------------------

/// The checksum after one more byte.
pub open spec fn checksum_step(c: u32, b: u8) -> u32 {
    ((c ^ (b as u32)) as int * 16777619 % 0x1_0000_0000) as u32
}

/// The checksum of a byte string.
pub open spec fn checksum(s: Seq<u8>) -> u32
    decreases s.len(),
{
    if s.len() == 0 {
        2166136261
    } else {
        checksum_step(checksum(s.drop_last()), s.last())
    }
}

/// A checksum starts at 2166136261; with each byte, the byte is mixed into its lowest eight
/// bits, and it is multiplied by 16777619 in 32 bits.
pub proof fn law_checksum_steps(s: Seq<u8>, b: u8)
    ensures
        checksum(Seq::empty()) == 2166136261,
        checksum(s.push(b)) == (checksum(s) ^ (b as u32)) as int * 16777619 % 0x1_0000_0000,
{
    assert(s.push(b).drop_last() =~= s);
}

/// A changed byte is noticed: byte strings that differ in one place have different
/// checksums.
pub proof fn law_checksum_notices(s: Seq<u8>, i: int, b: u8)
    requires
        0 <= i < s.len(),
        b != s[i],
    ensures
        checksum(s.update(i, b)) != checksum(s),
    decreases s.len(),
{
    let t = s.update(i, b);
    let x = checksum(s.drop_last());
    let y = checksum(t.drop_last());
    let p = s.last();
    let q = t.last();
    if i < s.len() - 1 {
        assert(t.drop_last() =~= s.drop_last().update(i, b));
        law_checksum_notices(s.drop_last(), i, b);
        assert(x != y ==> x ^ (p as u32) != y ^ (p as u32)) by (bit_vector);
    } else {
        assert(t.drop_last() =~= s.drop_last());
        assert(p != q ==> x ^ (p as u32) != x ^ (q as u32)) by (bit_vector);
    }
    if checksum(t) == checksum(s) {
        lemma_step_injective(x ^ (p as u32), y ^ (q as u32));
    }
}

/// Multiplying by 16777619 in 32 bits can be undone.
proof fn lemma_step_injective(x: u32, y: u32)
    requires
        x as int * 16777619 % 0x1_0000_0000 == y as int * 16777619 % 0x1_0000_0000,
    ensures
        x == y,
{
    let m = 0x1_0000_0000int;
    let inverse = 0x359C449Bint;
    let a = x as int * 16777619;
    let b = y as int * 16777619;
    vstd::arithmetic::div_mod::lemma_mul_mod_noop_left(a, inverse, m);
    vstd::arithmetic::div_mod::lemma_mul_mod_noop_left(b, inverse, m);
    assert(16777619 * inverse == 1 + m * 3513497);
    lemma_undone(x as int);
    lemma_undone(y as int);
}

proof fn lemma_undone(x: int)
    requires
        0 <= x < 0x1_0000_0000,
    ensures
        (x * 16777619 * 0x359C449B) % 0x1_0000_0000 == x,
{
    assert(x * 16777619 * 0x359C449B == x + 0x1_0000_0000 * (x * 3513497)) by (nonlinear_arith);
    vstd::arithmetic::div_mod::lemma_mod_multiples_vanish(x * 3513497, x, 0x1_0000_0000);
    vstd::arithmetic::div_mod::lemma_small_mod(x as nat, 0x1_0000_0000);
}

/// The checksum of a byte string.
pub fn compute_checksum(s: &[u8]) -> (r: u32)
    ensures
        r == checksum(s@),
{
    let mut c: u32 = 2166136261;
    let mut i: usize = 0;
    assert(s@.take(0) =~= Seq::empty());
    while i < s.len()
        invariant
            i <= s@.len(),
            c == checksum(s@.take(i as int)),
        decreases s@.len() - i,
    {
        let x: u32 = c ^ (s[i] as u32);
        let wide: u64 = x as u64 * 16777619;
        c = (wide % 0x1_0000_0000) as u32;
        assert(s@.take(i + 1).drop_last() =~= s@.take(i as int));
        i += 1;
    }
    assert(s@.take(i as int) =~= s@);
    c
}

// ---------------------------------------------------------------------------
// Records
// ---------------------------------------------------------------------------

/// The bytes of records, each with its length in front.
pub open spec fn body(records: Seq<Seq<u8>>) -> Seq<u8>
    decreases records.len(),
{
    if records.len() == 0 {
        Seq::empty()
    } else {
        le_bytes(records[0].len(), 2) + records[0] + body(records.drop_first())
    }
}

/// The `count` records at the front of `bytes`; `None` where they end too soon.
pub open spec fn parsed(bytes: Seq<u8>, count: nat) -> Option<Seq<Seq<u8>>>
    decreases count,
{
    if count == 0 {
        Some(Seq::empty())
    } else if bytes.len() < 2 {
        None
    } else {
        let n = le_value(bytes.take(2));
        if bytes.len() < 2 + n {
            None
        } else {
            match parsed(bytes.skip(2 + n as int), (count - 1) as nat) {
                Some(rest) => Some(seq![bytes.subrange(2, 2 + n as int)] + rest),
                None => None,
            }
        }
    }
}

/// Are the records short enough for their lengths to be written down?
pub open spec fn lengths_fit(records: Seq<Seq<u8>>) -> bool {
    forall|i: int| 0 <= i < records.len() ==> (#[trigger] records[i]).len() <= u16::MAX
}

/// The records are read back from their bytes, whatever follows.
pub proof fn lemma_parse_body(records: Seq<Seq<u8>>, tail: Seq<u8>)
    requires
        lengths_fit(records),
    ensures
        parsed(body(records) + tail, records.len()) == Some(records),
    decreases records.len(),
{
    broadcast use le_bytes_len;

    if records.len() == 0 {
        assert(records =~= Seq::empty());
    } else {
        let first = records[0];
        let rest = records.drop_first();
        let bytes = body(records) + tail;
        lemma_pow256_sizes();
        lemma_le_roundtrip(first.len(), 2);
        assert(bytes.take(2) =~= le_bytes(first.len(), 2));
        assert(bytes.subrange(2, 2 + first.len() as int) =~= first);
        assert(bytes.skip(2 + first.len() as int) =~= body(rest) + tail);
        assert(lengths_fit(rest)) by {
            assert forall|i: int| 0 <= i < rest.len() implies (#[trigger] rest[i]).len()
                <= u16::MAX by {
                assert(rest[i] == records[i + 1]);
            }
        }
        lemma_parse_body(rest, tail);
        assert(seq![first] + rest =~= records);
    }
}

proof fn lemma_body_push(records: Seq<Seq<u8>>, rec: Seq<u8>)
    ensures
        body(records.push(rec)) == body(records) + le_bytes(rec.len(), 2) + rec,
    decreases records.len(),
{
    if records.len() == 0 {
        assert(records.push(rec).drop_first() =~= Seq::empty());
        assert(body(Seq::<Seq<u8>>::empty()) =~= Seq::empty());
        assert(records.push(rec)[0] == rec);
        assert(body(records.push(rec)) =~= body(records) + le_bytes(rec.len(), 2) + rec);
    } else {
        assert(records.push(rec).drop_first() =~= records.drop_first().push(rec));
        lemma_body_push(records.drop_first(), rec);
        assert(body(records.push(rec)) =~= body(records) + le_bytes(rec.len(), 2) + rec);
    }
}

// ---------------------------------------------------------------------------
// Pages
// ---------------------------------------------------------------------------

/// Does the page fit in its bytes?
pub open spec fn image_fits(v: ImageView) -> bool {
    &&& v.records.len() <= u16::MAX
    &&& lengths_fit(v.records)
    &&& body(v.records).len() <= PAGE_SIZE - HEADER_SIZE
}

/// Zeros.
pub open spec fn zeros(n: nat) -> Seq<u8> {
    Seq::new(n, |i: int| 0u8)
}

/// Zeros are as many as asked for, and nothing else.
pub proof fn law_zeros(n: nat, i: int)
    ensures
        zeros(n).len() == n,
        0 <= i < n ==> zeros(n)[i] == 0,
{
}

/// The header fields behind the checksum.
pub open spec fn header_bytes(v: ImageView) -> Seq<u8> {
    le_bytes(v.page_id as nat, 8) + le_bytes(v.lsn as nat, 8) + seq![v.kind, v.level] + le_bytes(
        v.records.len(),
        2,
    ) + le_bytes(v.prev as nat, 8) + le_bytes(v.next as nat, 8) + le_bytes(
        v.rightmost as nat,
        8,
    ) + le_bytes(v.key_count as nat, 2) + zeros(14)
}

/// All bytes of a page behind the checksum.
pub open spec fn content(v: ImageView) -> Seq<u8> {
    header_bytes(v) + body(v.records) + zeros(
        (PAGE_SIZE - HEADER_SIZE - body(v.records).len()) as nat,
    )
}

/// The bytes of a page with some checksum, right or wrong.
pub open spec fn summed_bytes(sum: u32, v: ImageView) -> Seq<u8> {
    le_bytes(sum as nat, 4) + content(v)
}

/// The bytes of a page.
pub open spec fn image_bytes(v: ImageView) -> Seq<u8> {
    summed_bytes(checksum(content(v)), v)
}

/// The page in these bytes; `None` where they are not a page.
pub open spec fn image_of(bytes: Seq<u8>) -> Option<ImageView> {
    if bytes.len() != PAGE_SIZE || le_value(bytes.take(4)) != checksum(bytes.skip(4)) {
        None
    } else {
        fields_of(bytes)
    }
}

/// The page in these bytes, whatever their checksum; `None` where the bytes do not make
/// a page.
pub open spec fn fields_of(bytes: Seq<u8>) -> Option<ImageView> {
    if bytes.len() != PAGE_SIZE {
        None
    } else {
        match parsed(bytes.skip(64), le_value(bytes.subrange(22, 24))) {
            Some(records) => Some(
                ImageView {
                    page_id: le_value(bytes.subrange(4, 12)) as u64,
                    lsn: le_value(bytes.subrange(12, 20)) as u64,
                    kind: bytes[20],
                    level: bytes[21],
                    prev: le_value(bytes.subrange(24, 32)) as u64,
                    next: le_value(bytes.subrange(32, 40)) as u64,
                    rightmost: le_value(bytes.subrange(40, 48)) as u64,
                    key_count: le_value(bytes.subrange(48, 50)) as u16,
                    records,
                },
            ),
            None => None,
        }
    }
}

/// A page is read back from its bytes.
pub proof fn law_image_roundtrip(v: ImageView)
    requires
        image_fits(v),
    ensures
        image_bytes(v).len() == PAGE_SIZE,
        image_of(image_bytes(v)) == Some(v),
{
    law_fields_roundtrip(checksum(content(v)), v);
}

/// Where the parts of a page stand: the checksum of all that follows, the id, the sequence
/// number, the kind, the level, the number of records, the neighbours, the last child, the
/// number of keys, zeros, and from byte 64 on the records, each behind its length.
pub proof fn law_image_layout(v: ImageView)
    requires
        image_fits(v),
    ensures
        ({
            let bytes = image_bytes(v);
            &&& bytes.len() == 8192
            &&& le_value(bytes.take(4)) == checksum(bytes.skip(4))
            &&& le_value(bytes.subrange(4, 12)) == v.page_id
            &&& le_value(bytes.subrange(12, 20)) == v.lsn
            &&& bytes[20] == v.kind
            &&& bytes[21] == v.level
            &&& le_value(bytes.subrange(22, 24)) == v.records.len()
            &&& le_value(bytes.subrange(24, 32)) == v.prev
            &&& le_value(bytes.subrange(32, 40)) == v.next
            &&& le_value(bytes.subrange(40, 48)) == v.rightmost
            &&& le_value(bytes.subrange(48, 50)) == v.key_count
            &&& v.records.len() > 0 ==> le_value(bytes.subrange(64, 66)) == v.records[0].len()
                && bytes.subrange(66, 66 + v.records[0].len() as int) == v.records[0]
        }),
{
    broadcast use le_bytes_len;

    lemma_pow256_sizes();
    law_image_roundtrip(v);
    law_fields_roundtrip(checksum(content(v)), v);
    let bytes = image_bytes(v);
    assert(header_bytes(v).len() == 60);
    assert(bytes.subrange(4, 12) =~= le_bytes(v.page_id as nat, 8));
    lemma_le_roundtrip(v.page_id as nat, 8);
    assert(bytes.subrange(12, 20) =~= le_bytes(v.lsn as nat, 8));
    lemma_le_roundtrip(v.lsn as nat, 8);
    assert(bytes.subrange(22, 24) =~= le_bytes(v.records.len(), 2));
    lemma_le_roundtrip(v.records.len(), 2);
    assert(bytes.subrange(24, 32) =~= le_bytes(v.prev as nat, 8));
    lemma_le_roundtrip(v.prev as nat, 8);
    assert(bytes.subrange(32, 40) =~= le_bytes(v.next as nat, 8));
    lemma_le_roundtrip(v.next as nat, 8);
    assert(bytes.subrange(40, 48) =~= le_bytes(v.rightmost as nat, 8));
    lemma_le_roundtrip(v.rightmost as nat, 8);
    assert(bytes.subrange(48, 50) =~= le_bytes(v.key_count as nat, 2));
    lemma_le_roundtrip(v.key_count as nat, 2);
    if v.records.len() > 0 {
        let rec = v.records[0];
        assert(body(v.records) =~= le_bytes(rec.len(), 2) + rec + body(v.records.drop_first()));
        assert(bytes.subrange(64, 66) =~= le_bytes(rec.len(), 2));
        lemma_le_roundtrip(rec.len(), 2);
        assert(bytes.subrange(66, 66 + rec.len() as int) =~= rec);
    }
}

/// A page with one changed byte is no page.
pub proof fn law_damage_is_noticed(v: ImageView, i: int, b: u8)
    requires
        image_fits(v),
        0 <= i < 8192,
        b != image_bytes(v)[i],
    ensures
        image_of(image_bytes(v).update(i, b)) is None,
{
    let bytes = image_bytes(v);
    let bad = bytes.update(i, b);
    law_image_layout(v);
    if i < 4 {
        assert(bad.skip(4) =~= bytes.skip(4));
        lemma_le_value_roundtrip(bad.take(4));
        lemma_le_value_roundtrip(bytes.take(4));
        assert(bad.take(4)[i] == b && bytes.take(4)[i] == bytes[i]);
    } else {
        assert(bad.take(4) =~= bytes.take(4));
        assert(bad.skip(4) =~= bytes.skip(4).update(i - 4, b));
        law_checksum_notices(bytes.skip(4), i - 4, b);
    }
}

/// A page and its checksum, right or wrong, are read back from their bytes.
pub proof fn law_fields_roundtrip(sum: u32, v: ImageView)
    requires
        image_fits(v),
    ensures
        summed_bytes(sum, v).len() == PAGE_SIZE,
        fields_of(summed_bytes(sum, v)) == Some(v),
        le_value(summed_bytes(sum, v).take(4)) == sum,
        summed_bytes(sum, v).skip(4) == content(v),
{
    broadcast use le_bytes_len;

    lemma_pow256_sizes();
    let bytes = summed_bytes(sum, v);
    let pad = zeros((PAGE_SIZE - HEADER_SIZE - body(v.records).len()) as nat);
    assert(header_bytes(v).len() == 60);
    assert(bytes.take(4) =~= le_bytes(sum as nat, 4));
    assert(bytes.skip(4) =~= content(v));
    lemma_le_roundtrip(sum as nat, 4);
    assert(bytes.subrange(4, 12) =~= le_bytes(v.page_id as nat, 8));
    lemma_le_roundtrip(v.page_id as nat, 8);
    assert(bytes.subrange(12, 20) =~= le_bytes(v.lsn as nat, 8));
    lemma_le_roundtrip(v.lsn as nat, 8);
    assert(bytes.subrange(22, 24) =~= le_bytes(v.records.len(), 2));
    lemma_le_roundtrip(v.records.len(), 2);
    assert(bytes.subrange(24, 32) =~= le_bytes(v.prev as nat, 8));
    lemma_le_roundtrip(v.prev as nat, 8);
    assert(bytes.subrange(32, 40) =~= le_bytes(v.next as nat, 8));
    lemma_le_roundtrip(v.next as nat, 8);
    assert(bytes.subrange(40, 48) =~= le_bytes(v.rightmost as nat, 8));
    lemma_le_roundtrip(v.rightmost as nat, 8);
    assert(bytes.subrange(48, 50) =~= le_bytes(v.key_count as nat, 2));
    lemma_le_roundtrip(v.key_count as nat, 2);
    assert(bytes[20] == v.kind && bytes[21] == v.level);
    assert(bytes.skip(64) =~= body(v.records) + pad);
    lemma_parse_body(v.records, pad);
}

impl PageImage {
    /// The bytes of the page behind the checksum.
    fn encode_content(&self) -> (r: Vec<u8>)
        requires
            image_fits(self@),
        ensures
            r@ == content(self@),
            r@.len() == PAGE_SIZE - 4,
    {
        broadcast use le_bytes_len;

        let mut out: Vec<u8> = Vec::new();
        push_le(&mut out, self.page_id as u128, 8);
        push_le(&mut out, self.lsn as u128, 8);
        out.push(self.kind);
        out.push(self.level);
        push_le(&mut out, self.records.len() as u128, 2);
        push_le(&mut out, self.prev as u128, 8);
        push_le(&mut out, self.next as u128, 8);
        push_le(&mut out, self.rightmost as u128, 8);
        push_le(&mut out, self.key_count as u128, 2);
        push_zeros(&mut out, 14);
        assert(out@ =~= header_bytes(self@));
        let ghost recs = self@.records;
        let mut i: usize = 0;
        assert(recs.take(0) =~= Seq::empty());
        assert(out@ =~= header_bytes(self@) + body(recs.take(0)));
        while i < self.records.len()
            invariant
                i <= self.records@.len(),
                recs == self@.records,
                recs.len() == self.records@.len(),
                out@ == header_bytes(self@) + body(recs.take(i as int)),
            decreases self.records@.len() - i,
        {
            assert(recs[i as int] == self.records@[i as int]@);
            proof {
                assert(recs.take(i + 1) =~= recs.take(i as int).push(recs[i as int]));
                lemma_body_push(recs.take(i as int), recs[i as int]);
            }
            push_le(&mut out, self.records[i].len() as u128, 2);
            append_slice(&mut out, self.records[i].as_slice());
            assert(out@ =~= header_bytes(self@) + body(recs.take(i + 1)));
            i += 1;
        }
        assert(recs.take(i as int) =~= recs);
        assert(header_bytes(self@).len() == 60);
        let pad: usize = (PAGE_SIZE - 4) - out.len();
        push_zeros(&mut out, pad);
        assert(out@ =~= content(self@));
        out
    }

    /// The checksum of the page.
    pub fn content_checksum(&self) -> (r: u32)
        requires
            image_fits(self@),
        ensures
            r == checksum(content(self@)),
    {
        let rest = self.encode_content();
        compute_checksum(rest.as_slice())
    }

    /// The bytes of the page.
    pub fn encode(&self) -> (r: Vec<u8>)
        requires
            image_fits(self@),
        ensures
            r@ == image_bytes(self@),
            r@.len() == PAGE_SIZE,
    {
        let sum: u32 = self.content_checksum();
        self.encode_summed(sum)
    }

    /// The bytes of the page with some checksum, right or wrong.
    pub fn encode_summed(&self, sum: u32) -> (r: Vec<u8>)
        requires
            image_fits(self@),
        ensures
            r@ == summed_bytes(sum, self@),
            r@.len() == PAGE_SIZE,
    {
        broadcast use le_bytes_len;

        let rest = self.encode_content();
        let mut out: Vec<u8> = Vec::new();
        push_le(&mut out, sum as u128, 4);
        append_slice(&mut out, rest.as_slice());
        assert(out@ =~= summed_bytes(sum, self@));
        out
    }

    /// The page in these bytes; `None` where there are not as many as a page
    /// takes, the checksum does not fit them, or the records run out of them.
    pub fn decode(bytes: &[u8]) -> (r: Option<PageImage>)
        ensures
            match r {
                Some(p) => image_of(bytes@) == Some(p@),
                None => image_of(bytes@) is None,
            },
    {
        if bytes.len() != PAGE_SIZE {
            return None;
        }
        let rest = slice_subrange(bytes, 4, bytes.len());
        assert(rest@ =~= bytes@.skip(4));
        if PageImage::sum_in(bytes) != compute_checksum(rest) {
            return None;
        }
        PageImage::read(bytes)
    }

    /// The checksum at the front of the bytes of a page.
    pub fn sum_in(bytes: &[u8]) -> (r: u32)
        requires
            bytes@.len() >= 4,
        ensures
            r == le_value(bytes@.take(4)),
    {
        proof {
            lemma_pow256_sizes();
        }
        let sum_bytes = slice_subrange(bytes, 0, 4);
        assert(sum_bytes@ =~= bytes@.take(4));
        read_le(sum_bytes) as u32
    }

    /// The page in these bytes, whatever their checksum; `None` where there are not as
    /// many as a page takes or the records run out of them.
    pub fn read(bytes: &[u8]) -> (r: Option<PageImage>)
        ensures
            match r {
                Some(p) => fields_of(bytes@) == Some(p@),
                None => fields_of(bytes@) is None,
            },
    {
        if bytes.len() != PAGE_SIZE {
            return None;
        }
        proof {
            lemma_pow256_sizes();
        }
        let count: usize = read_le(slice_subrange(bytes, 22, 24)) as usize;
        let records = match decode_records(bytes, count) {
            Some(records) => records,
            None => {
                return None;
            },
        };
        let page = PageImage {
            page_id: read_le(slice_subrange(bytes, 4, 12)) as u64,
            lsn: read_le(slice_subrange(bytes, 12, 20)) as u64,
            kind: bytes[20],
            level: bytes[21],
            prev: read_le(slice_subrange(bytes, 24, 32)) as u64,
            next: read_le(slice_subrange(bytes, 32, 40)) as u64,
            rightmost: read_le(slice_subrange(bytes, 40, 48)) as u64,
            key_count: read_le(slice_subrange(bytes, 48, 50)) as u16,
            records,
        };
        assert(fields_of(bytes@)->0 =~= page@);
        Some(page)
    }
}

/// The records behind the header of a page.
fn decode_records(bytes: &[u8], count: usize) -> (r: Option<Vec<Vec<u8>>>)
    requires
        bytes@.len() >= 64,
    ensures
        match r {
            Some(records) => parsed(bytes@.skip(64), count as nat) == Some(
                record_views(records@),
            ),
            None => parsed(bytes@.skip(64), count as nat) is None,
        },
{
    let mut records: Vec<Vec<u8>> = Vec::new();
    let mut pos: usize = 64;
    let mut left: usize = count;
    let ghost whole = parsed(bytes@.skip(64), count as nat);
    assert(record_views(records@) =~= Seq::empty());
    proof {
        if whole is Some {
            assert(Seq::<Seq<u8>>::empty() + whole->0 =~= whole->0);
        }
        lemma_pow256_sizes();
    }
    while left > 0
        invariant
            64 <= pos <= bytes@.len(),
            whole == parsed(bytes@.skip(64), count as nat),
            match parsed(bytes@.skip(pos as int), left as nat) {
                Some(rest) => whole == Some(record_views(records@) + rest),
                None => whole is None,
            },
            crate::bytes::pow256(2) == 0x1_0000,
        decreases left,
    {
        let ghost here = bytes@.skip(pos as int);
        if bytes.len() - pos < 2 {
            return None;
        }
        let head = slice_subrange(bytes, pos, pos + 2);
        assert(head@ =~= here.take(2));
        let n: usize = read_le(head) as usize;
        if bytes.len() - pos - 2 < n {
            return None;
        }
        let rec = copy_range(bytes, pos + 2, pos + 2 + n);
        let ghost before = record_views(records@);
        assert(rec@ =~= here.subrange(2, 2 + n));
        assert(bytes@.skip(pos + 2 + n) =~= here.skip(2 + n));
        records.push(rec);
        proof {
            assert(record_views(records@) =~= before.push(rec@));
            match parsed(here.skip(2 + n), (left - 1) as nat) {
                Some(rest) => {
                    assert(before + (seq![rec@] + rest) =~= record_views(records@) + rest);
                },
                None => {},
            }
        }
        pos = pos + 2 + n;
        left -= 1;
    }
    proof {
        if whole is Some {
            assert(record_views(records@) + Seq::<Seq<u8>>::empty() =~= record_views(records@));
        }
    }
    Some(records)
}

/// Appends `n` zeros to `out`.
fn push_zeros(out: &mut Vec<u8>, n: usize)
    ensures
        final(out)@ == old(out)@ + zeros(n as nat),
{
    let ghost before = out@;
    let mut i: usize = 0;
    assert(out@ =~= before + zeros(0));
    while i < n
        invariant
            i <= n,
            out@ == before + zeros(i as nat),
        decreases n - i,
    {
        out.push(0);
        assert(out@ =~= before + zeros((i + 1) as nat));
        i += 1;
    }
}

} // verus!
