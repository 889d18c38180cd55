//! B+ tree pages.
//!
//! A page holds an ordered list of records behind the page header and the
//! B+ tree header. A leaf record is a key with its value; a branch record is a
//! separator key followed by the big-endian id of the child to its left.

use vstd::prelude::*;
use vstd::slice::slice_subrange;
use vstd::slice::slice_to_vec;

use crate::bytes::be_value;
use crate::bytes::bytes_eq;
use crate::bytes::read_be;
use crate::storage::image::body;
use crate::storage::image::checksum;
use crate::storage::image::content;
use crate::storage::image::fields_of;
use crate::storage::image::image_fits;
use crate::storage::image::law_fields_roundtrip;
use crate::storage::image::lengths_fit;
use crate::storage::image::summed_bytes;
use crate::storage::image::ImageView;
use crate::storage::image::PageImage;
use crate::storage::page::PageId;
use crate::storage::page::SLOT_SIZE;

verus! {

/// Size of the B+ tree header behind the page header.
pub const BTREE_HEADER_SIZE: usize = 32;

/// Bytes of a page that records and their slots can use.
pub const PAGE_CAPACITY: usize = 8096;

/// The two kinds of B+ tree page.
#[derive(Debug, Clone, Copy, PartialEq, Eq, Structural)]
pub enum BTreePageType {
    /// Interior node: separator keys and child pointers.
    Branch,
    /// Leaf node: key/value records with sibling pointers.
    Leaf,
}

impl BTreePageType {
    /// The byte that marks the kind on disk.
    pub open spec fn spec_code(self) -> u8 {
        match self {
            BTreePageType::Branch => 0x02,
            BTreePageType::Leaf => 0x03,
        }
    }

    /// A branch is marked by 2 and a leaf by 3.
    pub proof fn law_codes(self)
        ensures
            self is Branch <==> self.spec_code() == 2,
            self is Leaf <==> self.spec_code() == 3,
    {
    }

    /// The byte that marks the kind on disk.
    pub fn code(self) -> (c: u8)
        ensures
            c == self.spec_code(),
    {
        match self {
            BTreePageType::Branch => 0x02,
            BTreePageType::Leaf => 0x03,
        }
    }
}

/// The B+ tree fields of a page.
#[derive(Debug, Clone, Copy, PartialEq, Eq, Structural)]
pub struct BTreeHeader {
    /// Tree level (0 = leaf, 1 = first branch level, and so on).
    pub level: u8,
    /// Number of keys on the page, as its inserts and deletes count them.
    pub key_count: u16,
    /// Previous leaf in the chain, or 0.
    pub sibling_prev: PageId,
    /// Next leaf in the chain, or 0.
    pub sibling_next: PageId,
    /// Child to the right of every separator (branches), or 0.
    pub rightmost_child: PageId,
}

impl BTreeHeader {
    /// The header of an empty page.
    pub fn new(level: u8) -> (h: Self)
        ensures
            h == (BTreeHeader {
                level,
                key_count: 0,
                sibling_prev: 0,
                sibling_next: 0,
                rightmost_child: 0,
            }),
    {
        BTreeHeader { level, key_count: 0, sibling_prev: 0, sibling_next: 0, rightmost_child: 0 }
    }
}

/// What a B+ tree page holds.
#[verifier::ext_equal]
pub struct PageState {
    pub page_id: PageId,
    pub lsn: u64,
    pub kind: BTreePageType,
    pub level: u8,
    pub prev: PageId,
    pub next: PageId,
    pub rightmost: PageId,
    pub records: Seq<Seq<u8>>,
}

/// Bytes taken by `records` together with their slots.
pub open spec fn record_bytes(records: Seq<Seq<u8>>) -> nat
    decreases records.len(),
{
    if records.len() == 0 {
        0
    } else {
        record_bytes(records.drop_last()) + records.last().len() + SLOT_SIZE as nat
    }
}

/// Do `records` fit on one page?
pub open spec fn records_fit(records: Seq<Seq<u8>>) -> bool {
    record_bytes(records) <= PAGE_CAPACITY
}

impl PageState {
    /// An empty page.
    pub open spec fn empty(page_id: PageId, kind: BTreePageType, level: u8) -> PageState {
        PageState {
            page_id,
            lsn: 0,
            kind,
            level,
            prev: 0,
            next: 0,
            rightmost: 0,
            records: Seq::empty(),
        }
    }

    pub open spec fn is_leaf(self) -> bool {
        self.kind == BTreePageType::Leaf
    }

    /// Bytes left on the page.
    pub open spec fn free(self) -> int {
        PAGE_CAPACITY - record_bytes(self.records)
    }

    /// Can the page take one more record of `len` bytes?
    pub open spec fn has_room(self, len: nat) -> bool {
        len + SLOT_SIZE <= self.free()
    }
}

/// The separator part of a branch record: all but the trailing child id.
pub open spec fn branch_record_key(rec: Seq<u8>) -> Seq<u8> {
    if rec.len() >= 8 {
        rec.take(rec.len() - 8)
    } else {
        Seq::empty()
    }
}

/// The child id at the end of a branch record.
pub open spec fn branch_record_child(rec: Seq<u8>) -> PageId {
    be_value(rec.skip(rec.len() - 8)) as u64
}

/// Lengths of records and their effect on the space used.
pub proof fn lemma_record_bytes_push(records: Seq<Seq<u8>>, rec: Seq<u8>)
    ensures
        record_bytes(records.push(rec)) == record_bytes(records) + rec.len() + SLOT_SIZE,
{
    assert(records.push(rec).drop_last() =~= records);
}

pub proof fn lemma_record_bytes_add(a: Seq<Seq<u8>>, b: Seq<Seq<u8>>)
    ensures
        record_bytes(a + b) == record_bytes(a) + record_bytes(b),
    decreases b.len(),
{
    if b.len() == 0 {
        assert(a + b =~= a);
    } else {
        assert((a + b).drop_last() =~= a + b.drop_last());
        lemma_record_bytes_add(a, b.drop_last());
    }
}

pub proof fn lemma_record_bytes_insert(records: Seq<Seq<u8>>, i: int, rec: Seq<u8>)
    requires
        0 <= i <= records.len(),
    ensures
        record_bytes(records.insert(i, rec)) == record_bytes(records) + rec.len() + SLOT_SIZE,
{
    assert(records.insert(i, rec) =~= records.take(i).push(rec) + records.skip(i));
    lemma_record_bytes_add(records.take(i).push(rec), records.skip(i));
    lemma_record_bytes_push(records.take(i), rec);
    lemma_record_bytes_add(records.take(i), records.skip(i));
    assert(records.take(i) + records.skip(i) =~= records);
}

pub proof fn lemma_record_bytes_remove(records: Seq<Seq<u8>>, i: int)
    requires
        0 <= i < records.len(),
    ensures
        record_bytes(records.remove(i)) + records[i].len() + SLOT_SIZE == record_bytes(records),
{
    assert(records.remove(i).insert(i, records[i]) =~= records);
    lemma_record_bytes_insert(records.remove(i), i, records[i]);
}

pub proof fn lemma_record_bytes_count(records: Seq<Seq<u8>>)
    ensures
        records.len() * SLOT_SIZE <= record_bytes(records),
    decreases records.len(),
{
    if records.len() > 0 {
        lemma_record_bytes_count(records.drop_last());
    }
}

/// The page as it is stored, with the key count of its header.
pub open spec fn page_image(p: PageState, key_count: u16) -> ImageView {
    ImageView {
        page_id: p.page_id,
        lsn: p.lsn,
        kind: p.kind.spec_code(),
        level: p.level,
        prev: p.prev,
        next: p.next,
        rightmost: p.rightmost,
        key_count,
        records: p.records,
    }
}

/// Records that fit on a page fit in its bytes.
pub proof fn lemma_image_fits(records: Seq<Seq<u8>>)
    requires
        records_fit(records),
    ensures
        records.len() <= u16::MAX,
        lengths_fit(records),
        body(records).len() <= PAGE_CAPACITY,
{
    lemma_record_bytes_count(records);
    lemma_body_len(records);
    assert forall|i: int| 0 <= i < records.len() implies (#[trigger] records[i]).len()
        <= u16::MAX by {
        lemma_record_bytes_remove(records, i);
    }
}

proof fn lemma_body_len(records: Seq<Seq<u8>>)
    ensures
        body(records).len() <= record_bytes(records),
    decreases records.len(),
{
    broadcast use crate::bytes::le_bytes_len;

    if records.len() > 0 {
        let rest = records.drop_first();
        lemma_body_len(rest);
        assert(records =~= seq![records[0]] + rest);
        lemma_record_bytes_add(seq![records[0]], rest);
        lemma_record_bytes_push(Seq::empty(), records[0]);
        assert(seq![records[0]] =~= Seq::<Seq<u8>>::empty().push(records[0]));
    }
}

/// The bytes of a page with this key count in its header and this stored checksum.
pub open spec fn page_bytes(p: PageState, key_count: u16, sum: u32) -> Seq<u8> {
    summed_bytes(sum, page_image(p, key_count))
}

/// A page, the key count in its header and its stored checksum are told by its bytes.
pub proof fn law_page_bytes_injective(a: (PageState, u16, u32), b: (PageState, u16, u32))
    requires
        records_fit(a.0.records),
        records_fit(b.0.records),
        page_bytes(a.0, a.1, a.2) == page_bytes(b.0, b.1, b.2),
    ensures
        a == b,
{
    lemma_image_fits(a.0.records);
    lemma_image_fits(b.0.records);
    law_fields_roundtrip(a.2, page_image(a.0, a.1));
    law_fields_roundtrip(b.2, page_image(b.0, b.1));
}

/// A B+ tree page.
#[derive(Debug)]
pub struct BTreePage {
    page_id: PageId,
    page_lsn: u64,
    kind: BTreePageType,
    level: u8,
    sibling_prev: PageId,
    sibling_next: PageId,
    rightmost_child: PageId,
    key_count: u16,
    records: Vec<Vec<u8>>,
    used: usize,
    checksum: u32,
}

impl BTreePage {
    /// The checksum that was stored last.
    pub closed spec fn stored_checksum(self) -> u32 {
        self.checksum
    }

    /// The key count in the header.
    pub closed spec fn spec_key_count(self) -> u16 {
        self.key_count
    }

    /// The B+ tree header.
    pub open spec fn spec_header(self) -> BTreeHeader {
        BTreeHeader {
            level: self@.level,
            key_count: self.spec_key_count(),
            sibling_prev: self@.prev,
            sibling_next: self@.next,
            rightmost_child: self@.rightmost,
        }
    }

    /// The header tells the level, the neighbours and the last child of the page.
    pub proof fn law_header(self)
        ensures
            self.spec_header().level == self@.level,
            self.spec_header().key_count == self.spec_key_count(),
            self.spec_header().sibling_prev == self@.prev,
            self.spec_header().sibling_next == self@.next,
            self.spec_header().rightmost_child == self@.rightmost,
    {
    }

    /// The header counts records from the front, and no more than there are.
    pub proof fn law_counted(self, i: int)
        ensures
            self.counted().len() <= self.spec_key_count(),
            self.counted().len() <= self@.records.len(),
            self.counted().len() == self.spec_key_count() || self.counted().len()
                == self@.records.len(),
            0 <= i < self.counted().len() ==> self.counted()[i] == self@.records[i],
    {
    }

    /// Is the key count in the header the number of records?
    pub open spec fn in_step(self) -> bool {
        self.spec_key_count() == self@.records.len()
    }

    /// The records that the header counts.
    pub open spec fn counted(self) -> Seq<Seq<u8>> {
        if self.spec_key_count() < self@.records.len() {
            self@.records.take(self.spec_key_count() as int)
        } else {
            self@.records
        }
    }

    /// The records of the page.
    pub closed spec fn spec_records(self) -> Seq<Seq<u8>> {
        self.records@.map_values(|r: Vec<u8>| r@)
    }

    /// The space accounting agrees with the records, and they fit.
    pub closed spec fn wf(self) -> bool {
        &&& self.used == record_bytes(self.spec_records())
        &&& records_fit(self.spec_records())
    }

    /// A well-formed page holds records that fit on it.
    pub proof fn lemma_wf(self)
        requires
            self.wf(),
        ensures
            records_fit(self@.records),
            self@.records.len() <= 2024,
    {
        lemma_record_bytes_count(self.spec_records());
    }
}

impl View for BTreePage {
    type V = PageState;

    closed spec fn view(&self) -> PageState {
        PageState {
            page_id: self.page_id,
            lsn: self.page_lsn,
            kind: self.kind,
            level: self.level,
            prev: self.sibling_prev,
            next: self.sibling_next,
            rightmost: self.rightmost_child,
            records: self.spec_records(),
        }
    }
}

impl Clone for BTreePage {
    fn clone(&self) -> (r: Self)
        ensures
            r@ == self@,
            r.spec_key_count() == self.spec_key_count(),
            r.stored_checksum() == self.stored_checksum(),
            self.wf() ==> r.wf(),
    {
        let mut records: Vec<Vec<u8>> = Vec::new();
        let n: usize = self.records.len();
        let mut i: usize = 0;
        while i < n
            invariant
                i <= n,
                n == self.records@.len(),
                records@.len() == i,
                forall|j: int| 0 <= j < i ==> (#[trigger] records@[j])@ == self.records@[j]@,
            decreases n - i,
        {
            records.push(slice_to_vec(self.records[i].as_slice()));
            i += 1;
        }
        let r = BTreePage {
            page_id: self.page_id,
            page_lsn: self.page_lsn,
            kind: self.kind,
            level: self.level,
            sibling_prev: self.sibling_prev,
            sibling_next: self.sibling_next,
            rightmost_child: self.rightmost_child,
            key_count: self.key_count,
            records,
            used: self.used,
            checksum: self.checksum,
        };
        assert(r.spec_records() =~= self.spec_records());
        r
    }
}

impl BTreePage {
    fn new(page_id: PageId, kind: BTreePageType, level: u8) -> (p: Self)
        ensures
            p.wf(),
            p@ == PageState::empty(page_id, kind, level),
            p.in_step(),
    {
        let p = BTreePage {
            page_id,
            page_lsn: 0,
            kind,
            level,
            sibling_prev: 0,
            sibling_next: 0,
            rightmost_child: 0,
            key_count: 0,
            records: Vec::new(),
            used: 0,
            checksum: 0,
        };
        assert(p.spec_records() =~= Seq::empty());
        p
    }

    /// An empty leaf.
    pub fn new_leaf(page_id: PageId) -> (p: Self)
        ensures
            p.wf(),
            p@ == PageState::empty(page_id, BTreePageType::Leaf, 0),
            p.in_step(),
    {
        BTreePage::new(page_id, BTreePageType::Leaf, 0)
    }

    /// An empty branch at `level`.
    pub fn new_branch(page_id: PageId, level: u8) -> (p: Self)
        ensures
            p.wf(),
            p@ == PageState::empty(page_id, BTreePageType::Branch, level),
            p.in_step(),
    {
        BTreePage::new(page_id, BTreePageType::Branch, level)
    }

    pub fn page_id(&self) -> (id: PageId)
        ensures
            id == self@.page_id,
    {
        self.page_id
    }

    pub fn page_lsn(&self) -> (lsn: u64)
        ensures
            lsn == self@.lsn,
    {
        self.page_lsn
    }

    pub fn set_page_lsn(&mut self, lsn: u64)
        ensures
            final(self)@ == (PageState { lsn, ..old(self)@ }),
            final(self).spec_key_count() == old(self).spec_key_count(),
            final(self).stored_checksum() == old(self).stored_checksum(),
            old(self).wf() ==> final(self).wf(),
    {
        self.page_lsn = lsn;
    }

    /// The B+ tree header of the page.
    pub fn btree_header(&self) -> (h: BTreeHeader)
        ensures
            h == self.spec_header(),
    {
        BTreeHeader {
            level: self.level,
            key_count: self.key_count,
            sibling_prev: self.sibling_prev,
            sibling_next: self.sibling_next,
            rightmost_child: self.rightmost_child,
        }
    }

    /// Stores the B+ tree header, whatever it counts. The records stay as they are.
    pub fn write_btree_header(&mut self, header: &BTreeHeader)
        ensures
            old(self).wf() ==> final(self).wf(),
            final(self)@ == (PageState {
                level: header.level,
                prev: header.sibling_prev,
                next: header.sibling_next,
                rightmost: header.rightmost_child,
                ..old(self)@
            }),
            final(self).spec_header() == *header,
            final(self).stored_checksum() == old(self).stored_checksum(),
    {
        self.level = header.level;
        self.key_count = header.key_count;
        self.sibling_prev = header.sibling_prev;
        self.sibling_next = header.sibling_next;
        self.rightmost_child = header.rightmost_child;
    }

    /// Is this a leaf page?
    pub fn is_leaf(&self) -> (b: bool)
        ensures
            b == self@.is_leaf(),
    {
        self.kind == BTreePageType::Leaf
    }

    /// Is this a branch page?
    pub fn is_branch(&self) -> (b: bool)
        ensures
            b == !self@.is_leaf(),
    {
        self.kind == BTreePageType::Branch
    }

    /// Number of keys on this page, as its header says.
    pub fn key_count(&self) -> (n: u16)
        ensures
            n == self.spec_key_count(),
    {
        self.key_count
    }

    /// Number of slots; a B+ tree page keeps no dead slots.
    pub fn slot_count(&self) -> (n: u16)
        requires
            self.wf(),
        ensures
            n as nat == self@.records.len(),
    {
        proof {
            self.lemma_wf();
        }
        self.records.len() as u16
    }

    /// The raw record at slot `idx`.
    pub fn key(&self, idx: u16) -> (r: Option<&[u8]>)
        ensures
            match r {
                Some(rec) => idx < self@.records.len() && rec@ == self@.records[idx as int],
                None => idx >= self@.records.len(),
            },
    {
        if (idx as usize) < self.records.len() {
            Some(self.records[idx as usize].as_slice())
        } else {
            None
        }
    }

    /// The child id of the branch record at slot `idx`.
    pub fn child_pointer(&self, idx: u16) -> (r: Option<PageId>)
        requires
            idx < self@.records.len() ==> self@.records[idx as int].len() >= 8,
        ensures
            match r {
                Some(c) => idx < self@.records.len() && c == branch_record_child(
                    self@.records[idx as int],
                ),
                None => idx >= self@.records.len(),
            },
    {
        match self.key(idx) {
            Some(rec) => {
                let tail = slice_subrange(rec, rec.len() - 8, rec.len());
                assert(tail@ =~= rec@.skip(rec@.len() - 8));
                proof {
                    crate::bytes::lemma_pow256_sizes();
                }
                Some(read_be(tail) as u64)
            },
            None => None,
        }
    }

    /// The separator key of the branch record at slot `idx`.
    pub fn separator_key(&self, idx: u16) -> (r: Option<&[u8]>)
        ensures
            match r {
                Some(k) => idx < self@.records.len() && k@ == branch_record_key(
                    self@.records[idx as int],
                ),
                None => idx >= self@.records.len(),
            },
    {
        match self.key(idx) {
            Some(rec) => {
                if rec.len() >= 8 {
                    let k = slice_subrange(rec, 0, rec.len() - 8);
                    assert(k@ =~= rec@.take(rec@.len() - 8));
                    Some(k)
                } else {
                    let k = slice_subrange(rec, 0, 0);
                    assert(k@ =~= Seq::empty());
                    Some(k)
                }
            },
            None => None,
        }
    }

    /// Can the page take one more record of `len` bytes?
    pub fn has_room_for(&self, len: usize) -> (b: bool)
        requires
            self.wf(),
        ensures
            b == self@.has_room(len as nat),
    {
        len <= PAGE_CAPACITY && len + SLOT_SIZE <= PAGE_CAPACITY - self.used
    }

    /// Appends a record; `None`, and no change, where it does not fit.
    pub fn insert_raw(&mut self, record: &[u8]) -> (r: Option<u16>)
        requires
            old(self).wf(),
            old(self)@.has_room(record@.len()) ==> old(self).spec_key_count() < u16::MAX,
        ensures
            final(self).wf(),
            final(self).spec_key_count() == old(self).spec_key_count() + if r is Some {
                1int
            } else {
                0int
            },
            final(self).stored_checksum() == old(self).stored_checksum(),
            match r {
                Some(slot) => {
                    &&& old(self)@.has_room(record@.len())
                    &&& slot as nat == old(self)@.records.len()
                    &&& final(self)@ == (PageState {
                        records: old(self)@.records.push(record@),
                        ..old(self)@
                    })
                },
                None => !old(self)@.has_room(record@.len()) && final(self)@ == old(self)@,
            },
    {
        let n: u16 = self.slot_count();
        self.insert_raw_at(n, record)
    }

    /// Inserts a record at slot `idx`, moving the later ones up; `None`, and no
    /// change, where it does not fit.
    pub fn insert_raw_at(&mut self, idx: u16, record: &[u8]) -> (r: Option<u16>)
        requires
            old(self).wf(),
            idx <= old(self)@.records.len(),
            old(self)@.has_room(record@.len()) ==> old(self).spec_key_count() < u16::MAX,
        ensures
            final(self).wf(),
            final(self).spec_key_count() == old(self).spec_key_count() + if r is Some {
                1int
            } else {
                0int
            },
            final(self).stored_checksum() == old(self).stored_checksum(),
            match r {
                Some(slot) => {
                    &&& old(self)@.has_room(record@.len())
                    &&& slot == idx
                    &&& final(self)@ == (PageState {
                        records: old(self)@.records.insert(idx as int, record@),
                        ..old(self)@
                    })
                    &&& idx == old(self)@.records.len() ==> final(self)@.records
                        == old(self)@.records.push(record@)
                },
                None => !old(self)@.has_room(record@.len()) && final(self)@ == old(self)@,
            },
    {
        if !self.has_room_for(record.len()) {
            return None;
        }
        proof {
            lemma_record_bytes_insert(self.spec_records(), idx as int, record@);
        }
        let ghost before = self.spec_records();
        let copy = slice_to_vec(record);
        self.records.insert(idx as usize, copy);
        self.used = self.used + record.len() + SLOT_SIZE;
        self.key_count = self.key_count + 1;
        proof {
            assert(self.spec_records() =~= before.insert(idx as int, record@));
            if idx == before.len() {
                assert(before.insert(idx as int, record@) =~= before.push(record@));
            }
        }
        Some(idx)
    }

    /// Sets the sibling pointers.
    pub fn set_siblings(&mut self, prev: PageId, next: PageId)
        ensures
            final(self)@ == (PageState { prev, next, ..old(self)@ }),
            final(self).spec_key_count() == old(self).spec_key_count(),
            final(self).stored_checksum() == old(self).stored_checksum(),
            old(self).wf() ==> final(self).wf(),
    {
        self.sibling_prev = prev;
        self.sibling_next = next;
    }

    /// Sets the child to the right of every separator.
    pub fn set_rightmost_child(&mut self, child: PageId)
        ensures
            final(self)@ == (PageState { rightmost: child, ..old(self)@ }),
            final(self).spec_key_count() == old(self).spec_key_count(),
            final(self).stored_checksum() == old(self).stored_checksum(),
            old(self).wf() ==> final(self).wf(),
    {
        self.rightmost_child = child;
    }

    /// Deletes the record at `idx`; `false` where there is none.
    pub fn delete(&mut self, idx: u16) -> (b: bool)
        requires
            old(self).wf(),
        ensures
            final(self).wf(),
            b == (idx < old(self)@.records.len()),
            b ==> final(self)@ == (PageState {
                records: old(self)@.records.remove(idx as int),
                ..old(self)@
            }),
            !b ==> final(self)@ == old(self)@,
            final(self).spec_key_count() == (if b && old(self).spec_key_count() > 0 {
                old(self).spec_key_count() - 1
            } else {
                old(self).spec_key_count() as int
            }),
            final(self).stored_checksum() == old(self).stored_checksum(),
    {
        if idx as usize >= self.records.len() {
            return false;
        }
        proof {
            lemma_record_bytes_remove(self.spec_records(), idx as int);
        }
        let ghost before = self.spec_records();
        let rec = self.records.remove(idx as usize);
        self.used = self.used - rec.len() - SLOT_SIZE;
        if self.key_count > 0 {
            self.key_count = self.key_count - 1;
        }
        proof {
            assert(self.spec_records() =~= before.remove(idx as int));
        }
        true
    }

    /// Bytes left for records and their slots.
    pub fn free_space(&self) -> (n: usize)
        requires
            self.wf(),
        ensures
            n as int == self@.free(),
    {
        PAGE_CAPACITY - self.used
    }

    /// The page as it is stored.
    fn image(&self) -> (r: PageImage)
        requires
            self.wf(),
        ensures
            r@ == page_image(self@, self.spec_key_count()),
            image_fits(r@),
    {
        let copy = self.clone();
        let r = PageImage {
            page_id: self.page_id,
            lsn: self.page_lsn,
            kind: self.kind.code(),
            level: self.level,
            prev: self.sibling_prev,
            next: self.sibling_next,
            rightmost: self.rightmost_child,
            key_count: self.key_count,
            records: copy.records,
        };
        proof {
            self.lemma_wf();
            assert(r@.records =~= self@.records);
            lemma_image_fits(self@.records);
        }
        r
    }

    /// Computes the checksum of the page and stores it.
    pub fn update_checksum(&mut self)
        requires
            old(self).wf(),
        ensures
            final(self).wf(),
            final(self)@ == old(self)@,
            final(self).spec_key_count() == old(self).spec_key_count(),
            final(self).stored_checksum() == checksum(
                content(page_image(old(self)@, old(self).spec_key_count())),
            ),
    {
        let image = self.image();
        self.checksum = image.content_checksum();
    }

    /// Is the stored checksum that of the page?
    pub fn verify_checksum(&self) -> (b: bool)
        requires
            self.wf(),
        ensures
            b == (self.stored_checksum() == checksum(
                content(page_image(self@, self.spec_key_count())),
            )),
    {
        let image = self.image();
        self.checksum == image.content_checksum()
    }

    /// The bytes of the page.
    pub fn to_buf(&self) -> (r: Vec<u8>)
        requires
            self.wf(),
        ensures
            r@ == page_bytes(self@, self.spec_key_count(), self.stored_checksum()),
    {
        let image = self.image();
        image.encode_summed(self.checksum)
    }

    /// The page in these bytes, with the checksum that is stored with it, right or wrong;
    /// `None` where no B+ tree page has these bytes.
    pub fn from_buf(buf: &[u8]) -> (r: Option<Self>)
        ensures
            match r {
                Some(p) => p.wf() && page_bytes(p@, p.spec_key_count(), p.stored_checksum())
                    == buf@,
                None => forall|p: PageState, key_count: u16, sum: u32|
                    records_fit(p.records) ==> #[trigger] page_bytes(p, key_count, sum) != buf@,
            },
    {
        proof {
            assert forall|p: PageState, key_count: u16, sum: u32|
                records_fit(p.records) && #[trigger] page_bytes(p, key_count, sum)
                    == buf@ implies fields_of(buf@) == Some(page_image(p, key_count)) && buf@.skip(
                4,
            ) == content(page_image(p, key_count)) by {
                lemma_image_fits(p.records);
                law_fields_roundtrip(sum, page_image(p, key_count));
            }
        }
        let image = match PageImage::read(buf) {
            Some(image) => image,
            None => {
                return None;
            },
        };
        let kind = if image.kind == 0x02 {
            BTreePageType::Branch
        } else if image.kind == 0x03 {
            BTreePageType::Leaf
        } else {
            return None;
        };
        let ghost recs = image@.records;
        let mut used: usize = 0;
        let mut i: usize = 0;
        assert(recs.take(0) =~= Seq::empty());
        while i < image.records.len()
            invariant
                i <= image.records@.len(),
                recs == image@.records,
                recs.len() == image.records@.len(),
                used == record_bytes(recs.take(i as int)),
                used <= PAGE_CAPACITY,
                fields_of(buf@) == Some(image@),
                forall|p: PageState, key_count: u16, sum: u32|
                    records_fit(p.records) && #[trigger] page_bytes(p, key_count, sum) == buf@
                        ==> image@ == page_image(p, key_count),
            decreases image.records@.len() - i,
        {
            let len: usize = image.records[i].len();
            assert(recs[i as int] == image.records@[i as int]@);
            proof {
                assert(recs.take(i + 1) =~= recs.take(i as int).push(recs[i as int]));
                lemma_record_bytes_push(recs.take(i as int), recs[i as int]);
                assert(recs =~= recs.take(i + 1) + recs.skip(i + 1));
                lemma_record_bytes_add(recs.take(i + 1), recs.skip(i + 1));
            }
            if len > PAGE_CAPACITY || used + len + SLOT_SIZE > PAGE_CAPACITY {
                return None;
            }
            used = used + len + SLOT_SIZE;
            i += 1;
        }
        assert(recs.take(i as int) =~= recs);
        let p = BTreePage {
            page_id: image.page_id,
            page_lsn: image.lsn,
            kind,
            level: image.level,
            sibling_prev: image.prev,
            sibling_next: image.next,
            rightmost_child: image.rightmost,
            key_count: image.key_count,
            records: image.records,
            used,
            checksum: PageImage::sum_in(buf),
        };
        assert(p.spec_records() =~= recs);
        assert(page_image(p@, p.spec_key_count()) =~= image@);
        let bytes = p.to_buf();
        if bytes_eq(bytes.as_slice(), buf) {
            Some(p)
        } else {
            proof {
                assert forall|q: PageState, key_count: u16, sum: u32| records_fit(
                    q.records,
                ) implies #[trigger] page_bytes(q, key_count, sum) != buf@ by {
                    if page_bytes(q, key_count, sum) == buf@ {
                        lemma_image_fits(q.records);
                        law_fields_roundtrip(sum, page_image(q, key_count));
                    }
                }
            }
            None
        }
    }

    /// Rewrites the page without dead space, with the same records in the same
    /// order.
    pub fn compact(&mut self)
        requires
            old(self).wf(),
        ensures
            final(self).wf(),
            final(self)@ == old(self)@,
            final(self).spec_key_count() == old(self).spec_key_count(),
            final(self).stored_checksum() == old(self).stored_checksum(),
    {
        let copy = self.clone();
        *self = copy;
    }
}

} // verus!
