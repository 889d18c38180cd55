//! Heap pages.
//!
//! A heap page holds records of one kind; a record keeps its slot for good. The
//! pages of the heap are numbered from [`FIRST_DATA_PAGE`] on, behind the two
//! superblocks and the bitmap.

use vstd::prelude::*;
use vstd::slice::slice_to_vec;

use crate::graph::record::SlotRef;
use crate::index::page::lemma_record_bytes_add;
use crate::index::page::lemma_record_bytes_push;
use crate::index::page::record_bytes;
use crate::storage::error::StorageError;
use crate::storage::image::record_views;
use crate::storage::page::PageId;
use crate::storage::page::SLOT_SIZE;

verus! {

/// The first page of the heap.
pub const FIRST_DATA_PAGE: PageId = 3;

/// Bytes of a heap page that records and their slots can use.
pub const HEAP_CAPACITY: usize = 8128;

/// The most records of a page.
pub const MAX_SLOTS: usize = 256;

/// What the records of a page are.
#[derive(Debug, Clone, Copy, PartialEq, Eq, Structural)]
pub enum RecordKind {
    Node,
    Edge,
    Property,
}

/// What a heap page holds.
#[verifier::ext_equal]
pub struct PageView {
    pub kind: RecordKind,
    pub records: Seq<Seq<u8>>,
}

/// A record of the heap.
#[verifier::ext_equal]
pub struct Cell {
    pub kind: RecordKind,
    pub bytes: Seq<u8>,
}

/// Can the page take one more record of `len` bytes?
pub open spec fn page_has_room(p: PageView, len: nat) -> bool {
    p.records.len() < MAX_SLOTS && record_bytes(p.records) + len + SLOT_SIZE <= HEAP_CAPACITY
}

/// Do the records fit on the page?
pub open spec fn page_fits(p: PageView) -> bool {
    p.records.len() <= MAX_SLOTS && record_bytes(p.records) <= HEAP_CAPACITY
}

/// A heap page.
#[derive(Debug)]
pub struct SlottedPage {
    kind: RecordKind,
    records: Vec<Vec<u8>>,
    used: usize,
}

impl View for SlottedPage {
    type V = PageView;

    closed spec fn view(&self) -> PageView {
        PageView { kind: self.kind, records: record_views(self.records@) }
    }
}

impl SlottedPage {
    /// Do the records fit, and is the space they take known?
    pub closed spec fn wf(&self) -> bool {
        page_fits(self@) && self.used == record_bytes(self@.records)
    }

    /// The records fit on the page.
    pub proof fn lemma_fits(&self)
        requires
            self.wf(),
        ensures
            page_fits(self@),
    {
    }

    /// A page with no records.
    pub fn init(kind: RecordKind) -> (r: Self)
        ensures
            r.wf(),
            r@ == (PageView { kind, records: Seq::empty() }),
    {
        let r = SlottedPage { kind, records: Vec::new(), used: 0 };
        assert(r@.records =~= Seq::empty());
        r
    }

    /// The page with these records; `None` where they do not fit.
    pub fn from_records(kind: RecordKind, records: Vec<Vec<u8>>) -> (r: Option<Self>)
        ensures
            match r {
                Some(p) => p.wf() && p@ == (PageView { kind, records: record_views(records@) }),
                None => !page_fits(PageView { kind, records: record_views(records@) }),
            },
    {
        if records.len() > MAX_SLOTS {
            return None;
        }
        let ghost recs = record_views(records@);
        let mut used: usize = 0;
        let mut i: usize = 0;
        assert(recs.take(0) =~= Seq::empty());
        while i < records.len()
            invariant
                i <= records@.len(),
                recs == record_views(records@),
                used == record_bytes(recs.take(i as int)),
                used <= HEAP_CAPACITY,
            decreases records@.len() - i,
        {
            let len: usize = records[i].len();
            assert(recs[i as int] == records@[i as int]@);
            proof {
                assert(recs.take(i + 1) =~= recs.take(i as int).push(recs[i as int]));
                lemma_record_bytes_push(recs.take(i as int), recs[i as int]);
                assert(recs =~= recs.take(i + 1) + recs.skip(i + 1));
                lemma_record_bytes_add(recs.take(i + 1), recs.skip(i + 1));
            }
            if len > HEAP_CAPACITY || used + len + SLOT_SIZE > HEAP_CAPACITY {
                return None;
            }
            used = used + len + SLOT_SIZE;
            i += 1;
        }
        assert(recs.take(i as int) =~= recs);
        Some(SlottedPage { kind, records, used })
    }

    /// What the records are.
    pub fn kind(&self) -> (r: RecordKind)
        ensures
            r == self@.kind,
    {
        self.kind
    }

    /// The number of records.
    pub fn slot_count(&self) -> (r: usize)
        requires
            self.wf(),
        ensures
            r == self@.records.len(),
            r <= MAX_SLOTS,
    {
        self.records.len()
    }

    /// The record in a slot.
    pub fn read(&self, slot: usize) -> (r: Option<&[u8]>)
        ensures
            match r {
                Some(rec) => slot < self@.records.len() && rec@ == self@.records[slot as int],
                None => slot >= self@.records.len(),
            },
    {
        if slot < self.records.len() {
            Some(self.records[slot].as_slice())
        } else {
            None
        }
    }

    /// Can the page take one more record of `len` bytes?
    pub fn has_room(&self, len: usize) -> (r: bool)
        requires
            self.wf(),
        ensures
            r == page_has_room(self@, len as nat),
    {
        self.records.len() < MAX_SLOTS && len <= HEAP_CAPACITY && self.used + len + SLOT_SIZE
            <= HEAP_CAPACITY
    }

    /// Puts a record in the next slot.
    fn insert(&mut self, record: &[u8])
        requires
            old(self).wf(),
            page_has_room(old(self)@, record@.len()),
        ensures
            final(self).wf(),
            final(self)@ == (PageView {
                kind: old(self)@.kind,
                records: old(self)@.records.push(record@),
            }),
    {
        let ghost before = self@.records;
        proof {
            lemma_record_bytes_push(before, record@);
        }
        self.used = self.used + record.len() + SLOT_SIZE;
        self.records.push(slice_to_vec(record));
        assert(self@.records =~= before.push(record@));
    }

    /// Puts a record of the same length in the place of another one.
    fn overwrite(&mut self, slot: usize, record: &[u8])
        requires
            old(self).wf(),
            slot < old(self)@.records.len(),
            record@.len() == old(self)@.records[slot as int].len(),
        ensures
            final(self).wf(),
            final(self)@ == (PageView {
                kind: old(self)@.kind,
                records: old(self)@.records.update(slot as int, record@),
            }),
    {
        let ghost before = self@.records;
        self.records.set(slot, slice_to_vec(record));
        assert(self@.records =~= before.update(slot as int, record@));
        proof {
            lemma_same_lengths(before, self@.records);
        }
    }
}

proof fn lemma_same_lengths(a: Seq<Seq<u8>>, b: Seq<Seq<u8>>)
    requires
        a.len() == b.len(),
        forall|i: int| 0 <= i < a.len() ==> (#[trigger] a[i]).len() == b[i].len(),
    ensures
        record_bytes(a) == record_bytes(b),
    decreases a.len(),
{
    if a.len() > 0 {
        assert(a.last().len() == b.last().len());
        assert forall|i: int| 0 <= i < a.drop_last().len() implies (
        #[trigger] a.drop_last()[i]).len() == b.drop_last()[i].len() by {
            assert(a[i].len() == b[i].len());
        }
        lemma_same_lengths(a.drop_last(), b.drop_last());
    }
}

// ---------------------------------------------------------------------------
// The heap
// ---------------------------------------------------------------------------

/// Is the page part of the heap?
pub open spec fn is_page(pages: Seq<PageView>, id: PageId) -> bool {
    FIRST_DATA_PAGE <= id < FIRST_DATA_PAGE + pages.len()
}

/// The page with an id.
pub open spec fn page_at(pages: Seq<PageView>, id: PageId) -> PageView {
    pages[id - FIRST_DATA_PAGE]
}

/// Is there a record in the slot?
pub open spec fn is_slot(pages: Seq<PageView>, slot: SlotRef) -> bool {
    let id = slot.spec_page_id();
    &&& FIRST_DATA_PAGE <= id < FIRST_DATA_PAGE + pages.len()
    &&& slot.spec_slot_index() < pages[id - FIRST_DATA_PAGE].records.len()
}

/// The record in a slot.
pub open spec fn cell_at(pages: Seq<PageView>, slot: SlotRef) -> Cell {
    let page = pages[slot.spec_page_id() - FIRST_DATA_PAGE];
    Cell { kind: page.kind, bytes: page.records[slot.spec_slot_index() as int] }
}

/// All records by their slots.
pub open spec fn cells(pages: Seq<PageView>) -> Map<SlotRef, Cell> {
    Map::new(|slot: SlotRef| is_slot(pages, slot), |slot: SlotRef| cell_at(pages, slot))
}

/// The slot of a page.
pub open spec fn slot_on(id: PageId, index: int) -> SlotRef {
    SlotRef { raw: (id * 256 + index) as u32 }
}

/// Are these different pages of the heap, with records of one kind?
pub open spec fn pages_of(pages: Seq<PageView>, list: Seq<PageId>, kind: RecordKind) -> bool {
    &&& list.no_duplicates()
    &&& forall|i: int|
        0 <= i < list.len() ==> is_page(pages, #[trigger] list[i]) && page_at(
            pages,
            list[i],
        ).kind == kind
}

/// The last page of a list that can take a record of `len` bytes.
pub open spec fn last_with_room(pages: Seq<PageView>, list: Seq<PageId>, len: nat) -> Option<PageId>
    decreases list.len(),
{
    if list.len() == 0 {
        None
    } else if page_has_room(page_at(pages, list.last()), len) {
        Some(list.last())
    } else {
        last_with_room(pages, list.drop_last(), len)
    }
}

/// The last page with room is one of the list, and has room.
pub proof fn lemma_last_with_room(pages: Seq<PageView>, list: Seq<PageId>, len: nat)
    ensures
        last_with_room(pages, list, len) matches Some(id) ==> list.contains(id)
            && page_has_room(page_at(pages, id), len),
    decreases list.len(),
{
    if list.len() > 0 {
        let rest = list.drop_last();
        lemma_last_with_room(pages, rest, len);
        if let Some(id) = last_with_room(pages, list, len) {
            if page_has_room(page_at(pages, list.last()), len) {
                assert(list[list.len() - 1] == id);
            } else {
                let i = choose|i: int| 0 <= i < rest.len() && rest[i] == id;
                assert(list[i] == id);
            }
        }
    }
}

/// The pages after a record was added to page `id`.
pub open spec fn with_record(pages: Seq<PageView>, id: PageId, record: Seq<u8>) -> Seq<PageView> {
    pages.update(
        id - FIRST_DATA_PAGE,
        PageView {
            kind: page_at(pages, id).kind,
            records: page_at(pages, id).records.push(record),
        },
    )
}

/// The pages after a record was replaced.
pub open spec fn with_cell(pages: Seq<PageView>, slot: SlotRef, record: Seq<u8>) -> Seq<PageView> {
    let i = slot.spec_page_id() - FIRST_DATA_PAGE;
    pages.update(
        i,
        PageView {
            kind: pages[i].kind,
            records: pages[i].records.update(slot.spec_slot_index() as int, record),
        },
    )
}

/// A page id and a slot index make one slot.
pub proof fn lemma_slot_on(id: PageId, index: int)
    requires
        id <= SlotRef::MAX_PAGE_ID,
        0 <= index < 256,
    ensures
        slot_on(id, index).spec_page_id() == id,
        slot_on(id, index).spec_slot_index() == index,
{
}

/// A slot is made of its page id and its slot index.
pub proof fn lemma_slot_parts(slot: SlotRef)
    ensures
        slot.raw == slot.spec_page_id() * 256 + slot.spec_slot_index(),
        slot.spec_page_id() <= SlotRef::MAX_PAGE_ID,
{
}

/// A record added to a page is found in its slot, and the others where they were.
pub proof fn lemma_with_record(pages: Seq<PageView>, id: PageId, record: Seq<u8>)
    requires
        is_page(pages, id),
        id <= SlotRef::MAX_PAGE_ID,
        page_at(pages, id).records.len() < MAX_SLOTS,
    ensures
        ({
            let slot = slot_on(id, page_at(pages, id).records.len() as int);
            &&& !cells(pages).contains_key(slot)
            &&& !slot.spec_is_null()
            &&& cells(with_record(pages, id, record)) == cells(pages).insert(
                slot,
                Cell { kind: page_at(pages, id).kind, bytes: record },
            )
        }),
{
    let n = page_at(pages, id).records.len() as int;
    let slot = slot_on(id, n);
    lemma_slot_on(id, n);
    let after = with_record(pages, id, record);
    let i = id - FIRST_DATA_PAGE;
    assert forall|s: SlotRef| #[trigger] is_slot(after, s) == (is_slot(pages, s) || s == slot) by {
        lemma_slot_parts(s);
        if s.spec_page_id() == id {
            assert(after[i].records.len() == n + 1);
        } else if FIRST_DATA_PAGE <= s.spec_page_id() < FIRST_DATA_PAGE + pages.len() {
            assert(after[s.spec_page_id() - FIRST_DATA_PAGE] == pages[s.spec_page_id()
                - FIRST_DATA_PAGE]);
        }
    }
    assert(cells(after) =~= cells(pages).insert(
        slot,
        Cell { kind: page_at(pages, id).kind, bytes: record },
    )) by {
        assert forall|s: SlotRef| #[trigger] is_slot(after, s) implies cell_at(after, s) == (
        if s == slot {
            Cell { kind: page_at(pages, id).kind, bytes: record }
        } else {
            cell_at(pages, s)
        }) by {
            lemma_slot_parts(s);
            if s.spec_page_id() != id {
                assert(after[s.spec_page_id() - FIRST_DATA_PAGE] == pages[s.spec_page_id()
                    - FIRST_DATA_PAGE]);
            }
        }
    }
}

/// A new page with one record.
pub proof fn lemma_with_page(pages: Seq<PageView>, kind: RecordKind, record: Seq<u8>)
    requires
        FIRST_DATA_PAGE + pages.len() <= SlotRef::MAX_PAGE_ID,
    ensures
        ({
            let id = (FIRST_DATA_PAGE + pages.len()) as u64;
            let slot = slot_on(id, 0);
            let after = pages.push(PageView { kind, records: seq![record] });
            &&& !cells(pages).contains_key(slot)
            &&& !slot.spec_is_null()
            &&& cells(after) == cells(pages).insert(slot, Cell { kind, bytes: record })
        }),
{
    let id = (FIRST_DATA_PAGE + pages.len()) as u64;
    let slot = slot_on(id, 0);
    lemma_slot_on(id, 0);
    let after = pages.push(PageView { kind, records: seq![record] });
    assert forall|s: SlotRef| #[trigger] is_slot(after, s) == (is_slot(pages, s) || s == slot) by {
        lemma_slot_parts(s);
        if FIRST_DATA_PAGE <= s.spec_page_id() < id {
            assert(after[s.spec_page_id() - FIRST_DATA_PAGE] == pages[s.spec_page_id()
                - FIRST_DATA_PAGE]);
        }
    }
    assert forall|s: SlotRef| #[trigger] is_slot(after, s) implies cell_at(after, s) == (if s
        == slot {
        Cell { kind, bytes: record }
    } else {
        cell_at(pages, s)
    }) by {
        lemma_slot_parts(s);
        if s.spec_page_id() != id {
            assert(after[s.spec_page_id() - FIRST_DATA_PAGE] == pages[s.spec_page_id()
                - FIRST_DATA_PAGE]);
        }
    }
    assert(cells(after) =~= cells(pages).insert(slot, Cell { kind, bytes: record }));
}

/// A replaced record is found in its slot, and the others as they were.
pub proof fn lemma_with_cell(pages: Seq<PageView>, slot: SlotRef, record: Seq<u8>)
    requires
        is_slot(pages, slot),
    ensures
        cells(with_cell(pages, slot, record)) == cells(pages).insert(
            slot,
            Cell { kind: cell_at(pages, slot).kind, bytes: record },
        ),
{
    let after = with_cell(pages, slot, record);
    let i = slot.spec_page_id() - FIRST_DATA_PAGE;
    assert forall|s: SlotRef| #[trigger] is_slot(after, s) == is_slot(pages, s) by {
        if FIRST_DATA_PAGE <= s.spec_page_id() < FIRST_DATA_PAGE + pages.len() && s.spec_page_id()
            != slot.spec_page_id() {
            assert(after[s.spec_page_id() - FIRST_DATA_PAGE] == pages[s.spec_page_id()
                - FIRST_DATA_PAGE]);
        }
    }
    assert forall|s: SlotRef| #[trigger] is_slot(pages, s) implies cell_at(after, s) == (if s
        == slot {
        Cell { kind: cell_at(pages, slot).kind, bytes: record }
    } else {
        cell_at(pages, s)
    }) by {
        lemma_slot_parts(s);
        lemma_slot_parts(slot);
        if s.spec_page_id() != slot.spec_page_id() {
            assert(after[s.spec_page_id() - FIRST_DATA_PAGE] == pages[s.spec_page_id()
                - FIRST_DATA_PAGE]);
        }
    }
    assert(cells(after) =~= cells(pages).insert(
        slot,
        Cell { kind: cell_at(pages, slot).kind, bytes: record },
    ));
}

/// The heap pages of a store.
#[derive(Debug)]
pub struct Heap {
    pages: Vec<SlottedPage>,
}

impl View for Heap {
    type V = Seq<PageView>;

    closed spec fn view(&self) -> Seq<PageView> {
        self.pages@.map_values(|p: SlottedPage| p@)
    }
}

impl Heap {
    /// Are the pages well-formed, and does a slot reference reach all of them?
    pub closed spec fn wf(&self) -> bool {
        &&& forall|i: int| 0 <= i < self.pages@.len() ==> (#[trigger] self.pages@[i]).wf()
        &&& FIRST_DATA_PAGE + self.pages@.len() <= SlotRef::MAX_PAGE_ID + 1
    }

    /// The records of every page fit on it.
    pub proof fn lemma_pages_fit(&self)
        requires
            self.wf(),
        ensures
            FIRST_DATA_PAGE + self@.len() <= SlotRef::MAX_PAGE_ID + 1,
            forall|i: int| 0 <= i < self@.len() ==> page_fits(#[trigger] self@[i]),
    {
        assert forall|i: int| 0 <= i < self@.len() implies page_fits(#[trigger] self@[i]) by {
            assert(self.pages@[i].wf());
        }
    }

    /// A heap with no pages.
    pub fn new() -> (r: Self)
        ensures
            r.wf(),
            r@ == Seq::<PageView>::empty(),
    {
        let r = Heap { pages: Vec::new() };
        assert(r@ =~= Seq::<PageView>::empty());
        r
    }

    /// Adds a page behind the last; `false`, and no change, where the page ids
    /// are used up.
    pub fn push_page(&mut self, page: SlottedPage) -> (r: bool)
        requires
            old(self).wf(),
            page.wf(),
        ensures
            final(self).wf(),
            r == (FIRST_DATA_PAGE + old(self)@.len() <= SlotRef::MAX_PAGE_ID),
            r ==> final(self)@ == old(self)@.push(page@),
            !r ==> final(self)@ == old(self)@,
    {
        if FIRST_DATA_PAGE + self.pages.len() as u64 > SlotRef::MAX_PAGE_ID as u64 {
            return false;
        }
        let ghost before = self@;
        self.pages.push(page);
        assert(self@ =~= before.push(page@));
        true
    }

    /// The number of pages.
    pub fn page_count(&self) -> (r: usize)
        requires
            self.wf(),
        ensures
            r == self@.len(),
            FIRST_DATA_PAGE + r <= SlotRef::MAX_PAGE_ID + 1,
    {
        self.pages.len()
    }

    /// The page with an id.
    pub fn page(&self, id: PageId) -> (r: Option<&SlottedPage>)
        requires
            self.wf(),
        ensures
            match r {
                Some(p) => is_page(self@, id) && p.wf() && p@ == page_at(self@, id),
                None => !is_page(self@, id),
            },
    {
        if id < FIRST_DATA_PAGE || id - FIRST_DATA_PAGE >= self.pages.len() as u64 {
            return None;
        }
        let i: usize = (id - FIRST_DATA_PAGE) as usize;
        Some(&self.pages[i])
    }

    /// The record in a slot and what it is.
    pub fn read(&self, slot: SlotRef) -> (r: Option<(RecordKind, &[u8])>)
        requires
            self.wf(),
        ensures
            match r {
                Some((kind, rec)) => is_slot(self@, slot) && cell_at(self@, slot) == (Cell {
                    kind,
                    bytes: rec@,
                }),
                None => !is_slot(self@, slot),
            },
    {
        match self.page(slot.page_id() as u64) {
            Some(page) => match page.read(slot.slot_index() as usize) {
                Some(rec) => Some((page.kind(), rec)),
                None => None,
            },
            None => None,
        }
    }

    /// Puts a record of the same length in the place of another one.
    pub fn overwrite(&mut self, slot: SlotRef, record: &[u8])
        requires
            old(self).wf(),
            is_slot(old(self)@, slot),
            record@.len() == cell_at(old(self)@, slot).bytes.len(),
        ensures
            final(self).wf(),
            final(self)@ == with_cell(old(self)@, slot, record@),
    {
        let ghost before = self@;
        let i: usize = (slot.page_id() as u64 - FIRST_DATA_PAGE) as usize;
        let index: usize = slot.slot_index() as usize;
        assert(before[i as int] == self.pages@[i as int]@);
        self.pages[i].overwrite(index, record);
        assert(self@ =~= with_cell(before, slot, record@));
    }

    /// The last page of a list that can take a record of `len` bytes.
    fn find_room(&self, list: &Vec<PageId>, len: usize) -> (r: Option<PageId>)
        requires
            self.wf(),
            forall|i: int| 0 <= i < list@.len() ==> is_page(self@, #[trigger] list@[i]),
        ensures
            r == last_with_room(self@, list@, len as nat),
            r matches Some(id) ==> list@.contains(id) && is_page(self@, id) && page_has_room(
                page_at(self@, id),
                len as nat,
            ),
    {
        let mut i: usize = list.len();
        assert(list@.take(i as int) =~= list@);
        while i > 0
            invariant
                self.wf(),
                i <= list@.len(),
                forall|j: int| 0 <= j < list@.len() ==> is_page(self@, #[trigger] list@[j]),
                last_with_room(self@, list@, len as nat) == last_with_room(
                    self@,
                    list@.take(i as int),
                    len as nat,
                ),
            decreases i,
        {
            assert(list@.take(i as int).drop_last() =~= list@.take(i - 1));
            let id: PageId = list[i - 1];
            match self.page(id) {
                Some(page) => {
                    if page.has_room(len) {
                        return Some(id);
                    }
                },
                None => {},
            }
            i -= 1;
        }
        None
    }

    /// Why a record of `len` bytes cannot be put on a page of `list` or on a new
    /// one, if it cannot.
    pub fn placement(&self, list: &Vec<PageId>, len: usize) -> (r: Option<StorageError>)
        requires
            self.wf(),
            forall|i: int| 0 <= i < list@.len() ==> is_page(self@, #[trigger] list@[i]),
        ensures
            forall|kind: RecordKind, record: Seq<u8>|
                record.len() == len ==> (match #[trigger] insert_outcome(
                    self@,
                    kind,
                    record,
                    list@,
                ).0 {
                    Ok(_) => r is None,
                    Err(e) => r == Some(e),
                }),
    {
        if self.find_room(list, len).is_some() {
            return None;
        }
        if len > HEAP_CAPACITY || len + SLOT_SIZE > HEAP_CAPACITY {
            return Some(StorageError::PageFull);
        }
        if FIRST_DATA_PAGE + self.pages.len() as u64 > SlotRef::MAX_PAGE_ID as u64 {
            return Some(StorageError::SlotOverflow);
        }
        None
    }

    /// Puts a record on the last page of `list` that has room for it, or on a new
    /// page, which is added to `list`.
    pub fn insert(&mut self, kind: RecordKind, record: &[u8], list: &mut Vec<PageId>) -> (r: Result<
        SlotRef,
        StorageError,
    >)
        requires
            old(self).wf(),
            pages_of(old(self)@, old(list)@, kind),
        ensures
            final(self).wf(),
            insert_outcome(old(self)@, kind, record@, old(list)@) == (r, final(self)@, final(list)@),
    {
        let ghost before = self@;
        match self.find_room(list, record.len()) {
            Some(id) => {
                let i: usize = (id - FIRST_DATA_PAGE) as usize;
                assert(before[i as int] == self.pages@[i as int]@);
                assert(self.pages@[i as int].wf());
                let index: usize = self.pages[i].slot_count();
                self.pages[i].insert(record);
                assert(self@ =~= with_record(before, id, record@));
                Ok(SlotRef::new(id as u32, index as u8))
            },
            None => {
                let mut page = SlottedPage::init(kind);
                if !page.has_room(record.len()) {
                    return Err(StorageError::PageFull);
                }
                page.insert(record);
                assert(page@.records =~= seq![record@]);
                let id: PageId = FIRST_DATA_PAGE + self.pages.len() as u64;
                if !self.push_page(page) {
                    return Err(StorageError::SlotOverflow);
                }
                list.push(id);
                Ok(SlotRef::new(id as u32, 0))
            },
        }
    }
}

/// What an insertion of a record comes to: its slot, the pages and the list of
/// pages afterwards.
pub open spec fn insert_outcome(
    pages: Seq<PageView>,
    kind: RecordKind,
    record: Seq<u8>,
    list: Seq<PageId>,
) -> (Result<SlotRef, StorageError>, Seq<PageView>, Seq<PageId>) {
    match last_with_room(pages, list, record.len()) {
        Some(id) => (
            Ok(slot_on(id, page_at(pages, id).records.len() as int)),
            with_record(pages, id, record),
            list,
        ),
        None => {
            let id = (FIRST_DATA_PAGE + pages.len()) as u64;
            if record.len() + SLOT_SIZE > HEAP_CAPACITY {
                (Err(StorageError::PageFull), pages, list)
            } else if id > SlotRef::MAX_PAGE_ID {
                (Err(StorageError::SlotOverflow), pages, list)
            } else {
                (
                    Ok(slot_on(id, 0)),
                    pages.push(PageView { kind, records: seq![record] }),
                    list.push(id),
                )
            }
        },
    }
}

/// Where a record goes: behind the others on the last listed page that can take it, with
/// what it holds and four bytes for its slot, and with no more than 256 records on it. If no
/// listed page can, it goes on a page of its own behind all pages, unless it is too long for
/// any page or the page could not be named.
pub proof fn law_insert_place(
    pages: Seq<PageView>,
    kind: RecordKind,
    record: Seq<u8>,
    list: Seq<PageId>,
    k: int,
)
    requires
        0 <= k < list.len(),
        page_at(pages, list[k]).records.len() < 256,
        record_bytes(page_at(pages, list[k]).records) + record.len() + 4 <= 8128,
        forall|j: int|
            k < j < list.len() ==> !(page_at(pages, #[trigger] list[j]).records.len() < 256
                && record_bytes(page_at(pages, list[j]).records) + record.len() + 4 <= 8128),
    ensures
        ({
            let (r, after, listed) = insert_outcome(pages, kind, record, list);
            let page = page_at(pages, list[k]);
            &&& r == Ok::<SlotRef, StorageError>(slot_on(list[k], page.records.len() as int))
            &&& listed == list
            &&& after == pages.update(
                list[k] - 3,
                PageView { kind: page.kind, records: page.records.push(record) },
            )
        }),
{
    lemma_last_is(pages, list, record.len(), k);
}

proof fn lemma_last_is(pages: Seq<PageView>, list: Seq<PageId>, len: nat, k: int)
    requires
        0 <= k < list.len(),
        page_has_room(page_at(pages, list[k]), len),
        forall|j: int|
            k < j < list.len() ==> !page_has_room(page_at(pages, #[trigger] list[j]), len),
    ensures
        last_with_room(pages, list, len) == Some(list[k]),
    decreases list.len(),
{
    if k < list.len() - 1 {
        assert(!page_has_room(page_at(pages, list[list.len() - 1]), len));
        let rest = list.drop_last();
        assert forall|j: int| k < j < rest.len() implies !page_has_room(
            page_at(pages, #[trigger] rest[j]),
            len,
        ) by {
            assert(rest[j] == list[j]);
        }
        lemma_last_is(pages, rest, len, k);
    }
}

/// Where a record goes that no listed page can take.
pub proof fn law_insert_fresh(
    pages: Seq<PageView>,
    kind: RecordKind,
    record: Seq<u8>,
    list: Seq<PageId>,
)
    requires
        forall|j: int|
            0 <= j < list.len() ==> !(page_at(pages, #[trigger] list[j]).records.len() < 256
                && record_bytes(page_at(pages, list[j]).records) + record.len() + 4 <= 8128),
    ensures
        ({
            let (r, after, listed) = insert_outcome(pages, kind, record, list);
            if record.len() + 4 > 8128 {
                r == Err::<SlotRef, StorageError>(StorageError::PageFull) && after == pages
                    && listed == list
            } else if 3 + pages.len() <= 0xFF_FFFF {
                &&& r == Ok::<SlotRef, StorageError>(slot_on((3 + pages.len()) as u64, 0))
                &&& after == pages.push(PageView { kind, records: seq![record] })
                &&& listed == list.push((3 + pages.len()) as u64)
            } else {
                3 + pages.len() <= u64::MAX ==> r == Err::<SlotRef, StorageError>(
                    StorageError::SlotOverflow,
                ) && after == pages && listed == list
            }
        }),
{
    lemma_none_has_room(pages, list, record.len());
}

proof fn lemma_none_has_room(pages: Seq<PageView>, list: Seq<PageId>, len: nat)
    requires
        forall|j: int|
            0 <= j < list.len() ==> !page_has_room(page_at(pages, #[trigger] list[j]), len),
    ensures
        last_with_room(pages, list, len) is None,
    decreases list.len(),
{
    if list.len() > 0 {
        assert(!page_has_room(page_at(pages, list[list.len() - 1]), len));
        let rest = list.drop_last();
        assert forall|j: int| 0 <= j < rest.len() implies !page_has_room(
            page_at(pages, #[trigger] rest[j]),
            len,
        ) by {
            assert(rest[j] == list[j]);
        }
        lemma_none_has_room(pages, rest, len);
    }
}

/// A record that was inserted stands on a listed page, and the pages that were listed
/// before still are.
pub proof fn lemma_insert_listed(
    pages: Seq<PageView>,
    kind: RecordKind,
    record: Seq<u8>,
    list: Seq<PageId>,
)
    requires
        FIRST_DATA_PAGE + pages.len() <= SlotRef::MAX_PAGE_ID + 1,
        pages_of(pages, list, kind),
    ensures
        ({
            let (outcome, _, after) = insert_outcome(pages, kind, record, list);
            &&& outcome matches Ok(slot) ==> after.contains(slot.spec_page_id() as u64)
            &&& forall|id: PageId| #[trigger] list.contains(id) ==> after.contains(id)
        }),
{
    let id = (FIRST_DATA_PAGE + pages.len()) as u64;
    match last_with_room(pages, list, record.len()) {
        Some(id) => {
            lemma_last_with_room(pages, list, record.len());
            lemma_slot_on(id, page_at(pages, id).records.len() as int);
        },
        None => {
            if id <= SlotRef::MAX_PAGE_ID {
                lemma_slot_on(id, 0);
            }
            let after = list.push(id);
            assert(after[list.len() as int] == id);
            assert forall|x: PageId| #[trigger] list.contains(x) implies after.contains(x) by {
                let i = choose|i: int| 0 <= i < list.len() && list[i] == x;
                assert(after[i] == x);
            }
        },
    }
}

} // verus!
