//! Writing the pages of the engine down and starting again from them.
//!
//! The indexes are not written down: they are rebuilt from the records.

use vstd::prelude::*;
use vstd::slice::slice_to_vec;

use crate::bytes::lemma_be_injective;
use crate::bytes::lemma_pow256_sizes;
use crate::graph::agreement::law_sources_agree;
use crate::graph::agreement::sources_agree;
use crate::graph::engine::edge_entry_ok;
use crate::graph::engine::id_key;
use crate::graph::engine::label_entry_ok;
use crate::graph::engine::lemma_id_key_injective;
use crate::graph::engine::lemma_same_entries;
use crate::graph::engine::node_entry_ok;
use crate::graph::engine::type_entry_ok;
use crate::graph::engine::EngineView;
use crate::graph::engine::GraphStorageEngine;
use crate::graph::ids::observed_next;
use crate::graph::record::edge_flags;
use crate::graph::record::node_flags;
use crate::graph::record::NodeRecord;
use crate::graph::record::SlotRef;
use crate::graph::store::cell_ok;
use crate::graph::store::edge_in;
use crate::graph::store::node_in;
use crate::graph::store::page_edges;
use crate::graph::store::page_nodes;
use crate::graph::store::with_page_in;
use crate::graph::store::RecordStore;
use crate::graph::stored::StoredEdge;
use crate::index::key::be_u128;
use crate::index::key::edge_id_key;
use crate::index::key::key_8_16;
use crate::index::key::label_index_key;
use crate::index::key::law_8_16_injective;
use crate::index::key::node_id_key;
use crate::index::key::type_index_key;
use crate::index::page::lemma_record_bytes_add;
use crate::index::page::record_bytes;
use crate::storage::error::StorageError;
use crate::storage::heap::cell_at;
use crate::storage::heap::cells;
use crate::storage::heap::is_page;
use crate::storage::heap::is_slot;
use crate::storage::heap::lemma_slot_on;
use crate::storage::heap::lemma_slot_parts;
use crate::storage::heap::page_at;
use crate::storage::heap::page_fits;
use crate::storage::heap::slot_on;
use crate::storage::heap::Cell;
use crate::storage::heap::FIRST_DATA_PAGE;
use crate::storage::heap::Heap;
use crate::storage::heap::PageView;
use crate::storage::heap::RecordKind;
use crate::storage::heap::SlottedPage;
use crate::storage::image::body;
use crate::storage::image::image_bytes;
use crate::storage::image::image_fits;
use crate::storage::image::image_of;
use crate::storage::image::law_damage_is_noticed;
use crate::storage::image::law_image_roundtrip;
use crate::storage::image::record_views;
use crate::storage::image::ImageView;
use crate::storage::image::PageImage;
use crate::storage::page::PageId;

verus! {

/// The engine with a node record entered into the indexes, if the node is there.
pub open spec fn entered_node(v: EngineView, slot: SlotRef, node: NodeRecord) -> EngineView {
    if node.node_id == 0 {
        v
    } else {
        let seen = EngineView { next_id: observed_next(v.next_id, node.node_id), ..v };
        if node.is_deleted() {
            seen
        } else {
            EngineView {
                node_index: v.node_index.insert(id_key(node.node_id), slot),
                label_index: v.label_index.insert(
                    key_8_16(node.label_id as u64, node.node_id as u128),
                    slot,
                ),
                ..seen
            }
        }
    }
}

/// The engine with an edge entered into the indexes, if the edge is there.
pub open spec fn entered_edge(v: EngineView, slot: SlotRef, edge: StoredEdge) -> EngineView {
    if edge.record.edge_id == 0 {
        v
    } else {
        let seen = EngineView { next_id: observed_next(v.next_id, edge.record.edge_id), ..v };
        if edge.record.is_deleted() {
            seen
        } else {
            EngineView {
                edge_index: v.edge_index.insert(id_key(edge.record.edge_id), slot),
                type_index: v.type_index.insert(
                    key_8_16(edge.record.type_id as u64, edge.record.edge_id as u128),
                    slot,
                ),
                ..seen
            }
        }
    }
}

/// The engine with the first `n` records of a page entered into the indexes.
pub open spec fn entered_records(v: EngineView, id: PageId, n: nat) -> EngineView
    decreases n,
{
    if n == 0 {
        v
    } else {
        let before = entered_records(v, id, (n - 1) as nat);
        let slot = slot_on(id, n - 1);
        let page = page_at(v.pages, id);
        match page.kind {
            RecordKind::Node => entered_node(before, slot, node_in(page.records[n - 1])),
            RecordKind::Edge => entered_edge(before, slot, edge_in(page.records[n - 1])),
            RecordKind::Property => before,
        }
    }
}

/// Is there the record of a node on the page, deleted or not?
pub open spec fn names_node(ns: Seq<NodeRecord>) -> bool {
    exists|i: int| 0 <= i < ns.len() && (#[trigger] ns[i]).node_id != 0
}

/// Is there an edge on the page, deleted or not?
pub open spec fn names_edge(es: Seq<StoredEdge>) -> bool {
    exists|i: int| 0 <= i < es.len() && (#[trigger] es[i]).record.edge_id != 0
}

/// The engine with a page entered.
pub open spec fn entered_page(v: EngineView, id: PageId) -> EngineView {
    let page = page_at(v.pages, id);
    let w = entered_records(v, id, page.records.len());
    match page.kind {
        RecordKind::Node => if names_node(page_nodes(page)) {
            EngineView { node_pages: with_page_in(w.node_pages, id), ..w }
        } else {
            w
        },
        RecordKind::Edge => if names_edge(page_edges(page)) {
            EngineView { edge_pages: with_page_in(w.edge_pages, id), ..w }
        } else {
            w
        },
        RecordKind::Property => w,
    }
}

/// The engine with the first `n` pages entered.
pub open spec fn entered_pages(v: EngineView, n: nat) -> EngineView
    decreases n,
{
    if n == 0 {
        v
    } else {
        entered_page(
            entered_pages(v, (n - 1) as nat),
            (FIRST_DATA_PAGE + n - 1) as PageId,
        )
    }
}

/// The engine after its indexes were rebuilt.
pub open spec fn rebuild_after(v: EngineView) -> EngineView {
    entered_pages(v, v.pages.len())
}

/// An engine over these pages that knows nothing of the records.
pub open spec fn fresh_view(pages: Seq<PageView>) -> EngineView {
    EngineView {
        pages,
        node_pages: Seq::empty(),
        edge_pages: Seq::empty(),
        property_pages: Seq::empty(),
        node_index: Map::empty(),
        edge_index: Map::empty(),
        label_index: Map::empty(),
        type_index: Map::empty(),
        property_index: Map::empty(),
        next_id: 1,
        node_free: Seq::empty(),
        edge_free: Seq::empty(),
        csr: None,
        wal: Seq::empty(),
        next_txid: 1,
    }
}

/// Entering changes no page.
proof fn lemma_entered_records_pages(v: EngineView, id: PageId, n: nat)
    ensures
        entered_records(v, id, n).pages == v.pages,
    decreases n,
{
    if n > 0 {
        lemma_entered_records_pages(v, id, (n - 1) as nat);
    }
}

proof fn lemma_entered_pages_pages(v: EngineView, n: nat)
    ensures
        entered_pages(v, n).pages == v.pages,
    decreases n,
{
    if n > 0 {
        let before = entered_pages(v, (n - 1) as nat);
        let id = (FIRST_DATA_PAGE + n - 1) as PageId;
        lemma_entered_pages_pages(v, (n - 1) as nat);
        lemma_entered_records_pages(before, id, page_at(before.pages, id).records.len());
    }
}

impl GraphStorageEngine {
    /// Has one of the indexes that are rebuilt no room?
    pub open spec fn indexes_full(&self) -> bool {
        ||| self.node_index.is_full()
        ||| self.edge_index.is_full()
        ||| self.label_index.is_full()
        ||| self.type_index.is_full()
    }

    /// Enters a node record into the indexes, if the node is there.
    fn enter_node(&mut self, slot: SlotRef, node: &NodeRecord)
        requires
            old(self).wf(),
            old(self)@.nodes().contains_key(slot),
            old(self)@.nodes()[slot] == *node,
        ensures
            final(self).wf(),
            final(self).store == old(self).store,
            old(self).indexes_full() ==> final(self).indexes_full(),
            !final(self).indexes_full() ==> final(self)@ == entered_node(old(self)@, slot, *node),
            old(self).room() > 0 ==> final(self).room() >= old(self).room() - 1,
    {
        if node.node_id == 0 {
            return;
        }
        let ghost a = self@;
        self.id_allocator.observe(node.node_id);
        if node.flags & node_flags::DELETED == 0 {
            broadcast use crate::bytes::be_bytes_len;

            if self.node_index.has_room() {
                let _r = self.node_index.insert(&node_id_key(node.node_id as u128), slot);
            }
            if self.label_index.has_room() {
                let key = label_index_key(node.label_id as u64, node.node_id as u128);
                let _r = self.label_index.insert(&key, slot);
            }
        }
        proof {
            let b = self@;
            assert forall|id: u64| #[trigger] b.has_node(id) implies node_entry_ok(b, id) by {
                if id_key(id) == id_key(node.node_id) {
                    lemma_id_key_injective(id, node.node_id);
                    if a.has_node(id) {
                        assert(node_entry_ok(a, id));
                    }
                } else {
                    assert(a.has_node(id));
                    assert(node_entry_ok(a, id));
                }
            }
            assert forall|id: u64| #[trigger] b.has_edge(id) implies edge_entry_ok(b, id) by {
                assert(a.has_edge(id));
            }
        }
    }

    /// Enters an edge into the indexes, if the edge is there.
    fn enter_edge(&mut self, slot: SlotRef, edge: &StoredEdge)
        requires
            old(self).wf(),
            old(self)@.edges().contains_key(slot),
            old(self)@.edges()[slot] == *edge,
        ensures
            final(self).wf(),
            final(self).store == old(self).store,
            old(self).indexes_full() ==> final(self).indexes_full(),
            !final(self).indexes_full() ==> final(self)@ == entered_edge(old(self)@, slot, *edge),
            old(self).room() > 0 ==> final(self).room() >= old(self).room() - 1,
    {
        if edge.record.edge_id == 0 {
            return;
        }
        let ghost a = self@;
        self.id_allocator.observe(edge.record.edge_id);
        if edge.record.flags & edge_flags::DELETED == 0 {
            broadcast use crate::bytes::be_bytes_len;

            if self.edge_index.has_room() {
                let _r = self.edge_index.insert(&edge_id_key(edge.record.edge_id as u128), slot);
            }
            if self.type_index.has_room() {
                let key = type_index_key(edge.record.type_id as u64, edge.record.edge_id as u128);
                let _r = self.type_index.insert(&key, slot);
            }
        }
        proof {
            let b = self@;
            assert forall|id: u64| #[trigger] b.has_node(id) implies node_entry_ok(b, id) by {
                assert(a.has_node(id));
            }
            assert forall|id: u64| #[trigger] b.has_edge(id) implies edge_entry_ok(b, id) by {
                if id_key(id) == id_key(edge.record.edge_id) {
                    lemma_id_key_injective(id, edge.record.edge_id);
                    if a.has_edge(id) {
                        assert(edge_entry_ok(a, id));
                    }
                } else {
                    assert(a.has_edge(id));
                    assert(edge_entry_ok(a, id));
                }
            }
        }
    }

    /// Enters the records of a node page.
    fn enter_node_page(&mut self, id: PageId)
        requires
            old(self).wf(),
            is_page(old(self)@.pages, id),
            page_at(old(self)@.pages, id).kind == RecordKind::Node,
        ensures
            final(self).wf(),
            final(self)@.pages == old(self)@.pages,
            old(self).indexes_full() ==> final(self).indexes_full(),
            !final(self).indexes_full() ==> final(self)@ == entered_page(old(self)@, id),
            old(self).room() >= 256 ==> final(self).room() >= old(self).room() - 256,
    {
        let ghost start = *self;
        let ghost page = page_at(start@.pages, id);
        proof {
            self.store.lemma_page_count();
        }
        let ns = self.store.nodes_on(id);
        let mut named: bool = false;
        let mut i: usize = 0;
        while i < ns.len()
            invariant
                self.wf(),
                self.store == start.store,
                id <= SlotRef::MAX_PAGE_ID,
                page == page_at(start@.pages, id),
                page.kind == RecordKind::Node,
                ns@ == page_nodes(page),
                ns@.len() <= 256,
                forall|k: int|
                    0 <= k < ns@.len() ==> {
                        let slot = #[trigger] slot_on(id, k);
                        start.store.nodes().contains_key(slot) && start.store.nodes()[slot]
                            == ns@[k]
                    },
                i <= ns@.len(),
                named == exists|j: int| 0 <= j < i && (#[trigger] ns@[j]).node_id != 0,
                start.indexes_full() ==> self.indexes_full(),
                !self.indexes_full() ==> self@ == entered_records(start@, id, i as nat),
                start.room() >= 256 ==> self.room() >= start.room() - i,
            decreases ns@.len() - i,
        {
            let node = ns[i];
            let slot = SlotRef::new(id as u32, i as u8);
            assert(slot == slot_on(id, i as int));
            if node.node_id != 0 {
                named = true;
                assert(ns@[i as int].node_id != 0);
            }
            self.enter_node(slot, &node);
            i += 1;
        }
        let ghost done = self@;
        if named {
            self.store.track_page(id);
            proof {
                lemma_same_entries(done, self@);
            }
        }
    }

    /// Enters the records of an edge page.
    fn enter_edge_page(&mut self, id: PageId)
        requires
            old(self).wf(),
            is_page(old(self)@.pages, id),
            page_at(old(self)@.pages, id).kind == RecordKind::Edge,
        ensures
            final(self).wf(),
            final(self)@.pages == old(self)@.pages,
            old(self).indexes_full() ==> final(self).indexes_full(),
            !final(self).indexes_full() ==> final(self)@ == entered_page(old(self)@, id),
            old(self).room() >= 256 ==> final(self).room() >= old(self).room() - 256,
    {
        let ghost start = *self;
        let ghost page = page_at(start@.pages, id);
        proof {
            self.store.lemma_page_count();
        }
        let es = self.store.edges_on(id);
        let mut named: bool = false;
        let mut i: usize = 0;
        while i < es.len()
            invariant
                self.wf(),
                self.store == start.store,
                id <= SlotRef::MAX_PAGE_ID,
                page == page_at(start@.pages, id),
                page.kind == RecordKind::Edge,
                es@ == page_edges(page),
                es@.len() <= 256,
                forall|k: int|
                    0 <= k < es@.len() ==> {
                        let slot = #[trigger] slot_on(id, k);
                        start.store.edges().contains_key(slot) && start.store.edges()[slot]
                            == es@[k]
                    },
                i <= es@.len(),
                named == exists|j: int| 0 <= j < i && (#[trigger] es@[j]).record.edge_id != 0,
                start.indexes_full() ==> self.indexes_full(),
                !self.indexes_full() ==> self@ == entered_records(start@, id, i as nat),
                start.room() >= 256 ==> self.room() >= start.room() - i,
            decreases es@.len() - i,
        {
            let edge = es[i];
            let slot = SlotRef::new(id as u32, i as u8);
            assert(slot == slot_on(id, i as int));
            if edge.record.edge_id != 0 {
                named = true;
                assert(es@[i as int].record.edge_id != 0);
            }
            self.enter_edge(slot, &edge);
            i += 1;
        }
        let ghost done = self@;
        if named {
            self.store.track_page(id);
            proof {
                lemma_same_entries(done, self@);
            }
        }
    }

    /// Enters the records of all pages into the indexes, and makes sure that no id
    /// of a record is handed out again.
    ///
    /// A record that an index has no room for is left out of it.
    pub fn rebuild_indexes(&mut self) -> (r: Result<(), StorageError>)
        requires
            old(self).wf(),
        ensures
            final(self).wf(),
            r is Ok,
            final(self)@.pages == old(self)@.pages,
            old(self).indexes_full() ==> final(self).indexes_full(),
            !final(self).indexes_full() ==> final(self)@ == rebuild_after(old(self)@),
            old(self).room() >= 256 * old(self)@.pages.len() ==> final(self).room() >= old(self).room()
                - 256 * old(self)@.pages.len(),
    {
        let ghost start = *self;
        let n: usize = self.store.heap().page_count();
        let mut i: usize = 0;
        while i < n
            invariant
                self.wf(),
                n == start@.pages.len(),
                FIRST_DATA_PAGE + n <= SlotRef::MAX_PAGE_ID + 1,
                i <= n,
                self@.pages == start@.pages,
                start.indexes_full() ==> self.indexes_full(),
                !self.indexes_full() ==> self@ == entered_pages(start@, i as nat),
                start.room() >= 256 * n ==> self.room() >= start.room() - 256 * i,
            decreases n - i,
        {
            let id: PageId = FIRST_DATA_PAGE + i as u64;
            let ghost before = self@;
            let kind: RecordKind = match self.store.heap().page(id) {
                Some(page) => page.kind(),
                None => RecordKind::Property,
            };
            match kind {
                RecordKind::Node => self.enter_node_page(id),
                RecordKind::Edge => self.enter_edge_page(id),
                RecordKind::Property => {
                    proof {
                        lemma_property_page(before, id, page_at(before.pages, id).records.len());
                    }
                },
            }
            i += 1;
        }
        Ok(())
    }
}

/// Entering a page of properties changes nothing.
proof fn lemma_property_page(v: EngineView, id: PageId, n: nat)
    requires
        page_at(v.pages, id).kind == RecordKind::Property,
    ensures
        entered_records(v, id, n) == v,
    decreases n,
{
    if n > 0 {
        lemma_property_page(v, id, (n - 1) as nat);
    }
}

// ---------------------------------------------------------------------------
// Page images
// ---------------------------------------------------------------------------

/// The number that stands for a kind of page in an image.
pub open spec fn kind_code(kind: RecordKind) -> u8 {
    match kind {
        RecordKind::Node => 1,
        RecordKind::Edge => 2,
        RecordKind::Property => 3,
    }
}

/// The kind of page that a number stands for.
pub open spec fn kind_of(code: u8) -> Option<RecordKind> {
    if code == 1 {
        Some(RecordKind::Node)
    } else if code == 2 {
        Some(RecordKind::Edge)
    } else if code == 3 {
        Some(RecordKind::Property)
    } else {
        None
    }
}

/// Pages of nodes, of edges and of properties are written down as 1, 2 and 3, and no other
/// number stands for a kind of page.
pub proof fn law_page_kinds(kind: RecordKind, code: u8)
    ensures
        kind == RecordKind::Node ==> kind_code(kind) == 1,
        kind == RecordKind::Edge ==> kind_code(kind) == 2,
        kind == RecordKind::Property ==> kind_code(kind) == 3,
        kind_of(code) == Some(kind) <==> kind_code(kind) == code,
        kind_of(code) is None <==> code == 0 || code > 3,
{
}

/// What is written down of a page.
pub open spec fn image_view(id: PageId, page: PageView) -> ImageView {
    ImageView {
        page_id: id,
        lsn: 0,
        kind: kind_code(page.kind),
        level: 0,
        prev: 0,
        next: 0,
        rightmost: 0,
        key_count: 0,
        records: page.records,
    }
}

/// Has every record of the page the length of its kind?
pub open spec fn page_ok(page: PageView) -> bool {
    forall|i: int|
        0 <= i < page.records.len() ==> cell_ok(
            Cell { kind: page.kind, bytes: #[trigger] page.records[i] },
        )
}

/// A page with nothing on it.
pub open spec fn blank_page() -> PageView {
    PageView { kind: RecordKind::Property, records: Seq::empty() }
}

/// The page of an image; a page with nothing on it where the bytes are no image of
/// a page of records.
pub open spec fn page_of_image(bytes: Seq<u8>) -> PageView {
    match image_of(bytes) {
        Some(image) => {
            match kind_of(image.kind) {
                Some(kind) => {
                    let page = PageView { kind, records: image.records };
                    if page_fits(page) && page_ok(page) {
                        page
                    } else {
                        blank_page()
                    }
                },
                None => blank_page(),
            }
        },
        None => blank_page(),
    }
}

/// An image with one changed byte is read as a page with nothing on it, and so is what is no
/// image of a page of records at all.
pub proof fn law_damaged_page_is_blank(id: PageId, page: PageView, i: int, b: u8)
    requires
        page_fits(page),
        0 <= i < 8192,
        b != image_bytes(image_view(id, page))[i],
    ensures
        page_of_image(image_bytes(image_view(id, page)).update(i, b)).records.len() == 0,
{
    lemma_image_fits(id, page);
    law_damage_is_noticed(image_view(id, page), i, b);
}

/// The page of an image has the records of the image, if they have the lengths of their kind,
/// and none otherwise.
pub proof fn law_page_of_image(bytes: Seq<u8>)
    ensures
        image_of(bytes) is None ==> page_of_image(bytes).records.len() == 0,
        image_of(bytes) matches Some(image) ==> {
            let page = page_of_image(bytes);
            &&& page.records.len() == 0 || page.records == image.records
            &&& page.records.len() > 0 ==> kind_code(page.kind) == image.kind
            &&& page.kind == RecordKind::Node ==> forall|i: int|
                0 <= i < page.records.len() ==> (#[trigger] page.records[i]).len() == 32
            &&& page.kind == RecordKind::Edge ==> forall|i: int|
                0 <= i < page.records.len() ==> (#[trigger] page.records[i]).len() == 64
        },
{
}

/// The views of some images.
pub open spec fn image_views(images: Seq<Vec<u8>>) -> Seq<Seq<u8>> {
    images.map_values(|b: Vec<u8>| b@)
}

/// The pages of some images.
pub open spec fn pages_of_images(images: Seq<Seq<u8>>) -> Seq<PageView> {
    images.map_values(|b: Seq<u8>| page_of_image(b))
}

/// The images of some pages.
pub open spec fn images_of_pages(pages: Seq<PageView>) -> Seq<Seq<u8>> {
    Seq::new(
        pages.len(),
        |i: int| image_bytes(image_view((FIRST_DATA_PAGE + i) as PageId, pages[i])),
    )
}

proof fn lemma_body_len(records: Seq<Seq<u8>>)
    ensures
        body(records).len() <= record_bytes(records),
        forall|i: int|
            0 <= i < records.len() ==> (#[trigger] records[i]).len() <= record_bytes(records),
    decreases records.len(),
{
    broadcast use crate::bytes::le_bytes_len;

    if records.len() > 0 {
        let rest = records.drop_first();
        lemma_body_len(rest);
        assert(records =~= seq![records[0]] + rest);
        lemma_record_bytes_add(seq![records[0]], rest);
        assert(seq![records[0]].drop_last() =~= Seq::empty());
        assert(record_bytes(seq![records[0]]) == records[0].len() + 4) by {
            reveal_with_fuel(record_bytes, 3);
        }
        assert forall|i: int| 0 <= i < records.len() implies (#[trigger] records[i]).len()
            <= record_bytes(records) by {
            if i > 0 {
                assert(rest[i - 1] == records[i]);
            }
        }
    }
}

/// The records of a heap page fit in an image.
proof fn lemma_image_fits(id: PageId, page: PageView)
    requires
        page_fits(page),
    ensures
        image_fits(image_view(id, page)),
{
    lemma_body_len(page.records);
}

/// A page is read back from its image.
pub proof fn law_page_image_roundtrip(id: PageId, page: PageView)
    requires
        page_fits(page),
        page_ok(page),
    ensures
        page_of_image(image_bytes(image_view(id, page))) == page,
{
    lemma_image_fits(id, page);
    law_image_roundtrip(image_view(id, page));
}

/// The page of an image.
fn read_image(bytes: &[u8]) -> (r: SlottedPage)
    ensures
        r.wf(),
        r@ == page_of_image(bytes@),
        page_ok(r@),
{
    let blank = SlottedPage::init(RecordKind::Property);
    let image = match PageImage::decode(bytes) {
        Some(image) => image,
        None => {
            return blank;
        },
    };
    let kind = match image.kind {
        1 => RecordKind::Node,
        2 => RecordKind::Edge,
        3 => RecordKind::Property,
        _ => {
            return blank;
        },
    };
    let mut i: usize = 0;
    let ghost page = PageView { kind, records: record_views(image.records@) };
    while i < image.records.len()
        invariant
            i <= image.records@.len(),
            page == (PageView { kind, records: record_views(image.records@) }),
            image_of(bytes@) == Some(image@),
            kind_of(image@.kind) == Some(kind),
            blank.wf(),
            blank@ == blank_page(),
            forall|k: int|
                0 <= k < i ==> cell_ok(Cell { kind: page.kind, bytes: #[trigger] page.records[k] }),
        decreases image.records@.len() - i,
    {
        let len: usize = image.records[i].len();
        assert(page.records[i as int] == image.records@[i as int]@);
        let ok: bool = match kind {
            RecordKind::Node => len == NodeRecord::SIZE,
            RecordKind::Edge => len == StoredEdge::SIZE,
            RecordKind::Property => true,
        };
        if !ok {
            assert(!cell_ok(Cell { kind: page.kind, bytes: page.records[i as int] }));
            return blank;
        }
        i += 1;
    }
    assert(page_ok(page));
    assert(page_of_image(bytes@) == (if page_fits(page) {
        page
    } else {
        blank_page()
    }));
    match SlottedPage::from_records(kind, image.records) {
        Some(found) => {
            proof {
                found.lemma_fits();
            }
            found
        },
        None => blank,
    }
}

impl GraphStorageEngine {
    /// The images of all pages, in the order of the page ids.
    pub fn page_images(&self) -> (r: Vec<Vec<u8>>)
        requires
            self.wf(),
        ensures
            image_views(r@) == images_of_pages(self@.pages),
    {
        let heap = self.store.heap();
        let n: usize = heap.page_count();
        let mut out: Vec<Vec<u8>> = Vec::new();
        let mut i: usize = 0;
        while i < n
            invariant
                heap.wf(),
                heap@ == self@.pages,
                n == heap@.len(),
                FIRST_DATA_PAGE + n <= SlotRef::MAX_PAGE_ID + 1,
                i <= n,
                image_views(out@) == images_of_pages(self@.pages).take(i as int),
            decreases n - i,
        {
            let id: PageId = FIRST_DATA_PAGE + i as u64;
            let ghost before = out@;
            let ghost image = image_bytes(image_view(id, heap@[i as int]));
            if let Some(page) = heap.page(id) {
                let bytes = write_image(id, page);
                out.push(bytes);
            }
            assert(image_views(out@) =~= image_views(before).push(image));
            assert(images_of_pages(self@.pages).take(i + 1) =~= images_of_pages(
                self@.pages,
            ).take(i as int).push(image));
            i += 1;
        }
        assert(images_of_pages(self@.pages).take(i as int) =~= images_of_pages(self@.pages));
        out
    }

    /// Starts again from the images of pages, in the order of the page ids. An image
    /// that cannot be read stands for a page with nothing on it. A record that an
    /// index has no room for is left out of it.
    pub fn open(images: &Vec<Vec<u8>>) -> (r: Result<Self, StorageError>)
        ensures
            match r {
                Ok(engine) => {
                    &&& FIRST_DATA_PAGE + images@.len() <= SlotRef::MAX_PAGE_ID + 1
                    &&& engine.wf()
                    &&& engine@.pages == pages_of_images(image_views(images@))
                    &&& !engine.indexes_full() ==> engine@ == rebuild_after(
                        fresh_view(pages_of_images(image_views(images@))),
                    )
                    &&& images@.len() < 0x40_0000 ==> !engine.indexes_full() && engine.room()
                        >= 0x4000_0000 - 256 * images@.len()
                },
                Err(e) => {
                    &&& e == StorageError::SlotOverflow
                    &&& FIRST_DATA_PAGE + images@.len() > SlotRef::MAX_PAGE_ID + 1
                },
            },
    {
        let mut heap = Heap::new();
        let ghost pages = pages_of_images(image_views(images@));
        let mut i: usize = 0;
        while i < images.len()
            invariant
                i <= images@.len(),
                heap.wf(),
                pages == pages_of_images(image_views(images@)),
                heap@ == pages.take(i as int),
                FIRST_DATA_PAGE + i <= SlotRef::MAX_PAGE_ID + 1,
                forall|k: int| 0 <= k < i ==> page_ok(#[trigger] heap@[k]),
            decreases images@.len() - i,
        {
            let page = read_image(images[i].as_slice());
            let ghost before = heap@;
            assert(page@ == pages[i as int]) by {
                assert(image_views(images@)[i as int] == images@[i as int]@);
            }
            if !heap.push_page(page) {
                return Err(StorageError::SlotOverflow);
            }
            assert(heap@ =~= pages.take(i + 1));
            i += 1;
        }
        assert(pages.take(i as int) =~= pages);
        proof {
            assert forall|s: SlotRef| #[trigger] cells(heap@).contains_key(s) implies cell_ok(
                cells(heap@)[s],
            ) by {
                assert(is_slot(heap@, s));
                assert(page_ok(heap@[s.spec_page_id() - FIRST_DATA_PAGE]));
                assert(cells(heap@)[s] == cell_at(heap@, s));
            }
        }
        let store = match RecordStore::from_heap(heap) {
            Some(store) => store,
            None => RecordStore::new(),
        };
        let mut engine = GraphStorageEngine::with_store(store);
        assert(engine@ =~= fresh_view(pages));
        let _done = engine.rebuild_indexes();
        proof {
            if images@.len() < 0x40_0000 {
                engine.lemma_room();
            }
        }
        Ok(engine)
    }
}

/// The image of a page.
fn write_image(id: PageId, page: &SlottedPage) -> (r: Vec<u8>)
    requires
        page.wf(),
    ensures
        r@ == image_bytes(image_view(id, page@)),
{
    let n: usize = page.slot_count();
    let mut records: Vec<Vec<u8>> = Vec::new();
    let mut i: usize = 0;
    while i < n
        invariant
            n == page@.records.len(),
            i <= n,
            record_views(records@) == page@.records.take(i as int),
        decreases n - i,
    {
        let ghost before = records@;
        if let Some(bytes) = page.read(i) {
            records.push(slice_to_vec(bytes));
        }
        assert(record_views(records@) =~= record_views(before).push(page@.records[i as int]));
        assert(page@.records.take(i + 1) =~= page@.records.take(i as int).push(
            page@.records[i as int],
        ));
        i += 1;
    }
    assert(page@.records.take(i as int) =~= page@.records);
    proof {
        page.lemma_fits();
        lemma_image_fits(id, page@);
    }
    let code: u8 = match page.kind() {
        RecordKind::Node => 1,
        RecordKind::Edge => 2,
        RecordKind::Property => 3,
    };
    let image = PageImage {
        page_id: id,
        lsn: 0,
        kind: code,
        level: 0,
        prev: 0,
        next: 0,
        rightmost: 0,
        key_count: 0,
        records,
    };
    assert(image@ =~= image_view(id, page@));
    image.encode()
}

// ---------------------------------------------------------------------------
// What a restart keeps
// ---------------------------------------------------------------------------

/// Do these pages make a heap?
pub open spec fn heap_pages(pages: Seq<PageView>) -> bool {
    &&& FIRST_DATA_PAGE + pages.len() <= SlotRef::MAX_PAGE_ID + 1
    &&& forall|i: int| 0 <= i < pages.len() ==> page_fits(#[trigger] pages[i])
}

/// Does the slot come before slot `n` of page `id`?
spec fn is_before(s: SlotRef, id: int, n: int) -> bool {
    s.spec_page_id() < id || (s.spec_page_id() == id && s.spec_slot_index() < n)
}

/// Does the index of nodes hold the nodes that are there in the slots before slot
/// `n` of page `id`, and nothing else?
spec fn nodes_entered(w: EngineView, id: int, n: int) -> bool {
    &&& forall|k: u64| #[trigger]
        w.has_node(k) ==> ({
            let s = w.node_slot(k);
            w.nodes().contains_key(s) && is_before(s, id, n) && w.nodes()[s].node_id == k && k != 0
                && !w.nodes()[s].is_deleted()
        })
    &&& forall|s: SlotRef| #[trigger]
        w.nodes().contains_key(s) && is_before(s, id, n) && w.nodes()[s].node_id != 0
            && !w.nodes()[s].is_deleted() ==> w.has_node(w.nodes()[s].node_id)
}

/// Does the index of edges hold the edges that are there in the slots before slot
/// `n` of page `id`, and nothing else?
spec fn edges_entered(w: EngineView, id: int, n: int) -> bool {
    &&& forall|k: u64| #[trigger]
        w.has_edge(k) ==> ({
            let s = w.edge_slot(k);
            w.edges().contains_key(s) && is_before(s, id, n) && w.edges()[s].record.edge_id == k && k
                != 0 && !w.edges()[s].record.is_deleted()
        })
    &&& forall|s: SlotRef| #[trigger]
        w.edges().contains_key(s) && is_before(s, id, n) && w.edges()[s].record.edge_id != 0
            && !w.edges()[s].record.is_deleted() ==> w.has_edge(w.edges()[s].record.edge_id)
}

/// Does an entry of the index of labels lead to a node that is there before slot `n` of
/// page `id`, with the label and the id of the entry?
spec fn label_entered(w: EngineView, id: int, n: int, label: u64, k: u128) -> bool {
    let s = w.label_index[key_8_16(label, k)];
    &&& w.nodes().contains_key(s)
    &&& is_before(s, id, n)
    &&& w.nodes()[s].node_id == k
    &&& w.nodes()[s].label_id == label
    &&& k != 0
    &&& !w.nodes()[s].is_deleted()
}

/// Does an entry of the index of types lead to an edge that is there before slot `n` of
/// page `id`, with the type and the id of the entry?
spec fn type_entered(w: EngineView, id: int, n: int, type_id: u64, k: u128) -> bool {
    let s = w.type_index[key_8_16(type_id, k)];
    &&& w.edges().contains_key(s)
    &&& is_before(s, id, n)
    &&& w.edges()[s].record.edge_id == k
    &&& w.edges()[s].record.type_id == type_id
    &&& k != 0
    &&& !w.edges()[s].record.is_deleted()
}

/// Do the indexes of labels and types hold the nodes and edges that are there in the
/// slots before slot `n` of page `id`, and nothing else, and are all ids of 8 bytes?
spec fn kinds_entered(w: EngineView, id: int, n: int) -> bool {
    &&& w.ids_agree()
    &&& forall|label: u64, k: u128| #[trigger]
        w.label_index.contains_key(key_8_16(label, k)) ==> label_entered(w, id, n, label, k)
    &&& forall|s: SlotRef| #[trigger]
        w.nodes().contains_key(s) && is_before(s, id, n) && w.nodes()[s].node_id != 0
            && !w.nodes()[s].is_deleted() ==> w.label_index.contains_key(
            key_8_16(w.nodes()[s].label_id as u64, w.nodes()[s].node_id as u128),
        )
    &&& forall|type_id: u64, k: u128| #[trigger]
        w.type_index.contains_key(key_8_16(type_id, k)) ==> type_entered(w, id, n, type_id, k)
    &&& forall|s: SlotRef| #[trigger]
        w.edges().contains_key(s) && is_before(s, id, n) && w.edges()[s].record.edge_id != 0
            && !w.edges()[s].record.is_deleted() ==> w.type_index.contains_key(
            key_8_16(w.edges()[s].record.type_id as u64, w.edges()[s].record.edge_id as u128),
        )
}

/// Are the pages before page `id` with an edge on them in use?
spec fn edge_pages_entered(w: EngineView, id: int) -> bool {
    forall|s: SlotRef| #[trigger]
        w.edges().contains_key(s) && s.spec_page_id() < id && w.edges()[s].record.edge_id != 0
            ==> w.edge_pages.contains(s.spec_page_id() as u64)
}

/// Is no record named by the largest id?
pub open spec fn ids_below_max(v: EngineView) -> bool {
    &&& forall|s: SlotRef| #[trigger]
        v.nodes().contains_key(s) ==> v.nodes()[s].node_id < u64::MAX
    &&& forall|s: SlotRef| #[trigger]
        v.edges().contains_key(s) ==> v.edges()[s].record.edge_id < u64::MAX
}

/// Is the next id behind those of the records before slot `n` of page `id`?
spec fn ids_passed(w: EngineView, id: int, n: int) -> bool {
    &&& forall|s: SlotRef| #[trigger]
        w.nodes().contains_key(s) && is_before(s, id, n) ==> w.nodes()[s].node_id < w.next_id
    &&& forall|s: SlotRef| #[trigger]
        w.edges().contains_key(s) && is_before(s, id, n) ==> w.edges()[s].record.edge_id
            < w.next_id
    &&& w.next_id >= 1
}

/// The slots before the next one are those before this one, and this one.
proof fn lemma_next_slot(id: PageId, n: int)
    requires
        id <= SlotRef::MAX_PAGE_ID,
        0 <= n < 256,
    ensures
        forall|s: SlotRef| #[trigger]
            is_before(s, id as int, n + 1) <==> is_before(s, id as int, n) || s == slot_on(id, n),
{
    lemma_slot_on(id, n);
    assert forall|s: SlotRef| #[trigger]
        is_before(s, id as int, n + 1) <==> is_before(s, id as int, n) || s == slot_on(id, n) by {
        lemma_slot_parts(s);
        lemma_slot_parts(slot_on(id, n));
    }
}

proof fn lemma_records_entered(v: EngineView, id: PageId, n: nat)
    requires
        heap_pages(v.pages),
        is_page(v.pages, id),
        n <= page_at(v.pages, id).records.len(),
        nodes_entered(v, id as int, 0),
        edges_entered(v, id as int, 0),
        kinds_entered(v, id as int, 0),
        ids_below_max(v) ==> ids_passed(v, id as int, 0),
    ensures
        ({
            let w = entered_records(v, id, n);
            &&& nodes_entered(w, id as int, n as int)
            &&& edges_entered(w, id as int, n as int)
            &&& kinds_entered(w, id as int, n as int)
            &&& w.edge_pages == v.edge_pages
            &&& ids_below_max(v) ==> ids_passed(w, id as int, n as int)
        }),
    decreases n,
{
    if n > 0 {
        let m = (n - 1) as nat;
        let a = entered_records(v, id, m);
        let b = entered_records(v, id, n);
        let slot = slot_on(id, m as int);
        let page = page_at(v.pages, id);
        lemma_records_entered(v, id, m);
        lemma_entered_records_pages(v, id, m);
        lemma_entered_records_pages(v, id, n);
        assert(a.nodes() == v.nodes() && a.edges() == v.edges());
        assert(ids_below_max(v) ==> ids_below_max(a));
        assert(page_fits(v.pages[id - FIRST_DATA_PAGE]));
        lemma_next_slot(id, m as int);
        lemma_slot_on(id, m as int);
        assert(is_slot(v.pages, slot));
        assert(cells(v.pages)[slot] == (Cell { kind: page.kind, bytes: page.records[m as int] }));
        match page.kind {
            RecordKind::Node => {
                let node = node_in(page.records[m as int]);
                assert(b.nodes().contains_key(slot) && b.nodes()[slot] == node);
                assert(!b.edges().contains_key(slot));
                assert(b == entered_node(a, slot, node));
                lemma_node_entered(a, b, id as int, m as int, slot, node);
                lemma_node_kind_entered(a, b, id as int, m as int, slot, node);
            },
            RecordKind::Edge => {
                let edge = edge_in(page.records[m as int]);
                assert(b.edges().contains_key(slot) && b.edges()[slot] == edge);
                assert(!b.nodes().contains_key(slot));
                assert(b == entered_edge(a, slot, edge));
                lemma_edge_entered(a, b, id as int, m as int, slot, edge);
                lemma_edge_kind_entered(a, b, id as int, m as int, slot, edge);
            },
            RecordKind::Property => {
                assert(!b.nodes().contains_key(slot));
                assert(!b.edges().contains_key(slot));
                assert(b == a);
                lemma_nothing_entered(a, id as int, m as int, slot);
            },
        }
    }
}

/// A slot with neither a node nor an edge has nothing to be entered.
proof fn lemma_nothing_entered(a: EngineView, id: int, m: int, slot: SlotRef)
    requires
        nodes_entered(a, id, m),
        edges_entered(a, id, m),
        kinds_entered(a, id, m),
        !a.nodes().contains_key(slot),
        !a.edges().contains_key(slot),
        forall|s: SlotRef| #[trigger]
            is_before(s, id, m + 1) <==> is_before(s, id, m) || s == slot,
    ensures
        nodes_entered(a, id, m + 1),
        edges_entered(a, id, m + 1),
        kinds_entered(a, id, m + 1),
        ids_passed(a, id, m) ==> ids_passed(a, id, m + 1),
{
    assert forall|label: u64, k: u128| #[trigger]
        a.label_index.contains_key(key_8_16(label, k)) implies label_entered(
        a,
        id,
        m + 1,
        label,
        k,
    ) by {
        assert(label_entered(a, id, m, label, k));
        assert(is_before(a.label_index[key_8_16(label, k)], id, m + 1));
    }
    assert forall|type_id: u64, k: u128| #[trigger]
        a.type_index.contains_key(key_8_16(type_id, k)) implies type_entered(
        a,
        id,
        m + 1,
        type_id,
        k,
    ) by {
        assert(type_entered(a, id, m, type_id, k));
        assert(is_before(a.type_index[key_8_16(type_id, k)], id, m + 1));
    }
    assert forall|k: u64| #[trigger] a.has_node(k) implies is_before(
        a.node_slot(k),
        id,
        m + 1,
    ) by {}
    assert forall|k: u64| #[trigger] a.has_edge(k) implies is_before(
        a.edge_slot(k),
        id,
        m + 1,
    ) by {}
}

proof fn lemma_node_entered(
    a: EngineView,
    b: EngineView,
    id: int,
    m: int,
    slot: SlotRef,
    node: NodeRecord,
)
    requires
        nodes_entered(a, id, m),
        edges_entered(a, id, m),
        b == entered_node(a, slot, node),
        b.nodes().contains_key(slot),
        b.nodes()[slot] == node,
        !b.edges().contains_key(slot),
        forall|s: SlotRef| #[trigger]
            is_before(s, id, m + 1) <==> is_before(s, id, m) || s == slot,
    ensures
        nodes_entered(b, id, m + 1),
        edges_entered(b, id, m + 1),
        ids_below_max(a) && ids_passed(a, id, m) ==> ids_passed(b, id, m + 1),
{
    assert forall|k: u64| #[trigger] b.has_node(k) implies ({
        let s = b.node_slot(k);
        b.nodes().contains_key(s) && is_before(s, id, m + 1) && b.nodes()[s].node_id == k && k != 0
            && !b.nodes()[s].is_deleted()
    }) by {
        if node.node_id != 0 && !node.is_deleted() && id_key(k) == id_key(node.node_id) {
            lemma_id_key_injective(k, node.node_id);
            assert(is_before(slot, id, m + 1));
        } else {
            assert(a.has_node(k));
            assert(is_before(a.node_slot(k), id, m + 1));
        }
    }
    assert forall|s: SlotRef| #[trigger]
        b.nodes().contains_key(s) && is_before(s, id, m + 1) && b.nodes()[s].node_id != 0
            && !b.nodes()[s].is_deleted() implies b.has_node(b.nodes()[s].node_id) by {
        if s != slot {
            assert(is_before(s, id, m));
            assert(a.nodes().contains_key(s));
            assert(a.has_node(a.nodes()[s].node_id));
        }
    }
    assert forall|k: u64| #[trigger] b.has_edge(k) implies ({
        let s = b.edge_slot(k);
        b.edges().contains_key(s) && is_before(s, id, m + 1) && b.edges()[s].record.edge_id == k && k
            != 0 && !b.edges()[s].record.is_deleted()
    }) by {
        assert(a.has_edge(k));
        assert(is_before(a.edge_slot(k), id, m + 1));
    }
    assert forall|s: SlotRef| #[trigger]
        b.edges().contains_key(s) && is_before(s, id, m + 1) && b.edges()[s].record.edge_id != 0
            && !b.edges()[s].record.is_deleted() implies b.has_edge(
        b.edges()[s].record.edge_id,
    ) by {
        assert(is_before(s, id, m));
        assert(a.edges().contains_key(s));
        assert(a.has_edge(a.edges()[s].record.edge_id));
    }
    if ids_below_max(a) && ids_passed(a, id, m) {
        assert(a.nodes().contains_key(slot));
        assert(b.next_id >= a.next_id && b.next_id > node.node_id);
        assert forall|s: SlotRef| #[trigger]
            b.nodes().contains_key(s) && is_before(s, id, m + 1) implies b.nodes()[s].node_id
            < b.next_id by {
            if s != slot {
                assert(a.nodes().contains_key(s) && is_before(s, id, m));
            }
        }
        assert forall|s: SlotRef| #[trigger]
            b.edges().contains_key(s) && is_before(s, id, m + 1) implies b.edges()[s].record.edge_id
            < b.next_id by {
            assert(a.edges().contains_key(s) && is_before(s, id, m));
        }
    }
}

proof fn lemma_edge_entered(
    a: EngineView,
    b: EngineView,
    id: int,
    m: int,
    slot: SlotRef,
    edge: StoredEdge,
)
    requires
        nodes_entered(a, id, m),
        edges_entered(a, id, m),
        b == entered_edge(a, slot, edge),
        b.edges().contains_key(slot),
        b.edges()[slot] == edge,
        !b.nodes().contains_key(slot),
        forall|s: SlotRef| #[trigger]
            is_before(s, id, m + 1) <==> is_before(s, id, m) || s == slot,
    ensures
        nodes_entered(b, id, m + 1),
        edges_entered(b, id, m + 1),
        ids_below_max(a) && ids_passed(a, id, m) ==> ids_passed(b, id, m + 1),
{
    let eid = edge.record.edge_id;
    assert forall|k: u64| #[trigger] b.has_edge(k) implies ({
        let s = b.edge_slot(k);
        b.edges().contains_key(s) && is_before(s, id, m + 1) && b.edges()[s].record.edge_id == k && k
            != 0 && !b.edges()[s].record.is_deleted()
    }) by {
        if eid != 0 && !edge.record.is_deleted() && id_key(k) == id_key(eid) {
            lemma_id_key_injective(k, eid);
            assert(is_before(slot, id, m + 1));
        } else {
            assert(a.has_edge(k));
            assert(is_before(a.edge_slot(k), id, m + 1));
        }
    }
    assert forall|s: SlotRef| #[trigger]
        b.edges().contains_key(s) && is_before(s, id, m + 1) && b.edges()[s].record.edge_id != 0
            && !b.edges()[s].record.is_deleted() implies b.has_edge(
        b.edges()[s].record.edge_id,
    ) by {
        if s != slot {
            assert(is_before(s, id, m));
            assert(a.edges().contains_key(s));
            assert(a.has_edge(a.edges()[s].record.edge_id));
        }
    }
    assert forall|k: u64| #[trigger] b.has_node(k) implies ({
        let s = b.node_slot(k);
        b.nodes().contains_key(s) && is_before(s, id, m + 1) && b.nodes()[s].node_id == k && k != 0
            && !b.nodes()[s].is_deleted()
    }) by {
        assert(a.has_node(k));
        assert(is_before(a.node_slot(k), id, m + 1));
    }
    assert forall|s: SlotRef| #[trigger]
        b.nodes().contains_key(s) && is_before(s, id, m + 1) && b.nodes()[s].node_id != 0
            && !b.nodes()[s].is_deleted() implies b.has_node(b.nodes()[s].node_id) by {
        assert(is_before(s, id, m));
        assert(a.nodes().contains_key(s));
        assert(a.has_node(a.nodes()[s].node_id));
    }
    if ids_below_max(a) && ids_passed(a, id, m) {
        assert(a.edges().contains_key(slot));
        assert(b.next_id >= a.next_id && b.next_id > eid);
        assert forall|s: SlotRef| #[trigger]
            b.nodes().contains_key(s) && is_before(s, id, m + 1) implies b.nodes()[s].node_id
            < b.next_id by {
            assert(a.nodes().contains_key(s) && is_before(s, id, m));
        }
        assert forall|s: SlotRef| #[trigger]
            b.edges().contains_key(s) && is_before(s, id, m + 1) implies b.edges()[s].record.edge_id
            < b.next_id by {
            if s != slot {
                assert(a.edges().contains_key(s) && is_before(s, id, m));
            }
        }
    }
}

proof fn lemma_node_kind_entered(
    a: EngineView,
    b: EngineView,
    id: int,
    m: int,
    slot: SlotRef,
    node: NodeRecord,
)
    requires
        kinds_entered(a, id, m),
        b == entered_node(a, slot, node),
        b.nodes().contains_key(slot),
        b.nodes()[slot] == node,
        !b.edges().contains_key(slot),
        forall|s: SlotRef| #[trigger]
            is_before(s, id, m + 1) <==> is_before(s, id, m) || s == slot,
    ensures
        kinds_entered(b, id, m + 1),
{
    let n = node.node_id;
    let key = key_8_16(node.label_id as u64, n as u128);
    let there = n != 0 && !node.is_deleted();
    assert(is_before(slot, id, m + 1));
    assert forall|k: u128| #[trigger] b.node_index.contains_key(be_u128(k)) implies k
        <= u64::MAX by {
        if there && be_u128(k) == id_key(n) {
            lemma_pow256_sizes();
            lemma_be_injective(k as nat, n as nat, 16);
        } else {
            assert(a.node_index.contains_key(be_u128(k)));
        }
    }
    assert forall|k: u128| #[trigger] b.edge_index.contains_key(be_u128(k)) implies k
        <= u64::MAX by {
        assert(a.edge_index.contains_key(be_u128(k)));
    }
    assert forall|label: u64, k: u128| #[trigger]
        b.label_index.contains_key(key_8_16(label, k)) implies label_entered(
        b,
        id,
        m + 1,
        label,
        k,
    ) by {
        if there && key_8_16(label, k) == key {
            law_8_16_injective((label, k), (node.label_id as u64, n as u128));
        } else {
            assert(a.label_index.contains_key(key_8_16(label, k)));
            assert(label_entered(a, id, m, label, k));
            assert(is_before(a.label_index[key_8_16(label, k)], id, m + 1));
        }
    }
    assert forall|s: SlotRef| #[trigger]
        b.nodes().contains_key(s) && is_before(s, id, m + 1) && b.nodes()[s].node_id != 0
            && !b.nodes()[s].is_deleted() implies b.label_index.contains_key(
        key_8_16(b.nodes()[s].label_id as u64, b.nodes()[s].node_id as u128),
    ) by {
        if s != slot {
            assert(is_before(s, id, m));
            assert(a.nodes().contains_key(s));
        }
    }
    assert forall|type_id: u64, k: u128| #[trigger]
        b.type_index.contains_key(key_8_16(type_id, k)) implies type_entered(
        b,
        id,
        m + 1,
        type_id,
        k,
    ) by {
        assert(type_entered(a, id, m, type_id, k));
        assert(is_before(a.type_index[key_8_16(type_id, k)], id, m + 1));
    }
    assert forall|s: SlotRef| #[trigger]
        b.edges().contains_key(s) && is_before(s, id, m + 1) && b.edges()[s].record.edge_id != 0
            && !b.edges()[s].record.is_deleted() implies b.type_index.contains_key(
        key_8_16(b.edges()[s].record.type_id as u64, b.edges()[s].record.edge_id as u128),
    ) by {
        assert(is_before(s, id, m));
        assert(a.edges().contains_key(s));
    }
}

proof fn lemma_edge_kind_entered(
    a: EngineView,
    b: EngineView,
    id: int,
    m: int,
    slot: SlotRef,
    edge: StoredEdge,
)
    requires
        kinds_entered(a, id, m),
        b == entered_edge(a, slot, edge),
        b.edges().contains_key(slot),
        b.edges()[slot] == edge,
        !b.nodes().contains_key(slot),
        forall|s: SlotRef| #[trigger]
            is_before(s, id, m + 1) <==> is_before(s, id, m) || s == slot,
    ensures
        kinds_entered(b, id, m + 1),
{
    let n = edge.record.edge_id;
    let key = key_8_16(edge.record.type_id as u64, n as u128);
    let there = n != 0 && !edge.record.is_deleted();
    assert(is_before(slot, id, m + 1));
    assert forall|k: u128| #[trigger] b.edge_index.contains_key(be_u128(k)) implies k
        <= u64::MAX by {
        if there && be_u128(k) == id_key(n) {
            lemma_pow256_sizes();
            lemma_be_injective(k as nat, n as nat, 16);
        } else {
            assert(a.edge_index.contains_key(be_u128(k)));
        }
    }
    assert forall|k: u128| #[trigger] b.node_index.contains_key(be_u128(k)) implies k
        <= u64::MAX by {
        assert(a.node_index.contains_key(be_u128(k)));
    }
    assert forall|type_id: u64, k: u128| #[trigger]
        b.type_index.contains_key(key_8_16(type_id, k)) implies type_entered(
        b,
        id,
        m + 1,
        type_id,
        k,
    ) by {
        if there && key_8_16(type_id, k) == key {
            law_8_16_injective((type_id, k), (edge.record.type_id as u64, n as u128));
        } else {
            assert(a.type_index.contains_key(key_8_16(type_id, k)));
            assert(type_entered(a, id, m, type_id, k));
            assert(is_before(a.type_index[key_8_16(type_id, k)], id, m + 1));
        }
    }
    assert forall|s: SlotRef| #[trigger]
        b.edges().contains_key(s) && is_before(s, id, m + 1) && b.edges()[s].record.edge_id != 0
            && !b.edges()[s].record.is_deleted() implies b.type_index.contains_key(
        key_8_16(b.edges()[s].record.type_id as u64, b.edges()[s].record.edge_id as u128),
    ) by {
        if s != slot {
            assert(is_before(s, id, m));
            assert(a.edges().contains_key(s));
        }
    }
    assert forall|label: u64, k: u128| #[trigger]
        b.label_index.contains_key(key_8_16(label, k)) implies label_entered(
        b,
        id,
        m + 1,
        label,
        k,
    ) by {
        assert(label_entered(a, id, m, label, k));
        assert(is_before(a.label_index[key_8_16(label, k)], id, m + 1));
    }
    assert forall|s: SlotRef| #[trigger]
        b.nodes().contains_key(s) && is_before(s, id, m + 1) && b.nodes()[s].node_id != 0
            && !b.nodes()[s].is_deleted() implies b.label_index.contains_key(
        key_8_16(b.nodes()[s].label_id as u64, b.nodes()[s].node_id as u128),
    ) by {
        assert(is_before(s, id, m));
        assert(a.nodes().contains_key(s));
    }
}

proof fn lemma_pages_entered(pages: Seq<PageView>, n: nat)
    requires
        heap_pages(pages),
        n <= pages.len(),
    ensures
        ({
            let w = entered_pages(fresh_view(pages), n);
            let id = FIRST_DATA_PAGE + n;
            &&& nodes_entered(w, id, 0)
            &&& edges_entered(w, id, 0)
            &&& kinds_entered(w, id, 0)
            &&& edge_pages_entered(w, id)
            &&& ids_below_max(fresh_view(pages)) ==> ids_passed(w, id, 0)
        }),
    decreases n,
{
    let v = fresh_view(pages);
    if n == 0 {
        assert forall|s: SlotRef| is_before(s, FIRST_DATA_PAGE as int, 0) implies !is_slot(
            pages,
            s,
        ) by {}
        assert forall|s: SlotRef| #[trigger] v.nodes().contains_key(s) implies !is_before(
            s,
            FIRST_DATA_PAGE as int,
            0,
        ) by {
            assert(is_slot(pages, s));
        }
        assert forall|s: SlotRef| #[trigger] v.edges().contains_key(s) implies !is_before(
            s,
            FIRST_DATA_PAGE as int,
            0,
        ) by {
            assert(is_slot(pages, s));
        }
    } else {
        let m = (n - 1) as nat;
        let id = (FIRST_DATA_PAGE + m) as PageId;
        lemma_pages_entered(pages, m);
        lemma_entered_pages_pages(v, m);
        let a = entered_pages(v, m);
        let page = page_at(pages, id);
        let w = entered_records(a, id, page.records.len());
        let b = entered_pages(v, n);
        assert(a.nodes() == v.nodes() && a.edges() == v.edges());
        assert(ids_below_max(v) ==> ids_below_max(a));
        lemma_records_entered(a, id, page.records.len());
        lemma_entered_records_pages(a, id, page.records.len());
        assert(b.pages == pages && b.node_index == w.node_index && b.edge_index == w.edge_index
            && b.label_index == w.label_index && b.type_index == w.type_index && b.next_id
            == w.next_id);
        assert forall|s: SlotRef| is_slot(pages, s) implies #[trigger] is_before(s, id + 1, 0)
            == is_before(s, id as int, page.records.len() as int) by {
            lemma_slot_parts(s);
        }
        lemma_page_done(w, b, id as int, page.records.len() as int);
        assert forall|s: SlotRef| #[trigger]
            b.edges().contains_key(s) && s.spec_page_id() < id + 1 && b.edges()[s].record.edge_id
                != 0 implies b.edge_pages.contains(s.spec_page_id() as u64) by {
            assert(is_slot(pages, s));
            if s.spec_page_id() < id {
                assert(a.edges().contains_key(s));
                let i = a.edge_pages.index_of(s.spec_page_id() as u64);
                assert(b.edge_pages[i] == s.spec_page_id() as u64);
            } else {
                let i = s.spec_slot_index() as int;
                assert(page_edges(page)[i] == b.edges()[s]);
                assert(names_edge(page_edges(page)));
                assert(b.edge_pages == with_page_in(a.edge_pages, id));
                if !a.edge_pages.contains(id) {
                    assert(b.edge_pages[a.edge_pages.len() as int] == id);
                }
            }
        }
    }
}

/// What holds up to the end of a page holds up to the start of the next.
proof fn lemma_page_done(w: EngineView, b: EngineView, id: int, n: int)
    requires
        nodes_entered(w, id, n),
        edges_entered(w, id, n),
        kinds_entered(w, id, n),
        b.pages == w.pages,
        b.node_index == w.node_index,
        b.edge_index == w.edge_index,
        b.label_index == w.label_index,
        b.type_index == w.type_index,
        b.next_id == w.next_id,
        forall|s: SlotRef|
            is_slot(w.pages, s) ==> #[trigger] is_before(s, id + 1, 0) == is_before(s, id, n),
    ensures
        nodes_entered(b, id + 1, 0),
        edges_entered(b, id + 1, 0),
        kinds_entered(b, id + 1, 0),
        ids_passed(w, id, n) ==> ids_passed(b, id + 1, 0),
{
    assert forall|label: u64, k: u128| #[trigger]
        b.label_index.contains_key(key_8_16(label, k)) implies label_entered(
        b,
        id + 1,
        0,
        label,
        k,
    ) by {
        assert(label_entered(w, id, n, label, k));
        assert(is_slot(w.pages, w.label_index[key_8_16(label, k)]));
    }
    assert forall|type_id: u64, k: u128| #[trigger]
        b.type_index.contains_key(key_8_16(type_id, k)) implies type_entered(
        b,
        id + 1,
        0,
        type_id,
        k,
    ) by {
        assert(type_entered(w, id, n, type_id, k));
        assert(is_slot(w.pages, w.type_index[key_8_16(type_id, k)]));
    }
    assert forall|k: u64| #[trigger] b.has_node(k) implies ({
        let s = b.node_slot(k);
        b.nodes().contains_key(s) && is_before(s, id + 1, 0) && b.nodes()[s].node_id == k && k != 0
            && !b.nodes()[s].is_deleted()
    }) by {
        assert(w.has_node(k));
        assert(is_slot(w.pages, w.node_slot(k)));
    }
    assert forall|k: u64| #[trigger] b.has_edge(k) implies ({
        let s = b.edge_slot(k);
        b.edges().contains_key(s) && is_before(s, id + 1, 0) && b.edges()[s].record.edge_id == k && k
            != 0 && !b.edges()[s].record.is_deleted()
    }) by {
        assert(w.has_edge(k));
        assert(is_slot(w.pages, w.edge_slot(k)));
    }
    assert forall|s: SlotRef| #[trigger]
        b.nodes().contains_key(s) && is_before(s, id + 1, 0) implies is_before(s, id, n) by {
        assert(is_slot(w.pages, s));
    }
    assert forall|s: SlotRef| #[trigger]
        b.edges().contains_key(s) && is_before(s, id + 1, 0) implies is_before(s, id, n) by {
        assert(is_slot(w.pages, s));
    }
    assert forall|s: SlotRef| #[trigger]
        b.nodes().contains_key(s) && is_before(s, id + 1, 0) && b.nodes()[s].node_id != 0
            && !b.nodes()[s].is_deleted() implies b.has_node(b.nodes()[s].node_id) by {
        assert(w.nodes().contains_key(s) && is_before(s, id, n));
        assert(w.has_node(w.nodes()[s].node_id));
    }
    assert forall|s: SlotRef| #[trigger]
        b.edges().contains_key(s) && is_before(s, id + 1, 0) && b.edges()[s].record.edge_id != 0
            && !b.edges()[s].record.is_deleted() implies b.has_edge(
        b.edges()[s].record.edge_id,
    ) by {
        assert(w.edges().contains_key(s) && is_before(s, id, n));
        assert(w.has_edge(w.edges()[s].record.edge_id));
    }
    assert forall|s: SlotRef| #[trigger]
        b.nodes().contains_key(s) && is_before(s, id + 1, 0) && b.nodes()[s].node_id != 0
            && !b.nodes()[s].is_deleted() implies b.label_index.contains_key(
        key_8_16(b.nodes()[s].label_id as u64, b.nodes()[s].node_id as u128),
    ) by {
        assert(w.nodes().contains_key(s) && is_before(s, id, n));
    }
    assert forall|s: SlotRef| #[trigger]
        b.edges().contains_key(s) && is_before(s, id + 1, 0) && b.edges()[s].record.edge_id != 0
            && !b.edges()[s].record.is_deleted() implies b.type_index.contains_key(
        key_8_16(b.edges()[s].record.type_id as u64, b.edges()[s].record.edge_id as u128),
    ) by {
        assert(w.edges().contains_key(s) && is_before(s, id, n));
    }
    if ids_passed(w, id, n) {
        assert forall|s: SlotRef| #[trigger]
            b.nodes().contains_key(s) && is_before(s, id + 1, 0) implies b.nodes()[s].node_id
            < b.next_id by {
            assert(w.nodes().contains_key(s) && is_before(s, id, n));
        }
        assert forall|s: SlotRef| #[trigger]
            b.edges().contains_key(s) && is_before(s, id + 1, 0) implies b.edges()[s].record.edge_id
            < b.next_id by {
            assert(w.edges().contains_key(s) && is_before(s, id, n));
        }
    }
}

/// All slots come before the page behind the last.
proof fn lemma_all_before(pages: Seq<PageView>, s: SlotRef)
    requires
        is_slot(pages, s),
    ensures
        is_before(s, FIRST_DATA_PAGE + pages.len(), 0),
{
}

/// Is the source of every edge that is there still there?
pub open spec fn sources_there(v: EngineView) -> bool {
    forall|s: SlotRef| #[trigger]
        v.edges().contains_key(s) && !v.edges()[s].record.is_deleted() ==> !v.node(
            v.edges()[s].source_id,
        ).is_deleted()
}

/// A restart from the pages of an engine finds every node and every edge that was
/// there by its id, in the same slot with the same record, and none that was
/// deleted.
pub proof fn law_restart_keeps_graph(v: EngineView, id: u64)
    requires
        heap_pages(v.pages),
        v.indexes_lead(),
        v.all_indexed(),
    ensures
        ({
            let w = rebuild_after(fresh_view(v.pages));
            &&& w.pages == v.pages
            &&& w.has_node(id) == (v.has_node(id) && !v.node(id).is_deleted())
            &&& w.has_node(id) ==> w.node_slot(id) == v.node_slot(id) && w.node(id) == v.node(id)
            &&& w.has_edge(id) == (v.has_edge(id) && !v.edge(id).record.is_deleted())
            &&& w.has_edge(id) ==> w.edge_slot(id) == v.edge_slot(id) && w.edge(id) == v.edge(id)
        }),
{
    let w = rebuild_after(fresh_view(v.pages));
    lemma_pages_entered(v.pages, v.pages.len());
    lemma_entered_pages_pages(fresh_view(v.pages), v.pages.len());
    if w.has_node(id) {
        let s = w.node_slot(id);
        assert(v.nodes().contains_key(s));
        assert(v.node_indexed(s));
    }
    if w.has_edge(id) {
        let s = w.edge_slot(id);
        assert(v.edges().contains_key(s));
        assert(v.edge_indexed(s));
    }
    if v.has_node(id) && !v.node(id).is_deleted() {
        assert(node_entry_ok(v, id));
        let s = v.node_slot(id);
        assert(is_slot(v.pages, s));
        lemma_all_before(v.pages, s);
        assert(w.nodes().contains_key(s));
    }
    if v.has_edge(id) && !v.edge(id).record.is_deleted() {
        assert(edge_entry_ok(v, id));
        let s = v.edge_slot(id);
        assert(is_slot(v.pages, s));
        lemma_all_before(v.pages, s);
        assert(w.edges().contains_key(s));
    }
}

/// After a restart from the pages of an engine the indexes agree with the records, and
/// every node and edge that is there is found. The lists are whole if they were. Edges
/// that led to their sources agree with every node, and lead there still unless a source
/// was deleted.
pub proof fn law_restart_agrees(v: EngineView)
    requires
        heap_pages(v.pages),
        v.indexes_lead(),
        v.all_indexed(),
    ensures
        ({
            let w = rebuild_after(fresh_view(v.pages));
            &&& w.indexes_lead()
            &&& w.indexes_agree()
            &&& w.all_indexed()
            &&& v.lists_whole() ==> w.lists_whole()
            &&& v.sources_lead() ==> forall|id: u64| #[trigger]
                w.has_node(id) ==> sources_agree(w, id)
            &&& v.sources_lead() && sources_there(v) ==> w.sources_lead()
        }),
{
    let w = rebuild_after(fresh_view(v.pages));
    let end = FIRST_DATA_PAGE + v.pages.len();
    lemma_pages_entered(v.pages, v.pages.len());
    lemma_entered_pages_pages(fresh_view(v.pages), v.pages.len());
    assert(w.nodes() == v.nodes() && w.edges() == v.edges());
    assert forall|id: u64| #[trigger] w.has_node(id) implies node_entry_ok(w, id) by {}
    assert forall|id: u64| #[trigger] w.has_edge(id) implies edge_entry_ok(w, id) by {}
    assert forall|s: SlotRef| #[trigger] w.nodes().contains_key(s) implies w.node_indexed(s) by {
        let node = w.nodes()[s];
        if node.node_id != 0 && !node.is_deleted() {
            assert(is_slot(v.pages, s));
            lemma_all_before(v.pages, s);
            assert(v.node_indexed(s));
            law_restart_keeps_graph(v, node.node_id);
        }
    }
    assert forall|s: SlotRef| #[trigger] w.edges().contains_key(s) implies w.edge_indexed(s) by {
        let edge = w.edges()[s];
        if edge.record.edge_id != 0 && !edge.record.is_deleted() {
            assert(is_slot(v.pages, s));
            lemma_all_before(v.pages, s);
            assert(v.edge_indexed(s));
            law_restart_keeps_graph(v, edge.record.edge_id);
        }
    }
    assert forall|label: u64, id: u128| #[trigger]
        w.label_index.contains_key(key_8_16(label, id)) implies label_entry_ok(w, label, id) by {
        assert(label_entered(w, end, 0, label, id));
        let s = w.label_index[key_8_16(label, id)];
        assert(w.node_indexed(s));
    }
    assert forall|id: u64| #[trigger]
        w.has_node(id) && !w.node(id).is_deleted() implies w.label_index.contains_key(
        key_8_16(w.node(id).label_id as u64, id as u128),
    ) by {
        assert(node_entry_ok(w, id));
        assert(w.nodes().contains_key(w.node_slot(id)));
    }
    assert forall|type_id: u64, id: u128| #[trigger]
        w.type_index.contains_key(key_8_16(type_id, id)) implies type_entry_ok(
        w,
        type_id,
        id,
    ) by {
        assert(type_entered(w, end, 0, type_id, id));
        let s = w.type_index[key_8_16(type_id, id)];
        assert(w.edge_indexed(s));
    }
    assert forall|id: u64| #[trigger]
        w.has_edge(id) && !w.edge(id).record.is_deleted() implies w.type_index.contains_key(
        key_8_16(w.edge(id).record.type_id as u64, id as u128),
    ) by {
        assert(edge_entry_ok(w, id));
        assert(w.edges().contains_key(w.edge_slot(id)));
    }
    if v.sources_lead() {
        assert forall|id: u64| #[trigger] w.has_node(id) implies sources_agree(w, id) by {
            law_restart_keeps_graph(v, id);
            law_sources_agree(v, id);
            assert forall|s: SlotRef| #[trigger]
                w.edges().contains_key(s)
                    && !w.edges()[s].record.is_deleted() implies w.edge_pages.contains(
                s.spec_page_id() as u64,
            ) by {
                assert(v.edges().contains_key(s));
                assert(is_slot(v.pages, s));
            }
        }
    }
    if v.sources_lead() && sources_there(v) {
        assert forall|s: SlotRef| #[trigger]
            w.edges().contains_key(s) && !w.edges()[s].record.is_deleted() implies {
            let edge = w.edges()[s];
            &&& edge.record.edge_id != 0
            &&& w.edge_pages.contains(s.spec_page_id() as u64)
            &&& w.is_source(edge)
        } by {
            assert(v.edges().contains_key(s));
            assert(is_slot(v.pages, s));
            law_restart_keeps_graph(v, v.edges()[s].source_id);
        }
    }
}

/// After a restart the ids of all records, deleted or not, lie behind: none of them
/// is handed out again. An id that no other can follow does not count.
pub proof fn law_restart_passes_ids(pages: Seq<PageView>, slot: SlotRef)
    requires
        heap_pages(pages),
        ids_below_max(fresh_view(pages)),
    ensures
        ({
            let w = rebuild_after(fresh_view(pages));
            &&& w.nodes().contains_key(slot) ==> w.nodes()[slot].node_id < w.next_id
            &&& w.edges().contains_key(slot) ==> w.edges()[slot].record.edge_id < w.next_id
        }),
{
    let w = rebuild_after(fresh_view(pages));
    lemma_pages_entered(pages, pages.len());
    lemma_entered_pages_pages(fresh_view(pages), pages.len());
    if w.nodes().contains_key(slot) || w.edges().contains_key(slot) {
        assert(is_slot(pages, slot));
        lemma_all_before(pages, slot);
    }
}

/// The pages of an engine are read back from their images.
pub proof fn law_pages_survive(pages: Seq<PageView>)
    requires
        heap_pages(pages),
        forall|i: int| 0 <= i < pages.len() ==> page_ok(#[trigger] pages[i]),
    ensures
        pages_of_images(images_of_pages(pages)) == pages,
{
    assert forall|i: int| 0 <= i < pages.len() implies pages_of_images(
        images_of_pages(pages),
    )[i] == pages[i] by {
        law_page_image_roundtrip((FIRST_DATA_PAGE + i) as PageId, pages[i]);
    }
    assert(pages_of_images(images_of_pages(pages)) =~= pages);
}

} // verus!
