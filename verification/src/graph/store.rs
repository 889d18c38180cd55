//! Graph records on heap pages.
//!
//! Nodes, edges and properties stand on pages of their own. The store keeps, for
//! each kind, the pages that new records go to, the most recent one last.

use vstd::prelude::*;
use vstd::slice::slice_to_vec;

use crate::graph::record::law_node_record_roundtrip;
use crate::graph::record::NodeRecord;
use crate::graph::record::SlotRef;
use crate::graph::stored::law_stored_edge_roundtrip;
use crate::graph::stored::StoredEdge;
use crate::storage::error::StorageError;
use crate::storage::heap::cell_at;
use crate::storage::heap::cells;
use crate::storage::heap::insert_outcome;
use crate::storage::heap::is_page;
use crate::storage::heap::is_slot;
use crate::storage::heap::last_with_room;
use crate::storage::heap::lemma_last_with_room;
use crate::storage::heap::lemma_slot_on;
use crate::storage::heap::lemma_with_cell;
use crate::storage::heap::lemma_with_page;
use crate::storage::heap::lemma_with_record;
use crate::storage::heap::page_at;
use crate::storage::heap::page_fits;
use crate::storage::heap::pages_of;
use crate::storage::heap::slot_on;
use crate::storage::heap::with_cell;
use crate::storage::heap::Cell;
use crate::storage::heap::FIRST_DATA_PAGE;
use crate::storage::heap::Heap;
use crate::storage::heap::PageView;
use crate::storage::heap::RecordKind;
use crate::storage::page::PageId;

verus! {

/// The node record with these bytes.
pub open spec fn node_in(bytes: Seq<u8>) -> NodeRecord {
    choose|r: NodeRecord| #[trigger] r.spec_bytes() == bytes
}

/// The edge with these bytes.
pub open spec fn edge_in(bytes: Seq<u8>) -> StoredEdge {
    choose|e: StoredEdge| #[trigger] e.spec_bytes() == bytes
}

/// The node records by their slots.
pub open spec fn nodes_of(m: Map<SlotRef, Cell>) -> Map<SlotRef, NodeRecord> {
    Map::new(
        |s: SlotRef| m.contains_key(s) && m[s].kind == RecordKind::Node,
        |s: SlotRef| node_in(m[s].bytes),
    )
}

/// The edges by their slots.
pub open spec fn edges_of(m: Map<SlotRef, Cell>) -> Map<SlotRef, StoredEdge> {
    Map::new(
        |s: SlotRef| m.contains_key(s) && m[s].kind == RecordKind::Edge,
        |s: SlotRef| edge_in(m[s].bytes),
    )
}

/// The bytes of the properties by their slots.
pub open spec fn properties_of(m: Map<SlotRef, Cell>) -> Map<SlotRef, Seq<u8>> {
    Map::new(
        |s: SlotRef| m.contains_key(s) && m[s].kind == RecordKind::Property,
        |s: SlotRef| m[s].bytes,
    )
}

/// Has the record the length of its kind?
pub open spec fn cell_ok(c: Cell) -> bool {
    match c.kind {
        RecordKind::Node => c.bytes.len() == NodeRecord::SIZE,
        RecordKind::Edge => c.bytes.len() == StoredEdge::SIZE,
        RecordKind::Property => true,
    }
}

/// Has every record the length of its kind?
pub open spec fn cells_ok(m: Map<SlotRef, Cell>) -> bool {
    forall|s: SlotRef| #[trigger] m.contains_key(s) ==> cell_ok(m[s])
}

/// The node records of a page.
pub open spec fn page_nodes(page: PageView) -> Seq<NodeRecord> {
    page.records.map_values(|b: Seq<u8>| node_in(b))
}

/// The edges of a page.
pub open spec fn page_edges(page: PageView) -> Seq<StoredEdge> {
    page.records.map_values(|b: Seq<u8>| edge_in(b))
}

/// The node records of some pages, page by page.
pub open spec fn listed_nodes(pages: Seq<PageView>, list: Seq<PageId>) -> Seq<NodeRecord>
    decreases list.len(),
{
    if list.len() == 0 {
        Seq::empty()
    } else {
        listed_nodes(pages, list.drop_last()) + page_nodes(page_at(pages, list.last()))
    }
}

/// The edges of some pages, page by page.
pub open spec fn listed_edges(pages: Seq<PageView>, list: Seq<PageId>) -> Seq<StoredEdge>
    decreases list.len(),
{
    if list.len() == 0 {
        Seq::empty()
    } else {
        listed_edges(pages, list.drop_last()) + page_edges(page_at(pages, list.last()))
    }
}

pub proof fn lemma_node_in(r: NodeRecord)
    ensures
        node_in(r.spec_bytes()) == r,
{
    law_node_record_roundtrip(node_in(r.spec_bytes()), r);
}

pub proof fn lemma_edge_in(e: StoredEdge)
    ensures
        edge_in(e.spec_bytes()) == e,
{
    law_stored_edge_roundtrip(edge_in(e.spec_bytes()), e);
}

/// The list with a page in it.
pub open spec fn with_page_in(list: Seq<PageId>, id: PageId) -> Seq<PageId> {
    if list.contains(id) {
        list
    } else {
        list.push(id)
    }
}

/// Is the page in the list?
pub fn has_page(list: &Vec<PageId>, id: PageId) -> (r: bool)
    ensures
        r == list@.contains(id),
{
    let mut i: usize = 0;
    while i < list.len()
        invariant
            i <= list@.len(),
            forall|j: int| 0 <= j < i ==> list@[j] != id,
        decreases list@.len() - i,
    {
        if list[i] == id {
            assert(list@[i as int] == id);
            return true;
        }
        i += 1;
    }
    false
}

/// Puts a page in the list, unless it is there.
fn track(list: &mut Vec<PageId>, id: PageId)
    ensures
        final(list)@ == with_page_in(old(list)@, id),
        old(list)@.no_duplicates() ==> final(list)@.no_duplicates(),
{
    if !has_page(list, id) {
        list.push(id);
    }
}

/// Node pages, edge pages and property pages.
pub struct RecordStore {
    heap: Heap,
    node_pages: Vec<PageId>,
    edge_pages: Vec<PageId>,
    property_pages: Vec<PageId>,
}

impl RecordStore {
    /// The heap pages.
    pub closed spec fn pages(&self) -> Seq<PageView> {
        self.heap@
    }

    /// The pages that new nodes go to.
    pub closed spec fn spec_node_pages(&self) -> Seq<PageId> {
        self.node_pages@
    }

    /// The pages that new edges go to.
    pub closed spec fn spec_edge_pages(&self) -> Seq<PageId> {
        self.edge_pages@
    }

    /// The pages that new properties go to.
    pub closed spec fn spec_property_pages(&self) -> Seq<PageId> {
        self.property_pages@
    }

    /// The node records by their slots.
    pub open spec fn nodes(&self) -> Map<SlotRef, NodeRecord> {
        nodes_of(cells(self.pages()))
    }

    /// The edges by their slots.
    pub open spec fn edges(&self) -> Map<SlotRef, StoredEdge> {
        edges_of(cells(self.pages()))
    }

    /// The bytes of the properties by their slots.
    pub open spec fn properties(&self) -> Map<SlotRef, Seq<u8>> {
        properties_of(cells(self.pages()))
    }

    /// Are the heap pages well-formed?
    pub closed spec fn heap_ok(&self) -> bool {
        self.heap.wf()
    }

    pub open spec fn wf(&self) -> bool {
        &&& self.heap_ok()
        &&& cells_ok(cells(self.pages()))
        &&& pages_of(self.pages(), self.spec_node_pages(), RecordKind::Node)
        &&& pages_of(self.pages(), self.spec_edge_pages(), RecordKind::Edge)
        &&& pages_of(self.pages(), self.spec_property_pages(), RecordKind::Property)
    }

    /// There are no more pages than slots can name.
    pub proof fn lemma_page_count(&self)
        requires
            self.wf(),
        ensures
            FIRST_DATA_PAGE + self.pages().len() <= SlotRef::MAX_PAGE_ID + 1,
            forall|i: int| 0 <= i < self.pages().len() ==> page_fits(#[trigger] self.pages()[i]),
    {
        self.heap.lemma_pages_fit();
    }

    /// An empty store.
    pub fn new() -> (r: Self)
        ensures
            r.wf(),
            r.pages() == Seq::<PageView>::empty(),
            r.spec_node_pages() == Seq::<PageId>::empty(),
            r.spec_edge_pages() == Seq::<PageId>::empty(),
            r.spec_property_pages() == Seq::<PageId>::empty(),
    {
        RecordStore {
            heap: Heap::new(),
            node_pages: Vec::new(),
            edge_pages: Vec::new(),
            property_pages: Vec::new(),
        }
    }

    /// A store over these pages, with no page for new records yet.
    pub fn from_heap(heap: Heap) -> (r: Option<Self>)
        requires
            heap.wf(),
        ensures
            match r {
                Some(store) => store.wf() && store.pages() == heap@ && store.spec_node_pages()
                    == Seq::<PageId>::empty() && store.spec_edge_pages() == Seq::<PageId>::empty()
                    && store.spec_property_pages() == Seq::<PageId>::empty(),
                None => !cells_ok(cells(heap@)),
            },
    {
        if !all_lengths_ok(&heap) {
            return None;
        }
        Some(
            RecordStore {
                heap,
                node_pages: Vec::new(),
                edge_pages: Vec::new(),
                property_pages: Vec::new(),
            },
        )
    }

    /// The heap pages.
    pub fn heap(&self) -> (r: &Heap)
        requires
            self.wf(),
        ensures
            r.wf(),
            r@ == self.pages(),
    {
        &self.heap
    }

    /// The pages that new nodes go to.
    pub fn node_pages(&self) -> (r: &Vec<PageId>)
        ensures
            r@ == self.spec_node_pages(),
    {
        &self.node_pages
    }

    /// The pages that new edges go to.
    pub fn edge_pages(&self) -> (r: &Vec<PageId>)
        ensures
            r@ == self.spec_edge_pages(),
    {
        &self.edge_pages
    }

    /// The pages that new properties go to.
    pub fn property_pages(&self) -> (r: &Vec<PageId>)
        ensures
            r@ == self.spec_property_pages(),
    {
        &self.property_pages
    }

    /// Sets the pages that new nodes and edges go to.
    pub fn set_pages(&mut self, node_pages: Vec<PageId>, edge_pages: Vec<PageId>)
        requires
            old(self).wf(),
            pages_of(old(self).pages(), node_pages@, RecordKind::Node),
            pages_of(old(self).pages(), edge_pages@, RecordKind::Edge),
        ensures
            final(self).wf(),
            final(self).pages() == old(self).pages(),
            final(self).spec_node_pages() == node_pages@,
            final(self).spec_edge_pages() == edge_pages@,
            final(self).spec_property_pages() == old(self).spec_property_pages(),
    {
        self.node_pages = node_pages;
        self.edge_pages = edge_pages;
    }

    /// Makes a page one that new records of its kind go to, unless it is one.
    pub fn track_page(&mut self, id: PageId)
        requires
            old(self).wf(),
            is_page(old(self).pages(), id),
        ensures
            final(self).wf(),
            final(self).pages() == old(self).pages(),
            ({
                let kind = page_at(old(self).pages(), id).kind;
                &&& final(self).spec_node_pages() == (if kind == RecordKind::Node {
                    with_page_in(old(self).spec_node_pages(), id)
                } else {
                    old(self).spec_node_pages()
                })
                &&& final(self).spec_edge_pages() == (if kind == RecordKind::Edge {
                    with_page_in(old(self).spec_edge_pages(), id)
                } else {
                    old(self).spec_edge_pages()
                })
                &&& final(self).spec_property_pages() == (if kind == RecordKind::Property {
                    with_page_in(old(self).spec_property_pages(), id)
                } else {
                    old(self).spec_property_pages()
                })
            }),
    {
        let kind: RecordKind = match self.heap.page(id) {
            Some(page) => page.kind(),
            None => RecordKind::Property,
        };
        match kind {
            RecordKind::Node => track(&mut self.node_pages, id),
            RecordKind::Edge => track(&mut self.edge_pages, id),
            RecordKind::Property => track(&mut self.property_pages, id),
        }
    }

    /// The node record in a slot.
    pub fn node(&self, slot: SlotRef) -> (r: Option<NodeRecord>)
        requires
            self.wf(),
        ensures
            match r {
                Some(rec) => self.nodes().contains_key(slot) && rec == self.nodes()[slot],
                None => !self.nodes().contains_key(slot),
            },
    {
        match self.heap.read(slot) {
            Some((kind, bytes)) => {
                assert(cells(self.pages()).contains_key(slot));
                if kind != RecordKind::Node {
                    return None;
                }
                let rec = NodeRecord::decode(bytes);
                proof {
                    assert(cells(self.pages())[slot] == (Cell { kind, bytes: bytes@ }));
                    assert(cell_ok(cells(self.pages())[slot]));
                    lemma_node_in(rec->0);
                }
                rec
            },
            None => None,
        }
    }

    /// The edge in a slot.
    pub fn edge(&self, slot: SlotRef) -> (r: Option<StoredEdge>)
        requires
            self.wf(),
        ensures
            match r {
                Some(e) => self.edges().contains_key(slot) && e == self.edges()[slot],
                None => !self.edges().contains_key(slot),
            },
    {
        match self.heap.read(slot) {
            Some((kind, bytes)) => {
                assert(cells(self.pages()).contains_key(slot));
                if kind != RecordKind::Edge {
                    return None;
                }
                let e = StoredEdge::decode(bytes);
                proof {
                    assert(cells(self.pages())[slot] == (Cell { kind, bytes: bytes@ }));
                    assert(cell_ok(cells(self.pages())[slot]));
                    lemma_edge_in(e->0);
                }
                e
            },
            None => None,
        }
    }

    /// The bytes of the property in a slot.
    pub fn property(&self, slot: SlotRef) -> (r: Option<Vec<u8>>)
        requires
            self.wf(),
        ensures
            match r {
                Some(bytes) => self.properties().contains_key(slot) && bytes@
                    == self.properties()[slot],
                None => !self.properties().contains_key(slot),
            },
    {
        match self.heap.read(slot) {
            Some((kind, bytes)) => {
                assert(cells(self.pages()).contains_key(slot));
                assert(cells(self.pages())[slot] == (Cell { kind, bytes: bytes@ }));
                if kind != RecordKind::Property {
                    return None;
                }
                Some(slice_to_vec(bytes))
            },
            None => None,
        }
    }

    /// Puts a node record on a page.
    pub fn add_node(&mut self, node: &NodeRecord) -> (r: Result<SlotRef, StorageError>)
        requires
            old(self).wf(),
        ensures
            final(self).wf(),
            insert_outcome(
                old(self).pages(),
                RecordKind::Node,
                node.spec_bytes(),
                old(self).spec_node_pages(),
            ) == (r, final(self).pages(), final(self).spec_node_pages()),
            final(self).spec_edge_pages() == old(self).spec_edge_pages(),
            final(self).spec_property_pages() == old(self).spec_property_pages(),
            match r {
                Ok(slot) => {
                    &&& !slot.spec_is_null()
                    &&& !cells(old(self).pages()).contains_key(slot)
                    &&& final(self).nodes() == old(self).nodes().insert(slot, *node)
                    &&& final(self).edges() == old(self).edges()
                    &&& final(self).properties() == old(self).properties()
                },
                Err(e) => e == StorageError::SlotOverflow,
            },
    {
        let mut buf: Vec<u8> = vec![0; 32];
        node.encode(buf.as_mut_slice());
        proof {
            lemma_node_len(*node);
            self.heap.lemma_pages_fit();
            lemma_insert_cells(
                self.pages(),
                RecordKind::Node,
                node.spec_bytes(),
                self.node_pages@,
            );
            lemma_node_in(*node);
        }
        let ghost before = cells(self.pages());
        let r = self.heap.insert(RecordKind::Node, buf.as_slice(), &mut self.node_pages);
        proof {
            if r is Ok {
                lemma_lists_kept(
                    old(self).pages(),
                    RecordKind::Node,
                    node.spec_bytes(),
                    old(self).spec_node_pages(),
                    self.edge_pages@,
                    RecordKind::Edge,
                );
                lemma_lists_kept(
                    old(self).pages(),
                    RecordKind::Node,
                    node.spec_bytes(),
                    old(self).spec_node_pages(),
                    self.property_pages@,
                    RecordKind::Property,
                );
                assert(self.nodes() =~= old(self).nodes().insert(r->Ok_0, *node));
                assert(self.edges() =~= old(self).edges());
                assert(self.properties() =~= old(self).properties());
            }
        }
        r
    }

    /// Puts an edge on a page.
    pub fn add_edge(&mut self, edge: &StoredEdge) -> (r: Result<SlotRef, StorageError>)
        requires
            old(self).wf(),
        ensures
            final(self).wf(),
            insert_outcome(
                old(self).pages(),
                RecordKind::Edge,
                edge.spec_bytes(),
                old(self).spec_edge_pages(),
            ) == (r, final(self).pages(), final(self).spec_edge_pages()),
            final(self).spec_node_pages() == old(self).spec_node_pages(),
            final(self).spec_property_pages() == old(self).spec_property_pages(),
            match r {
                Ok(slot) => {
                    &&& !slot.spec_is_null()
                    &&& !cells(old(self).pages()).contains_key(slot)
                    &&& final(self).nodes() == old(self).nodes()
                    &&& final(self).edges() == old(self).edges().insert(slot, *edge)
                    &&& final(self).properties() == old(self).properties()
                },
                Err(e) => e == StorageError::SlotOverflow,
            },
    {
        let buf = edge.encode();
        proof {
            self.heap.lemma_pages_fit();
            lemma_insert_cells(
                self.pages(),
                RecordKind::Edge,
                edge.spec_bytes(),
                self.edge_pages@,
            );
            lemma_edge_in(*edge);
        }
        let r = self.heap.insert(RecordKind::Edge, buf.as_slice(), &mut self.edge_pages);
        proof {
            if r is Ok {
                lemma_lists_kept(
                    old(self).pages(),
                    RecordKind::Edge,
                    edge.spec_bytes(),
                    old(self).spec_edge_pages(),
                    self.node_pages@,
                    RecordKind::Node,
                );
                lemma_lists_kept(
                    old(self).pages(),
                    RecordKind::Edge,
                    edge.spec_bytes(),
                    old(self).spec_edge_pages(),
                    self.property_pages@,
                    RecordKind::Property,
                );
                assert(self.nodes() =~= old(self).nodes());
                assert(self.edges() =~= old(self).edges().insert(r->Ok_0, *edge));
                assert(self.properties() =~= old(self).properties());
            }
        }
        r
    }

    /// Puts the bytes of a property on a page.
    pub fn add_property(&mut self, bytes: &[u8]) -> (r: Result<SlotRef, StorageError>)
        requires
            old(self).wf(),
        ensures
            final(self).wf(),
            insert_outcome(
                old(self).pages(),
                RecordKind::Property,
                bytes@,
                old(self).spec_property_pages(),
            ) == (r, final(self).pages(), final(self).spec_property_pages()),
            final(self).spec_node_pages() == old(self).spec_node_pages(),
            final(self).spec_edge_pages() == old(self).spec_edge_pages(),
            match r {
                Ok(slot) => {
                    &&& !slot.spec_is_null()
                    &&& !cells(old(self).pages()).contains_key(slot)
                    &&& final(self).nodes() == old(self).nodes()
                    &&& final(self).edges() == old(self).edges()
                    &&& final(self).properties() == old(self).properties().insert(slot, bytes@)
                },
                Err(e) => e == StorageError::SlotOverflow || e == StorageError::PageFull,
            },
    {
        proof {
            self.heap.lemma_pages_fit();
            lemma_insert_cells(self.pages(), RecordKind::Property, bytes@, self.property_pages@);
        }
        let r = self.heap.insert(RecordKind::Property, bytes, &mut self.property_pages);
        proof {
            if r is Ok {
                lemma_lists_kept(
                    old(self).pages(),
                    RecordKind::Property,
                    bytes@,
                    old(self).spec_property_pages(),
                    self.node_pages@,
                    RecordKind::Node,
                );
                lemma_lists_kept(
                    old(self).pages(),
                    RecordKind::Property,
                    bytes@,
                    old(self).spec_property_pages(),
                    self.edge_pages@,
                    RecordKind::Edge,
                );
                assert(self.nodes() =~= old(self).nodes());
                assert(self.edges() =~= old(self).edges());
                assert(self.properties() =~= old(self).properties().insert(r->Ok_0, bytes@));
            }
        }
        r
    }

    /// Replaces the node record in a slot.
    pub fn set_node(&mut self, slot: SlotRef, node: &NodeRecord)
        requires
            old(self).wf(),
            old(self).nodes().contains_key(slot),
        ensures
            final(self).wf(),
            final(self).pages() == with_cell(old(self).pages(), slot, node.spec_bytes()),
            final(self).spec_node_pages() == old(self).spec_node_pages(),
            final(self).spec_edge_pages() == old(self).spec_edge_pages(),
            final(self).spec_property_pages() == old(self).spec_property_pages(),
            final(self).nodes() == old(self).nodes().insert(slot, *node),
            final(self).edges() == old(self).edges(),
            final(self).properties() == old(self).properties(),
    {
        let mut buf: Vec<u8> = vec![0; 32];
        node.encode(buf.as_mut_slice());
        proof {
            assert(cell_ok(cells(self.pages())[slot]));
            lemma_node_len(*node);
            lemma_with_cell(self.pages(), slot, node.spec_bytes());
            lemma_node_in(*node);
        }
        self.heap.overwrite(slot, buf.as_slice());
        proof {
            assert(self.nodes() =~= old(self).nodes().insert(slot, *node));
            assert(self.edges() =~= old(self).edges());
            assert(self.properties() =~= old(self).properties());
        }
    }

    /// Replaces the edge in a slot.
    pub fn set_edge(&mut self, slot: SlotRef, edge: &StoredEdge)
        requires
            old(self).wf(),
            old(self).edges().contains_key(slot),
        ensures
            final(self).wf(),
            final(self).pages() == with_cell(old(self).pages(), slot, edge.spec_bytes()),
            final(self).spec_node_pages() == old(self).spec_node_pages(),
            final(self).spec_edge_pages() == old(self).spec_edge_pages(),
            final(self).spec_property_pages() == old(self).spec_property_pages(),
            final(self).nodes() == old(self).nodes(),
            final(self).edges() == old(self).edges().insert(slot, *edge),
            final(self).properties() == old(self).properties(),
    {
        let buf = edge.encode();
        proof {
            assert(cell_ok(cells(self.pages())[slot]));
            lemma_with_cell(self.pages(), slot, edge.spec_bytes());
            lemma_edge_in(*edge);
        }
        self.heap.overwrite(slot, buf.as_slice());
        proof {
            assert(self.nodes() =~= old(self).nodes());
            assert(self.edges() =~= old(self).edges().insert(slot, *edge));
            assert(self.properties() =~= old(self).properties());
        }
    }

    /// The node records of a page.
    pub fn nodes_on(&self, id: PageId) -> (r: Vec<NodeRecord>)
        requires
            self.wf(),
            is_page(self.pages(), id),
            page_at(self.pages(), id).kind == RecordKind::Node,
        ensures
            r@ == page_nodes(page_at(self.pages(), id)),
            r@.len() <= 256,
            forall|i: int|
                0 <= i < r@.len() ==> {
                    let slot = #[trigger] slot_on(id, i);
                    self.nodes().contains_key(slot) && self.nodes()[slot] == r@[i]
                },
    {
        let mut out: Vec<NodeRecord> = Vec::new();
        let ghost page = page_at(self.pages(), id);
        proof {
            self.heap.lemma_pages_fit();
            assert(page_fits(self.pages()[id - FIRST_DATA_PAGE]));
        }
        let mut i: usize = 0;
        let n: usize = match self.heap.page(id) {
            Some(p) => p.slot_count(),
            None => 0,
        };
        while i < n
            invariant
                self.wf(),
                is_page(self.pages(), id),
                id <= SlotRef::MAX_PAGE_ID,
                page == page_at(self.pages(), id),
                page.kind == RecordKind::Node,
                n == page.records.len(),
                n <= 256,
                i <= n,
                out@.len() == i,
                forall|j: int|
                    0 <= j < i ==> {
                        let slot = #[trigger] slot_on(id, j);
                        self.nodes().contains_key(slot) && self.nodes()[slot] == out@[j]
                            && out@[j] == node_in(page.records[j])
                    },
            decreases n - i,
        {
            let slot = SlotRef::new(id as u32, i as u8);
            proof {
                lemma_slot_on(id, i as int);
                assert(slot == slot_on(id, i as int));
                assert(is_slot(self.pages(), slot));
                assert(cells(self.pages()).contains_key(slot));
            }
            match self.node(slot) {
                Some(rec) => {
                    out.push(rec);
                },
                None => {},
            }
            i += 1;
        }
        assert(out@ =~= page_nodes(page)) by {
            assert forall|j: int| 0 <= j < out@.len() implies #[trigger] out@[j] == node_in(
                page.records[j],
            ) by {
                let slot = slot_on(id, j);
                assert(self.nodes().contains_key(slot));
            }
        }
        out
    }

    /// The edges of a page.
    pub fn edges_on(&self, id: PageId) -> (r: Vec<StoredEdge>)
        requires
            self.wf(),
            is_page(self.pages(), id),
            page_at(self.pages(), id).kind == RecordKind::Edge,
        ensures
            r@ == page_edges(page_at(self.pages(), id)),
            r@.len() <= 256,
            forall|i: int|
                0 <= i < r@.len() ==> {
                    let slot = #[trigger] slot_on(id, i);
                    self.edges().contains_key(slot) && self.edges()[slot] == r@[i]
                },
    {
        let mut out: Vec<StoredEdge> = Vec::new();
        let ghost page = page_at(self.pages(), id);
        proof {
            self.heap.lemma_pages_fit();
            assert(page_fits(self.pages()[id - FIRST_DATA_PAGE]));
        }
        let mut i: usize = 0;
        let n: usize = match self.heap.page(id) {
            Some(p) => p.slot_count(),
            None => 0,
        };
        while i < n
            invariant
                self.wf(),
                is_page(self.pages(), id),
                id <= SlotRef::MAX_PAGE_ID,
                page == page_at(self.pages(), id),
                page.kind == RecordKind::Edge,
                n == page.records.len(),
                n <= 256,
                i <= n,
                out@.len() == i,
                forall|j: int|
                    0 <= j < i ==> {
                        let slot = #[trigger] slot_on(id, j);
                        self.edges().contains_key(slot) && self.edges()[slot] == out@[j]
                            && out@[j] == edge_in(page.records[j])
                    },
            decreases n - i,
        {
            let slot = SlotRef::new(id as u32, i as u8);
            proof {
                lemma_slot_on(id, i as int);
                assert(slot == slot_on(id, i as int));
                assert(is_slot(self.pages(), slot));
                assert(cells(self.pages()).contains_key(slot));
            }
            match self.edge(slot) {
                Some(e) => {
                    out.push(e);
                },
                None => {},
            }
            i += 1;
        }
        assert(out@ =~= page_edges(page)) by {
            assert forall|j: int| 0 <= j < out@.len() implies #[trigger] out@[j] == edge_in(
                page.records[j],
            ) by {
                let slot = slot_on(id, j);
                assert(self.edges().contains_key(slot));
            }
        }
        out
    }
}

proof fn lemma_node_len(node: NodeRecord)
    ensures
        node.spec_bytes().len() == NodeRecord::SIZE,
{
    broadcast use crate::bytes::le_bytes_len;

}

/// An inserted record is found in its slot, and the others where they were; its
/// page has records of its kind.
pub proof fn lemma_insert_cells(
    pages: Seq<PageView>,
    kind: RecordKind,
    record: Seq<u8>,
    list: Seq<PageId>,
)
    requires
        pages_of(pages, list, kind),
        FIRST_DATA_PAGE + pages.len() <= SlotRef::MAX_PAGE_ID + 1,
    ensures
        ({
            let (r, after, after_list) = insert_outcome(pages, kind, record, list);
            &&& pages_of(after, after_list, kind)
            &&& FIRST_DATA_PAGE + after.len() <= SlotRef::MAX_PAGE_ID + 1
            &&& r matches Ok(slot) ==> {
                &&& !slot.spec_is_null()
                &&& !cells(pages).contains_key(slot)
                &&& cells(after) == cells(pages).insert(slot, Cell { kind, bytes: record })
            }
        }),
{
    let (r, after, after_list) = insert_outcome(pages, kind, record, list);
    lemma_last_with_room(pages, list, record.len());
    lemma_lists_kept(pages, kind, record, list, list, kind);
    match last_with_room(pages, list, record.len()) {
        Some(id) => {
            let i = choose|i: int| 0 <= i < list.len() && list[i] == id;
            assert(is_page(pages, list[i]) && page_at(pages, list[i]).kind == kind);
            lemma_with_record(pages, id, record);
        },
        None => {
            if r is Ok {
                lemma_with_page(pages, kind, record);
                assert forall|i: int| 0 <= i < after_list.len() implies is_page(
                    after,
                    #[trigger] after_list[i],
                ) && page_at(after, after_list[i]).kind == kind by {
                    if i < list.len() {
                        assert(after_list[i] == list[i]);
                        assert(is_page(after, list[i]));
                    }
                }
            }
        },
    }
}

/// The pages of a list stay pages of their kind.
proof fn lemma_lists_kept(
    pages: Seq<PageView>,
    kind: RecordKind,
    record: Seq<u8>,
    list: Seq<PageId>,
    other: Seq<PageId>,
    other_kind: RecordKind,
)
    requires
        pages_of(pages, other, other_kind),
        pages_of(pages, list, kind),
    ensures
        pages_of(insert_outcome(pages, kind, record, list).1, other, other_kind),
{
    let after = insert_outcome(pages, kind, record, list).1;
    lemma_last_with_room(pages, list, record.len());
    assert forall|i: int| 0 <= i < other.len() implies is_page(after, #[trigger] other[i])
        && page_at(after, other[i]).kind == other_kind by {
        assert(is_page(pages, other[i]) && page_at(pages, other[i]).kind == other_kind);
        if let Some(id) = last_with_room(pages, list, record.len()) {
            let k = choose|k: int| 0 <= k < list.len() && list[k] == id;
            assert(is_page(pages, list[k]));
        }
    }
}

/// Has every record the length of its kind?
fn all_lengths_ok(heap: &Heap) -> (r: bool)
    requires
        heap.wf(),
    ensures
        r == cells_ok(cells(heap@)),
{
    let n: usize = heap.page_count();
    let mut i: usize = 0;
    proof {
        heap.lemma_pages_fit();
    }
    while i < n
        invariant
            heap.wf(),
            n == heap@.len(),
            i <= n,
            FIRST_DATA_PAGE + n <= SlotRef::MAX_PAGE_ID + 1,
            forall|k: int| 0 <= k < heap@.len() ==> page_fits(#[trigger] heap@[k]),
            forall|s: SlotRef| #[trigger]
                is_slot(heap@, s) && s.spec_page_id() < FIRST_DATA_PAGE + i ==> cell_ok(
                    cell_at(heap@, s),
                ),
        decreases n - i,
    {
        let id: PageId = FIRST_DATA_PAGE + i as u64;
        let mut k: usize = 0;
        let count: usize = match heap.page(id) {
            Some(p) => p.slot_count(),
            None => 0,
        };
        while k < count
            invariant
                heap.wf(),
                n == heap@.len(),
                i < n,
                id == FIRST_DATA_PAGE + i,
                FIRST_DATA_PAGE + n <= SlotRef::MAX_PAGE_ID + 1,
                count == heap@[i as int].records.len(),
                count <= 256,
                k <= count,
                forall|s: SlotRef| #[trigger]
                    is_slot(heap@, s) && s.spec_page_id() < FIRST_DATA_PAGE + i ==> cell_ok(
                        cell_at(heap@, s),
                    ),
                forall|s: SlotRef| #[trigger]
                    is_slot(heap@, s) && s.spec_page_id() == id && s.spec_slot_index() < k
                        ==> cell_ok(cell_at(heap@, s)),
            decreases count - k,
        {
            let slot = SlotRef::new(id as u32, k as u8);
            assert(is_slot(heap@, slot));
            match heap.read(slot) {
                Some((kind, bytes)) => {
                    let ok: bool = match kind {
                        RecordKind::Node => bytes.len() == NodeRecord::SIZE,
                        RecordKind::Edge => bytes.len() == StoredEdge::SIZE,
                        RecordKind::Property => true,
                    };
                    if !ok {
                        assert(cells(heap@).contains_key(slot) && !cell_ok(cells(heap@)[slot]));
                        return false;
                    }
                },
                None => {},
            }
            proof {
                assert forall|s: SlotRef| #[trigger]
                    is_slot(heap@, s) && s.spec_page_id() == id && s.spec_slot_index() < k
                        + 1 implies cell_ok(cell_at(heap@, s)) by {
                    if s.spec_slot_index() == k {
                        assert(s == slot);
                    }
                }
            }
            k += 1;
        }
        i += 1;
    }
    proof {
        assert forall|s: SlotRef| #[trigger] cells(heap@).contains_key(s) implies cell_ok(
            cells(heap@)[s],
        ) by {
            assert(is_slot(heap@, s));
        }
    }
    true
}

} // verus!
