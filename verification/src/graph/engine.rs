//! Graph storage engine.
//!
//! The engine keeps nodes, edges and properties on heap pages and finds them by
//! its indexes. Every change is told to the write-ahead log. The pages are in
//! memory; reading them from and writing them to a file is left to the caller.

use std::sync::Arc;

use vstd::prelude::*;

use crate::bytes::append_slice;
use crate::bytes::be_bytes_len;
use crate::bytes::lemma_be_injective;
use crate::bytes::lemma_pow256_sizes;
use crate::graph::adjacency::Side;
use crate::graph::csr::CsrAdjacency;
use crate::graph::csr::CsrHolder;
pub use crate::graph::ids::IdAllocator;
use crate::graph::maintenance::reclaimable;
use crate::graph::reclaim::law_deleted_node_counts;
use crate::graph::record::node_flags;
use crate::graph::record::EdgeRecord;
use crate::graph::record::NodeRecord;
use crate::graph::record::SlotRef;
use crate::graph::store::edges_of;
use crate::graph::store::nodes_of;
use crate::graph::store::properties_of;
use crate::graph::store::RecordStore;
use crate::graph::stored::law_stored_property_roundtrip;
use crate::graph::stored::property_bytes;
use crate::graph::stored::property_fits;
use crate::graph::stored::property_of;
use crate::graph::stored::PropertyView;
use crate::graph::stored::StoredEdge;
use crate::graph::stored::StoredProperty;
use crate::graph::wiring::bump;
use crate::graph::wiring::edge_at;
use crate::graph::wiring::has_edge_at;
use crate::graph::wiring::has_node_at;
use crate::graph::wiring::lemma_lists_kept;
use crate::graph::wiring::lists_ok;
use crate::graph::wiring::next_generation;
use crate::graph::wiring::node_at;
use crate::graph::wiring::recs;
use crate::index::btree::least;
use crate::index::key::be_u128;
use crate::index::key::edge_id_key;
use crate::index::key::key_8_16;
use crate::index::key::label_index_key;
use crate::index::key::law_8_16_injective;
use crate::index::key::node_id_key;
use crate::index::property::PropertyIndex;
use crate::index::property::PropertyKey;
use crate::index::slots::encode_slot_ref;
use crate::index::slots::slot_bytes;
use crate::index::slots::SlotIndex;
pub use crate::storage::error::StorageError;
use crate::storage::heap::cells;
use crate::storage::heap::insert_outcome;
use crate::storage::heap::pages_of;
use crate::storage::heap::with_cell;
use crate::storage::heap::PageView;
use crate::storage::heap::RecordKind;
use crate::storage::page::PageId;
use crate::storage::wal::build_plain_payload;
use crate::storage::wal::build_versioned_payload;
use crate::storage::wal::plain_payload;
use crate::storage::wal::versioned_payload;
use crate::storage::wal::wal_views;
use crate::storage::wal::RecordType;
use crate::storage::wal::TupleHeader;
use crate::storage::wal::WalRecord;
use crate::storage::wal::WalView;

verus! {

/// The key of an entity in its index.
pub open spec fn id_key(id: u64) -> Seq<u8> {
    be_u128(id as u128)
}

/// Different ids have different keys.
pub proof fn lemma_id_key_injective(a: u64, b: u64)
    requires
        id_key(a) == id_key(b),
    ensures
        a == b,
{
    lemma_pow256_sizes();
    lemma_be_injective(a as nat, b as nat, 16);
}

/// The number behind `n`; behind the largest one it starts again at 0.
pub open spec fn count_up(n: u64) -> u64 {
    if n == u64::MAX {
        0
    } else {
        (n + 1) as u64
    }
}

/// Transactions are counted one by one, and start again at 0.
pub proof fn law_transactions(n: u64)
    ensures
        n < u64::MAX ==> count_up(n) == n + 1,
        count_up(u64::MAX) == 0,
{
}

/// What the engine holds.
#[verifier::ext_equal]
pub struct EngineView {
    /// The heap pages.
    pub pages: Seq<PageView>,
    /// The pages that new nodes go to.
    pub node_pages: Seq<PageId>,
    /// The pages that new edges go to.
    pub edge_pages: Seq<PageId>,
    /// The pages that new properties go to.
    pub property_pages: Seq<PageId>,
    /// The slots of nodes by id.
    pub node_index: Map<Seq<u8>, SlotRef>,
    /// The slots of edges by id.
    pub edge_index: Map<Seq<u8>, SlotRef>,
    /// The slots of nodes by label and id.
    pub label_index: Map<Seq<u8>, SlotRef>,
    /// The slots of edges by type and id.
    pub type_index: Map<Seq<u8>, SlotRef>,
    /// The slots of properties by value and entity.
    pub property_index: Map<PropertyKey, SlotRef>,
    /// The id that is handed out next.
    pub next_id: u64,
    /// The slots of deleted nodes.
    pub node_free: Seq<SlotRef>,
    /// The slots of deleted edges.
    pub edge_free: Seq<SlotRef>,
    /// The adjacency snapshot.
    pub csr: Option<Arc<CsrAdjacency>>,
    /// What was told to the log and not fetched yet.
    pub wal: Seq<WalView>,
    /// The number of the next transaction.
    pub next_txid: u64,
}

/// The graph storage engine.
pub struct GraphStorageEngine {
    pub store: RecordStore,
    pub node_index: SlotIndex,
    pub edge_index: SlotIndex,
    pub label_index: SlotIndex,
    pub type_index: SlotIndex,
    pub property_index: PropertyIndex,
    pub id_allocator: IdAllocator,
    pub node_free_list: Vec<SlotRef>,
    pub edge_free_list: Vec<SlotRef>,
    pub csr: CsrHolder,
    pub wal: Vec<WalRecord>,
    pub next_txid: u64,
}

impl View for GraphStorageEngine {
    type V = EngineView;

    open spec fn view(&self) -> EngineView {
        EngineView {
            pages: self.store.pages(),
            node_pages: self.store.spec_node_pages(),
            edge_pages: self.store.spec_edge_pages(),
            property_pages: self.store.spec_property_pages(),
            node_index: self.node_index@,
            edge_index: self.edge_index@,
            label_index: self.label_index@,
            type_index: self.type_index@,
            property_index: self.property_index@,
            next_id: self.id_allocator.next(),
            node_free: self.node_free_list@,
            edge_free: self.edge_free_list@,
            csr: self.csr.current(),
            wal: wal_views(self.wal@),
            next_txid: self.next_txid,
        }
    }
}

impl EngineView {
    /// Is the node in the index?
    pub open spec fn has_node(self, id: u64) -> bool {
        self.node_index.contains_key(id_key(id))
    }

    /// The slot of a node.
    pub open spec fn node_slot(self, id: u64) -> SlotRef {
        self.node_index[id_key(id)]
    }

    /// The record of a node.
    pub open spec fn node(self, id: u64) -> NodeRecord {
        node_at(self.pages, self.node_slot(id))
    }

    /// Is the edge in the index?
    pub open spec fn has_edge(self, id: u64) -> bool {
        self.edge_index.contains_key(id_key(id))
    }

    /// The slot of an edge.
    pub open spec fn edge_slot(self, id: u64) -> SlotRef {
        self.edge_index[id_key(id)]
    }

    /// An edge by its id.
    pub open spec fn edge(self, id: u64) -> StoredEdge {
        edge_at(self.pages, self.edge_slot(id))
    }

    /// Do the indexes of nodes and edges lead to records with these ids?
    pub open spec fn indexes_lead(self) -> bool {
        &&& forall|id: u64| #[trigger] self.has_node(id) ==> node_entry_ok(self, id)
        &&& forall|id: u64| #[trigger] self.has_edge(id) ==> edge_entry_ok(self, id)
    }

    /// The node records by their slots.
    pub open spec fn nodes(self) -> Map<SlotRef, NodeRecord> {
        nodes_of(cells(self.pages))
    }

    /// The edges by their slots.
    pub open spec fn edges(self) -> Map<SlotRef, StoredEdge> {
        edges_of(cells(self.pages))
    }

    /// The bytes of the properties by their slots.
    pub open spec fn properties(self) -> Map<SlotRef, Seq<u8>> {
        properties_of(cells(self.pages))
    }

    /// Are all adjacency lists whole: every node has its two lists, and every
    /// edge that is not deleted is in those of its end nodes?
    pub open spec fn lists_whole(self) -> bool {
        &&& lists_ok(self.nodes(), recs(self.edges()), Side::Source)
        &&& lists_ok(self.nodes(), recs(self.edges()), Side::Target)
    }

    /// Does the index of nodes lead to this record, if it is that of a node that is
    /// there?
    pub open spec fn node_indexed(self, slot: SlotRef) -> bool {
        let node = self.nodes()[slot];
        node.node_id == 0 || node.is_deleted() || (self.has_node(node.node_id) && self.node_slot(
            node.node_id,
        ) == slot)
    }

    /// Does the index of edges lead to this edge, if it is there?
    pub open spec fn edge_indexed(self, slot: SlotRef) -> bool {
        let edge = self.edges()[slot];
        edge.record.edge_id == 0 || edge.record.is_deleted() || (self.has_edge(
            edge.record.edge_id,
        ) && self.edge_slot(edge.record.edge_id) == slot)
    }

    /// Is every node and every edge that is there found by its id?
    pub open spec fn all_indexed(self) -> bool {
        &&& forall|s: SlotRef| #[trigger] self.nodes().contains_key(s) ==> self.node_indexed(s)
        &&& forall|s: SlotRef| #[trigger] self.edges().contains_key(s) ==> self.edge_indexed(s)
    }

    /// Do the indexes of nodes and edges know ids of 8 bytes only?
    pub open spec fn ids_agree(self) -> bool {
        &&& forall|id: u128| #[trigger]
            self.node_index.contains_key(be_u128(id)) ==> id <= u64::MAX
        &&& forall|id: u128| #[trigger]
            self.edge_index.contains_key(be_u128(id)) ==> id <= u64::MAX
    }

    /// Does the index of labels hold every node that is there under its label, and
    /// every entry stand for a node with that label?
    pub open spec fn labels_agree(self) -> bool {
        &&& forall|label: u64, id: u128| #[trigger]
            self.label_index.contains_key(key_8_16(label, id)) ==> label_entry_ok(self, label, id)
        &&& forall|id: u64| #[trigger]
            self.has_node(id) && !self.node(id).is_deleted() ==> self.label_index.contains_key(
                key_8_16(self.node(id).label_id as u64, id as u128),
            )
    }

    /// Does the index of types hold every edge that is there under its type, and every
    /// entry stand for an edge of that type?
    pub open spec fn types_agree(self) -> bool {
        &&& forall|type_id: u64, id: u128| #[trigger]
            self.type_index.contains_key(key_8_16(type_id, id)) ==> type_entry_ok(
                self,
                type_id,
                id,
            )
        &&& forall|id: u64| #[trigger]
            self.has_edge(id) && !self.edge(id).record.is_deleted()
                ==> self.type_index.contains_key(
                key_8_16(self.edge(id).record.type_id as u64, id as u128),
            )
    }

    /// Do the indexes agree with the records?
    pub open spec fn indexes_agree(self) -> bool {
        self.ids_agree() && self.labels_agree() && self.types_agree()
    }

    /// Is every edge that is there linked to the node that it names as its source, and
    /// on a page that is in use?
    pub open spec fn sources_lead(self) -> bool {
        forall|s: SlotRef| #[trigger]
            self.edges().contains_key(s) && !self.edges()[s].record.is_deleted() ==> {
                let edge = self.edges()[s];
                &&& edge.record.edge_id != 0
                &&& self.edge_pages.contains(s.spec_page_id() as u64)
                &&& self.is_source(edge)
            }
    }

    /// Is the edge linked to the node that it names as its source?
    pub open spec fn is_source(self, edge: StoredEdge) -> bool {
        self.has_node(edge.source_id) && edge.record.source_node == self.node_slot(edge.source_id)
    }

    /// The log with one more record.
    pub open spec fn logged(self, record_type: RecordType, txid: u64, payload: Seq<u8>) -> Seq<
        WalView,
    > {
        self.wal.push(WalView { record_type, txid, payload })
    }
}

/// Does `after` agree with itself in every way that `before` does?
pub open spec fn agreements_kept(before: EngineView, after: EngineView) -> bool {
    &&& before.all_indexed() ==> after.all_indexed()
    &&& before.lists_whole() ==> after.lists_whole()
    &&& before.indexes_agree() ==> after.indexes_agree()
    &&& before.sources_lead() ==> after.sources_lead()
}

/// Does the index lead to the record of the node?
pub open spec fn node_entry_ok(v: EngineView, id: u64) -> bool {
    id != 0 && has_node_at(v.pages, v.node_slot(id)) && v.node(id).node_id == id
}

/// Does the index lead to the record of the edge?
pub open spec fn edge_entry_ok(v: EngineView, id: u64) -> bool {
    id != 0 && has_edge_at(v.pages, v.edge_slot(id)) && v.edge(id).record.edge_id == id
}

/// Are the nodes the same, but for the edges at the heads of their lists and for how often
/// they were written?
pub open spec fn nodes_kept(a: EngineView, b: EngineView) -> bool {
    &&& forall|s: SlotRef| #[trigger] b.nodes().contains_key(s) == a.nodes().contains_key(s)
    &&& forall|s: SlotRef| #[trigger]
        b.nodes().contains_key(s) ==> {
            &&& b.nodes()[s].node_id == a.nodes()[s].node_id
            &&& b.nodes()[s].label_id == a.nodes()[s].label_id
            &&& b.nodes()[s].flags == a.nodes()[s].flags
            &&& b.nodes()[s].first_property == a.nodes()[s].first_property
        }
}

/// Are the edges the same, but for their neighbours in lists, for how often they were
/// written, and for the marks of the one in a slot?
pub open spec fn edges_kept_but(a: EngineView, b: EngineView, slot: SlotRef) -> bool {
    &&& forall|s: SlotRef| #[trigger] b.edges().contains_key(s) == a.edges().contains_key(s)
    &&& forall|s: SlotRef| #[trigger]
        b.edges().contains_key(s) ==> {
            &&& b.edges()[s].record.edge_id == a.edges()[s].record.edge_id
            &&& b.edges()[s].record.type_id == a.edges()[s].record.type_id
            &&& s != slot ==> b.edges()[s].record.flags == a.edges()[s].record.flags
            &&& b.edges()[s].record.source_node == a.edges()[s].record.source_node
            &&& b.edges()[s].record.target_node == a.edges()[s].record.target_node
            &&& b.edges()[s].record.first_property == a.edges()[s].record.first_property
            &&& b.edges()[s].source_id == a.edges()[s].source_id
            &&& b.edges()[s].target_id == a.edges()[s].target_id
        }
}

/// Does the entry of the index of labels stand for a node with that label?
pub open spec fn label_entry_ok(v: EngineView, label: u64, id: u128) -> bool {
    &&& id <= u64::MAX
    &&& v.has_node(id as u64)
    &&& v.label_index[key_8_16(label, id)] == v.node_slot(id as u64)
    &&& v.node(id as u64).label_id == label
}

/// Does the entry of the index of types stand for an edge of that type?
pub open spec fn type_entry_ok(v: EngineView, type_id: u64, id: u128) -> bool {
    &&& id <= u64::MAX
    &&& v.has_edge(id as u64)
    &&& v.type_index[key_8_16(type_id, id)] == v.edge_slot(id as u64)
    &&& v.edge(id as u64).record.type_id == type_id
}

/// The bytes of a node record.
fn node_bytes(node: &NodeRecord) -> (r: Vec<u8>)
    ensures
        r@ == node.spec_bytes(),
{
    let mut buf: Vec<u8> = vec![0; 32];
    node.encode(buf.as_mut_slice());
    buf
}

impl GraphStorageEngine {
    pub open spec fn wf(&self) -> bool {
        &&& self.store.wf()
        &&& self.node_index.wf()
        &&& self.edge_index.wf()
        &&& self.label_index.wf()
        &&& self.type_index.wf()
        &&& self.property_index.wf()
        &&& self.id_allocator.wf()
        &&& self@.indexes_lead()
        &&& self.csr.current() matches Some(csr) ==> csr.wf()
    }

    /// For how many insertions has every index page ids left at least?
    pub open spec fn room(&self) -> int {
        least(
            least(
                least(self.node_index.room(), self.edge_index.room()),
                least(self.label_index.room(), self.type_index.room()),
            ),
            self.property_index.room(),
        )
    }

    /// With room left, no index is full.
    pub proof fn lemma_room(&self)
        requires
            self.room() > 0,
        ensures
            !self.node_index.is_full(),
            !self.edge_index.is_full(),
            !self.label_index.is_full(),
            !self.type_index.is_full(),
            !self.property_index.is_full(),
    {
        self.node_index.lemma_room();
        self.edge_index.lemma_room();
        self.label_index.lemma_room();
        self.type_index.lemma_room();
        self.property_index.lemma_room();
    }

    /// A new engine with no records.
    pub fn init() -> (r: Self)
        ensures
            r.wf(),
            r@ == (EngineView {
                pages: Seq::empty(),
                node_pages: Seq::empty(),
                edge_pages: Seq::empty(),
                property_pages: Seq::empty(),
                node_index: Map::empty(),
                edge_index: Map::empty(),
                label_index: Map::empty(),
                type_index: Map::empty(),
                property_index: Map::empty(),
                next_id: 1,
                node_free: Seq::empty(),
                edge_free: Seq::empty(),
                csr: None,
                wal: Seq::empty(),
                next_txid: 1,
            }),
            !r.node_index.is_full(),
            !r.edge_index.is_full(),
            !r.label_index.is_full(),
            !r.type_index.is_full(),
            !r.property_index.is_full(),
            r.room() == 0x4000_0000,
            r@.all_indexed(),
            r@.lists_whole(),
            r@.indexes_agree(),
            r@.sources_lead(),
    {
        let r = GraphStorageEngine::with_store(RecordStore::new());
        assert(cells(r@.pages) =~= Map::empty());
        r
    }

    /// An engine over these records, with empty indexes.
    pub(crate) fn with_store(store: RecordStore) -> (r: Self)
        requires
            store.wf(),
        ensures
            r.wf(),
            r@ == (EngineView {
                pages: store.pages(),
                node_pages: store.spec_node_pages(),
                edge_pages: store.spec_edge_pages(),
                property_pages: store.spec_property_pages(),
                node_index: Map::empty(),
                edge_index: Map::empty(),
                label_index: Map::empty(),
                type_index: Map::empty(),
                property_index: Map::empty(),
                next_id: 1,
                node_free: Seq::empty(),
                edge_free: Seq::empty(),
                csr: None,
                wal: Seq::empty(),
                next_txid: 1,
            }),
            !r.node_index.is_full(),
            !r.edge_index.is_full(),
            !r.label_index.is_full(),
            !r.type_index.is_full(),
            !r.property_index.is_full(),
            r.room() == 0x4000_0000,
    {
        let r = GraphStorageEngine {
            store,
            node_index: SlotIndex::new(),
            edge_index: SlotIndex::new(),
            label_index: SlotIndex::new(),
            type_index: SlotIndex::new(),
            property_index: PropertyIndex::new(),
            id_allocator: IdAllocator::new(1),
            node_free_list: Vec::new(),
            edge_free_list: Vec::new(),
            csr: CsrHolder::new(),
            wal: Vec::new(),
            next_txid: 1,
        };
        assert(wal_views(r.wal@) =~= Seq::empty());
        r
    }

    /// Tells the log.
    pub(crate) fn log(&mut self, record_type: RecordType, txid: u64, payload: Vec<u8>)
        ensures
            final(self)@ == (EngineView {
                wal: old(self)@.logged(record_type, txid, payload@),
                ..old(self)@
            }),
            old(self).wf() ==> final(self).wf(),
            final(self).store == old(self).store,
            final(self).property_index == old(self).property_index,
            final(self).room() == old(self).room(),
            agreements_kept(old(self)@, final(self)@),
    {
        let ghost before = self@;
        self.wal.push(WalRecord { record_type, txid, payload });
        assert(wal_views(self.wal@) =~= before.logged(record_type, txid, payload@));
        proof {
            lemma_same_entries(before, self@);
        }
    }

    /// Takes the number of a transaction.
    pub(crate) fn begin(&mut self) -> (txid: u64)
        ensures
            txid == old(self).next_txid,
            final(self)@ == (EngineView { next_txid: count_up(txid), ..old(self)@ }),
            old(self).wf() ==> final(self).wf(),
            final(self).store == old(self).store,
            final(self).room() == old(self).room(),
            agreements_kept(old(self)@, final(self)@),
    {
        let txid: u64 = self.next_txid;
        let ghost before = self@;
        if txid == u64::MAX {
            self.next_txid = 0;
        } else {
            self.next_txid = txid + 1;
        }
        proof {
            lemma_same_entries(before, self@);
        }
        txid
    }

    /// Hands over what was told to the log, in order, and forgets it.
    pub fn take_wal(&mut self) -> (r: Vec<WalRecord>)
        requires
            old(self).wf(),
        ensures
            final(self).wf(),
            wal_views(r@) == old(self)@.wal,
            final(self)@ == (EngineView { wal: Seq::empty(), ..old(self)@ }),
            final(self).room() == old(self).room(),
            agreements_kept(old(self)@, final(self)@),
    {
        let ghost before = self@;
        let mut taken: Vec<WalRecord> = Vec::new();
        std::mem::swap(&mut taken, &mut self.wal);
        assert(wal_views(self.wal@) =~= Seq::empty());
        proof {
            lemma_same_entries(before, self@);
        }
        taken
    }

    /// The slot of a node, deleted or not.
    pub(crate) fn indexed_node_slot(&self, node_id: u64) -> (r: Option<SlotRef>)
        requires
            self.wf(),
        ensures
            match r {
                Some(slot) => self@.has_node(node_id) && slot == self@.node_slot(node_id),
                None => !self@.has_node(node_id),
            },
    {
        self.node_index.search(&node_id_key(node_id as u128))
    }

    /// The slot of a node; `None` where there is no such node or it was deleted.
    pub fn lookup_node_slot(&self, node_id: u64) -> (r: Option<SlotRef>)
        requires
            self.wf(),
        ensures
            match r {
                Some(slot) => self@.has_node(node_id) && !self@.node(node_id).is_deleted() && slot
                    == self@.node_slot(node_id),
                None => !self@.has_node(node_id) || self@.node(node_id).is_deleted(),
            },
    {
        match self.indexed_node_slot(node_id) {
            Some(slot) => {
                assert(node_entry_ok(self@, node_id));
                match self.store.node(slot) {
                    Some(node) => {
                        if node.flags & node_flags::DELETED == 0 {
                            Some(slot)
                        } else {
                            None
                        }
                    },
                    None => None,
                }
            },
            None => None,
        }
    }

    /// The slot of an edge.
    pub fn lookup_edge_slot(&self, edge_id: u64) -> (r: Option<SlotRef>)
        requires
            self.wf(),
        ensures
            match r {
                Some(slot) => self@.has_edge(edge_id) && slot == self@.edge_slot(edge_id),
                None => !self@.has_edge(edge_id),
            },
    {
        self.edge_index.search(&edge_id_key(edge_id as u128))
    }

    /// The record of a node, deleted or not.
    pub fn get_node(&self, node_id: u64) -> (r: Option<NodeRecord>)
        requires
            self.wf(),
        ensures
            match r {
                Some(node) => self@.has_node(node_id) && node == self@.node(node_id),
                None => !self@.has_node(node_id),
            },
    {
        match self.indexed_node_slot(node_id) {
            Some(slot) => {
                assert(node_entry_ok(self@, node_id));
                self.store.node(slot)
            },
            None => None,
        }
    }

    /// An edge, deleted or not.
    pub fn get_edge(&self, edge_id: u64) -> (r: Option<StoredEdge>)
        requires
            self.wf(),
        ensures
            match r {
                Some(edge) => self@.has_edge(edge_id) && edge == self@.edge(edge_id),
                None => !self@.has_edge(edge_id),
            },
    {
        match self.lookup_edge_slot(edge_id) {
            Some(slot) => {
                assert(edge_entry_ok(self@, edge_id));
                self.store.edge(slot)
            },
            None => None,
        }
    }

    /// Stores a node and enters it into the indexes.
    pub fn put_node(&mut self, node: &NodeRecord) -> (r: Result<SlotRef, StorageError>)
        requires
            old(self).wf(),
        ensures
            final(self).wf(),
            r == put_node_result(
                old(self)@,
                *node,
                old(self).node_index.is_full() || old(self).label_index.is_full(),
            ),
            final(self)@ == (match r {
                Ok(slot) => put_node_after(old(self)@, *node, slot),
                Err(_) => old(self)@,
            }),
            node.node_id == 0 <==> r == Err::<SlotRef, StorageError>(StorageError::InvalidId),
            node.node_id != 0 && old(self)@.has_node(node.node_id) <==> r == Err::<
                SlotRef,
                StorageError,
            >(StorageError::AlreadyExists),
            r is Ok <==> node.node_id != 0 && !old(self)@.has_node(node.node_id) && !old(
                self,
            ).node_index.is_full() && !old(self).label_index.is_full() && insert_outcome(
                old(self)@.pages,
                RecordKind::Node,
                node.spec_bytes(),
                old(self)@.node_pages,
            ).0 is Ok,
            r matches Ok(slot) ==> !old(self)@.nodes().contains_key(slot),
            r matches Ok(slot) ==> final(self)@.nodes() == old(self)@.nodes().insert(slot, *node)
                && final(self)@.edges() == old(self)@.edges() && final(self)@.properties() == old(
                self,
            )@.properties(),
            old(self)@.all_indexed() ==> final(self)@.all_indexed(),
            old(self)@.lists_whole() && node.first_outgoing_edge.spec_is_null()
                && node.first_incoming_edge.spec_is_null() ==> final(self)@.lists_whole(),
            old(self)@.indexes_agree() ==> final(self)@.indexes_agree(),
            old(self)@.sources_lead() ==> final(self)@.sources_lead(),
            old(self).room() > 0 ==> final(self).room() >= old(self).room() - 1,
    {
        if node.node_id == 0 {
            return Err(StorageError::InvalidId);
        }
        let key = node_id_key(node.node_id as u128);
        if self.node_index.search(&key).is_some() {
            return Err(StorageError::AlreadyExists);
        }
        let ghost before = self@;
        let room: bool = self.node_index.has_room() && self.label_index.has_room();
        let bytes = node_bytes(node);
        if !room {
            let list: &Vec<PageId> = self.store.node_pages();
            return Err(self.failed_placement(RecordKind::Node, bytes.as_slice(), list));
        }
        let slot = match self.store.add_node(node) {
            Ok(slot) => slot,
            Err(e) => {
                proof {
                    lemma_same_entries(before, self@);
                }
                return Err(e);
            },
        };
        broadcast use be_bytes_len;

        let indexed = self.node_index.insert(&key, slot);
        let label_key = label_index_key(node.label_id as u64, node.node_id as u128);
        let labelled = self.label_index.insert(&label_key, slot);
        proof {
            lemma_put_node_entries(before, self@, *node, slot);
        }
        let txid: u64 = self.begin();
        let version = TupleHeader { xmin: txid, xmax: 0 };
        let payload = build_versioned_payload(node.node_id, slot, version, bytes.as_slice());
        self.log(RecordType::NodeInsert, txid, payload);
        assert(self@ =~= put_node_after(before, *node, slot));
        Ok(slot)
    }

    /// The error of a record that cannot be entered into the indexes: that of the
    /// pages where they cannot take it either.
    pub(crate) fn failed_placement(&self, kind: RecordKind, bytes: &[u8], list: &Vec<PageId>) -> (e:
        StorageError)
        requires
            self.store.wf(),
            pages_of(self.store.pages(), list@, kind),
        ensures
            e == (match insert_outcome(self.store.pages(), kind, bytes@, list@).0 {
                Ok(_) => StorageError::IndexError,
                Err(e) => e,
            }),
    {
        match self.store.heap().placement(list, bytes.len()) {
            Some(e) => e,
            None => StorageError::IndexError,
        }
    }

    /// Marks a node as deleted. Its record stays where it is and in the index of
    /// nodes; the index of labels forgets it.
    pub fn delete_node(&mut self, node_id: u64) -> (r: Result<(), StorageError>)
        requires
            old(self).wf(),
        ensures
            final(self).wf(),
            r is Ok == old(self)@.has_node(node_id),
            r matches Err(e) ==> e == StorageError::NotFound,
            final(self)@ == (if r is Ok {
                delete_node_after(old(self)@, node_id)
            } else {
                old(self)@
            }),
            r is Ok ==> final(self)@.has_node(node_id) && final(self)@.node(node_id).is_deleted(),
            r is Ok ==> ({
                let node = final(self)@.node(node_id);
                let was = old(self)@.node(node_id);
                &&& final(self)@.nodes() == old(self)@.nodes().insert(
                    old(self)@.node_slot(node_id),
                    node,
                )
                &&& node.flags == was.flags | 1
                &&& node.node_id == was.node_id
                &&& node.label_id == was.label_id
                &&& node.first_property == was.first_property
                &&& node.first_outgoing_edge == was.first_outgoing_edge
                &&& node.first_incoming_edge == was.first_incoming_edge
                &&& final(self)@.edges() == old(self)@.edges()
                &&& final(self)@.properties() == old(self)@.properties()
                &&& old(self)@.node_pages.contains(
                    old(self)@.node_slot(node_id).spec_page_id() as u64,
                ) ==> reclaimable(final(self)@) == reclaimable(old(self)@) + (if was.flags & 1
                    == 0 {
                    1int
                } else {
                    0
                })
            }),
            agreements_kept(old(self)@, final(self)@),
            final(self).room() >= old(self).room(),
    {
        let slot = match self.indexed_node_slot(node_id) {
            Some(slot) => slot,
            None => {
                return Err(StorageError::NotFound);
            },
        };
        let ghost before = self@;
        assert(node_entry_ok(before, node_id));
        let mut node = match self.store.node(slot) {
            Some(node) => node,
            None => {
                return Err(StorageError::NotFound);
            },
        };
        let ghost flags = node.flags;
        node.flags = node.flags | node_flags::DELETED;
        assert((flags | 0x0001u16) & 0x0001u16 != 0) by (bit_vector);
        node.generation = bump(node.generation);
        let bytes = node_bytes(&node);
        self.store.set_node(slot, &node);
        proof {
            lemma_set_node_entries(before, self@, slot, node);
        }
        let label_key = label_index_key(node.label_id as u64, node_id as u128);
        let ghost between = self@;
        let _found = self.label_index.delete(&label_key);
        proof {
            lemma_same_entries(between, self@);
            if between.indexes_agree() {
                lemma_label_removed(between, self@, node_id);
            }
        }
        let txid: u64 = self.begin();
        let version = TupleHeader { xmin: 0, xmax: txid };
        let payload = build_versioned_payload(node_id, slot, version, bytes.as_slice());
        self.log(RecordType::NodeDelete, txid, payload);
        let ghost logged = self@;
        self.node_free_list.push(slot);
        proof {
            lemma_same_entries(logged, self@);
        }
        assert(self@ =~= delete_node_after(before, node_id));
        proof {
            old(self).store.lemma_page_count();
            self.store.lemma_page_count();
            if before.node_pages.contains(slot.spec_page_id() as u64) {
                law_deleted_node_counts(before, self@, slot, node);
            }
        }
        Ok(())
    }

    /// Stores a property.
    pub fn put_property(&mut self, prop: &StoredProperty) -> (r: Result<SlotRef, StorageError>)
        requires
            old(self).wf(),
            prop.wf(),
            property_fits(prop@),
        ensures
            final(self).wf(),
            r == insert_outcome(
                old(self)@.pages,
                RecordKind::Property,
                property_bytes(prop@),
                old(self)@.property_pages,
            ).0,
            final(self)@ == (match r {
                Ok(slot) => put_property_after(old(self)@, prop@, slot),
                Err(_) => old(self)@,
            }),
            r matches Ok(slot) ==> {
                &&& !old(self)@.properties().contains_key(slot)
                &&& final(self)@.properties() == old(self)@.properties().insert(
                    slot,
                    property_bytes(prop@),
                )
                &&& property_at(final(self)@.pages, slot) == Some(prop@)
                &&& final(self)@.nodes() == old(self)@.nodes()
                &&& final(self)@.edges() == old(self)@.edges()
            },
            final(self).property_index == old(self).property_index,
            agreements_kept(old(self)@, final(self)@),
            final(self).room() == old(self).room(),
    {
        let bytes = prop.encode();
        let ghost before = self@;
        let slot = match self.store.add_property(bytes.as_slice()) {
            Ok(slot) => slot,
            Err(e) => {
                proof {
                    lemma_same_entries(before, self@);
                }
                return Err(e);
            },
        };
        proof {
            lemma_same_entries(before, self@);
            law_stored_property_roundtrip(prop@);
        }
        let mut payload = encode_slot_ref(slot);
        append_slice(&mut payload, bytes.as_slice());
        self.log(RecordType::PropertyInsert, 1, payload);
        assert(self@ =~= put_property_after(before, prop@, slot));
        Ok(slot)
    }

    /// The property in a slot.
    pub fn get_property(&self, slot: SlotRef) -> (r: Option<StoredProperty>)
        requires
            self.wf(),
        ensures
            match r {
                Some(prop) => property_at(self@.pages, slot) == Some(prop@) && prop.wf(),
                None => property_at(self@.pages, slot) is None,
            },
    {
        match self.store.property(slot) {
            Some(bytes) => StoredProperty::decode(bytes.as_slice()),
            None => None,
        }
    }

    /// Makes a property the first one of a node.
    pub fn attach_property_to_node(&mut self, node_id: u64, prop_slot: SlotRef) -> (r: Result<
        (),
        StorageError,
    >)
        requires
            old(self).wf(),
        ensures
            final(self).wf(),
            r is Ok == old(self)@.has_node(node_id),
            r matches Err(e) ==> e == StorageError::NotFound,
            final(self)@ == (if r is Ok {
                attach_to_node_after(old(self)@, node_id, prop_slot)
            } else {
                old(self)@
            }),
            final(self).property_index == old(self).property_index,
            final(self)@.properties() == old(self)@.properties(),
            final(self)@.edges() == old(self)@.edges(),
            r is Ok ==> final(self)@.nodes() == old(self)@.nodes().insert(
                old(self)@.node_slot(node_id),
                with_first_property(old(self)@.node(node_id), prop_slot),
            ),
            agreements_kept(old(self)@, final(self)@),
            final(self).room() == old(self).room(),
    {
        let slot = match self.indexed_node_slot(node_id) {
            Some(slot) => slot,
            None => {
                return Err(StorageError::NotFound);
            },
        };
        let ghost before = self@;
        assert(node_entry_ok(before, node_id));
        let mut node = match self.store.node(slot) {
            Some(node) => node,
            None => {
                return Err(StorageError::NotFound);
            },
        };
        node.first_property = prop_slot;
        node.generation = bump(node.generation);
        let bytes = node_bytes(&node);
        self.store.set_node(slot, &node);
        proof {
            lemma_set_node_entries(before, self@, slot, node);
        }
        let payload = build_plain_payload(node_id, slot, bytes.as_slice());
        self.log(RecordType::NodeInsert, 1, payload);
        assert(self@ =~= attach_to_node_after(before, node_id, prop_slot));
        Ok(())
    }

    /// Makes a property the first one of an edge.
    pub fn attach_property_to_edge(&mut self, edge_id: u64, prop_slot: SlotRef) -> (r: Result<
        (),
        StorageError,
    >)
        requires
            old(self).wf(),
        ensures
            final(self).wf(),
            r is Ok == old(self)@.has_edge(edge_id),
            r matches Err(e) ==> e == StorageError::NotFound,
            final(self)@ == (if r is Ok {
                attach_to_edge_after(old(self)@, edge_id, prop_slot)
            } else {
                old(self)@
            }),
            final(self).property_index == old(self).property_index,
            final(self)@.properties() == old(self)@.properties(),
            final(self)@.nodes() == old(self)@.nodes(),
            r is Ok ==> final(self)@.edges() == old(self)@.edges().insert(
                old(self)@.edge_slot(edge_id),
                edge_with_first_property(old(self)@.edge(edge_id), prop_slot),
            ),
            agreements_kept(old(self)@, final(self)@),
            final(self).room() == old(self).room(),
    {
        let slot = match self.lookup_edge_slot(edge_id) {
            Some(slot) => slot,
            None => {
                return Err(StorageError::NotFound);
            },
        };
        let ghost before = self@;
        assert(edge_entry_ok(before, edge_id));
        let mut edge = match self.store.edge(slot) {
            Some(edge) => edge,
            None => {
                return Err(StorageError::NotFound);
            },
        };
        edge.record.first_property = prop_slot;
        edge.record.generation = bump(edge.record.generation);
        let bytes = edge.encode();
        self.store.set_edge(slot, &edge);
        proof {
            lemma_set_edge_entries(before, self@, slot, edge);
        }
        let payload = build_plain_payload(edge_id, slot, bytes.as_slice());
        self.log(RecordType::EdgeInsert, 1, payload);
        assert(self@ =~= attach_to_edge_after(before, edge_id, prop_slot));
        Ok(())
    }
}

// ---------------------------------------------------------------------------
// What the operations do
// ---------------------------------------------------------------------------

/// What storing a node returns. `full` tells whether an index is out of page
/// ids.
pub open spec fn put_node_result(v: EngineView, node: NodeRecord, full: bool) -> Result<
    SlotRef,
    StorageError,
> {
    if node.node_id == 0 {
        Err(StorageError::InvalidId)
    } else if v.has_node(node.node_id) {
        Err(StorageError::AlreadyExists)
    } else {
        match insert_outcome(v.pages, RecordKind::Node, node.spec_bytes(), v.node_pages).0 {
            Ok(slot) => if full {
                Err(StorageError::IndexError)
            } else {
                Ok(slot)
            },
            Err(e) => Err(e),
        }
    }
}

/// The engine after a node was stored.
pub open spec fn put_node_after(v: EngineView, node: NodeRecord, slot: SlotRef) -> EngineView {
    let placed = insert_outcome(v.pages, RecordKind::Node, node.spec_bytes(), v.node_pages);
    EngineView {
        pages: placed.1,
        node_pages: placed.2,
        node_index: v.node_index.insert(id_key(node.node_id), slot),
        label_index: v.label_index.insert(
            key_8_16(node.label_id as u64, node.node_id as u128),
            slot,
        ),
        wal: v.logged(
            RecordType::NodeInsert,
            v.next_txid,
            versioned_payload(
                node.node_id,
                slot,
                TupleHeader { xmin: v.next_txid, xmax: 0 },
                node.spec_bytes(),
            ),
        ),
        next_txid: count_up(v.next_txid),
        ..v
    }
}

/// Storing a node adds it to the indexes of nodes and of labels, under its id and its label,
/// and logs that it was inserted, with its transaction; the other indexes, the lists of free
/// slots, the ids and the snapshot stay.
pub proof fn law_put_node_after(v: EngineView, node: NodeRecord, slot: SlotRef)
    ensures
        ({
            let w = put_node_after(v, node, slot);
            &&& w.has_node(node.node_id)
            &&& w.node_slot(node.node_id) == slot
            &&& forall|id: u64| #![trigger w.has_node(id)]
                id != node.node_id ==> w.has_node(id) == v.has_node(id) && (v.has_node(id)
                    ==> w.node_slot(id) == v.node_slot(id))
            &&& w.label_index == v.label_index.insert(
                key_8_16(node.label_id as u64, node.node_id as u128),
                slot,
            )
            &&& w.edge_index == v.edge_index
            &&& w.type_index == v.type_index
            &&& w.property_index == v.property_index
            &&& w.edge_pages == v.edge_pages
            &&& w.property_pages == v.property_pages
            &&& w.node_free == v.node_free
            &&& w.edge_free == v.edge_free
            &&& w.next_id == v.next_id
            &&& w.csr == v.csr
            &&& w.next_txid == count_up(v.next_txid)
            &&& w.wal == v.wal.push(
                WalView {
                    record_type: RecordType::NodeInsert,
                    txid: v.next_txid,
                    payload: versioned_payload(
                        node.node_id,
                        slot,
                        TupleHeader { xmin: v.next_txid, xmax: 0 },
                        node.spec_bytes(),
                    ),
                },
            )
        }),
{
    let w = put_node_after(v, node, slot);
    assert forall|id: u64| #![trigger w.has_node(id)]
        id != node.node_id implies w.has_node(id) == v.has_node(id) && (v.has_node(id)
        ==> w.node_slot(id) == v.node_slot(id)) by {
        if id_key(id) == id_key(node.node_id) {
            lemma_id_key_injective(id, node.node_id);
        }
    }
}

/// Deleting a node drops it from the index of labels, keeps its slot for later, and logs
/// that it was deleted, with its transaction; it stays in the index of nodes, and the other
/// indexes, the ids and the snapshot stay.
pub proof fn law_delete_node_after(v: EngineView, node_id: u64)
    ensures
        ({
            let w = delete_node_after(v, node_id);
            let node = v.node(node_id);
            &&& w.node_index == v.node_index
            &&& w.edge_index == v.edge_index
            &&& w.label_index == v.label_index.remove(
                key_8_16(node.label_id as u64, node_id as u128),
            )
            &&& w.type_index == v.type_index
            &&& w.property_index == v.property_index
            &&& w.node_pages == v.node_pages
            &&& w.edge_pages == v.edge_pages
            &&& w.property_pages == v.property_pages
            &&& w.node_free == v.node_free.push(v.node_slot(node_id))
            &&& w.edge_free == v.edge_free
            &&& w.next_id == v.next_id
            &&& w.csr == v.csr
            &&& w.next_txid == count_up(v.next_txid)
            &&& w.wal.len() == v.wal.len() + 1
            &&& w.wal.drop_last() == v.wal
            &&& w.wal.last().record_type == RecordType::NodeDelete
            &&& w.wal.last().txid == v.next_txid
        }),
{
    assert(delete_node_after(v, node_id).wal.drop_last() =~= v.wal);
}

/// The record of a node that is marked as deleted.
pub open spec fn deleted_node(node: NodeRecord) -> NodeRecord {
    NodeRecord {
        flags: node.flags | node_flags::DELETED,
        generation: next_generation(node.generation),
        ..node
    }
}

/// The engine after a node was deleted.
pub open spec fn delete_node_after(v: EngineView, node_id: u64) -> EngineView {
    let slot = v.node_slot(node_id);
    let node = deleted_node(v.node(node_id));
    EngineView {
        pages: with_cell(v.pages, slot, node.spec_bytes()),
        label_index: v.label_index.remove(key_8_16(node.label_id as u64, node_id as u128)),
        node_free: v.node_free.push(slot),
        wal: v.logged(
            RecordType::NodeDelete,
            v.next_txid,
            versioned_payload(
                node_id,
                slot,
                TupleHeader { xmin: 0, xmax: v.next_txid },
                node.spec_bytes(),
            ),
        ),
        next_txid: count_up(v.next_txid),
        ..v
    }
}

/// The engine after a property was stored.
pub open spec fn put_property_after(v: EngineView, prop: PropertyView, slot: SlotRef) -> EngineView {
    let placed = insert_outcome(
        v.pages,
        RecordKind::Property,
        property_bytes(prop),
        v.property_pages,
    );
    EngineView {
        pages: placed.1,
        property_pages: placed.2,
        wal: v.logged(
            RecordType::PropertyInsert,
            1,
            slot_bytes(slot) + property_bytes(prop),
        ),
        ..v
    }
}

/// Storing a property logs that it was inserted, under transaction 1, as its slot and its
/// bytes; the indexes, the other pages, the ids, the transactions and the snapshot stay.
pub proof fn law_put_property_after(v: EngineView, prop: PropertyView, slot: SlotRef)
    ensures
        ({
            let w = put_property_after(v, prop, slot);
            &&& w.node_index == v.node_index
            &&& w.edge_index == v.edge_index
            &&& w.label_index == v.label_index
            &&& w.type_index == v.type_index
            &&& w.property_index == v.property_index
            &&& w.node_pages == v.node_pages
            &&& w.edge_pages == v.edge_pages
            &&& w.node_free == v.node_free
            &&& w.edge_free == v.edge_free
            &&& w.next_id == v.next_id
            &&& w.next_txid == v.next_txid
            &&& w.csr == v.csr
            &&& w.wal.len() == v.wal.len() + 1
            &&& w.wal.drop_last() == v.wal
            &&& w.wal.last().record_type == RecordType::PropertyInsert
            &&& w.wal.last().txid == 1
            &&& w.wal.last().payload == slot_bytes(slot) + property_bytes(prop)
        }),
{
    assert(put_property_after(v, prop, slot).wal.drop_last() =~= v.wal);
}

/// Attaching a property to a node or an edge logs the record as inserted, under transaction
/// 1; the indexes, the lists of pages, the ids, the transactions and the snapshot stay.
pub proof fn law_attach_after(v: EngineView, id: u64, slot: SlotRef)
    ensures
        ({
            let w = attach_to_node_after(v, id, slot);
            &&& w == (EngineView { pages: w.pages, wal: w.wal, ..v })
            &&& w.wal.len() == v.wal.len() + 1
            &&& w.wal.drop_last() == v.wal
            &&& w.wal.last().record_type == RecordType::NodeInsert
            &&& w.wal.last().txid == 1
        }),
        ({
            let w = attach_to_edge_after(v, id, slot);
            &&& w == (EngineView { pages: w.pages, wal: w.wal, ..v })
            &&& w.wal.len() == v.wal.len() + 1
            &&& w.wal.drop_last() == v.wal
            &&& w.wal.last().record_type == RecordType::EdgeInsert
            &&& w.wal.last().txid == 1
        }),
{
    assert(attach_to_node_after(v, id, slot).wal.drop_last() =~= v.wal);
    assert(attach_to_edge_after(v, id, slot).wal.drop_last() =~= v.wal);
}

/// A record with another first property is the same but for that and for how often it was
/// written.
pub proof fn law_first_property(node: NodeRecord, edge: StoredEdge, slot: SlotRef)
    ensures
        ({
            let n = with_first_property(node, slot);
            &&& n.first_property == slot
            &&& n.node_id == node.node_id
            &&& n.label_id == node.label_id
            &&& n.flags == node.flags
            &&& n.first_outgoing_edge == node.first_outgoing_edge
            &&& n.first_incoming_edge == node.first_incoming_edge
        }),
        ({
            let e = edge_with_first_property(edge, slot);
            &&& e.record.first_property == slot
            &&& e.record == (EdgeRecord {
                first_property: slot,
                generation: e.record.generation,
                ..edge.record
            })
            &&& e.source_id == edge.source_id
            &&& e.target_id == edge.target_id
        }),
{
}

/// The property in a slot.
pub open spec fn property_at(pages: Seq<PageView>, slot: SlotRef) -> Option<PropertyView> {
    let stored = properties_of(cells(pages));
    if stored.contains_key(slot) {
        property_of(stored[slot])
    } else {
        None
    }
}

/// The node with another first property.
pub open spec fn with_first_property(node: NodeRecord, prop_slot: SlotRef) -> NodeRecord {
    NodeRecord {
        first_property: prop_slot,
        generation: next_generation(node.generation),
        ..node
    }
}

/// The edge with another first property.
pub open spec fn edge_with_first_property(edge: StoredEdge, prop_slot: SlotRef) -> StoredEdge {
    StoredEdge {
        record: EdgeRecord {
            first_property: prop_slot,
            generation: next_generation(edge.record.generation),
            ..edge.record
        },
        ..edge
    }
}

/// The engine after a property became the first one of a node.
pub open spec fn attach_to_node_after(v: EngineView, node_id: u64, prop_slot: SlotRef) -> EngineView {
    let slot = v.node_slot(node_id);
    let node = with_first_property(v.node(node_id), prop_slot);
    EngineView {
        pages: with_cell(v.pages, slot, node.spec_bytes()),
        wal: v.logged(
            RecordType::NodeInsert,
            1,
            plain_payload(node_id, slot, node.spec_bytes()),
        ),
        ..v
    }
}

/// The engine after a property became the first one of an edge.
pub open spec fn attach_to_edge_after(v: EngineView, edge_id: u64, prop_slot: SlotRef) -> EngineView {
    let slot = v.edge_slot(edge_id);
    let edge = edge_with_first_property(v.edge(edge_id), prop_slot);
    EngineView {
        pages: with_cell(v.pages, slot, edge.spec_bytes()),
        wal: v.logged(
            RecordType::EdgeInsert,
            1,
            plain_payload(edge_id, slot, edge.spec_bytes()),
        ),
        ..v
    }
}

// ---------------------------------------------------------------------------
// Index entries
// ---------------------------------------------------------------------------

/// Where nodes, edges and the indexes of both stay, their entries lead where they
/// led.
pub proof fn lemma_same_entries(a: EngineView, b: EngineView)
    requires
        nodes_of(cells(a.pages)) == nodes_of(cells(b.pages)),
        edges_of(cells(a.pages)) == edges_of(cells(b.pages)),
        a.node_index == b.node_index,
        a.edge_index == b.edge_index,
    ensures
        a.indexes_lead() ==> b.indexes_lead(),
        a.all_indexed() ==> b.all_indexed(),
        a.lists_whole() ==> b.lists_whole(),
        a.label_index == b.label_index && a.type_index == b.type_index && a.indexes_agree()
            ==> b.indexes_agree(),
        a.edge_pages == b.edge_pages && a.sources_lead() ==> b.sources_lead(),
{
    if a.label_index == b.label_index && a.type_index == b.type_index && a.indexes_agree() {
        lemma_agreement_kept(a, b);
    }
    if a.edge_pages == b.edge_pages && a.sources_lead() {
        lemma_sources_kept(a, b);
    }
    if a.all_indexed() {
        assert forall|s: SlotRef| #[trigger] b.nodes().contains_key(s) implies b.node_indexed(
            s,
        ) by {
            assert(a.nodes().contains_key(s));
        }
        assert forall|s: SlotRef| #[trigger] b.edges().contains_key(s) implies b.edge_indexed(
            s,
        ) by {
            assert(a.edges().contains_key(s));
        }
    }
    if a.indexes_lead() {
        assert forall|id: u64| #[trigger] b.has_node(id) implies node_entry_ok(b, id) by {
            assert(a.has_node(id));
        }
        assert forall|id: u64| #[trigger] b.has_edge(id) implies edge_entry_ok(b, id) by {
            assert(a.has_edge(id));
        }
    }
}

/// Do the nodes and edges that the indexes lead to have their labels and types still,
/// and is none there that was deleted?
pub open spec fn kinds_kept(a: EngineView, b: EngineView) -> bool {
    &&& forall|id: u64| #[trigger]
        a.has_node(id) ==> b.node(id).label_id == a.node(id).label_id && (a.node(id).is_deleted()
            ==> b.node(id).is_deleted())
    &&& forall|id: u64| #[trigger]
        a.has_edge(id) ==> b.edge(id).record.type_id == a.edge(id).record.type_id && (a.edge(
            id,
        ).record.is_deleted() ==> b.edge(id).record.is_deleted())
}

/// Indexes that stay go on agreeing with the records, if labels and types stay.
pub proof fn lemma_agreement_kept(a: EngineView, b: EngineView)
    requires
        a.indexes_agree(),
        a.node_index == b.node_index,
        a.edge_index == b.edge_index,
        a.label_index == b.label_index,
        a.type_index == b.type_index,
        kinds_kept(a, b),
    ensures
        b.indexes_agree(),
{
    assert forall|label: u64, id: u128| #[trigger]
        b.label_index.contains_key(key_8_16(label, id)) implies label_entry_ok(b, label, id) by {
        assert(label_entry_ok(a, label, id));
    }
    assert forall|id: u64| #[trigger]
        b.has_node(id) && !b.node(id).is_deleted() implies b.label_index.contains_key(
        key_8_16(b.node(id).label_id as u64, id as u128),
    ) by {
        assert(a.has_node(id));
    }
    assert forall|type_id: u64, id: u128| #[trigger]
        b.type_index.contains_key(key_8_16(type_id, id)) implies type_entry_ok(b, type_id, id) by {
        assert(type_entry_ok(a, type_id, id));
    }
    assert forall|id: u64| #[trigger]
        b.has_edge(id) && !b.edge(id).record.is_deleted() implies b.type_index.contains_key(
        key_8_16(b.edge(id).record.type_id as u64, id as u128),
    ) by {
        assert(a.has_edge(id));
    }
}

/// The edges that are there go on leading to their sources, if they keep them.
pub proof fn lemma_sources_kept(a: EngineView, b: EngineView)
    requires
        a.sources_lead(),
        a.node_index.submap_of(b.node_index),
        forall|s: SlotRef| #[trigger]
            b.edges().contains_key(s) && !b.edges()[s].record.is_deleted() ==> {
                &&& a.edges().contains_key(s)
                &&& !a.edges()[s].record.is_deleted()
                &&& a.edges()[s].record.edge_id == b.edges()[s].record.edge_id
                &&& a.edges()[s].source_id == b.edges()[s].source_id
                &&& a.edges()[s].record.source_node == b.edges()[s].record.source_node
                &&& b.edge_pages.contains(s.spec_page_id() as u64)
            },
    ensures
        b.sources_lead(),
{
    assert forall|s: SlotRef| #[trigger]
        b.edges().contains_key(s) && !b.edges()[s].record.is_deleted() implies {
        let edge = b.edges()[s];
        &&& edge.record.edge_id != 0
        &&& b.edge_pages.contains(s.spec_page_id() as u64)
        &&& b.is_source(edge)
    } by {
        let edge = a.edges()[s];
        assert(a.is_source(edge));
        assert(a.node_index.dom().contains(id_key(edge.source_id)));
    }
}

/// Have both nodes the same first edges?
pub open spec fn same_heads(a: NodeRecord, b: NodeRecord) -> bool {
    a.first_outgoing_edge == b.first_outgoing_edge && a.first_incoming_edge
        == b.first_incoming_edge
}

/// Have both edges the same nodes, neighbours and mark?
pub open spec fn same_links(a: EdgeRecord, b: EdgeRecord) -> bool {
    &&& a.source_node == b.source_node
    &&& a.target_node == b.target_node
    &&& a.next_source_edge == b.next_source_edge
    &&& a.prev_source_edge == b.prev_source_edge
    &&& a.next_target_edge == b.next_target_edge
    &&& a.prev_target_edge == b.prev_target_edge
    &&& a.flags == b.flags
}

/// The entries of a new node.
proof fn lemma_put_node_entries(a: EngineView, b: EngineView, node: NodeRecord, slot: SlotRef)
    requires
        a.indexes_lead(),
        node.node_id != 0,
        nodes_of(cells(b.pages)) == nodes_of(cells(a.pages)).insert(slot, node),
        edges_of(cells(b.pages)) == edges_of(cells(a.pages)),
        !nodes_of(cells(a.pages)).contains_key(slot),
        b.node_index == a.node_index.insert(id_key(node.node_id), slot),
        b.edge_index == a.edge_index,
        !a.has_node(node.node_id),
    ensures
        b.indexes_lead(),
        a.all_indexed() ==> b.all_indexed(),
        a.lists_whole() && node.first_outgoing_edge.spec_is_null()
            && node.first_incoming_edge.spec_is_null() ==> b.lists_whole(),
        a.indexes_agree() && b.label_index == a.label_index.insert(
            key_8_16(node.label_id as u64, node.node_id as u128),
            slot,
        ) && b.type_index == a.type_index ==> b.indexes_agree(),
        a.sources_lead() && b.edge_pages == a.edge_pages ==> b.sources_lead(),
{
    let key = key_8_16(node.label_id as u64, node.node_id as u128);
    if a.indexes_agree() && b.label_index == a.label_index.insert(key, slot) && b.type_index
        == a.type_index {
        lemma_node_labelled(a, b, node, slot);
    }
    if a.sources_lead() && b.edge_pages == a.edge_pages {
        lemma_sources_kept(a, b);
    }
    if a.all_indexed() {
        assert forall|s: SlotRef| #[trigger] b.nodes().contains_key(s) implies b.node_indexed(
            s,
        ) by {
            if s != slot {
                assert(a.nodes().contains_key(s));
                assert(a.node_indexed(s));
                if b.nodes()[s].node_id != 0 && !b.nodes()[s].is_deleted() && id_key(
                    b.nodes()[s].node_id,
                ) == id_key(node.node_id) {
                    lemma_id_key_injective(b.nodes()[s].node_id, node.node_id);
                }
            }
        }
        assert forall|s: SlotRef| #[trigger] b.edges().contains_key(s) implies b.edge_indexed(
            s,
        ) by {
            assert(a.edges().contains_key(s));
        }
    }
    if a.lists_whole() && node.first_outgoing_edge.spec_is_null()
        && node.first_incoming_edge.spec_is_null() {
        lemma_lists_kept(
            a.nodes(),
            recs(a.edges()),
            b.nodes(),
            recs(b.edges()),
            Side::Source,
            None,
            None,
        );
        lemma_lists_kept(
            a.nodes(),
            recs(a.edges()),
            b.nodes(),
            recs(b.edges()),
            Side::Target,
            None,
            None,
        );
    }
    assert forall|id: u64| #[trigger] b.has_node(id) implies node_entry_ok(b, id) by {
        if id_key(id) == id_key(node.node_id) {
            lemma_id_key_injective(id, node.node_id);
        } else {
            assert(a.has_node(id));
            assert(node_entry_ok(a, id));
        }
    }
    assert forall|id: u64| #[trigger] b.has_edge(id) implies edge_entry_ok(b, id) by {
        assert(a.has_edge(id));
    }
}

/// The label of a new node.
proof fn lemma_node_labelled(a: EngineView, b: EngineView, node: NodeRecord, slot: SlotRef)
    requires
        a.indexes_lead(),
        a.indexes_agree(),
        nodes_of(cells(b.pages)) == nodes_of(cells(a.pages)).insert(slot, node),
        edges_of(cells(b.pages)) == edges_of(cells(a.pages)),
        !nodes_of(cells(a.pages)).contains_key(slot),
        b.node_index == a.node_index.insert(id_key(node.node_id), slot),
        b.edge_index == a.edge_index,
        !a.has_node(node.node_id),
        b.label_index == a.label_index.insert(
            key_8_16(node.label_id as u64, node.node_id as u128),
            slot,
        ),
        b.type_index == a.type_index,
    ensures
        b.indexes_agree(),
{
    let n = node.node_id;
    assert forall|id: u128| #[trigger] b.node_index.contains_key(be_u128(id)) implies id
        <= u64::MAX by {
        if be_u128(id) == id_key(n) {
            lemma_pow256_sizes();
            lemma_be_injective(id as nat, n as nat, 16);
        } else {
            assert(a.node_index.contains_key(be_u128(id)));
        }
    }
    assert forall|label: u64, id: u128| #[trigger]
        b.label_index.contains_key(key_8_16(label, id)) implies label_entry_ok(b, label, id) by {
        if key_8_16(label, id) == key_8_16(node.label_id as u64, n as u128) {
            law_8_16_injective((label, id), (node.label_id as u64, n as u128));
        } else {
            assert(label_entry_ok(a, label, id));
            assert(node_entry_ok(a, id as u64));
            if id_key(id as u64) == id_key(n) {
                lemma_id_key_injective(id as u64, n);
            }
        }
    }
    assert forall|id: u64| #[trigger]
        b.has_node(id) && !b.node(id).is_deleted() implies b.label_index.contains_key(
        key_8_16(b.node(id).label_id as u64, id as u128),
    ) by {
        if id_key(id) == id_key(n) {
            lemma_id_key_injective(id, n);
        } else {
            assert(a.has_node(id));
            assert(node_entry_ok(a, id));
        }
    }
    assert forall|type_id: u64, id: u128| #[trigger]
        b.type_index.contains_key(key_8_16(type_id, id)) implies type_entry_ok(b, type_id, id) by {
        assert(type_entry_ok(a, type_id, id));
    }
    assert forall|id: u64| #[trigger]
        b.has_edge(id) && !b.edge(id).record.is_deleted() implies b.type_index.contains_key(
        key_8_16(b.edge(id).record.type_id as u64, id as u128),
    ) by {
        assert(a.has_edge(id));
    }
}

/// A deleted node needs no label.
proof fn lemma_label_removed(a: EngineView, b: EngineView, node_id: u64)
    requires
        a.indexes_agree(),
        a.has_node(node_id),
        a.node(node_id).is_deleted(),
        b.pages == a.pages,
        b.node_index == a.node_index,
        b.edge_index == a.edge_index,
        b.label_index == a.label_index.remove(
            key_8_16(a.node(node_id).label_id as u64, node_id as u128),
        ),
        b.type_index == a.type_index,
    ensures
        b.indexes_agree(),
{
    assert forall|label: u64, id: u128| #[trigger]
        b.label_index.contains_key(key_8_16(label, id)) implies label_entry_ok(b, label, id) by {
        assert(label_entry_ok(a, label, id));
    }
    assert forall|id: u64| #[trigger]
        b.has_node(id) && !b.node(id).is_deleted() implies b.label_index.contains_key(
        key_8_16(b.node(id).label_id as u64, id as u128),
    ) by {
        assert(a.has_node(id));
        if key_8_16(b.node(id).label_id as u64, id as u128) == key_8_16(
            a.node(node_id).label_id as u64,
            node_id as u128,
        ) {
            law_8_16_injective(
                (b.node(id).label_id as u64, id as u128),
                (a.node(node_id).label_id as u64, node_id as u128),
            );
        }
    }
    assert forall|type_id: u64, id: u128| #[trigger]
        b.type_index.contains_key(key_8_16(type_id, id)) implies type_entry_ok(b, type_id, id) by {
        assert(type_entry_ok(a, type_id, id));
    }
    assert forall|id: u64| #[trigger]
        b.has_edge(id) && !b.edge(id).record.is_deleted() implies b.type_index.contains_key(
        key_8_16(b.edge(id).record.type_id as u64, id as u128),
    ) by {
        assert(a.has_edge(id));
    }
}

/// The entries after a node record was replaced by one with the same id.
pub proof fn lemma_set_node_entries(a: EngineView, b: EngineView, slot: SlotRef, node: NodeRecord)
    requires
        a.indexes_lead(),
        has_node_at(a.pages, slot),
        node_at(a.pages, slot).node_id == node.node_id,
        nodes_of(cells(b.pages)) == nodes_of(cells(a.pages)).insert(slot, node),
        edges_of(cells(b.pages)) == edges_of(cells(a.pages)),
        b.node_index == a.node_index,
        b.edge_index == a.edge_index,
    ensures
        b.indexes_lead(),
        a.all_indexed() && (node_at(a.pages, slot).is_deleted() ==> node.is_deleted())
            ==> b.all_indexed(),
        a.lists_whole() && same_heads(node_at(a.pages, slot), node) ==> b.lists_whole(),
        a.indexes_agree() && b.label_index == a.label_index && b.type_index == a.type_index
            && node_at(a.pages, slot).label_id == node.label_id && (node_at(
            a.pages,
            slot,
        ).is_deleted() ==> node.is_deleted()) ==> b.indexes_agree(),
        a.sources_lead() && b.edge_pages == a.edge_pages ==> b.sources_lead(),
{
    if a.indexes_agree() && b.label_index == a.label_index && b.type_index == a.type_index
        && node_at(a.pages, slot).label_id == node.label_id && (node_at(a.pages, slot).is_deleted()
        ==> node.is_deleted()) {
        assert forall|id: u64| #[trigger] a.has_node(id) implies b.node(id).label_id == a.node(
            id,
        ).label_id && (a.node(id).is_deleted() ==> b.node(id).is_deleted()) by {
            assert(node_entry_ok(a, id));
        }
        lemma_agreement_kept(a, b);
    }
    if a.sources_lead() && b.edge_pages == a.edge_pages {
        lemma_sources_kept(a, b);
    }
    if a.all_indexed() && (node_at(a.pages, slot).is_deleted() ==> node.is_deleted()) {
        assert forall|s: SlotRef| #[trigger] b.nodes().contains_key(s) implies b.node_indexed(
            s,
        ) by {
            assert(a.nodes().contains_key(s));
            assert(a.node_indexed(s));
        }
        assert forall|s: SlotRef| #[trigger] b.edges().contains_key(s) implies b.edge_indexed(
            s,
        ) by {
            assert(a.edges().contains_key(s));
        }
    }
    if a.lists_whole() && same_heads(node_at(a.pages, slot), node) {
        lemma_lists_kept(
            a.nodes(),
            recs(a.edges()),
            b.nodes(),
            recs(b.edges()),
            Side::Source,
            None,
            None,
        );
        lemma_lists_kept(
            a.nodes(),
            recs(a.edges()),
            b.nodes(),
            recs(b.edges()),
            Side::Target,
            None,
            None,
        );
    }
    assert forall|id: u64| #[trigger] b.has_node(id) implies node_entry_ok(b, id) by {
        assert(a.has_node(id));
        assert(node_entry_ok(a, id));
    }
    assert forall|id: u64| #[trigger] b.has_edge(id) implies edge_entry_ok(b, id) by {
        assert(a.has_edge(id));
    }
}

/// The entries after an edge was replaced by one with the same id.
pub proof fn lemma_set_edge_entries(a: EngineView, b: EngineView, slot: SlotRef, edge: StoredEdge)
    requires
        a.indexes_lead(),
        has_edge_at(a.pages, slot),
        edge_at(a.pages, slot).record.edge_id == edge.record.edge_id,
        nodes_of(cells(b.pages)) == nodes_of(cells(a.pages)),
        edges_of(cells(b.pages)) == edges_of(cells(a.pages)).insert(slot, edge),
        b.node_index == a.node_index,
        b.edge_index == a.edge_index,
    ensures
        b.indexes_lead(),
        a.all_indexed() && (edge_at(a.pages, slot).record.is_deleted()
            ==> edge.record.is_deleted()) ==> b.all_indexed(),
        a.lists_whole() && same_links(edge_at(a.pages, slot).record, edge.record)
            ==> b.lists_whole(),
        a.indexes_agree() && b.label_index == a.label_index && b.type_index == a.type_index
            && edge_at(a.pages, slot).record.type_id == edge.record.type_id && (edge_at(
            a.pages,
            slot,
        ).record.is_deleted() ==> edge.record.is_deleted()) ==> b.indexes_agree(),
        a.sources_lead() && b.edge_pages == a.edge_pages && edge_at(a.pages, slot).source_id
            == edge.source_id && edge_at(a.pages, slot).record.source_node
            == edge.record.source_node && (edge_at(a.pages, slot).record.is_deleted()
            ==> edge.record.is_deleted()) ==> b.sources_lead(),
{
    let before = edge_at(a.pages, slot);
    if a.indexes_agree() && b.label_index == a.label_index && b.type_index == a.type_index
        && before.record.type_id == edge.record.type_id && (before.record.is_deleted()
        ==> edge.record.is_deleted()) {
        assert forall|id: u64| #[trigger] a.has_edge(id) implies b.edge(id).record.type_id
            == a.edge(id).record.type_id && (a.edge(id).record.is_deleted() ==> b.edge(
            id,
        ).record.is_deleted()) by {
            assert(edge_entry_ok(a, id));
        }
        lemma_agreement_kept(a, b);
    }
    if a.sources_lead() && b.edge_pages == a.edge_pages && before.source_id == edge.source_id
        && before.record.source_node == edge.record.source_node && (before.record.is_deleted()
        ==> edge.record.is_deleted()) {
        lemma_sources_kept(a, b);
    }
    if a.all_indexed() && (edge_at(a.pages, slot).record.is_deleted()
        ==> edge.record.is_deleted()) {
        assert forall|s: SlotRef| #[trigger] b.nodes().contains_key(s) implies b.node_indexed(
            s,
        ) by {
            assert(a.nodes().contains_key(s));
        }
        assert forall|s: SlotRef| #[trigger] b.edges().contains_key(s) implies b.edge_indexed(
            s,
        ) by {
            assert(a.edges().contains_key(s));
            assert(a.edge_indexed(s));
        }
    }
    if a.lists_whole() && same_links(edge_at(a.pages, slot).record, edge.record) {
        lemma_lists_kept(
            a.nodes(),
            recs(a.edges()),
            b.nodes(),
            recs(b.edges()),
            Side::Source,
            None,
            None,
        );
        lemma_lists_kept(
            a.nodes(),
            recs(a.edges()),
            b.nodes(),
            recs(b.edges()),
            Side::Target,
            None,
            None,
        );
    }
    assert forall|id: u64| #[trigger] b.has_node(id) implies node_entry_ok(b, id) by {
        assert(a.has_node(id));
    }
    assert forall|id: u64| #[trigger] b.has_edge(id) implies edge_entry_ok(b, id) by {
        assert(a.has_edge(id));
        assert(edge_entry_ok(a, id));
    }
}

} // verus!
