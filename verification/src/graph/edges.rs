//! Edges of the storage engine.

use vstd::prelude::*;

use crate::bytes::be_bytes_len;
use crate::bytes::lemma_be_injective;
use crate::bytes::lemma_pow256_sizes;
use crate::graph::adjacency::linked;
use crate::graph::adjacency::next_of;
use crate::graph::adjacency::node_of;
use crate::graph::adjacency::place_ok;
use crate::graph::adjacency::prev_of;
use crate::graph::adjacency::unlinked;
use crate::graph::adjacency::Edges;
use crate::graph::adjacency::Side;
use crate::graph::engine::agreements_kept;
use crate::graph::engine::count_up;
use crate::graph::engine::edge_entry_ok;
use crate::graph::engine::edges_kept_but;
use crate::graph::engine::id_key;
use crate::graph::engine::label_entry_ok;
use crate::graph::engine::lemma_agreement_kept;
use crate::graph::engine::lemma_id_key_injective;
use crate::graph::engine::lemma_same_entries;
use crate::graph::engine::lemma_set_edge_entries;
use crate::graph::engine::lemma_sources_kept;
use crate::graph::engine::node_entry_ok;
use crate::graph::engine::nodes_kept;
use crate::graph::engine::type_entry_ok;
use crate::graph::engine::EngineView;
use crate::graph::engine::GraphStorageEngine;
use crate::graph::maintenance::reclaimable;
use crate::graph::reclaim::law_deleted_edge_counts;
use crate::graph::record::edge_flags;
use crate::graph::record::EdgeRecord;
use crate::graph::record::NodeRecord;
use crate::graph::record::SlotRef;
use crate::graph::stored::StoredEdge;
use crate::graph::wiring::bump;
use crate::graph::wiring::can_unwire;
use crate::graph::wiring::can_wire;
use crate::graph::wiring::check_unwire;
use crate::graph::wiring::check_wire;
use crate::graph::wiring::edge_at;
use crate::graph::wiring::edge_settled;
use crate::graph::wiring::ends;
use crate::graph::wiring::has_list;
use crate::graph::wiring::head_of;
use crate::graph::wiring::is_listed;
use crate::graph::wiring::lemma_lists_kept;
use crate::graph::wiring::lemma_one_list;
use crate::graph::wiring::lemma_unwire_lists;
use crate::graph::wiring::lemma_wire_lists;
use crate::graph::wiring::lemma_wired_is_listed;
use crate::graph::wiring::list_of;
use crate::graph::wiring::lists_ok;
use crate::graph::wiring::lists_ok_but;
use crate::graph::wiring::next_generation;
use crate::graph::wiring::recs;
use crate::graph::wiring::unwire;
use crate::graph::wiring::unwired;
use crate::graph::wiring::wire;
use crate::graph::wiring::wired;
use crate::graph::wiring::with_head;
use crate::index::key::be_u128;
use crate::index::key::edge_id_key;
use crate::index::key::key_8_16;
use crate::index::key::law_8_16_injective;
use crate::index::key::type_index_key;
use crate::storage::error::StorageError;
use crate::storage::heap::cells;
use crate::storage::heap::insert_outcome;
use crate::storage::heap::is_slot;
use crate::storage::heap::lemma_insert_listed;
use crate::storage::heap::with_cell;
use crate::storage::heap::PageView;
use crate::storage::heap::RecordKind;
use crate::storage::page::PageId;
use crate::storage::wal::build_versioned_payload;
use crate::storage::wal::versioned_payload;
use crate::storage::wal::RecordType;
use crate::storage::wal::TupleHeader;

verus! {

/// Can the edge be linked into the lists of its end nodes?
pub open spec fn ends_can_be_wired(v: EngineView, edge: StoredEdge) -> bool {
    &&& edge.record.source_node.spec_is_null() || can_wire(
        v.pages,
        Side::Source,
        edge.record.source_node,
    )
    &&& edge.record.target_node.spec_is_null() || can_wire(
        v.pages,
        Side::Target,
        edge.record.target_node,
    )
}

/// What storing an edge returns. `full` tells whether an index is out of page
/// ids.
pub open spec fn put_edge_result(v: EngineView, edge: StoredEdge, full: bool) -> Result<
    SlotRef,
    StorageError,
> {
    if edge.record.edge_id == 0 {
        Err(StorageError::InvalidId)
    } else if v.has_edge(edge.record.edge_id) {
        Err(StorageError::AlreadyExists)
    } else {
        match insert_outcome(v.pages, RecordKind::Edge, edge.spec_bytes(), v.edge_pages).0 {
            Ok(slot) => if full {
                Err(StorageError::IndexError)
            } else if !ends_can_be_wired(v, edge) {
                Err(StorageError::NotFound)
            } else {
                Ok(slot)
            },
            Err(e) => Err(e),
        }
    }
}

/// Is it the same edge, but for its neighbours and its generation?
pub open spec fn same_edge(a: StoredEdge, b: StoredEdge) -> bool {
    &&& b.source_id == a.source_id
    &&& b.target_id == a.target_id
    &&& b.record.edge_id == a.record.edge_id
    &&& b.record.type_id == a.record.type_id
    &&& b.record.source_node == a.record.source_node
    &&& b.record.target_node == a.record.target_node
    &&& b.record.first_property == a.record.first_property
    &&& b.record.flags == a.record.flags
}

/// The pages after a new edge was linked into the lists of its end nodes.
pub open spec fn edge_wired(pages: Seq<PageView>, edge: EdgeRecord, slot: SlotRef) -> Seq<PageView> {
    let p1 = if edge.source_node.spec_is_null() {
        pages
    } else {
        wired(pages, Side::Source, slot, edge.source_node)
    };
    if edge.target_node.spec_is_null() {
        p1
    } else {
        wired(p1, Side::Target, slot, edge.target_node)
    }
}

/// The engine after an edge was stored.
pub open spec fn put_edge_after(v: EngineView, edge: StoredEdge, slot: SlotRef) -> EngineView {
    let placed = insert_outcome(v.pages, RecordKind::Edge, edge.spec_bytes(), v.edge_pages);
    let pages = edge_wired(placed.1, edge.record, slot);
    EngineView {
        pages,
        edge_pages: placed.2,
        edge_index: v.edge_index.insert(id_key(edge.record.edge_id), slot),
        type_index: v.type_index.insert(
            key_8_16(edge.record.type_id as u64, edge.record.edge_id as u128),
            slot,
        ),
        wal: v.logged(
            RecordType::EdgeInsert,
            v.next_txid,
            versioned_payload(
                edge.record.edge_id,
                slot,
                TupleHeader { xmin: v.next_txid, xmax: 0 },
                edge_at(pages, slot).spec_bytes(),
            ),
        ),
        next_txid: count_up(v.next_txid),
        ..v
    }
}

/// Can the edge be unlinked from the lists of its end nodes?
pub open spec fn ends_can_be_unwired(v: EngineView, edge_id: u64) -> bool {
    let slot = v.edge_slot(edge_id);
    let rec = v.edge(edge_id).record;
    &&& rec.source_node.spec_is_null() || can_unwire(v.pages, Side::Source, slot, rec.source_node)
    &&& rec.target_node.spec_is_null() || can_unwire(v.pages, Side::Target, slot, rec.target_node)
}

/// The pages after an edge was unlinked from the lists of its end nodes.
pub open spec fn edge_unwired(pages: Seq<PageView>, slot: SlotRef) -> Seq<PageView> {
    let rec = edge_at(pages, slot).record;
    let p1 = if rec.source_node.spec_is_null() {
        pages
    } else {
        unwired(pages, Side::Source, slot, rec.source_node)
    };
    if rec.target_node.spec_is_null() {
        p1
    } else {
        unwired(p1, Side::Target, slot, rec.target_node)
    }
}

/// An edge that is marked as deleted.
pub open spec fn deleted_edge(edge: StoredEdge) -> StoredEdge {
    StoredEdge {
        record: EdgeRecord {
            flags: edge.record.flags | edge_flags::DELETED,
            generation: next_generation(edge.record.generation),
            ..edge.record
        },
        ..edge
    }
}

/// The engine after an edge was deleted.
pub open spec fn delete_edge_after(v: EngineView, edge_id: u64) -> EngineView {
    let slot = v.edge_slot(edge_id);
    let pages = edge_unwired(v.pages, slot);
    let edge = deleted_edge(edge_at(pages, slot));
    EngineView {
        pages: with_cell(pages, slot, edge.spec_bytes()),
        type_index: v.type_index.remove(
            key_8_16(edge.record.type_id as u64, edge_id as u128),
        ),
        edge_free: v.edge_free.push(slot),
        wal: v.logged(
            RecordType::EdgeDelete,
            v.next_txid,
            versioned_payload(
                edge_id,
                slot,
                TupleHeader { xmin: 0, xmax: v.next_txid },
                edge.spec_bytes(),
            ),
        ),
        next_txid: count_up(v.next_txid),
        ..v
    }
}

/// Storing an edge adds it to the indexes of edges and of types, under its id and its type,
/// and logs that it was inserted, with its transaction; the other indexes, the lists of free
/// slots, the ids and the snapshot stay.
pub proof fn law_put_edge_after(v: EngineView, edge: StoredEdge, slot: SlotRef)
    ensures
        ({
            let w = put_edge_after(v, edge, slot);
            let id = edge.record.edge_id;
            &&& w.has_edge(id)
            &&& w.edge_slot(id) == slot
            &&& forall|other: u64| #![trigger w.has_edge(other)]
                other != id ==> w.has_edge(other) == v.has_edge(other) && (v.has_edge(other)
                    ==> w.edge_slot(other) == v.edge_slot(other))
            &&& w.type_index == v.type_index.insert(
                key_8_16(edge.record.type_id as u64, id as u128),
                slot,
            )
            &&& w.node_index == v.node_index
            &&& w.label_index == v.label_index
            &&& w.property_index == v.property_index
            &&& w.node_pages == v.node_pages
            &&& w.property_pages == v.property_pages
            &&& w.node_free == v.node_free
            &&& w.edge_free == v.edge_free
            &&& w.next_id == v.next_id
            &&& w.csr == v.csr
            &&& w.next_txid == count_up(v.next_txid)
            &&& w.wal.len() == v.wal.len() + 1
            &&& w.wal.drop_last() == v.wal
            &&& w.wal.last().record_type == RecordType::EdgeInsert
            &&& w.wal.last().txid == v.next_txid
        }),
{
    let w = put_edge_after(v, edge, slot);
    let id = edge.record.edge_id;
    assert forall|other: u64| #![trigger w.has_edge(other)]
        other != id implies w.has_edge(other) == v.has_edge(other) && (v.has_edge(other)
        ==> w.edge_slot(other) == v.edge_slot(other)) by {
        if id_key(other) == id_key(id) {
            lemma_id_key_injective(other, id);
        }
    }
    assert(w.wal.drop_last() =~= v.wal);
}

/// Deleting an edge keeps its slot for later and logs that it was deleted, with its
/// transaction; it stays in the index of edges, and the other indexes but that of types, the
/// ids and the snapshot stay.
pub proof fn law_delete_edge_after(v: EngineView, edge_id: u64)
    ensures
        ({
            let w = delete_edge_after(v, edge_id);
            &&& w.node_index == v.node_index
            &&& w.edge_index == v.edge_index
            &&& w.label_index == v.label_index
            &&& w.property_index == v.property_index
            &&& w.node_pages == v.node_pages
            &&& w.edge_pages == v.edge_pages
            &&& w.property_pages == v.property_pages
            &&& w.node_free == v.node_free
            &&& w.edge_free == v.edge_free.push(v.edge_slot(edge_id))
            &&& w.next_id == v.next_id
            &&& w.csr == v.csr
            &&& w.next_txid == count_up(v.next_txid)
            &&& w.wal.len() == v.wal.len() + 1
            &&& w.wal.drop_last() == v.wal
            &&& w.wal.last().record_type == RecordType::EdgeDelete
            &&& w.wal.last().txid == v.next_txid
        }),
{
    assert(delete_edge_after(v, edge_id).wal.drop_last() =~= v.wal);
}

// ---------------------------------------------------------------------------
// Nodes and edges as a graph
// ---------------------------------------------------------------------------

/// Node records and edge records by their slots.
pub type Records = (Map<SlotRef, NodeRecord>, Edges);

/// The records of the engine.
pub open spec fn records_of(v: EngineView) -> Records {
    (v.nodes(), recs(v.edges()))
}

/// The records after an edge was linked at the head of a list of `node`, if there
/// is a node.
pub open spec fn side_linked(g: Records, side: Side, slot: SlotRef, node: SlotRef) -> Records {
    if node.spec_is_null() {
        g
    } else {
        (
            g.0.insert(node, with_head(g.0[node], side, slot)),
            linked(g.1, side, slot, head_of(g.0[node], side)),
        )
    }
}

/// The records after an edge was unlinked from the list of its node, if it is in
/// one.
pub open spec fn side_unlinked(g: Records, side: Side, slot: SlotRef) -> Records {
    let rec = g.1[slot];
    let node = node_of(rec, side);
    let first = prev_of(rec, side).spec_is_null();
    if node.spec_is_null() || (first && head_of(g.0[node], side) != slot) {
        g
    } else {
        (
            if first {
                g.0.insert(node, with_head(g.0[node], side, next_of(rec, side)))
            } else {
                g.0
            },
            unlinked(g.1, side, slot),
        )
    }
}

/// Is a new edge linked into the lists of its end nodes, and nothing else
/// changed?
pub open spec fn linked_ends(a: EngineView, b: EngineView, rec: EdgeRecord, slot: SlotRef) -> bool {
    &&& records_of(b) == side_linked(
        side_linked(records_of(a), Side::Source, slot, rec.source_node),
        Side::Target,
        slot,
        rec.target_node,
    )
    &&& ends(b.edges()) == ends(a.edges())
}

/// Is an edge unlinked from the lists of its end nodes, and nothing else changed?
pub open spec fn unlinked_ends(a: EngineView, b: EngineView, slot: SlotRef) -> bool {
    &&& records_of(b) == side_unlinked(
        side_unlinked(records_of(a), Side::Source, slot),
        Side::Target,
        slot,
    )
    &&& ends(b.edges()) == ends(a.edges())
}

/// Have both the same slots with the same ids, kinds, ends, properties and marks in them?
spec fn same_ids(g: Records, h: Records) -> bool {
    &&& forall|n: SlotRef| #[trigger] g.0.contains_key(n) == h.0.contains_key(n)
    &&& forall|n: SlotRef| #[trigger]
        g.0.contains_key(n) ==> g.0[n].node_id == h.0[n].node_id && g.0[n].flags == h.0[n].flags
            && g.0[n].label_id == h.0[n].label_id && g.0[n].first_property == h.0[n].first_property
    &&& forall|e: SlotRef| #[trigger] g.1.contains_key(e) == h.1.contains_key(e)
    &&& forall|e: SlotRef| #[trigger]
        g.1.contains_key(e) ==> g.1[e].edge_id == h.1[e].edge_id && g.1[e].flags == h.1[e].flags
            && g.1[e].type_id == h.1[e].type_id && g.1[e].source_node == h.1[e].source_node
            && g.1[e].target_node == h.1[e].target_node && g.1[e].first_property
            == h.1[e].first_property
}

proof fn lemma_side_linked_ids(g: Records, side: Side, slot: SlotRef, node: SlotRef)
    requires
        g.1.contains_key(slot),
        !node.spec_is_null() ==> g.0.contains_key(node) && (head_of(
            g.0[node],
            side,
        ).spec_is_null() || g.1.contains_key(head_of(g.0[node], side))),
    ensures
        same_ids(g, side_linked(g, side, slot, node)),
{
}

proof fn lemma_side_unlinked_ids(g: Records, side: Side, slot: SlotRef)
    requires
        g.1.contains_key(slot),
        ({
            let rec = g.1[slot];
            let node = node_of(rec, side);
            let prev = prev_of(rec, side);
            let next = next_of(rec, side);
            !node.spec_is_null() ==> (prev.spec_is_null() ==> g.0.contains_key(node)) && ((
            !prev.spec_is_null() || head_of(g.0[node], side) == slot) ==> (prev.spec_is_null()
                || g.1.contains_key(prev)) && (next.spec_is_null() || g.1.contains_key(next)))
        }),
    ensures
        same_ids(g, side_unlinked(g, side, slot)),
{
}

/// A slot with a record is one that stands for a slot.
proof fn lemma_edge_slot_not_null(v: EngineView, slot: SlotRef)
    requires
        v.edges().contains_key(slot),
    ensures
        !slot.spec_is_null(),
{
    assert(cells(v.pages).contains_key(slot));
    assert(is_slot(v.pages, slot));
}

proof fn lemma_still_wirable(start: EngineView, middle: EngineView, rec: EdgeRecord, slot: SlotRef)
    requires
        start.edges().contains_key(slot),
        records_of(middle) == side_linked(
            records_of(start),
            Side::Source,
            slot,
            rec.source_node,
        ),
        rec.source_node.spec_is_null() || can_wire(start.pages, Side::Source, rec.source_node),
        rec.target_node.spec_is_null() || can_wire(start.pages, Side::Target, rec.target_node),
    ensures
        middle.edges().contains_key(slot),
        rec.target_node.spec_is_null() || can_wire(middle.pages, Side::Target, rec.target_node),
{
    lemma_side_linked_ids(records_of(start), Side::Source, slot, rec.source_node);
    let g = records_of(start);
    let h = records_of(middle);
    assert(g.1.contains_key(slot) == h.1.contains_key(slot));
    if !rec.target_node.spec_is_null() {
        let n = rec.target_node;
        let head = head_of(start.nodes()[n], Side::Target);
        assert(g.0.contains_key(n) == h.0.contains_key(n));
        assert(head_of(h.0[n], Side::Target) == head);
        assert(g.1.contains_key(head) == h.1.contains_key(head));
    }
}

proof fn lemma_still_unwirable(start: EngineView, middle: EngineView, slot: SlotRef)
    requires
        start.edges().contains_key(slot),
        records_of(middle) == side_unlinked(records_of(start), Side::Source, slot),
        ({
            let rec = start.edges()[slot].record;
            &&& rec.source_node.spec_is_null() || can_unwire(
                start.pages,
                Side::Source,
                slot,
                rec.source_node,
            )
            &&& rec.target_node.spec_is_null() || can_unwire(
                start.pages,
                Side::Target,
                slot,
                rec.target_node,
            )
        }),
    ensures
        middle.edges().contains_key(slot),
        middle.edges()[slot].record.target_node == start.edges()[slot].record.target_node,
        middle.edges()[slot].record.target_node.spec_is_null() || can_unwire(
            middle.pages,
            Side::Target,
            slot,
            middle.edges()[slot].record.target_node,
        ),
{
    lemma_side_unlinked_ids(records_of(start), Side::Source, slot);
    let g = records_of(start);
    let h = records_of(middle);
    assert(g.1.contains_key(slot) == h.1.contains_key(slot));
    assert(h.1[slot] == middle.edges()[slot].record);
    assert(g.1[slot] == start.edges()[slot].record);
    assert(h.1[slot].target_node == g.1[slot].target_node);
    assert(prev_of(h.1[slot], Side::Target) == prev_of(g.1[slot], Side::Target));
    assert(next_of(h.1[slot], Side::Target) == next_of(g.1[slot], Side::Target));
    let n = g.1[slot].target_node;
    if !n.spec_is_null() {
        assert(g.0.contains_key(n) == h.0.contains_key(n));
        assert(head_of(h.0[n], Side::Target) == head_of(g.0[n], Side::Target));
        let prev = prev_of(g.1[slot], Side::Target);
        let next = next_of(g.1[slot], Side::Target);
        assert(g.1.contains_key(prev) == h.1.contains_key(prev));
        assert(g.1.contains_key(next) == h.1.contains_key(next));
    }
}

/// The entries of a new edge.
proof fn lemma_put_edge_entries(
    a: EngineView,
    placed: EngineView,
    b: EngineView,
    edge: StoredEdge,
    slot: SlotRef,
)
    requires
        a.indexes_lead(),
        edge.record.edge_id != 0,
        ends_can_be_wired(a, edge),
        placed.nodes() == a.nodes(),
        placed.edges() == a.edges().insert(slot, edge),
        !a.edges().contains_key(slot),
        linked_ends(placed, b, edge.record, slot),
        b.node_index == a.node_index,
        b.edge_index == a.edge_index.insert(id_key(edge.record.edge_id), slot),
        !a.has_edge(edge.record.edge_id),
    ensures
        b.indexes_lead(),
        b.edges().contains_key(slot),
        a.all_indexed() ==> b.all_indexed(),
        same_ids(records_of(placed), records_of(b)),
{
    let g = records_of(placed);
    let g1 = side_linked(g, Side::Source, slot, edge.record.source_node);
    let h = records_of(b);
    lemma_side_linked_ids(g, Side::Source, slot, edge.record.source_node);
    assert(g1.1.contains_key(slot)) by {
        assert(g.1.contains_key(slot));
    }
    if !edge.record.target_node.spec_is_null() {
        let n = edge.record.target_node;
        assert(g.0.contains_key(n));
        assert(head_of(g1.0[n], Side::Target) == head_of(g.0[n], Side::Target));
        assert(g.1.contains_key(head_of(g.0[n], Side::Target)) == g1.1.contains_key(
            head_of(g.0[n], Side::Target),
        ));
    }
    lemma_side_linked_ids(g1, Side::Target, slot, edge.record.target_node);
    assert forall|id: u64| #[trigger] b.has_node(id) implies node_entry_ok(b, id) by {
        assert(a.has_node(id));
        assert(node_entry_ok(a, id));
        let n = a.node_slot(id);
        assert(g.0.contains_key(n) == g1.0.contains_key(n));
        assert(g1.0.contains_key(n) == h.0.contains_key(n));
    }
    assert forall|id: u64| #[trigger] b.has_edge(id) implies edge_entry_ok(b, id) by {
        let e = b.edge_slot(id);
        if id_key(id) == id_key(edge.record.edge_id) {
            lemma_id_key_injective(id, edge.record.edge_id);
        } else {
            assert(a.has_edge(id));
            assert(edge_entry_ok(a, id));
        }
        assert(g.1.contains_key(e) == g1.1.contains_key(e));
        assert(g1.1.contains_key(e) == h.1.contains_key(e));
        assert(h.1[e] == b.edges()[e].record);
    }
    assert(g1.1.contains_key(slot) == h.1.contains_key(slot));
    if a.all_indexed() {
        assert forall|s: SlotRef| #[trigger] b.nodes().contains_key(s) implies b.node_indexed(
            s,
        ) by {
            assert(g.0.contains_key(s) == g1.0.contains_key(s));
            assert(g1.0.contains_key(s) == h.0.contains_key(s));
            assert(a.nodes().contains_key(s));
            assert(a.node_indexed(s));
        }
        assert forall|s: SlotRef| #[trigger] b.edges().contains_key(s) implies b.edge_indexed(
            s,
        ) by {
            assert(h.1.contains_key(s));
            assert(g.1.contains_key(s) == g1.1.contains_key(s));
            assert(g1.1.contains_key(s) == h.1.contains_key(s));
            assert(h.1[s] == b.edges()[s].record);
            assert(g.1[s] == placed.edges()[s].record);
            if s != slot {
                assert(a.edges().contains_key(s));
                assert(a.edge_indexed(s));
                if b.edges()[s].record.edge_id != 0 && !b.edges()[s].record.is_deleted()
                    && id_key(b.edges()[s].record.edge_id) == id_key(edge.record.edge_id) {
                    lemma_id_key_injective(b.edges()[s].record.edge_id, edge.record.edge_id);
                }
            }
        }
    }
}

/// The type of a new edge.
proof fn lemma_edge_typed(
    a: EngineView,
    placed: EngineView,
    b: EngineView,
    edge: StoredEdge,
    slot: SlotRef,
)
    requires
        a.indexes_lead(),
        a.indexes_agree(),
        placed.nodes() == a.nodes(),
        placed.edges() == a.edges().insert(slot, edge),
        !a.edges().contains_key(slot),
        same_ids(records_of(placed), records_of(b)),
        b.node_index == a.node_index,
        b.edge_index == a.edge_index.insert(id_key(edge.record.edge_id), slot),
        !a.has_edge(edge.record.edge_id),
        b.label_index == a.label_index,
        b.type_index == a.type_index.insert(
            key_8_16(edge.record.type_id as u64, edge.record.edge_id as u128),
            slot,
        ),
    ensures
        b.indexes_agree(),
{
    let n = edge.record.edge_id;
    let g = records_of(placed);
    let h = records_of(b);
    assert forall|id: u64| #[trigger] a.has_node(id) implies b.node(id).label_id == a.node(
        id,
    ).label_id && b.node(id).flags == a.node(id).flags by {
        assert(node_entry_ok(a, id));
        assert(g.0.contains_key(a.node_slot(id)));
    }
    assert forall|id: u64| #[trigger] a.has_edge(id) && id != n implies b.edge_slot(id)
        == a.edge_slot(id) && b.edge(id).record.type_id == a.edge(id).record.type_id && b.edge(
        id,
    ).record.flags == a.edge(id).record.flags by {
        if id_key(id) == id_key(n) {
            lemma_id_key_injective(id, n);
        }
        assert(edge_entry_ok(a, id));
        let e = a.edge_slot(id);
        assert(g.1.contains_key(e));
        assert(h.1.contains_key(e));
        assert(h.1[e] == b.edges()[e].record && g.1[e] == placed.edges()[e].record);
    }
    assert(b.edges()[slot].record.type_id == edge.record.type_id) by {
        assert(g.1.contains_key(slot));
        assert(h.1.contains_key(slot));
        assert(h.1[slot] == b.edges()[slot].record && g.1[slot] == edge.record);
    }
    assert forall|id: u128| #[trigger] b.edge_index.contains_key(be_u128(id)) implies id
        <= u64::MAX by {
        if be_u128(id) == id_key(n) {
            lemma_pow256_sizes();
            lemma_be_injective(id as nat, n as nat, 16);
        } else {
            assert(a.edge_index.contains_key(be_u128(id)));
        }
    }
    assert forall|label: u64, id: u128| #[trigger]
        b.label_index.contains_key(key_8_16(label, id)) implies label_entry_ok(b, label, id) by {
        assert(label_entry_ok(a, label, id));
    }
    assert forall|id: u64| #[trigger]
        b.has_node(id) && !b.node(id).is_deleted() implies b.label_index.contains_key(
        key_8_16(b.node(id).label_id as u64, id as u128),
    ) by {
        assert(a.has_node(id));
    }
    assert forall|type_id: u64, id: u128| #[trigger]
        b.type_index.contains_key(key_8_16(type_id, id)) implies type_entry_ok(b, type_id, id) by {
        if key_8_16(type_id, id) == key_8_16(edge.record.type_id as u64, n as u128) {
            law_8_16_injective((type_id, id), (edge.record.type_id as u64, n as u128));
        } else {
            assert(type_entry_ok(a, type_id, id));
            assert(id != n);
        }
    }
    assert forall|id: u64| #[trigger]
        b.has_edge(id) && !b.edge(id).record.is_deleted() implies b.type_index.contains_key(
        key_8_16(b.edge(id).record.type_id as u64, id as u128),
    ) by {
        if id != n {
            if id_key(id) == id_key(n) {
                lemma_id_key_injective(id, n);
            }
            assert(a.has_edge(id));
        }
    }
}

/// The source of a new edge.
proof fn lemma_edge_sourced(
    a: EngineView,
    placed: EngineView,
    b: EngineView,
    edge: StoredEdge,
    slot: SlotRef,
)
    requires
        a.sources_lead(),
        edge.record.edge_id != 0,
        edge.record.is_deleted() || a.is_source(edge),
        placed.edges() == a.edges().insert(slot, edge),
        same_ids(records_of(placed), records_of(b)),
        ends(b.edges()) == ends(placed.edges()),
        b.node_index == a.node_index,
        forall|id: PageId| a.edge_pages.contains(id) ==> b.edge_pages.contains(id),
        b.edge_pages.contains(slot.spec_page_id() as u64),
    ensures
        b.sources_lead(),
{
    let g = records_of(placed);
    let h = records_of(b);
    assert forall|s: SlotRef| #[trigger]
        b.edges().contains_key(s) && !b.edges()[s].record.is_deleted() implies {
        let e = b.edges()[s];
        &&& e.record.edge_id != 0
        &&& b.edge_pages.contains(s.spec_page_id() as u64)
        &&& b.is_source(e)
    } by {
        assert(h.1.contains_key(s));
        assert(g.1.contains_key(s) == h.1.contains_key(s));
        assert(h.1[s] == b.edges()[s].record && g.1[s] == placed.edges()[s].record);
        assert(ends(b.edges())[s] == ends(placed.edges())[s]);
        if s != slot {
            assert(a.edges().contains_key(s));
        }
    }
}

/// A deleted edge needs no type.
proof fn lemma_type_removed(a: EngineView, b: EngineView, edge_id: u64)
    requires
        a.indexes_agree(),
        a.has_edge(edge_id),
        a.edge(edge_id).record.is_deleted(),
        b.pages == a.pages,
        b.node_index == a.node_index,
        b.edge_index == a.edge_index,
        b.label_index == a.label_index,
        b.type_index == a.type_index.remove(
            key_8_16(a.edge(edge_id).record.type_id as u64, edge_id as u128),
        ),
    ensures
        b.indexes_agree(),
{
    assert forall|label: u64, id: u128| #[trigger]
        b.label_index.contains_key(key_8_16(label, id)) implies label_entry_ok(b, label, id) by {
        assert(label_entry_ok(a, label, id));
    }
    assert forall|id: u64| #[trigger]
        b.has_node(id) && !b.node(id).is_deleted() implies b.label_index.contains_key(
        key_8_16(b.node(id).label_id as u64, id as u128),
    ) by {
        assert(a.has_node(id));
    }
    assert forall|type_id: u64, id: u128| #[trigger]
        b.type_index.contains_key(key_8_16(type_id, id)) implies type_entry_ok(b, type_id, id) by {
        assert(type_entry_ok(a, type_id, id));
    }
    assert forall|id: u64| #[trigger]
        b.has_edge(id) && !b.edge(id).record.is_deleted() implies b.type_index.contains_key(
        key_8_16(b.edge(id).record.type_id as u64, id as u128),
    ) by {
        assert(a.has_edge(id));
        if key_8_16(b.edge(id).record.type_id as u64, id as u128) == key_8_16(
            a.edge(edge_id).record.type_id as u64,
            edge_id as u128,
        ) {
            law_8_16_injective(
                (b.edge(id).record.type_id as u64, id as u128),
                (a.edge(edge_id).record.type_id as u64, edge_id as u128),
            );
        }
    }
}

/// A new edge is still the same edge once it is linked.
proof fn lemma_linked_edge(placed: EngineView, b: EngineView, edge: StoredEdge, slot: SlotRef)
    requires
        placed.edges().contains_key(slot),
        placed.edges()[slot] == edge,
        linked_ends(placed, b, edge.record, slot),
        b.edges().contains_key(slot),
    ensures
        same_edge(edge, b.edges()[slot]),
{
    let g = records_of(placed);
    let h = records_of(b);
    assert(g.1[slot] == edge.record);
    assert(h.1[slot] == b.edges()[slot].record);
    assert(ends(placed.edges())[slot] == ends(b.edges())[slot]);
}

/// Are the edges the same, but for one more in a slot, for their neighbours in lists and for
/// how often they were written?
pub open spec fn edges_kept_and(a: EngineView, b: EngineView, slot: SlotRef) -> bool {
    &&& forall|s: SlotRef| #[trigger]
        b.edges().contains_key(s) == (a.edges().contains_key(s) || s == slot)
    &&& forall|s: SlotRef| #[trigger]
        b.edges().contains_key(s) && s != slot ==> same_edge(a.edges()[s], b.edges()[s])
}

/// Linking a new edge changes the links of others, and nothing else of them.
proof fn lemma_linked_alone(
    a: EngineView,
    placed: EngineView,
    b: EngineView,
    edge: StoredEdge,
    slot: SlotRef,
)
    requires
        placed.nodes() == a.nodes(),
        placed.edges() == a.edges().insert(slot, edge),
        same_ids(records_of(placed), records_of(b)),
        ends(b.edges()) == ends(placed.edges()),
    ensures
        nodes_kept(a, b),
        edges_kept_and(a, b, slot),
{
    let g = records_of(placed);
    let h = records_of(b);
    assert forall|s: SlotRef| #[trigger] b.nodes().contains_key(s) == a.nodes().contains_key(s) by {
        assert(g.0.contains_key(s) == h.0.contains_key(s));
    }
    assert forall|s: SlotRef| #[trigger] b.nodes().contains_key(s) implies {
        &&& b.nodes()[s].node_id == a.nodes()[s].node_id
        &&& b.nodes()[s].label_id == a.nodes()[s].label_id
        &&& b.nodes()[s].flags == a.nodes()[s].flags
        &&& b.nodes()[s].first_property == a.nodes()[s].first_property
    } by {
        assert(g.0.contains_key(s) == h.0.contains_key(s));
    }
    assert forall|s: SlotRef| #[trigger]
        b.edges().contains_key(s) == (a.edges().contains_key(s) || s == slot) by {
        assert(g.1.contains_key(s) == h.1.contains_key(s));
    }
    assert forall|s: SlotRef| #[trigger] b.edges().contains_key(s) && s != slot implies same_edge(
        a.edges()[s],
        b.edges()[s],
    ) by {
        assert(g.1.contains_key(s) == h.1.contains_key(s));
        assert(ends(b.edges())[s] == ends(placed.edges())[s]);
        assert(g.1[s] == placed.edges()[s].record);
        assert(h.1[s] == b.edges()[s].record);
    }
}

/// The entries after an edge was unlinked and marked.
proof fn lemma_delete_edge_entries(
    a: EngineView,
    apart: EngineView,
    b: EngineView,
    slot: SlotRef,
    marked: StoredEdge,
)
    requires
        a.indexes_lead(),
        a.edges().contains_key(slot),
        unlinked_ends(a, apart, slot),
        ({
            let rec = a.edges()[slot].record;
            &&& rec.source_node.spec_is_null() || can_unwire(
                a.pages,
                Side::Source,
                slot,
                rec.source_node,
            )
            &&& rec.target_node.spec_is_null() || can_unwire(
                a.pages,
                Side::Target,
                slot,
                rec.target_node,
            )
        }),
        marked.record.edge_id == apart.edges()[slot].record.edge_id,
        apart.node_index == a.node_index,
        apart.edge_index == a.edge_index,
        b.nodes() == apart.nodes(),
        b.edges() == apart.edges().insert(slot, marked),
        b.node_index == a.node_index,
        b.edge_index == a.edge_index,
        marked.record.is_deleted(),
    ensures
        b.indexes_lead(),
        a.all_indexed() ==> b.all_indexed(),
        a.indexes_agree() && b.label_index == a.label_index && b.type_index == a.type_index
            && marked.record.type_id == apart.edges()[slot].record.type_id ==> b.indexes_agree(),
        a.sources_lead() && b.edge_pages == a.edge_pages ==> b.sources_lead(),
{
    lemma_unlinked_ends_ids(a, apart, slot);
    if a.indexes_agree() && b.label_index == a.label_index && b.type_index == a.type_index
        && marked.record.type_id == apart.edges()[slot].record.type_id {
        let g = records_of(a);
        let h = records_of(apart);
        assert forall|id: u64| #[trigger] a.has_node(id) implies b.node(id).label_id == a.node(
            id,
        ).label_id && b.node(id).flags == a.node(id).flags by {
            assert(node_entry_ok(a, id));
            assert(g.0.contains_key(a.node_slot(id)));
        }
        assert forall|id: u64| #[trigger] a.has_edge(id) implies b.edge(id).record.type_id
            == a.edge(id).record.type_id && (a.edge(id).record.is_deleted() ==> b.edge(
            id,
        ).record.is_deleted()) by {
            assert(edge_entry_ok(a, id));
            let e = a.edge_slot(id);
            assert(g.1.contains_key(e));
            assert(h.1.contains_key(e));
            assert(h.1[e] == apart.edges()[e].record && g.1[e] == a.edges()[e].record);
        }
        lemma_agreement_kept(a, b);
    }
    if a.sources_lead() && b.edge_pages == a.edge_pages {
        let g = records_of(a);
        let h = records_of(apart);
        assert forall|s: SlotRef| #[trigger]
            b.edges().contains_key(s) && !b.edges()[s].record.is_deleted() implies {
            &&& a.edges().contains_key(s)
            &&& !a.edges()[s].record.is_deleted()
            &&& a.edges()[s].record.edge_id == b.edges()[s].record.edge_id
            &&& a.edges()[s].source_id == b.edges()[s].source_id
            &&& a.edges()[s].record.source_node == b.edges()[s].record.source_node
            &&& b.edge_pages.contains(s.spec_page_id() as u64)
        } by {
            assert(h.1.contains_key(s));
            assert(g.1.contains_key(s) == h.1.contains_key(s));
            assert(h.1[s] == apart.edges()[s].record && g.1[s] == a.edges()[s].record);
            assert(ends(apart.edges())[s] == ends(a.edges())[s]);
            assert(a.edges().contains_key(s));
        }
        lemma_sources_kept(a, b);
    }
    if a.all_indexed() {
        let g = records_of(a);
        let h = records_of(apart);
        assert forall|s: SlotRef| #[trigger] b.nodes().contains_key(s) implies b.node_indexed(
            s,
        ) by {
            assert(g.0.contains_key(s) == h.0.contains_key(s));
            assert(a.nodes().contains_key(s));
            assert(a.node_indexed(s));
        }
        assert forall|s: SlotRef| #[trigger] b.edges().contains_key(s) implies b.edge_indexed(
            s,
        ) by {
            if s != slot {
                assert(h.1.contains_key(s));
                assert(g.1.contains_key(s) == h.1.contains_key(s));
                assert(h.1[s] == b.edges()[s].record);
                assert(g.1[s] == a.edges()[s].record);
                assert(a.edges().contains_key(s));
                assert(a.edge_indexed(s));
            }
        }
    }
    assert(apart.indexes_lead()) by {
        let g = records_of(a);
        let h = records_of(apart);
        assert forall|id: u64| #[trigger] apart.has_node(id) implies node_entry_ok(
            apart,
            id,
        ) by {
            assert(a.has_node(id));
            assert(node_entry_ok(a, id));
            assert(g.0.contains_key(a.node_slot(id)) == h.0.contains_key(a.node_slot(id)));
        }
        assert forall|id: u64| #[trigger] apart.has_edge(id) implies edge_entry_ok(
            apart,
            id,
        ) by {
            assert(a.has_edge(id));
            assert(edge_entry_ok(a, id));
            let e = a.edge_slot(id);
            assert(g.1.contains_key(e) == h.1.contains_key(e));
            assert(h.1[e] == apart.edges()[e].record);
        }
    }
    lemma_set_edge_entries(apart, b, slot, marked);
}

proof fn lemma_unlinked_ends_ids(a: EngineView, apart: EngineView, slot: SlotRef)
    requires
        a.edges().contains_key(slot),
        unlinked_ends(a, apart, slot),
        ({
            let rec = a.edges()[slot].record;
            &&& rec.source_node.spec_is_null() || can_unwire(
                a.pages,
                Side::Source,
                slot,
                rec.source_node,
            )
            &&& rec.target_node.spec_is_null() || can_unwire(
                a.pages,
                Side::Target,
                slot,
                rec.target_node,
            )
        }),
    ensures
        same_ids(records_of(a), records_of(apart)),
        apart.edges().contains_key(slot),
{
    let g = records_of(a);
    let g1 = side_unlinked(g, Side::Source, slot);
    let h = records_of(apart);
    lemma_side_unlinked_ids(g, Side::Source, slot);
    assert(g.1.contains_key(slot) == g1.1.contains_key(slot));
    let rec = g.1[slot];
    assert(rec == a.edges()[slot].record);
    assert(g1.1[slot].target_node == rec.target_node);
    assert(prev_of(g1.1[slot], Side::Target) == prev_of(rec, Side::Target));
    assert(next_of(g1.1[slot], Side::Target) == next_of(rec, Side::Target));
    let n = rec.target_node;
    if !n.spec_is_null() {
        assert(g.0.contains_key(n) == g1.0.contains_key(n));
        assert(head_of(g1.0[n], Side::Target) == head_of(g.0[n], Side::Target));
        assert(g.1.contains_key(prev_of(rec, Side::Target)) == g1.1.contains_key(
            prev_of(rec, Side::Target),
        ));
        assert(g.1.contains_key(next_of(rec, Side::Target)) == g1.1.contains_key(
            next_of(rec, Side::Target),
        ));
    }
    lemma_side_unlinked_ids(g1, Side::Target, slot);
    assert(same_ids(g, h)) by {
        assert forall|m: SlotRef| #[trigger] g.0.contains_key(m) == h.0.contains_key(m) by {
            assert(g.0.contains_key(m) == g1.0.contains_key(m));
        }
        assert forall|m: SlotRef| #[trigger] g.0.contains_key(m) implies g.0[m].node_id
            == h.0[m].node_id && g.0[m].flags == h.0[m].flags by {
            assert(g1.0.contains_key(m));
        }
        assert forall|e: SlotRef| #[trigger] g.1.contains_key(e) == h.1.contains_key(e) by {
            assert(g.1.contains_key(e) == g1.1.contains_key(e));
        }
        assert forall|e: SlotRef| #[trigger] g.1.contains_key(e) implies g.1[e].edge_id
            == h.1[e].edge_id && g.1[e].flags == h.1[e].flags by {
            assert(g1.1.contains_key(e));
        }
    }
    assert(g.1.contains_key(slot) == h.1.contains_key(slot));
}

/// Deleting an edge changes the links of others, and nothing else of them.
proof fn lemma_deleted_edge_alone(
    a: EngineView,
    apart: EngineView,
    b: EngineView,
    slot: SlotRef,
    marked: StoredEdge,
)
    requires
        a.edges().contains_key(slot),
        apart.edges().contains_key(slot),
        same_ids(records_of(a), records_of(apart)),
        ends(apart.edges()) == ends(a.edges()),
        marked == deleted_edge(apart.edges()[slot]),
        b.nodes() == apart.nodes(),
        b.edges() == apart.edges().insert(slot, marked),
    ensures
        nodes_kept(a, b),
        edges_kept_but(a, b, slot),
        marked.record.flags == a.edges()[slot].record.flags | 1,
{
    let g = records_of(a);
    let h = records_of(apart);
    assert(g.1.contains_key(slot));
    assert forall|s: SlotRef| #[trigger] b.nodes().contains_key(s) == a.nodes().contains_key(s) by {
        assert(g.0.contains_key(s) == h.0.contains_key(s));
    }
    assert forall|s: SlotRef| #[trigger] b.nodes().contains_key(s) implies {
        &&& b.nodes()[s].node_id == a.nodes()[s].node_id
        &&& b.nodes()[s].label_id == a.nodes()[s].label_id
        &&& b.nodes()[s].flags == a.nodes()[s].flags
        &&& b.nodes()[s].first_property == a.nodes()[s].first_property
    } by {
        assert(g.0.contains_key(s));
    }
    assert forall|s: SlotRef| #[trigger] b.edges().contains_key(s) == a.edges().contains_key(s) by {
        assert(g.1.contains_key(s) == h.1.contains_key(s));
    }
    assert forall|s: SlotRef| #[trigger] b.edges().contains_key(s) implies {
        &&& b.edges()[s].record.edge_id == a.edges()[s].record.edge_id
        &&& b.edges()[s].record.type_id == a.edges()[s].record.type_id
        &&& s != slot ==> b.edges()[s].record.flags == a.edges()[s].record.flags
        &&& b.edges()[s].record.source_node == a.edges()[s].record.source_node
        &&& b.edges()[s].record.target_node == a.edges()[s].record.target_node
        &&& b.edges()[s].record.first_property == a.edges()[s].record.first_property
        &&& b.edges()[s].source_id == a.edges()[s].source_id
        &&& b.edges()[s].target_id == a.edges()[s].target_id
    } by {
        assert(g.1.contains_key(s));
        assert(h.1[s] == apart.edges()[s].record && g.1[s] == a.edges()[s].record);
        assert(ends(apart.edges())[s] == ends(a.edges())[s]);
    }
}

// ---------------------------------------------------------------------------
// Whole lists
// ---------------------------------------------------------------------------

/// An edge that was not there before is in no list that was.
proof fn lemma_not_listed(
    nodes: Map<SlotRef, NodeRecord>,
    edges: Edges,
    nodes2: Map<SlotRef, NodeRecord>,
    edges2: Edges,
    side: Side,
    edge: SlotRef,
)
    requires
        !edges.contains_key(edge),
        nodes.contains_key(node_of(edges2[edge], side)),
        has_list(nodes, edges, side, node_of(edges2[edge], side)),
        head_of(nodes2[node_of(edges2[edge], side)], side) == head_of(
            nodes[node_of(edges2[edge], side)],
            side,
        ),
        forall|e: SlotRef| #[trigger]
            edges.contains_key(e) ==> edges2.contains_key(e) && prev_of(edges2[e], side) == prev_of(
                edges[e],
                side,
            ) && next_of(edges2[e], side) == next_of(edges[e], side) && node_of(edges2[e], side)
                == node_of(edges[e], side),
    ensures
        !is_listed(nodes2, edges2, side, edge),
{
    let n = node_of(edges2[edge], side);
    let own = choose|list: Seq<SlotRef>| list_of(nodes, edges, side, n, list);
    assert forall|i: int| 0 <= i < own.len() implies edges.contains_key(#[trigger] own[i]) by {
        assert(place_ok(edges, side, own, i));
    }
    assert(list_of(nodes2, edges2, side, n, own)) by {
        assert forall|i: int| 0 <= i < own.len() implies #[trigger] place_ok(
            edges2,
            side,
            own,
            i,
        ) by {
            assert(place_ok(edges, side, own, i));
            assert(edges.contains_key(own[i]));
        }
        assert forall|i: int| 0 <= i < own.len() implies node_of(
            edges2[#[trigger] own[i]],
            side,
        ) == n by {
            assert(edges.contains_key(own[i]));
        }
    }
    if is_listed(nodes2, edges2, side, edge) {
        let list = choose|list: Seq<SlotRef>| #[trigger]
            list_of(nodes2, edges2, side, n, list) && list.contains(edge);
        lemma_one_list(nodes2, edges2, side, n, own, list);
        let i = choose|i: int| 0 <= i < own.len() && own[i] == edge;
        assert(edges.contains_key(own[i]));
    }
}

/// Linking a new edge into the lists of its end nodes keeps the lists whole.
proof fn lemma_link_lists(nodes: Map<SlotRef, NodeRecord>, edges: Edges, slot: SlotRef, rec: EdgeRecord)
    requires
        lists_ok(nodes, edges, Side::Source),
        lists_ok(nodes, edges, Side::Target),
        !edges.contains_key(slot),
        !slot.spec_is_null(),
        rec.source_node.spec_is_null() || nodes.contains_key(rec.source_node),
        rec.target_node.spec_is_null() || nodes.contains_key(rec.target_node),
    ensures
        ({
            let g = side_linked(
                side_linked(
                    (nodes, edges.insert(slot, rec)),
                    Side::Source,
                    slot,
                    rec.source_node,
                ),
                Side::Target,
                slot,
                rec.target_node,
            );
            lists_ok(g.0, g.1, Side::Source) && lists_ok(g.0, g.1, Side::Target)
        }),
{
    let edges1 = edges.insert(slot, rec);
    let g = side_linked((nodes, edges1), Side::Source, slot, rec.source_node);
    let h = side_linked(g, Side::Target, slot, rec.target_node);
    lemma_lists_kept(nodes, edges, nodes, edges1, Side::Source, None, Some(slot));
    lemma_lists_kept(nodes, edges, nodes, edges1, Side::Target, None, Some(slot));
    if rec.source_node.spec_is_null() {
        assert(edge_settled(nodes, edges1, Side::Source, slot));
    } else {
        lemma_head_is_edge(nodes, edges, Side::Source, rec.source_node);
        lemma_not_listed(nodes, edges, nodes, edges1, Side::Source, slot);
        lemma_wire_lists(nodes, edges1, Side::Source, slot);
        lemma_lists_kept(nodes, edges1, g.0, g.1, Side::Target, Some(slot), Some(slot));
    }
    assert(lists_ok(g.0, g.1, Side::Source));
    assert(lists_ok_but(g.0, g.1, Side::Target, Some(slot)));
    if rec.target_node.spec_is_null() {
        assert(edge_settled(g.0, g.1, Side::Target, slot));
    } else {
        lemma_head_is_edge(nodes, edges, Side::Target, rec.target_node);
        lemma_not_listed(nodes, edges, g.0, g.1, Side::Target, slot);
        lemma_wire_lists(g.0, g.1, Side::Target, slot);
        lemma_lists_kept(g.0, g.1, h.0, h.1, Side::Source, None, None);
    }
}

/// In whole lists the head of a list is an edge.
proof fn lemma_head_is_edge(
    nodes: Map<SlotRef, NodeRecord>,
    edges: Edges,
    side: Side,
    node: SlotRef,
)
    requires
        lists_ok(nodes, edges, side),
        nodes.contains_key(node),
    ensures
        head_of(nodes[node], side).spec_is_null() || edges.contains_key(
            head_of(nodes[node], side),
        ),
{
    assert(has_list(nodes, edges, side, node));
    let own = choose|list: Seq<SlotRef>| list_of(nodes, edges, side, node, list);
    if own.len() > 0 {
        assert(place_ok(edges, side, own, 0));
    }
}

/// In whole lists a new edge can be linked if and only if its end nodes are
/// there.
pub proof fn law_whole_lists_take_edges(v: EngineView, edge: StoredEdge)
    requires
        v.lists_whole(),
    ensures
        ends_can_be_wired(v, edge) == ((edge.record.source_node.spec_is_null()
            || v.nodes().contains_key(edge.record.source_node)) && (
        edge.record.target_node.spec_is_null() || v.nodes().contains_key(
            edge.record.target_node,
        ))),
{
    if v.nodes().contains_key(edge.record.source_node) {
        lemma_head_is_edge(v.nodes(), recs(v.edges()), Side::Source, edge.record.source_node);
    }
    if v.nodes().contains_key(edge.record.target_node) {
        lemma_head_is_edge(v.nodes(), recs(v.edges()), Side::Target, edge.record.target_node);
    }
}

proof fn lemma_put_edge_lists(
    a: EngineView,
    placed: EngineView,
    b: EngineView,
    edge: StoredEdge,
    slot: SlotRef,
)
    requires
        a.lists_whole(),
        ends_can_be_wired(a, edge),
        placed.nodes() == a.nodes(),
        placed.edges() == a.edges().insert(slot, edge),
        !a.edges().contains_key(slot),
        !slot.spec_is_null(),
        linked_ends(placed, b, edge.record, slot),
    ensures
        b.lists_whole(),
{
    assert(recs(placed.edges()) =~= recs(a.edges()).insert(slot, edge.record));
    lemma_link_lists(a.nodes(), recs(a.edges()), slot, edge.record);
}

/// In whole lists every edge can be unlinked.
proof fn lemma_whole_lists_unwire(v: EngineView, slot: SlotRef)
    requires
        v.lists_whole(),
        v.edges().contains_key(slot),
    ensures
        ({
            let rec = v.edges()[slot].record;
            &&& rec.source_node.spec_is_null() || can_unwire(
                v.pages,
                Side::Source,
                slot,
                rec.source_node,
            )
            &&& rec.target_node.spec_is_null() || can_unwire(
                v.pages,
                Side::Target,
                slot,
                rec.target_node,
            )
        }),
{
    lemma_edge_slot_not_null(v, slot);
    let edges = recs(v.edges());
    assert(edges.contains_key(slot) && edges[slot] == v.edges()[slot].record);
    if !edges[slot].source_node.spec_is_null() {
        lemma_wired_is_listed(v.nodes(), edges, Side::Source, slot);
    }
    if !edges[slot].target_node.spec_is_null() {
        lemma_wired_is_listed(v.nodes(), edges, Side::Target, slot);
    }
}

/// Is the edge free of links on this side?
spec fn is_apart(nodes: Map<SlotRef, NodeRecord>, edges: Edges, side: Side, slot: SlotRef) -> bool {
    let rec = edges[slot];
    node_of(rec, side).spec_is_null() || (nodes.contains_key(node_of(rec, side)) && prev_of(
        rec,
        side,
    ).spec_is_null() && next_of(rec, side).spec_is_null())
}

/// Unlinking on one side keeps the lists whole but for the edge, which is then
/// free of links.
proof fn lemma_unlink_side(
    nodes: Map<SlotRef, NodeRecord>,
    edges: Edges,
    side: Side,
    slot: SlotRef,
)
    requires
        lists_ok(nodes, edges, side),
        edges.contains_key(slot),
        !slot.spec_is_null(),
    ensures
        ({
            let g = side_unlinked((nodes, edges), side, slot);
            &&& lists_ok_but(g.0, g.1, side, Some(slot))
            &&& is_apart(g.0, g.1, side, slot)
        }),
{
    let node = node_of(edges[slot], side);
    if !node.spec_is_null() {
        lemma_wired_is_listed(nodes, edges, side, slot);
        if is_listed(nodes, edges, side, slot) {
            lemma_unwire_lists(nodes, edges, side, slot);
        } else {
            assert(edge_settled(nodes, edges, side, slot));
        }
    }
}

/// Unlinking an edge and marking it as deleted keeps the lists whole.
proof fn lemma_unlink_lists(
    nodes: Map<SlotRef, NodeRecord>,
    edges: Edges,
    slot: SlotRef,
    marked: EdgeRecord,
)
    requires
        lists_ok(nodes, edges, Side::Source),
        lists_ok(nodes, edges, Side::Target),
        edges.contains_key(slot),
        !slot.spec_is_null(),
        ({
            let g = side_unlinked(
                side_unlinked((nodes, edges), Side::Source, slot),
                Side::Target,
                slot,
            );
            &&& marked.is_deleted()
            &&& marked == (EdgeRecord {
                flags: marked.flags,
                generation: marked.generation,
                ..g.1[slot]
            })
        }),
    ensures
        ({
            let g = side_unlinked(
                side_unlinked((nodes, edges), Side::Source, slot),
                Side::Target,
                slot,
            );
            lists_ok(g.0, g.1.insert(slot, marked), Side::Source) && lists_ok(
                g.0,
                g.1.insert(slot, marked),
                Side::Target,
            )
        }),
{
    let g = side_unlinked((nodes, edges), Side::Source, slot);
    let h = side_unlinked(g, Side::Target, slot);
    lemma_unlink_side(nodes, edges, Side::Source, slot);
    lemma_unlinked_keeps_side(nodes, edges, Side::Source, Side::Target, slot);
    lemma_lists_kept(nodes, edges, g.0, g.1, Side::Target, None, None);
    lemma_unlink_side(g.0, g.1, Side::Target, slot);
    lemma_unlinked_keeps_side(g.0, g.1, Side::Target, Side::Source, slot);
    lemma_lists_kept(g.0, g.1, h.0, h.1, Side::Source, Some(slot), Some(slot));
    let last = h.1.insert(slot, marked);
    lemma_lists_kept(h.0, h.1, h.0, last, Side::Source, Some(slot), Some(slot));
    lemma_lists_kept(h.0, h.1, h.0, last, Side::Target, Some(slot), Some(slot));
    assert(edge_settled(h.0, last, Side::Source, slot));
    assert(edge_settled(h.0, last, Side::Target, slot));
}

/// Unlinking on one side leaves the other as it is.
proof fn lemma_unlinked_keeps_side(
    nodes: Map<SlotRef, NodeRecord>,
    edges: Edges,
    side: Side,
    other: Side,
    slot: SlotRef,
)
    requires
        side != other,
        lists_ok(nodes, edges, side),
        edges.contains_key(slot),
        !slot.spec_is_null(),
    ensures
        ({
            let g = side_unlinked((nodes, edges), side, slot);
            &&& forall|n: SlotRef| #[trigger] g.0.contains_key(n) == nodes.contains_key(n)
            &&& forall|n: SlotRef| #[trigger]
                nodes.contains_key(n) ==> head_of(g.0[n], other) == head_of(nodes[n], other)
            &&& forall|e: SlotRef| #[trigger] g.1.contains_key(e) == edges.contains_key(e)
            &&& forall|e: SlotRef| #[trigger]
                edges.contains_key(e) ==> prev_of(g.1[e], other) == prev_of(edges[e], other)
                    && next_of(g.1[e], other) == next_of(edges[e], other) && node_of(
                    g.1[e],
                    other,
                ) == node_of(edges[e], other) && node_of(g.1[e], side) == node_of(
                    edges[e],
                    side,
                ) && g.1[e].is_deleted() == edges[e].is_deleted()
        }),
{
    let node = node_of(edges[slot], side);
    if !node.spec_is_null() {
        lemma_wired_is_listed(nodes, edges, side, slot);
    }
}

proof fn lemma_delete_edge_lists(a: EngineView, apart: EngineView, b: EngineView, slot: SlotRef)
    requires
        a.lists_whole(),
        a.edges().contains_key(slot),
        unlinked_ends(a, apart, slot),
        apart.edges().contains_key(slot),
        b.nodes() == apart.nodes(),
        b.edges() == apart.edges().insert(slot, deleted_edge(apart.edges()[slot])),
    ensures
        b.lists_whole(),
{
    lemma_edge_slot_not_null(a, slot);
    let marked = deleted_edge(apart.edges()[slot]).record;
    let flags = apart.edges()[slot].record.flags;
    assert((flags | 0x0001u16) & 0x0001u16 != 0) by (bit_vector);
    let h = records_of(apart);
    assert(h.1[slot] == apart.edges()[slot].record);
    assert(recs(b.edges()) =~= h.1.insert(slot, marked));
    lemma_unlink_lists(a.nodes(), recs(a.edges()), slot, marked);
}

impl GraphStorageEngine {
    /// Stores an edge, enters it into the indexes and links it at the head of the
    /// lists of its end nodes.
    pub fn put_edge(&mut self, edge: &StoredEdge) -> (r: Result<SlotRef, StorageError>)
        requires
            old(self).wf(),
        ensures
            final(self).wf(),
            r == put_edge_result(
                old(self)@,
                *edge,
                old(self).edge_index.is_full() || old(self).type_index.is_full(),
            ),
            final(self)@ == (match r {
                Ok(slot) => put_edge_after(old(self)@, *edge, slot),
                Err(_) => old(self)@,
            }),
            edge.record.edge_id == 0 <==> r == Err::<SlotRef, StorageError>(
                StorageError::InvalidId,
            ),
            edge.record.edge_id != 0 && old(self)@.has_edge(edge.record.edge_id) <==> r == Err::<
                SlotRef,
                StorageError,
            >(StorageError::AlreadyExists),
            r is Ok <==> edge.record.edge_id != 0 && !old(self)@.has_edge(edge.record.edge_id)
                && !old(self).edge_index.is_full() && !old(self).type_index.is_full()
                && ends_can_be_wired(old(self)@, *edge) && insert_outcome(
                old(self)@.pages,
                RecordKind::Edge,
                edge.spec_bytes(),
                old(self)@.edge_pages,
            ).0 is Ok,
            r matches Ok(slot) ==> {
                &&& !old(self)@.edges().contains_key(slot)
                &&& final(self)@.edges().contains_key(slot)
                &&& same_edge(*edge, final(self)@.edges()[slot])
                &&& nodes_kept(old(self)@, final(self)@)
                &&& edges_kept_and(old(self)@, final(self)@, slot)
                &&& final(self)@.properties() == old(self)@.properties()
            },
            old(self)@.all_indexed() ==> final(self)@.all_indexed(),
            old(self)@.lists_whole() ==> final(self)@.lists_whole(),
            old(self)@.indexes_agree() ==> final(self)@.indexes_agree(),
            old(self)@.sources_lead() && (edge.record.is_deleted() || old(self)@.is_source(*edge))
                ==> final(self)@.sources_lead(),
            old(self).room() > 0 ==> final(self).room() >= old(self).room() - 1,
    {
        if edge.record.edge_id == 0 {
            return Err(StorageError::InvalidId);
        }
        let key = edge_id_key(edge.record.edge_id as u128);
        if self.edge_index.search(&key).is_some() {
            return Err(StorageError::AlreadyExists);
        }
        let ghost before = self@;
        proof {
            self.store.lemma_page_count();
        }
        let room: bool = self.edge_index.has_room() && self.type_index.has_room();
        let source = edge.record.source_node;
        let target = edge.record.target_node;
        let linkable: bool = (source.is_null() || check_wire(&self.store, Side::Source, source))
            && (target.is_null() || check_wire(&self.store, Side::Target, target));
        if !room || !linkable {
            let bytes = edge.encode();
            let list: &Vec<PageId> = self.store.edge_pages();
            let e = self.failed_placement(RecordKind::Edge, bytes.as_slice(), list);
            if room && e == StorageError::IndexError {
                return Err(StorageError::NotFound);
            }
            return Err(e);
        }
        let slot = match self.store.add_edge(edge) {
            Ok(slot) => slot,
            Err(e) => {
                proof {
                    lemma_same_entries(before, self@);
                }
                return Err(e);
            },
        };
        let ghost placed = self@;
        self.link_ends(slot, edge);
        broadcast use be_bytes_len;

        let indexed = self.edge_index.insert(&key, slot);
        let type_key = type_index_key(edge.record.type_id as u64, edge.record.edge_id as u128);
        let typed = self.type_index.insert(&type_key, slot);
        proof {
            lemma_put_edge_entries(before, placed, self@, *edge, slot);
            lemma_linked_edge(placed, self@, *edge, slot);
            lemma_linked_alone(before, placed, self@, *edge, slot);
            if before.indexes_agree() {
                lemma_edge_typed(before, placed, self@, *edge, slot);
            }
            if before.sources_lead() && (edge.record.is_deleted() || before.is_source(*edge)) {
                lemma_insert_listed(
                    before.pages,
                    RecordKind::Edge,
                    edge.spec_bytes(),
                    before.edge_pages,
                );
                lemma_edge_sourced(before, placed, self@, *edge, slot);
            }
        }
        let stored = self.stored_bytes(slot);
        let txid: u64 = self.begin();
        let version = TupleHeader { xmin: txid, xmax: 0 };
        let payload = build_versioned_payload(
            edge.record.edge_id,
            slot,
            version,
            stored.as_slice(),
        );
        self.log(RecordType::EdgeInsert, txid, payload);
        assert(self@ =~= put_edge_after(before, *edge, slot));
        proof {
            if before.lists_whole() {
                lemma_put_edge_lists(before, placed, self@, *edge, slot);
            }
        }
        Ok(slot)
    }

    /// The bytes of the edge in a slot.
    fn stored_bytes(&self, slot: SlotRef) -> (r: Vec<u8>)
        requires
            self.store.wf(),
            self@.edges().contains_key(slot),
        ensures
            r@ == edge_at(self@.pages, slot).spec_bytes(),
    {
        match self.store.edge(slot) {
            Some(edge) => edge.encode(),
            None => Vec::new(),
        }
    }

    /// Links a new edge into the lists of its end nodes.
    fn link_ends(&mut self, slot: SlotRef, edge: &StoredEdge)
        requires
            old(self).store.wf(),
            old(self)@.edges().contains_key(slot),
            ends_can_be_wired(old(self)@, *edge),
        ensures
            final(self).store.wf(),
            final(self)@ == (EngineView {
                pages: edge_wired(old(self)@.pages, edge.record, slot),
                ..old(self)@
            }),
            linked_ends(old(self)@, final(self)@, edge.record, slot),
            final(self)@.properties() == old(self)@.properties(),
            final(self).node_index == old(self).node_index,
            final(self).edge_index == old(self).edge_index,
            final(self).label_index == old(self).label_index,
            final(self).type_index == old(self).type_index,
            final(self).property_index == old(self).property_index,
            final(self).id_allocator == old(self).id_allocator,
            final(self).csr == old(self).csr,
    {
        let ghost start = self@;
        if !edge.record.source_node.is_null() {
            wire(&mut self.store, Side::Source, slot, edge.record.source_node);
        }
        let ghost middle = self@;
        proof {
            lemma_still_wirable(start, middle, edge.record, slot);
        }
        if !edge.record.target_node.is_null() {
            wire(&mut self.store, Side::Target, slot, edge.record.target_node);
        }
        assert(linked_ends(start, self@, edge.record, slot));
    }

    /// Marks an edge as deleted and unlinks it from the lists of its end nodes.
    /// Its record stays where it is and in the index of edges; the index of types
    /// forgets it.
    pub fn delete_edge(&mut self, edge_id: u64) -> (r: Result<(), StorageError>)
        requires
            old(self).wf(),
        ensures
            final(self).wf(),
            r is Ok == (old(self)@.has_edge(edge_id) && ends_can_be_unwired(old(self)@, edge_id)),
            r matches Err(e) ==> e == StorageError::NotFound,
            final(self)@ == (if r is Ok {
                delete_edge_after(old(self)@, edge_id)
            } else {
                old(self)@
            }),
            r is Ok ==> final(self)@.has_edge(edge_id) && final(self)@.edge(
                edge_id,
            ).record.is_deleted(),
            r is Ok ==> ({
                let slot = old(self)@.edge_slot(edge_id);
                &&& nodes_kept(old(self)@, final(self)@)
                &&& edges_kept_but(old(self)@, final(self)@, slot)
                &&& final(self)@.edges()[slot].record.flags == old(self)@.edges()[slot].record.flags
                    | 1
                &&& final(self)@.properties() == old(self)@.properties()
                &&& old(self)@.edge_pages.contains(slot.spec_page_id() as u64) ==> reclaimable(
                    final(self)@,
                ) == reclaimable(old(self)@) + (if old(self)@.edges()[slot].record.flags & 1 == 0 {
                    1int
                } else {
                    0
                })
            }),
            agreements_kept(old(self)@, final(self)@),
            old(self)@.lists_whole() ==> r is Ok == old(self)@.has_edge(edge_id),
            final(self).room() >= old(self).room(),
    {
        let slot = match self.lookup_edge_slot(edge_id) {
            Some(slot) => slot,
            None => {
                return Err(StorageError::NotFound);
            },
        };
        let ghost before = self@;
        assert(edge_entry_ok(before, edge_id));
        let edge = match self.store.edge(slot) {
            Some(edge) => edge,
            None => {
                return Err(StorageError::NotFound);
            },
        };
        let source = edge.record.source_node;
        let target = edge.record.target_node;
        proof {
            if before.lists_whole() {
                lemma_whole_lists_unwire(before, slot);
            }
        }
        if !source.is_null() && !check_unwire(&self.store, Side::Source, slot, source) {
            return Err(StorageError::NotFound);
        }
        if !target.is_null() && !check_unwire(&self.store, Side::Target, slot, target) {
            return Err(StorageError::NotFound);
        }
        let marked = self.retire(slot, edge);
        let bytes = marked.encode();
        let ghost between = self@;
        let type_key = type_index_key(marked.record.type_id as u64, edge_id as u128);
        let _found = self.type_index.delete(&type_key);
        proof {
            lemma_same_entries(between, self@);
            if between.indexes_agree() {
                lemma_type_removed(between, self@, edge_id);
            }
        }
        let txid: u64 = self.begin();
        let version = TupleHeader { xmin: 0, xmax: txid };
        let payload = build_versioned_payload(edge_id, slot, version, bytes.as_slice());
        self.log(RecordType::EdgeDelete, txid, payload);
        let ghost logged = self@;
        self.edge_free_list.push(slot);
        proof {
            lemma_same_entries(logged, self@);
        }
        assert(self@ =~= delete_edge_after(before, edge_id));
        proof {
            old(self).store.lemma_page_count();
            self.store.lemma_page_count();
            if before.edge_pages.contains(slot.spec_page_id() as u64) {
                law_deleted_edge_counts(before, self@, slot);
            }
        }
        Ok(())
    }

    /// Unlinks an edge from the lists of its end nodes and marks it as deleted.
    fn retire(&mut self, slot: SlotRef, edge: StoredEdge) -> (r: StoredEdge)
        requires
            old(self).wf(),
            old(self)@.edges().contains_key(slot),
            old(self)@.edges()[slot] == edge,
            edge.record.source_node.spec_is_null() || can_unwire(
                old(self)@.pages,
                Side::Source,
                slot,
                edge.record.source_node,
            ),
            edge.record.target_node.spec_is_null() || can_unwire(
                old(self)@.pages,
                Side::Target,
                slot,
                edge.record.target_node,
            ),
        ensures
            final(self).wf(),
            r == deleted_edge(edge_at(edge_unwired(old(self)@.pages, slot), slot)),
            final(self)@ == (EngineView {
                pages: with_cell(edge_unwired(old(self)@.pages, slot), slot, r.spec_bytes()),
                ..old(self)@
            }),
            final(self)@.edges().contains_key(slot),
            final(self)@.edges()[slot] == r,
            r.record.is_deleted(),
            nodes_kept(old(self)@, final(self)@),
            edges_kept_but(old(self)@, final(self)@, slot),
            r.record.flags == edge.record.flags | 1,
            final(self)@.properties() == old(self)@.properties(),
            agreements_kept(old(self)@, final(self)@),
            final(self).room() == old(self).room(),
    {
        let ghost before = self@;
        self.unlink_ends(slot, &edge);
        let ghost apart = self@;
        proof {
            lemma_unlinked_ends_ids(before, apart, slot);
        }
        let mut marked = match self.store.edge(slot) {
            Some(edge) => edge,
            None => edge,
        };
        let ghost flags = marked.record.flags;
        marked.record.flags = marked.record.flags | edge_flags::DELETED;
        assert((flags | 0x0001u16) & 0x0001u16 != 0) by (bit_vector);
        marked.record.generation = bump(marked.record.generation);
        assert(marked == deleted_edge(apart.edges()[slot]));
        self.store.set_edge(slot, &marked);
        proof {
            lemma_delete_edge_entries(before, apart, self@, slot, marked);
            if before.lists_whole() {
                lemma_delete_edge_lists(before, apart, self@, slot);
            }
            lemma_deleted_edge_alone(before, apart, self@, slot, marked);
        }
        marked
    }

    /// Unlinks an edge from the lists of its end nodes.
    fn unlink_ends(&mut self, slot: SlotRef, edge: &StoredEdge)
        requires
            old(self).store.wf(),
            old(self)@.edges().contains_key(slot),
            old(self)@.edges()[slot] == *edge,
            edge.record.source_node.spec_is_null() || can_unwire(
                old(self)@.pages,
                Side::Source,
                slot,
                edge.record.source_node,
            ),
            edge.record.target_node.spec_is_null() || can_unwire(
                old(self)@.pages,
                Side::Target,
                slot,
                edge.record.target_node,
            ),
        ensures
            final(self).store.wf(),
            final(self)@ == (EngineView {
                pages: edge_unwired(old(self)@.pages, slot),
                ..old(self)@
            }),
            unlinked_ends(old(self)@, final(self)@, slot),
            final(self)@.properties() == old(self)@.properties(),
            final(self).node_index == old(self).node_index,
            final(self).edge_index == old(self).edge_index,
            final(self).label_index == old(self).label_index,
            final(self).type_index == old(self).type_index,
            final(self).property_index == old(self).property_index,
            final(self).id_allocator == old(self).id_allocator,
            final(self).csr == old(self).csr,
    {
        let ghost start = self@;
        if !edge.record.source_node.is_null() {
            unwire(&mut self.store, Side::Source, slot, edge.record.source_node);
        }
        let ghost middle = self@;
        proof {
            lemma_still_unwirable(start, middle, slot);
        }
        if !edge.record.target_node.is_null() {
            unwire(&mut self.store, Side::Target, slot, edge.record.target_node);
        }
        assert(unlinked_ends(start, self@, slot));
    }
}

} // verus!
