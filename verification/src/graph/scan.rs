//! Reading the graph: walks along adjacency lists and scans of the indexes.

use vstd::prelude::*;

use crate::bytes::push_be;
use crate::graph::adjacency::next_of;
use crate::graph::adjacency::node_of;
use crate::graph::adjacency::place_ok;
use crate::graph::adjacency::slot_at;
use crate::graph::adjacency::Side;
use crate::graph::csr::CsrEdge;
use crate::graph::engine::agreements_kept;
use crate::graph::engine::edge_entry_ok;
use crate::graph::engine::label_entry_ok;
use crate::graph::engine::lemma_same_entries;
use crate::graph::engine::node_entry_ok;
use crate::graph::engine::type_entry_ok;
use crate::graph::engine::EngineView;
use crate::graph::engine::GraphStorageEngine;
use crate::graph::record::edge_flags;
use crate::graph::record::node_flags;
use crate::graph::record::NodeRecord;
use crate::graph::record::SlotRef;
use crate::graph::record::ValueType;
use crate::graph::stored::StoredEdge;
use crate::graph::wiring::edge_settled;
use crate::graph::wiring::head_of;
use crate::graph::wiring::lemma_one_list;
use crate::graph::wiring::list_of;
use crate::graph::wiring::recs;
use crate::index::key::be_u128;
use crate::index::key::be_u64;
use crate::index::key::key_8_16;
use crate::index::property::holders;
use crate::index::property::index_value;
use crate::index::slots::lists_ids;
use crate::index::slots::lists_slots;
use crate::index::slots::slots_in;
use crate::index::slots::tails;
use crate::storage::error::StorageError;
use crate::storage::heap::is_slot;

verus! {

/// The number of edges after which a walk along a list ends.
pub const MAX_HOPS: usize = 65536;

/// The edges on the way from `cursor` on, at most `hops` of them.
pub open spec fn walk(
    edges: Map<SlotRef, StoredEdge>,
    side: Side,
    cursor: SlotRef,
    hops: nat,
) -> Seq<StoredEdge>
    decreases hops,
{
    if cursor.spec_is_null() || hops == 0 || !edges.contains_key(cursor) {
        Seq::empty()
    } else {
        seq![edges[cursor]] + walk(
            edges,
            side,
            next_of(edges[cursor].record, side),
            (hops - 1) as nat,
        )
    }
}

/// Is the edge there, with one of these types? No types stand for all.
pub open spec fn is_wanted(edge: StoredEdge, type_ids: Seq<u64>) -> bool {
    !edge.record.is_deleted() && (type_ids.len() == 0 || type_ids.contains(
        edge.record.type_id as u64,
    ))
}

/// The edges of a node on one side, in the order of the list.
pub open spec fn edges_along(v: EngineView, node_id: u64, side: Side) -> Seq<StoredEdge> {
    if v.has_node(node_id) {
        walk(v.edges(), side, head_of(v.node(node_id), side), MAX_HOPS as nat)
    } else {
        Seq::empty()
    }
}

/// The edges of a node on one side that are there and have one of these types.
pub open spec fn wanted_along(
    v: EngineView,
    node_id: u64,
    side: Side,
    type_ids: Seq<u64>,
) -> Seq<StoredEdge> {
    edges_along(v, node_id, side).filter(|e: StoredEdge| is_wanted(e, type_ids))
}

/// What a traversal needs of an edge: target, id and type.
pub open spec fn hop_of(e: StoredEdge) -> (u64, u64, u32) {
    (e.target_id, e.record.edge_id, e.record.type_id)
}

/// What a traversal needs of an edge of a snapshot.
pub open spec fn csr_hop(e: CsrEdge) -> (u64, u64, u32) {
    (e.target_id, e.edge_id, e.edge_type)
}

/// The hops from a node, from the snapshot if there is one.
pub open spec fn hops_from(v: EngineView, node_id: u64) -> Seq<(u64, u64, u32)> {
    match v.csr {
        Some(csr) => csr.row(node_id).map_values(|e: CsrEdge| csr_hop(e)),
        None => wanted_along(v, node_id, Side::Source, Seq::empty()).map_values(
            |e: StoredEdge| hop_of(e),
        ),
    }
}

/// The nodes in these slots that are there.
pub open spec fn live_nodes(nodes: Map<SlotRef, NodeRecord>, slots: Seq<SlotRef>) -> Seq<NodeRecord>
    decreases slots.len(),
{
    if slots.len() == 0 {
        Seq::empty()
    } else {
        let rest = live_nodes(nodes, slots.drop_last());
        let s = slots.last();
        if nodes.contains_key(s) && !nodes[s].is_deleted() {
            rest.push(nodes[s])
        } else {
            rest
        }
    }
}

/// The edges in these slots that are there.
pub open spec fn live_edges(edges: Map<SlotRef, StoredEdge>, slots: Seq<SlotRef>) -> Seq<StoredEdge>
    decreases slots.len(),
{
    if slots.len() == 0 {
        Seq::empty()
    } else {
        let rest = live_edges(edges, slots.drop_last());
        let s = slots.last();
        if edges.contains_key(s) && !edges[s].record.is_deleted() {
            rest.push(edges[s])
        } else {
            rest
        }
    }
}

/// Does `r` hold the nodes that are there, by rising id of their entries?
pub open spec fn is_node_scan(
    nodes: Map<SlotRef, NodeRecord>,
    entries: Map<u128, SlotRef>,
    r: Seq<NodeRecord>,
) -> bool {
    exists|slots: Seq<SlotRef>| #[trigger] lists_slots(entries, slots) && r == live_nodes(nodes, slots)
}

/// Does `r` hold the edges that are there, by rising id of their entries?
pub open spec fn is_edge_scan(
    edges: Map<SlotRef, StoredEdge>,
    entries: Map<u128, SlotRef>,
    r: Seq<StoredEdge>,
) -> bool {
    exists|slots: Seq<SlotRef>| #[trigger] lists_slots(entries, slots) && r == live_edges(edges, slots)
}

/// Do the nodes come by rising id?
pub open spec fn nodes_rise(r: Seq<NodeRecord>) -> bool {
    forall|i: int, j: int|
        0 <= i < j < r.len() ==> (#[trigger] r[i]).node_id < (#[trigger] r[j]).node_id
}

/// Do the edges come by rising id?
pub open spec fn edges_rise(r: Seq<StoredEdge>) -> bool {
    forall|i: int, j: int|
        0 <= i < j < r.len() ==> (#[trigger] r[i]).record.edge_id < (
        #[trigger] r[j]).record.edge_id
}

// ---------------------------------------------------------------------------
// Laws
// ---------------------------------------------------------------------------

/// A node is in a scan if and only if it is there and an entry leads to it.
pub proof fn law_node_scan(
    nodes: Map<SlotRef, NodeRecord>,
    entries: Map<u128, SlotRef>,
    r: Seq<NodeRecord>,
    node: NodeRecord,
)
    requires
        is_node_scan(nodes, entries, r),
    ensures
        r.contains(node) <==> !node.is_deleted() && exists|id: u128| #[trigger]
            entries.contains_key(id) && nodes.contains_key(entries[id]) && nodes[entries[id]]
                == node,
{
    let slots = choose|slots: Seq<SlotRef>| #[trigger]
        lists_slots(entries, slots) && r == live_nodes(nodes, slots);
    let p = choose|p: Seq<(u128, SlotRef)>| #[trigger]
        lists_ids(entries, p) && slots == slots_in(p);
    lemma_live_nodes(nodes, slots, node);
    if r.contains(node) {
        let i = choose|i: int|
            0 <= i < slots.len() && nodes.contains_key(#[trigger] slots[i]) && nodes[slots[i]]
                == node;
        assert(slots[i] == p[i].1);
        assert(entries.contains_key(p[i].0));
    }
    if !node.is_deleted() && exists|id: u128| #[trigger]
        entries.contains_key(id) && nodes.contains_key(entries[id]) && nodes[entries[id]] == node {
        let id = choose|id: u128| #[trigger]
            entries.contains_key(id) && nodes.contains_key(entries[id]) && nodes[entries[id]]
                == node;
        assert(p.contains((id, entries[id])));
        let i = choose|i: int| 0 <= i < p.len() && p[i] == (id, entries[id]);
        assert(slots[i] == p[i].1);
    }
}

proof fn lemma_live_nodes(nodes: Map<SlotRef, NodeRecord>, slots: Seq<SlotRef>, node: NodeRecord)
    ensures
        live_nodes(nodes, slots).contains(node) <==> !node.is_deleted() && exists|i: int|
            0 <= i < slots.len() && nodes.contains_key(#[trigger] slots[i]) && nodes[slots[i]]
                == node,
    decreases slots.len(),
{
    if slots.len() > 0 {
        let before = slots.drop_last();
        let rest = live_nodes(nodes, before);
        lemma_live_nodes(nodes, before, node);
        let s = slots.last();
        let all = live_nodes(nodes, slots);
        if nodes.contains_key(s) && !nodes[s].is_deleted() {
            if nodes[s] == node {
                assert(all[all.len() - 1] == node);
                assert(slots[slots.len() - 1] == s);
            }
            if rest.contains(node) {
                let i = choose|i: int| 0 <= i < rest.len() && rest[i] == node;
                assert(all[i] == node);
            }
            if all.contains(node) && nodes[s] != node {
                let i = choose|i: int| 0 <= i < all.len() && all[i] == node;
                assert(rest[i] == node);
            }
        }
        if exists|i: int|
            0 <= i < before.len() && nodes.contains_key(#[trigger] before[i]) && nodes[before[i]]
                == node {
            let i = choose|i: int|
                0 <= i < before.len() && nodes.contains_key(#[trigger] before[i])
                    && nodes[before[i]] == node;
            assert(slots[i] == before[i]);
        }
        if exists|i: int|
            0 <= i < slots.len() && nodes.contains_key(#[trigger] slots[i]) && nodes[slots[i]]
                == node {
            let i = choose|i: int|
                0 <= i < slots.len() && nodes.contains_key(#[trigger] slots[i])
                    && nodes[slots[i]] == node;
            if i < before.len() {
                assert(before[i] == slots[i]);
            }
        }
    }
}

/// An edge is in a scan if and only if it is there and an entry leads to it.
pub proof fn law_edge_scan(
    edges: Map<SlotRef, StoredEdge>,
    entries: Map<u128, SlotRef>,
    r: Seq<StoredEdge>,
    edge: StoredEdge,
)
    requires
        is_edge_scan(edges, entries, r),
    ensures
        r.contains(edge) <==> !edge.record.is_deleted() && exists|id: u128| #[trigger]
            entries.contains_key(id) && edges.contains_key(entries[id]) && edges[entries[id]]
                == edge,
{
    let slots = choose|slots: Seq<SlotRef>| #[trigger]
        lists_slots(entries, slots) && r == live_edges(edges, slots);
    let p = choose|p: Seq<(u128, SlotRef)>| #[trigger]
        lists_ids(entries, p) && slots == slots_in(p);
    lemma_live_edges(edges, slots, edge);
    if r.contains(edge) {
        let i = choose|i: int|
            0 <= i < slots.len() && edges.contains_key(#[trigger] slots[i]) && edges[slots[i]]
                == edge;
        assert(slots[i] == p[i].1);
        assert(entries.contains_key(p[i].0));
    }
    if !edge.record.is_deleted() && exists|id: u128| #[trigger]
        entries.contains_key(id) && edges.contains_key(entries[id]) && edges[entries[id]] == edge {
        let id = choose|id: u128| #[trigger]
            entries.contains_key(id) && edges.contains_key(entries[id]) && edges[entries[id]]
                == edge;
        assert(p.contains((id, entries[id])));
        let i = choose|i: int| 0 <= i < p.len() && p[i] == (id, entries[id]);
        assert(slots[i] == p[i].1);
    }
}

proof fn lemma_live_edges(edges: Map<SlotRef, StoredEdge>, slots: Seq<SlotRef>, edge: StoredEdge)
    ensures
        live_edges(edges, slots).contains(edge) <==> !edge.record.is_deleted() && exists|i: int|
            0 <= i < slots.len() && edges.contains_key(#[trigger] slots[i]) && edges[slots[i]]
                == edge,
    decreases slots.len(),
{
    if slots.len() > 0 {
        let before = slots.drop_last();
        let rest = live_edges(edges, before);
        lemma_live_edges(edges, before, edge);
        let s = slots.last();
        let all = live_edges(edges, slots);
        if edges.contains_key(s) && !edges[s].record.is_deleted() {
            if edges[s] == edge {
                assert(all[all.len() - 1] == edge);
                assert(slots[slots.len() - 1] == s);
            }
            if rest.contains(edge) {
                let i = choose|i: int| 0 <= i < rest.len() && rest[i] == edge;
                assert(all[i] == edge);
            }
            if all.contains(edge) && edges[s] != edge {
                let i = choose|i: int| 0 <= i < all.len() && all[i] == edge;
                assert(rest[i] == edge);
            }
        }
        if exists|i: int|
            0 <= i < before.len() && edges.contains_key(#[trigger] before[i]) && edges[before[i]]
                == edge {
            let i = choose|i: int|
                0 <= i < before.len() && edges.contains_key(#[trigger] before[i])
                    && edges[before[i]] == edge;
            assert(slots[i] == before[i]);
        }
        if exists|i: int|
            0 <= i < slots.len() && edges.contains_key(#[trigger] slots[i]) && edges[slots[i]]
                == edge {
            let i = choose|i: int|
                0 <= i < slots.len() && edges.contains_key(#[trigger] slots[i])
                    && edges[slots[i]] == edge;
            if i < before.len() {
                assert(before[i] == slots[i]);
            }
        }
    }
}

/// The nodes of a scan come by rising id, if every entry leads to the node with its id.
proof fn lemma_node_scan_order(
    nodes: Map<SlotRef, NodeRecord>,
    entries: Map<u128, SlotRef>,
    r: Seq<NodeRecord>,
)
    requires
        is_node_scan(nodes, entries, r),
        forall|id: u128| #[trigger]
            entries.contains_key(id) && nodes.contains_key(entries[id])
                ==> nodes[entries[id]].node_id == id,
    ensures
        nodes_rise(r),
{
    let slots = choose|slots: Seq<SlotRef>| #[trigger]
        lists_slots(entries, slots) && r == live_nodes(nodes, slots);
    let p = choose|p: Seq<(u128, SlotRef)>| #[trigger]
        lists_ids(entries, p) && slots == slots_in(p);
    assert forall|i: int|
        0 <= i < p.len() && nodes.contains_key((#[trigger] p[i]).1) implies nodes[p[i].1].node_id
        == p[i].0 by {
        assert(entries.contains_key(p[i].0));
    }
    lemma_live_nodes_rise(nodes, p);
}

proof fn lemma_live_nodes_rise(nodes: Map<SlotRef, NodeRecord>, p: Seq<(u128, SlotRef)>)
    requires
        forall|i: int, j: int|
            0 <= i < j < p.len() ==> (#[trigger] p[i]).0 < (#[trigger] p[j]).0,
        forall|i: int|
            0 <= i < p.len() && nodes.contains_key((#[trigger] p[i]).1) ==> nodes[p[i].1].node_id
                == p[i].0,
    ensures
        ({
            let r = live_nodes(nodes, slots_in(p));
            &&& nodes_rise(r)
            &&& forall|i: int|
                0 <= i < r.len() ==> p.len() > 0 && (#[trigger] r[i]).node_id <= p.last().0
        }),
    decreases p.len(),
{
    if p.len() > 0 {
        let rest = p.drop_last();
        assert(slots_in(p).drop_last() =~= slots_in(rest));
        assert(slots_in(p).last() == p.last().1);
        assert forall|i: int, j: int| 0 <= i < j < rest.len() implies (#[trigger] rest[i]).0 < (
        #[trigger] rest[j]).0 by {
            assert(p[i].0 < p[j].0);
        }
        assert forall|i: int|
            0 <= i < rest.len() && nodes.contains_key((#[trigger] rest[i]).1) implies nodes[rest[i].1].node_id
            == rest[i].0 by {
            assert(p[i] == rest[i]);
        }
        lemma_live_nodes_rise(nodes, rest);
        if rest.len() > 0 {
            assert(p[rest.len() - 1].0 < p[p.len() - 1].0);
        }
        assert(nodes.contains_key(p[p.len() - 1].1) ==> nodes[p.last().1].node_id == p.last().0);
    }
}

/// The edges of a scan come by rising id, if every entry leads to the edge with its id.
proof fn lemma_edge_scan_order(
    edges: Map<SlotRef, StoredEdge>,
    entries: Map<u128, SlotRef>,
    r: Seq<StoredEdge>,
)
    requires
        is_edge_scan(edges, entries, r),
        forall|id: u128| #[trigger]
            entries.contains_key(id) && edges.contains_key(entries[id])
                ==> edges[entries[id]].record.edge_id == id,
    ensures
        edges_rise(r),
{
    let slots = choose|slots: Seq<SlotRef>| #[trigger]
        lists_slots(entries, slots) && r == live_edges(edges, slots);
    let p = choose|p: Seq<(u128, SlotRef)>| #[trigger]
        lists_ids(entries, p) && slots == slots_in(p);
    assert forall|i: int|
        0 <= i < p.len() && edges.contains_key(
            (#[trigger] p[i]).1,
        ) implies edges[p[i].1].record.edge_id == p[i].0 by {
        assert(entries.contains_key(p[i].0));
    }
    lemma_live_edges_rise(edges, p);
}

proof fn lemma_live_edges_rise(edges: Map<SlotRef, StoredEdge>, p: Seq<(u128, SlotRef)>)
    requires
        forall|i: int, j: int|
            0 <= i < j < p.len() ==> (#[trigger] p[i]).0 < (#[trigger] p[j]).0,
        forall|i: int|
            0 <= i < p.len() && edges.contains_key((#[trigger] p[i]).1)
                ==> edges[p[i].1].record.edge_id == p[i].0,
    ensures
        ({
            let r = live_edges(edges, slots_in(p));
            &&& edges_rise(r)
            &&& forall|i: int|
                0 <= i < r.len() ==> p.len() > 0 && (#[trigger] r[i]).record.edge_id <= p.last().0
        }),
    decreases p.len(),
{
    if p.len() > 0 {
        let rest = p.drop_last();
        assert(slots_in(p).drop_last() =~= slots_in(rest));
        assert(slots_in(p).last() == p.last().1);
        assert forall|i: int, j: int| 0 <= i < j < rest.len() implies (#[trigger] rest[i]).0 < (
        #[trigger] rest[j]).0 by {
            assert(p[i].0 < p[j].0);
        }
        assert forall|i: int|
            0 <= i < rest.len() && edges.contains_key(
                (#[trigger] rest[i]).1,
            ) implies edges[rest[i].1].record.edge_id == rest[i].0 by {
            assert(p[i] == rest[i]);
        }
        lemma_live_edges_rise(edges, rest);
        if rest.len() > 0 {
            assert(p[rest.len() - 1].0 < p[p.len() - 1].0);
        }
        assert(edges.contains_key(p[p.len() - 1].1) ==> edges[p.last().1].record.edge_id
            == p.last().0);
    }
}

/// A scan of a label gives all nodes that are there with the label, and no others, by
/// rising id.
pub proof fn law_label_scan(v: EngineView, label: u64, r: Seq<NodeRecord>)
    requires
        v.indexes_lead(),
        v.labels_agree(),
        is_node_scan(v.nodes(), tails(v.label_index, be_u64(label)), r),
    ensures
        forall|node: NodeRecord| #[trigger]
            r.contains(node) <==> v.has_node(node.node_id) && v.node(node.node_id) == node
                && !node.is_deleted() && node.label_id == label,
        nodes_rise(r),
{
    let entries = tails(v.label_index, be_u64(label));
    assert forall|id: u128| #[trigger] entries.contains_key(id) implies label_entry_ok(
        v,
        label,
        id,
    ) && node_entry_ok(v, id as u64) && entries[id] == v.node_slot(id as u64) by {
        assert(v.label_index.contains_key(key_8_16(label, id)));
        assert(label_entry_ok(v, label, id));
        assert(v.has_node(id as u64));
    }
    assert forall|node: NodeRecord| #[trigger]
        r.contains(node) <==> v.has_node(node.node_id) && v.node(node.node_id) == node
            && !node.is_deleted() && node.label_id == label by {
        law_node_scan(v.nodes(), entries, r, node);
        if v.has_node(node.node_id) && v.node(node.node_id) == node && !node.is_deleted()
            && node.label_id == label {
            let id = node.node_id as u128;
            assert(node_entry_ok(v, node.node_id));
            assert(v.label_index.contains_key(key_8_16(label, id)));
            assert(entries.contains_key(id));
        }
    }
    lemma_node_scan_order(v.nodes(), entries, r);
}

/// A scan of a type gives all edges that are there of the type, and no others, by
/// rising id.
pub proof fn law_type_scan(v: EngineView, type_id: u64, r: Seq<StoredEdge>)
    requires
        v.indexes_lead(),
        v.types_agree(),
        is_edge_scan(v.edges(), tails(v.type_index, be_u64(type_id)), r),
    ensures
        forall|edge: StoredEdge| #[trigger]
            r.contains(edge) <==> v.has_edge(edge.record.edge_id) && v.edge(edge.record.edge_id)
                == edge && !edge.record.is_deleted() && edge.record.type_id == type_id,
        edges_rise(r),
{
    let entries = tails(v.type_index, be_u64(type_id));
    assert forall|id: u128| #[trigger] entries.contains_key(id) implies type_entry_ok(
        v,
        type_id,
        id,
    ) && edge_entry_ok(v, id as u64) && entries[id] == v.edge_slot(id as u64) by {
        assert(v.type_index.contains_key(key_8_16(type_id, id)));
        assert(type_entry_ok(v, type_id, id));
        assert(v.has_edge(id as u64));
    }
    assert forall|edge: StoredEdge| #[trigger]
        r.contains(edge) <==> v.has_edge(edge.record.edge_id) && v.edge(edge.record.edge_id) == edge
            && !edge.record.is_deleted() && edge.record.type_id == type_id by {
        law_edge_scan(v.edges(), entries, r, edge);
        if v.has_edge(edge.record.edge_id) && v.edge(edge.record.edge_id) == edge
            && !edge.record.is_deleted() && edge.record.type_id == type_id {
            let id = edge.record.edge_id as u128;
            assert(edge_entry_ok(v, edge.record.edge_id));
            assert(v.type_index.contains_key(key_8_16(type_id, id)));
            assert(entries.contains_key(id));
        }
    }
    lemma_edge_scan_order(v.edges(), entries, r);
}

/// A scan of all nodes gives all that are there, and no others, by rising id.
pub proof fn law_all_nodes_scan(v: EngineView, all: Seq<NodeRecord>)
    requires
        v.indexes_lead(),
        v.ids_agree(),
        is_node_scan(v.nodes(), tails(v.node_index, Seq::empty()), all),
    ensures
        ({
            let r = all.filter(|n: NodeRecord| n.node_id != 0);
            &&& forall|node: NodeRecord| #[trigger]
                r.contains(node) <==> v.has_node(node.node_id) && v.node(node.node_id) == node
                    && !node.is_deleted()
            &&& nodes_rise(r)
        }),
{
    let entries = tails(v.node_index, Seq::empty());
    assert forall|id: u128| #[trigger] entries.contains_key(id) implies id <= u64::MAX
        && node_entry_ok(v, id as u64) && entries[id] == v.node_slot(id as u64) by {
        assert(Seq::<u8>::empty() + be_u128(id) =~= be_u128(id));
        assert(v.node_index.contains_key(be_u128(id)));
        assert(v.has_node(id as u64));
    }
    assert forall|node: NodeRecord| #[trigger]
        all.contains(node) <==> v.has_node(node.node_id) && v.node(node.node_id) == node
            && !node.is_deleted() by {
        law_node_scan(v.nodes(), entries, all, node);
        if v.has_node(node.node_id) && v.node(node.node_id) == node && !node.is_deleted() {
            let id = node.node_id as u128;
            assert(Seq::<u8>::empty() + be_u128(id) =~= be_u128(id));
            assert(node_entry_ok(v, node.node_id));
            assert(entries.contains_key(id));
        }
    }
    lemma_node_scan_order(v.nodes(), entries, all);
    let keep = |n: NodeRecord| n.node_id != 0;
    assert forall|i: int| 0 <= i < all.len() implies keep(#[trigger] all[i]) by {
        assert(all.contains(all[i]));
        assert(node_entry_ok(v, all[i].node_id));
    }
    lemma_filter_all(all, keep);
}

/// A scan of all edges gives all that are there, and no others, by rising id.
pub proof fn law_all_edges_scan(v: EngineView, all: Seq<StoredEdge>)
    requires
        v.indexes_lead(),
        v.ids_agree(),
        is_edge_scan(v.edges(), tails(v.edge_index, Seq::empty()), all),
    ensures
        ({
            let r = all.filter(|e: StoredEdge| e.record.edge_id != 0);
            &&& forall|edge: StoredEdge| #[trigger]
                r.contains(edge) <==> v.has_edge(edge.record.edge_id) && v.edge(
                    edge.record.edge_id,
                ) == edge && !edge.record.is_deleted()
            &&& edges_rise(r)
        }),
{
    let entries = tails(v.edge_index, Seq::empty());
    assert forall|id: u128| #[trigger] entries.contains_key(id) implies id <= u64::MAX
        && edge_entry_ok(v, id as u64) && entries[id] == v.edge_slot(id as u64) by {
        assert(Seq::<u8>::empty() + be_u128(id) =~= be_u128(id));
        assert(v.edge_index.contains_key(be_u128(id)));
        assert(v.has_edge(id as u64));
    }
    assert forall|edge: StoredEdge| #[trigger]
        all.contains(edge) <==> v.has_edge(edge.record.edge_id) && v.edge(edge.record.edge_id)
            == edge && !edge.record.is_deleted() by {
        law_edge_scan(v.edges(), entries, all, edge);
        if v.has_edge(edge.record.edge_id) && v.edge(edge.record.edge_id) == edge
            && !edge.record.is_deleted() {
            let id = edge.record.edge_id as u128;
            assert(Seq::<u8>::empty() + be_u128(id) =~= be_u128(id));
            assert(edge_entry_ok(v, edge.record.edge_id));
            assert(entries.contains_key(id));
        }
    }
    lemma_edge_scan_order(v.edges(), entries, all);
    let keep = |e: StoredEdge| e.record.edge_id != 0;
    assert forall|i: int| 0 <= i < all.len() implies keep(#[trigger] all[i]) by {
        assert(all.contains(all[i]));
        assert(edge_entry_ok(v, all[i].record.edge_id));
    }
    lemma_filter_all(all, keep);
}

/// A filter that lets everything through changes nothing.
proof fn lemma_filter_all<A>(s: Seq<A>, keep: spec_fn(A) -> bool)
    requires
        forall|i: int| 0 <= i < s.len() ==> keep(#[trigger] s[i]),
    ensures
        s.filter(keep) == s,
    decreases s.len(),
{
    reveal(Seq::filter);
    if s.len() > 0 {
        let rest = s.drop_last();
        assert forall|i: int| 0 <= i < rest.len() implies keep(#[trigger] rest[i]) by {
            assert(rest[i] == s[i]);
        }
        lemma_filter_all(rest, keep);
        assert(keep(s[s.len() - 1]));
        assert(rest.push(s.last()) =~= s);
    } else {
        assert(s.filter(keep) =~= s);
    }
}

/// The edges in some slots.
pub open spec fn edges_at(edges: Map<SlotRef, StoredEdge>, list: Seq<SlotRef>) -> Seq<StoredEdge> {
    list.map_values(|s: SlotRef| edges[s])
}

/// A walk over a list that is not too long meets the edges of the list in order.
pub proof fn law_walk_follows_list(
    v: EngineView,
    node_id: u64,
    side: Side,
    list: Seq<SlotRef>,
)
    requires
        v.has_node(node_id),
        list_of(v.nodes(), recs(v.edges()), side, v.node_slot(node_id), list),
        list.len() <= MAX_HOPS,
    ensures
        edges_along(v, node_id, side) == edges_at(v.edges(), list),
{
    lemma_walk_from(v.edges(), side, list, 0, MAX_HOPS as nat);
    assert(list.skip(0) =~= list);
}

proof fn lemma_walk_from(
    edges: Map<SlotRef, StoredEdge>,
    side: Side,
    list: Seq<SlotRef>,
    i: int,
    hops: nat,
)
    requires
        0 <= i <= list.len(),
        list.len() - i <= hops,
        forall|j: int| 0 <= j < list.len() ==> #[trigger] place_ok(recs(edges), side, list, j),
    ensures
        walk(edges, side, slot_at(list, i), hops) == edges_at(edges, list.skip(i)),
    decreases list.len() - i,
{
    if i < list.len() {
        assert(place_ok(recs(edges), side, list, i));
        lemma_walk_from(edges, side, list, i + 1, (hops - 1) as nat);
        assert(edges_at(edges, list.skip(i)) =~= seq![edges[list[i]]] + edges_at(
            edges,
            list.skip(i + 1),
        ));
    } else {
        assert(edges_at(edges, list.skip(i)) =~= Seq::<StoredEdge>::empty());
    }
}

/// In whole lists a walk meets every edge of the node that is there, and no edge
/// of another node.
pub proof fn law_walk_is_complete(
    v: EngineView,
    node_id: u64,
    side: Side,
    list: Seq<SlotRef>,
    slot: SlotRef,
)
    requires
        v.lists_whole(),
        v.indexes_lead(),
        v.has_node(node_id),
        list_of(v.nodes(), recs(v.edges()), side, v.node_slot(node_id), list),
        list.len() <= MAX_HOPS,
        v.edges().contains_key(slot),
        !v.edges()[slot].record.is_deleted(),
    ensures
        node_of(v.edges()[slot].record, side) == v.node_slot(node_id)
            ==> edges_along(v, node_id, side).contains(v.edges()[slot]),
        list.contains(slot) <==> node_of(v.edges()[slot].record, side)
            == v.node_slot(node_id),
{
    law_walk_follows_list(v, node_id, side, list);
    let node = v.node_slot(node_id);
    assert(node_entry_ok(v, node_id));
    assert(is_slot(v.pages, node));
    let edges = recs(v.edges());
    assert(edges.contains_key(slot) && edges[slot] == v.edges()[slot].record);
    if node_of(edges[slot], side) == node {
        assert(edge_settled(v.nodes(), edges, side, slot));
        let other = choose|other: Seq<SlotRef>| #[trigger]
            list_of(v.nodes(), edges, side, node, other) && other.contains(slot);
        lemma_one_list(v.nodes(), edges, side, node, list, other);
        let i = choose|i: int| 0 <= i < list.len() && list[i] == slot;
        assert(edges_at(v.edges(), list)[i] == v.edges()[slot]);
    }
}

/// A walk with some types meets an edge if and only if the edge is on the way, was not
/// deleted, and has one of the types, whichever of them it is; with no types, every type
/// will do.
pub proof fn law_wanted_edges(
    v: EngineView,
    node_id: u64,
    side: Side,
    type_ids: Seq<u64>,
    edge: StoredEdge,
)
    ensures
        wanted_along(v, node_id, side, type_ids).contains(edge) <==> edges_along(
            v,
            node_id,
            side,
        ).contains(edge) && edge.record.flags & edge_flags::DELETED == 0 && (type_ids.len() == 0
            || exists|i: int|
            0 <= i < type_ids.len() && #[trigger] type_ids[i] == edge.record.type_id),
{
    let keep = |e: StoredEdge| is_wanted(e, type_ids);
    let all = edges_along(v, node_id, side);
    if wanted_along(v, node_id, side, type_ids).contains(edge) {
        all.lemma_filter_contains_rev(keep, edge);
        let kept = all.filter(keep);
        let k = choose|k: int| 0 <= k < kept.len() && kept[k] == edge;
        all.lemma_filter_pred(keep, k);
        if type_ids.len() > 0 {
            let i = choose|i: int|
                0 <= i < type_ids.len() && type_ids[i] == edge.record.type_id as u64;
            assert(type_ids[i] == edge.record.type_id);
        }
    }
    if all.contains(edge) && edge.record.flags & edge_flags::DELETED == 0 && (type_ids.len() == 0
        || exists|i: int|
        0 <= i < type_ids.len() && #[trigger] type_ids[i] == edge.record.type_id) {
        if type_ids.len() > 0 {
            let i = choose|i: int|
                0 <= i < type_ids.len() && #[trigger] type_ids[i] == edge.record.type_id;
            assert(type_ids.contains(edge.record.type_id as u64));
        }
        let k = choose|k: int| 0 <= k < all.len() && all[k] == edge;
        all.lemma_filter_contains(keep, k);
    }
}

/// A walk with some types gives what a walk without types gives, in that order, but for the
/// edges of other types; and a walk without types gives the edges on the way but for the
/// deleted ones.
pub proof fn law_types_select(v: EngineView, node_id: u64, side: Side, type_ids: Seq<u64>)
    requires
        type_ids.len() > 0,
    ensures
        wanted_along(v, node_id, side, Seq::empty()) == edges_along(v, node_id, side).filter(
            |e: StoredEdge| e.record.flags & edge_flags::DELETED == 0,
        ),
        wanted_along(v, node_id, side, type_ids) == wanted_along(
            v,
            node_id,
            side,
            Seq::empty(),
        ).filter(
            |e: StoredEdge|
                exists|i: int|
                    0 <= i < type_ids.len() && #[trigger] type_ids[i] == e.record.type_id,
        ),
{
    let has = |e: StoredEdge|
        exists|i: int| 0 <= i < type_ids.len() && #[trigger] type_ids[i] == e.record.type_id;
    let live = |e: StoredEdge| e.record.flags & edge_flags::DELETED == 0;
    let any = |e: StoredEdge| is_wanted(e, Seq::empty());
    let some = |e: StoredEdge| is_wanted(e, type_ids);
    let all = edges_along(v, node_id, side);
    lemma_same_filter(all, any, live);
    assert forall|e: StoredEdge| #[trigger] some(e) == (any(e) && has(e)) by {
        if type_ids.contains(e.record.type_id as u64) {
            let i = choose|i: int|
                0 <= i < type_ids.len() && type_ids[i] == e.record.type_id as u64;
            assert(type_ids[i] == e.record.type_id);
        }
        if has(e) {
            let i = choose|i: int|
                0 <= i < type_ids.len() && #[trigger] type_ids[i] == e.record.type_id;
            assert(type_ids[i] == e.record.type_id as u64);
        }
    }
    lemma_filter_twice(all, any, has, some);
}

/// Filters that agree keep the same.
pub proof fn lemma_same_filter<A>(s: Seq<A>, f: spec_fn(A) -> bool, g: spec_fn(A) -> bool)
    requires
        forall|a: A| #[trigger] f(a) == g(a),
    ensures
        s.filter(f) == s.filter(g),
    decreases s.len(),
{
    reveal(Seq::filter);
    if s.len() > 0 {
        lemma_same_filter(s.drop_last(), f, g);
    }
}

/// A filter behind a filter keeps what both let through.
proof fn lemma_filter_twice<A>(
    s: Seq<A>,
    f: spec_fn(A) -> bool,
    g: spec_fn(A) -> bool,
    both: spec_fn(A) -> bool,
)
    requires
        forall|a: A| #[trigger] both(a) == (f(a) && g(a)),
    ensures
        s.filter(both) == s.filter(f).filter(g),
    decreases s.len(),
{
    reveal(Seq::filter);
    if s.len() > 0 {
        lemma_filter_twice(s.drop_last(), f, g, both);
        assert(both(s.last()) == (f(s.last()) && g(s.last())));
        if f(s.last()) {
            let kept = s.drop_last().filter(f);
            assert(kept.push(s.last()).drop_last() =~= kept);
        }
    }
}

/// In whole lists a walk of up to 65536 edges gives each edge that is there, belongs to the
/// node on that side and has one of the types, and no other edge.
pub proof fn law_typed_walk_is_complete(
    v: EngineView,
    node_id: u64,
    side: Side,
    type_ids: Seq<u64>,
    list: Seq<SlotRef>,
    slot: SlotRef,
)
    requires
        v.lists_whole(),
        v.indexes_lead(),
        v.has_node(node_id),
        list_of(v.nodes(), recs(v.edges()), side, v.node_slot(node_id), list),
        list.len() <= 65536,
        v.edges().contains_key(slot),
    ensures
        ({
            let edge = v.edges()[slot];
            wanted_along(v, node_id, side, type_ids).contains(edge) <==> edge.record.flags
                & edge_flags::DELETED == 0 && (match side {
                Side::Source => edge.record.source_node,
                Side::Target => edge.record.target_node,
            }) == v.node_slot(node_id) && (type_ids.len() == 0 || exists|i: int|
                0 <= i < type_ids.len() && #[trigger] type_ids[i] == edge.record.type_id)
        }),
{
    let edge = v.edges()[slot];
    law_wanted_edges(v, node_id, side, type_ids, edge);
    law_walk_follows_list(v, node_id, side, list);
    if edge.record.flags & edge_flags::DELETED == 0 {
        law_walk_is_complete(v, node_id, side, list, slot);
        let along = edges_at(v.edges(), list);
        if along.contains(edge) {
            let i = choose|i: int| 0 <= i < along.len() && along[i] == edge;
            assert(place_ok(recs(v.edges()), side, list, i));
            assert(node_of(recs(v.edges())[list[i]], side) == v.node_slot(node_id));
        }
    }
}

/// A hop is the target, the id and the type of an edge. Without a snapshot the hops are
/// those of the edges that leave the node and are there, in the order of the list; with
/// one, those of the node's row.
pub proof fn law_hops(v: EngineView, node_id: u64)
    ensures
        v.csr is None ==> ({
            let edges = wanted_along(v, node_id, Side::Source, Seq::empty());
            &&& hops_from(v, node_id).len() == edges.len()
            &&& forall|i: int|
                0 <= i < edges.len() ==> #[trigger] hops_from(v, node_id)[i] == (
                    edges[i].target_id,
                    edges[i].record.edge_id,
                    edges[i].record.type_id,
                )
        }),
        v.csr matches Some(csr) ==> ({
            let row = csr.row(node_id);
            &&& hops_from(v, node_id).len() == row.len()
            &&& forall|i: int|
                0 <= i < row.len() ==> #[trigger] hops_from(v, node_id)[i] == (
                    row[i].target_id,
                    row[i].edge_id,
                    row[i].edge_type,
                )
        }),
{
}

// ---------------------------------------------------------------------------
// The engine
// ---------------------------------------------------------------------------

pub proof fn lemma_filter_push<T>(s: Seq<T>, i: int, keep: spec_fn(T) -> bool)
    requires
        0 <= i < s.len(),
    ensures
        s.take(i + 1).filter(keep) == (if keep(s[i]) {
            s.take(i).filter(keep).push(s[i])
        } else {
            s.take(i).filter(keep)
        }),
{
    reveal(Seq::filter);
    assert(s.take(i + 1).drop_last() =~= s.take(i));
    assert(s.take(i + 1).last() == s[i]);
}

/// Is the id in the list?
fn has_id(ids: &[u64], id: u64) -> (r: bool)
    ensures
        r == ids@.contains(id),
{
    let mut i: usize = 0;
    while i < ids.len()
        invariant
            i <= ids@.len(),
            forall|j: int| 0 <= j < i ==> ids@[j] != id,
        decreases ids@.len() - i,
    {
        if ids[i] == id {
            assert(ids@[i as int] == id);
            return true;
        }
        i += 1;
    }
    false
}

impl GraphStorageEngine {
    /// The edges on the way from `head` on.
    fn walk_from(&self, side: Side, head: SlotRef) -> (r: Vec<StoredEdge>)
        requires
            self.wf(),
        ensures
            r@ == walk(self@.edges(), side, head, MAX_HOPS as nat),
    {
        let mut out: Vec<StoredEdge> = Vec::new();
        let mut cursor: SlotRef = head;
        let mut left: usize = MAX_HOPS;
        while !cursor.is_null() && left > 0
            invariant_except_break
                out@ + walk(self@.edges(), side, cursor, left as nat) == walk(
                    self@.edges(),
                    side,
                    head,
                    MAX_HOPS as nat,
                ),
            invariant
                self.wf(),
            ensures
                out@ == walk(self@.edges(), side, head, MAX_HOPS as nat),
            decreases left,
        {
            let edge = match self.store.edge(cursor) {
                Some(edge) => edge,
                None => {
                    assert(out@ + Seq::<StoredEdge>::empty() =~= out@);
                    break;
                },
            };
            let ghost rest = walk(
                self@.edges(),
                side,
                next_of(edge.record, side),
                (left - 1) as nat,
            );
            assert(out@ + (seq![edge] + rest) =~= out@.push(edge) + rest);
            cursor = match side {
                Side::Source => edge.record.next_source_edge,
                Side::Target => edge.record.next_target_edge,
            };
            out.push(edge);
            left -= 1;
        }
        out
    }

    /// The edges of a node on one side that are there and have one of these
    /// types.
    fn collect_wanted(&self, node_id: u64, side: Side, type_ids: &[u64]) -> (r: Vec<StoredEdge>)
        requires
            self.wf(),
        ensures
            r@ == wanted_along(self@, node_id, side, type_ids@),
    {
        let node = match self.get_node(node_id) {
            Some(node) => node,
            None => {
                reveal(Seq::filter);
                return Vec::new();
            },
        };
        let head = match side {
            Side::Source => node.first_outgoing_edge,
            Side::Target => node.first_incoming_edge,
        };
        let found = self.walk_from(side, head);
        let ghost keep = |e: StoredEdge| is_wanted(e, type_ids@);
        let mut out: Vec<StoredEdge> = Vec::new();
        let mut i: usize = 0;
        assert(found@.take(0).filter(keep) =~= Seq::empty()) by {
            reveal(Seq::filter);
        }
        while i < found.len()
            invariant
                i <= found@.len(),
                keep == (|e: StoredEdge| is_wanted(e, type_ids@)),
                out@ == found@.take(i as int).filter(keep),
            decreases found@.len() - i,
        {
            let edge = found[i];
            proof {
                lemma_filter_push(found@, i as int, keep);
            }
            if edge.record.flags & edge_flags::DELETED == 0 && (type_ids.len() == 0 || has_id(
                type_ids,
                edge.record.type_id as u64,
            )) {
                out.push(edge);
            }
            i += 1;
        }
        assert(found@.take(i as int) =~= found@);
        out
    }

    /// The edges that leave a node, with the ids of the nodes they lead to. With no
    /// types, edges of every type are wanted.
    pub fn scan_outgoing_edges(&self, source_node_id: u64, type_ids: &[u64]) -> (r: Vec<
        (StoredEdge, u64),
    >)
        requires
            self.wf(),
        ensures
            r@ == wanted_along(self@, source_node_id, Side::Source, type_ids@).map_values(
                |e: StoredEdge| (e, e.target_id),
            ),
    {
        let found = self.collect_wanted(source_node_id, Side::Source, type_ids);
        let mut out: Vec<(StoredEdge, u64)> = Vec::new();
        let mut i: usize = 0;
        while i < found.len()
            invariant
                i <= found@.len(),
                out@ == found@.take(i as int).map_values(|e: StoredEdge| (e, e.target_id)),
            decreases found@.len() - i,
        {
            let edge = found[i];
            out.push((edge, edge.target_id));
            assert(out@ =~= found@.take(i + 1).map_values(|e: StoredEdge| (e, e.target_id)));
            i += 1;
        }
        assert(found@.take(i as int) =~= found@);
        out
    }

    /// The edges that lead to a node, with the ids of the nodes they leave. With no
    /// types, edges of every type are wanted.
    pub fn scan_incoming_edges(&self, target_node_id: u64, type_ids: &[u64]) -> (r: Vec<
        (StoredEdge, u64),
    >)
        requires
            self.wf(),
        ensures
            r@ == wanted_along(self@, target_node_id, Side::Target, type_ids@).map_values(
                |e: StoredEdge| (e, e.source_id),
            ),
    {
        let found = self.collect_wanted(target_node_id, Side::Target, type_ids);
        let mut out: Vec<(StoredEdge, u64)> = Vec::new();
        let mut i: usize = 0;
        while i < found.len()
            invariant
                i <= found@.len(),
                out@ == found@.take(i as int).map_values(|e: StoredEdge| (e, e.source_id)),
            decreases found@.len() - i,
        {
            let edge = found[i];
            out.push((edge, edge.source_id));
            assert(out@ =~= found@.take(i + 1).map_values(|e: StoredEdge| (e, e.source_id)));
            i += 1;
        }
        assert(found@.take(i as int) =~= found@);
        out
    }

    /// The hops from a node: target, edge id and type of every edge that leaves it.
    /// They come from the snapshot if there is one, and else from the list of the
    /// node.
    pub fn scan_adjacency(&self, node_id: u64) -> (r: Vec<(u64, u64, u32)>)
        requires
            self.wf(),
        ensures
            r@ == hops_from(self@, node_id),
    {
        let mut out: Vec<(u64, u64, u32)> = Vec::new();
        let mut i: usize = 0;
        match self.csr.snapshot() {
            Some(csr) => {
                let row = csr.outgoing_edges(node_id);
                while i < row.len()
                    invariant
                        i <= row@.len(),
                        out@ == row@.take(i as int).map_values(|e: CsrEdge| csr_hop(e)),
                    decreases row@.len() - i,
                {
                    let edge = row[i];
                    out.push((edge.target_id, edge.edge_id, edge.edge_type));
                    assert(out@ =~= row@.take(i + 1).map_values(|e: CsrEdge| csr_hop(e)));
                    i += 1;
                }
                assert(row@.take(i as int) =~= row@);
            },
            None => {
                let none: [u64; 0] = [];
                let found = self.collect_wanted(node_id, Side::Source, none.as_slice());
                assert(none@ =~= Seq::<u64>::empty());
                while i < found.len()
                    invariant
                        i <= found@.len(),
                        out@ == found@.take(i as int).map_values(|e: StoredEdge| hop_of(e)),
                    decreases found@.len() - i,
                {
                    let edge = found[i];
                    out.push((edge.target_id, edge.record.edge_id, edge.record.type_id));
                    assert(out@ =~= found@.take(i + 1).map_values(|e: StoredEdge| hop_of(e)));
                    i += 1;
                }
                assert(found@.take(i as int) =~= found@);
            },
        }
        out
    }

    /// The nodes in these slots that are there.
    fn read_live_nodes(&self, slots: &Vec<SlotRef>) -> (r: Vec<NodeRecord>)
        requires
            self.wf(),
        ensures
            r@ == live_nodes(self@.nodes(), slots@),
    {
        let mut out: Vec<NodeRecord> = Vec::new();
        let mut i: usize = 0;
        while i < slots.len()
            invariant
                self.wf(),
                i <= slots@.len(),
                out@ == live_nodes(self@.nodes(), slots@.take(i as int)),
            decreases slots@.len() - i,
        {
            assert(slots@.take(i + 1).drop_last() =~= slots@.take(i as int));
            if let Some(node) = self.store.node(slots[i]) {
                if node.flags & node_flags::DELETED == 0 {
                    out.push(node);
                }
            }
            i += 1;
        }
        assert(slots@.take(i as int) =~= slots@);
        out
    }

    /// The edges in these slots that are there.
    fn read_live_edges(&self, slots: &Vec<SlotRef>) -> (r: Vec<StoredEdge>)
        requires
            self.wf(),
        ensures
            r@ == live_edges(self@.edges(), slots@),
    {
        let mut out: Vec<StoredEdge> = Vec::new();
        let mut i: usize = 0;
        while i < slots.len()
            invariant
                self.wf(),
                i <= slots@.len(),
                out@ == live_edges(self@.edges(), slots@.take(i as int)),
            decreases slots@.len() - i,
        {
            assert(slots@.take(i + 1).drop_last() =~= slots@.take(i as int));
            if let Some(edge) = self.store.edge(slots[i]) {
                if edge.record.flags & edge_flags::DELETED == 0 {
                    out.push(edge);
                }
            }
            i += 1;
        }
        assert(slots@.take(i as int) =~= slots@);
        out
    }

    /// The nodes with a label, by id.
    pub fn scan_nodes_by_label(&self, label_id: u64) -> (r: Vec<NodeRecord>)
        requires
            self.wf(),
        ensures
            is_node_scan(self@.nodes(), tails(self@.label_index, be_u64(label_id)), r@),
    {
        let mut prefix: Vec<u8> = Vec::new();
        push_be(&mut prefix, label_id as u128, 8);
        assert(prefix@ =~= be_u64(label_id));
        let slots = self.label_index.scan_slots(prefix.as_slice());
        self.read_live_nodes(&slots)
    }

    /// The edges of a type, by id.
    pub fn scan_edges_by_type(&self, type_id: u64) -> (r: Vec<StoredEdge>)
        requires
            self.wf(),
        ensures
            is_edge_scan(self@.edges(), tails(self@.type_index, be_u64(type_id)), r@),
    {
        let mut prefix: Vec<u8> = Vec::new();
        push_be(&mut prefix, type_id as u128, 8);
        assert(prefix@ =~= be_u64(type_id));
        let slots = self.type_index.scan_slots(prefix.as_slice());
        self.read_live_edges(&slots)
    }

    /// All nodes that are there, by id.
    pub fn scan_all_nodes(&self) -> (r: Vec<NodeRecord>)
        requires
            self.wf(),
        ensures
            exists|all: Seq<NodeRecord>| #[trigger]
                is_node_scan(self@.nodes(), tails(self@.node_index, Seq::empty()), all) && r@
                    == all.filter(|n: NodeRecord| n.node_id != 0),
    {
        let prefix: Vec<u8> = Vec::new();
        assert(prefix@ =~= Seq::<u8>::empty());
        let slots = self.node_index.scan_slots(prefix.as_slice());
        let all = self.read_live_nodes(&slots);
        let ghost keep = |n: NodeRecord| n.node_id != 0;
        let mut out: Vec<NodeRecord> = Vec::new();
        let mut i: usize = 0;
        assert(all@.take(0).filter(keep) =~= Seq::empty()) by {
            reveal(Seq::filter);
        }
        while i < all.len()
            invariant
                i <= all@.len(),
                keep == (|n: NodeRecord| n.node_id != 0),
                out@ == all@.take(i as int).filter(keep),
            decreases all@.len() - i,
        {
            proof {
                lemma_filter_push(all@, i as int, keep);
            }
            if all[i].node_id != 0 {
                out.push(all[i]);
            }
            i += 1;
        }
        assert(all@.take(i as int) =~= all@);
        assert(is_node_scan(self@.nodes(), tails(self@.node_index, Seq::empty()), all@));
        out
    }

    /// All edges that are there, by id.
    pub fn scan_all_edges(&self) -> (r: Vec<StoredEdge>)
        requires
            self.wf(),
        ensures
            exists|all: Seq<StoredEdge>| #[trigger]
                is_edge_scan(self@.edges(), tails(self@.edge_index, Seq::empty()), all) && r@
                    == all.filter(|e: StoredEdge| e.record.edge_id != 0),
    {
        let prefix: Vec<u8> = Vec::new();
        assert(prefix@ =~= Seq::<u8>::empty());
        let slots = self.edge_index.scan_slots(prefix.as_slice());
        let all = self.read_live_edges(&slots);
        let ghost keep = |e: StoredEdge| e.record.edge_id != 0;
        let mut out: Vec<StoredEdge> = Vec::new();
        let mut i: usize = 0;
        assert(all@.take(0).filter(keep) =~= Seq::empty()) by {
            reveal(Seq::filter);
        }
        while i < all.len()
            invariant
                i <= all@.len(),
                keep == (|e: StoredEdge| e.record.edge_id != 0),
                out@ == all@.take(i as int).filter(keep),
            decreases all@.len() - i,
        {
            proof {
                lemma_filter_push(all@, i as int, keep);
            }
            if all[i].record.edge_id != 0 {
                out.push(all[i]);
            }
            i += 1;
        }
        assert(all@.take(i as int) =~= all@);
        assert(is_edge_scan(self@.edges(), tails(self@.edge_index, Seq::empty()), all@));
        out
    }

    /// Enters a value of a property into the index of values.
    pub fn insert_property_index(
        &mut self,
        entity_id: u128,
        property_id: u64,
        value_type: ValueType,
        payload: &[u8],
        slot: SlotRef,
    ) -> (r: Result<(), StorageError>)
        requires
            old(self).wf(),
        ensures
            final(self).wf(),
            r is Ok == !old(self).property_index.is_full(),
            r matches Err(e) ==> e == StorageError::IndexError,
            final(self)@ == (if r is Ok {
                EngineView {
                    property_index: old(self)@.property_index.insert(
                        (property_id, index_value(value_type, payload@), entity_id),
                        slot,
                    ),
                    ..old(self)@
                }
            } else {
                old(self)@
            }),
            agreements_kept(old(self)@, final(self)@),
            old(self).room() > 0 ==> final(self).room() >= old(self).room() - 1,
    {
        let ghost before = self@;
        let r = self.property_index.insert(property_id, value_type, payload, entity_id, slot);
        proof {
            lemma_same_entries(before, self@);
        }
        match r {
            Ok(_) => Ok(()),
            Err(_) => Err(StorageError::IndexError),
        }
    }

    /// The entities with one value of a property, with the slots they were entered
    /// with, by entity id.
    pub fn scan_property_index(
        &self,
        property_id: u64,
        value_type: ValueType,
        payload: &[u8],
    ) -> (r: Vec<(u128, SlotRef)>)
        requires
            self.wf(),
        ensures
            lists_ids(
                holders(self@.property_index, property_id, index_value(value_type, payload@)),
                r@,
            ),
    {
        self.property_index.scan_entities(property_id, value_type, payload)
    }

    /// Drops the adjacency snapshot.
    pub fn thaw_adjacency(&mut self)
        requires
            old(self).wf(),
        ensures
            final(self).wf(),
            final(self)@ == (EngineView { csr: None, ..old(self)@ }),
            agreements_kept(old(self)@, final(self)@),
            final(self).room() == old(self).room(),
    {
        let ghost before = self@;
        self.csr.thaw();
        proof {
            lemma_same_entries(before, self@);
        }
    }
}

} // verus!
