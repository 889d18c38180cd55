//! What a compaction counts and what it keeps.

use vstd::prelude::*;
use vstd::seq_lib::seq_to_set_is_finite;

use crate::bytes::be_value;
use crate::bytes::lemma_be_roundtrip;
use crate::bytes::lemma_pow256_sizes;
use crate::graph::agreement::lemma_filter_edges;
use crate::graph::agreement::lemma_filter_unique;
use crate::graph::agreement::lemma_listed_slots;
use crate::graph::agreement::listed_slots;
use crate::graph::agreement::page_slots;
use crate::graph::engine::edges_kept_but;
use crate::graph::engine::nodes_kept;
use crate::graph::engine::EngineView;
use crate::graph::maintenance::compact_after;
use crate::graph::maintenance::dead_edges;
use crate::graph::maintenance::dead_nodes;
use crate::graph::maintenance::has_live_edge;
use crate::graph::maintenance::has_live_node;
use crate::graph::maintenance::is_dead_edge;
use crate::graph::maintenance::is_dead_node;
use crate::graph::maintenance::is_live_edge;
use crate::graph::maintenance::is_live_node;
use crate::graph::maintenance::reclaimable;
use crate::graph::record::NodeRecord;
use crate::graph::record::SlotRef;
use crate::graph::reopen::heap_pages;
use crate::graph::scan::lemma_same_filter;
use crate::graph::store::listed_edges;
use crate::graph::store::listed_nodes;
use crate::graph::store::node_in;
use crate::graph::store::page_edges;
use crate::graph::store::page_nodes;
use crate::graph::stored::StoredEdge;
use crate::storage::heap::cells;
use crate::storage::heap::is_page;
use crate::storage::heap::is_slot;
use crate::storage::heap::lemma_slot_on;
use crate::storage::heap::lemma_slot_parts;
use crate::storage::heap::page_at;
use crate::storage::heap::page_fits;
use crate::storage::heap::pages_of;
use crate::storage::heap::slot_on;
use crate::storage::heap::FIRST_DATA_PAGE;
use crate::storage::heap::RecordKind;
use crate::storage::page::PageId;
use crate::storage::wal::RecordType;

verus! {

/// The nodes in some slots.
spec fn nodes_at(nodes: Map<SlotRef, NodeRecord>, list: Seq<SlotRef>) -> Seq<NodeRecord> {
    list.map_values(|s: SlotRef| nodes[s])
}

/// Nodes in slots, with only some of them kept.
proof fn lemma_filter_nodes(
    nodes: Map<SlotRef, NodeRecord>,
    s: Seq<SlotRef>,
    keep: spec_fn(NodeRecord) -> bool,
    keep_slot: spec_fn(SlotRef) -> bool,
)
    requires
        forall|t: SlotRef| #[trigger] keep_slot(t) == keep(nodes[t]),
    ensures
        nodes_at(nodes, s).filter(keep) == nodes_at(nodes, s.filter(keep_slot)),
    decreases s.len(),
{
    reveal(Seq::filter);
    if s.len() == 0 {
        assert(nodes_at(nodes, s) =~= Seq::empty());
        assert(nodes_at(nodes, s.filter(keep_slot)) =~= Seq::empty());
    } else {
        let rest = s.drop_last();
        lemma_filter_nodes(nodes, rest, keep, keep_slot);
        assert(nodes_at(nodes, s).drop_last() =~= nodes_at(nodes, rest));
        assert(nodes_at(nodes, s).last() == nodes[s.last()]);
        if keep(nodes[s.last()]) {
            assert(nodes_at(nodes, s.filter(keep_slot)) =~= nodes_at(
                nodes,
                rest.filter(keep_slot),
            ).push(nodes[s.last()]));
        }
    }
}

proof fn lemma_page_node_slots(v: EngineView, id: PageId)
    requires
        heap_pages(v.pages),
        is_page(v.pages, id),
        page_at(v.pages, id).kind == RecordKind::Node,
    ensures
        page_nodes(page_at(v.pages, id)) == nodes_at(v.nodes(), page_slots(v.pages, id)),
        page_slots(v.pages, id).no_duplicates(),
        forall|s: SlotRef| #[trigger]
            page_slots(v.pages, id).contains(s) <==> is_slot(v.pages, s) && s.spec_page_id() == id,
{
    let page = page_at(v.pages, id);
    let slots = page_slots(v.pages, id);
    assert(page_fits(v.pages[id - FIRST_DATA_PAGE]));
    assert forall|k: int| 0 <= k < page.records.len() implies #[trigger] slots[k] == slot_on(id, k)
        && slots[k].spec_page_id() == id && slots[k].spec_slot_index() == k && is_slot(
        v.pages,
        slots[k],
    ) by {
        lemma_slot_on(id, k);
    }
    assert(page_nodes(page) =~= nodes_at(v.nodes(), slots)) by {
        assert forall|k: int| 0 <= k < page.records.len() implies #[trigger] page_nodes(page)[k]
            == nodes_at(v.nodes(), slots)[k] by {
            assert(is_slot(v.pages, slots[k]));
            assert(cells(v.pages)[slots[k]].bytes == page.records[k]);
            assert(v.nodes()[slots[k]] == node_in(page.records[k]));
        }
    }
    assert(slots.no_duplicates()) by {
        assert forall|i: int, j: int| 0 <= i < slots.len() && 0 <= j < slots.len() && i
            != j implies slots[i] != slots[j] by {
            assert(slots[i].spec_slot_index() == i && slots[j].spec_slot_index() == j);
        }
    }
    assert forall|s: SlotRef| #[trigger]
        slots.contains(s) <==> is_slot(v.pages, s) && s.spec_page_id() == id by {
        if slots.contains(s) {
            let k = choose|k: int| 0 <= k < slots.len() && slots[k] == s;
            assert(is_slot(v.pages, slots[k]));
        }
        if is_slot(v.pages, s) && s.spec_page_id() == id {
            let k = s.spec_slot_index() as int;
            lemma_slot_parts(s);
            assert(slots[k] == s);
        }
    }
}

proof fn lemma_listed_node_slots(v: EngineView, list: Seq<PageId>)
    requires
        heap_pages(v.pages),
        pages_of(v.pages, list, RecordKind::Node),
    ensures
        listed_nodes(v.pages, list) == nodes_at(v.nodes(), listed_slots(v.pages, list)),
        listed_slots(v.pages, list).no_duplicates(),
        forall|s: SlotRef| #[trigger]
            listed_slots(v.pages, list).contains(s) <==> is_slot(v.pages, s) && list.contains(
                s.spec_page_id() as u64,
            ),
    decreases list.len(),
{
    if list.len() == 0 {
        assert(nodes_at(v.nodes(), listed_slots(v.pages, list)) =~= Seq::empty());
    } else {
        let rest = list.drop_last();
        let id = list.last();
        assert(list[list.len() - 1] == id);
        assert(is_page(v.pages, list[list.len() - 1]));
        assert(pages_of(v.pages, rest, RecordKind::Node)) by {
            assert forall|i: int| 0 <= i < rest.len() implies is_page(v.pages, #[trigger] rest[i])
                && page_at(v.pages, rest[i]).kind == RecordKind::Node by {
                assert(rest[i] == list[i]);
            }
        }
        lemma_listed_node_slots(v, rest);
        lemma_page_node_slots(v, id);
        let a = listed_slots(v.pages, rest);
        let b = page_slots(v.pages, id);
        let all = listed_slots(v.pages, list);
        assert(nodes_at(v.nodes(), a + b) =~= nodes_at(v.nodes(), a) + nodes_at(v.nodes(), b));
        assert(!rest.contains(id)) by {
            if rest.contains(id) {
                let i = choose|i: int| 0 <= i < rest.len() && rest[i] == id;
                assert(list[i] == list[list.len() - 1]);
            }
        }
        assert(all.no_duplicates()) by {
            assert forall|i: int, j: int| 0 <= i < all.len() && 0 <= j < all.len() && i
                != j implies all[i] != all[j] by {
                if i < a.len() {
                    assert(a.contains(a[i]));
                } else {
                    assert(b.contains(b[i - a.len()]));
                }
                if j < a.len() {
                    assert(a.contains(a[j]));
                } else {
                    assert(b.contains(b[j - a.len()]));
                }
            }
        }
        assert forall|s: SlotRef| #[trigger]
            all.contains(s) <==> is_slot(v.pages, s) && list.contains(
                s.spec_page_id() as u64,
            ) by {
            let p = s.spec_page_id() as u64;
            if all.contains(s) {
                let i = choose|i: int| 0 <= i < all.len() && all[i] == s;
                if i < a.len() {
                    assert(a[i] == s);
                    assert(a.contains(s));
                    let k = choose|k: int| 0 <= k < rest.len() && rest[k] == p;
                    assert(list[k] == p);
                } else {
                    assert(b[i - a.len()] == s);
                    assert(b.contains(s));
                    assert(list[list.len() - 1] == p);
                }
            }
            if is_slot(v.pages, s) && list.contains(p) {
                let k = choose|k: int| 0 <= k < list.len() && list[k] == p;
                if k < rest.len() {
                    assert(rest[k] == p);
                    assert(a.contains(s));
                    let i = choose|i: int| 0 <= i < a.len() && a[i] == s;
                    assert(all[i] == s);
                } else {
                    assert(b.contains(s));
                    let i = choose|i: int| 0 <= i < b.len() && b[i] == s;
                    assert(all[a.len() + i] == s);
                }
            }
        }
    }
}

/// The slots that a compaction of nodes counts.
spec fn dead_node_slots(v: EngineView) -> Set<SlotRef> {
    Set::new(
        |s: SlotRef|
            v.nodes().contains_key(s) && v.node_pages.contains(s.spec_page_id() as u64)
                && v.nodes()[s].node_id != 0 && v.nodes()[s].flags & 1 != 0,
    )
}

/// The slots that a compaction of edges counts.
spec fn dead_edge_slots(v: EngineView) -> Set<SlotRef> {
    Set::new(
        |s: SlotRef|
            v.edges().contains_key(s) && v.edge_pages.contains(s.spec_page_id() as u64)
                && v.edges()[s].record.edge_id != 0 && v.edges()[s].record.flags & 1 != 0,
    )
}

/// A page of a list holds records of its kind.
proof fn lemma_kind_of_listed(v: EngineView, list: Seq<PageId>, kind: RecordKind, s: SlotRef)
    requires
        pages_of(v.pages, list, kind),
        is_slot(v.pages, s),
        list.contains(s.spec_page_id() as u64),
    ensures
        cells(v.pages).contains_key(s),
        cells(v.pages)[s].kind == kind,
{
    let k = choose|k: int| 0 <= k < list.len() && list[k] == s.spec_page_id() as u64;
    assert(is_page(v.pages, list[k]) && page_at(v.pages, list[k]).kind == kind);
}

proof fn lemma_dead_node_slots(v: EngineView)
    requires
        heap_pages(v.pages),
        pages_of(v.pages, v.node_pages, RecordKind::Node),
    ensures
        dead_node_slots(v).finite(),
        dead_nodes(listed_nodes(v.pages, v.node_pages)).len() == dead_node_slots(v).len(),
{
    let slots = listed_slots(v.pages, v.node_pages);
    let keep = |n: NodeRecord| is_dead_node(n);
    let keep_slot = |s: SlotRef| keep(v.nodes()[s]);
    lemma_listed_node_slots(v, v.node_pages);
    lemma_filter_nodes(v.nodes(), slots, keep, keep_slot);
    lemma_filter_unique(slots, keep_slot);
    let dead = slots.filter(keep_slot);
    dead.unique_seq_to_set();
    seq_to_set_is_finite(dead);
    assert forall|s: SlotRef| #[trigger] dead.to_set().contains(s) <==> dead_node_slots(
        v,
    ).contains(s) by {
        assert(dead.to_set().contains(s) <==> dead.contains(s));
        assert(dead.contains(s) <==> slots.contains(s) && keep_slot(s));
        if slots.contains(s) {
            lemma_kind_of_listed(v, v.node_pages, RecordKind::Node, s);
        }
    }
    assert(dead.to_set() =~= dead_node_slots(v));
}

proof fn lemma_dead_edge_slots(v: EngineView)
    requires
        heap_pages(v.pages),
        pages_of(v.pages, v.edge_pages, RecordKind::Edge),
    ensures
        dead_edge_slots(v).finite(),
        dead_edges(listed_edges(v.pages, v.edge_pages)).len() == dead_edge_slots(v).len(),
{
    let slots = listed_slots(v.pages, v.edge_pages);
    let keep = |e: StoredEdge| is_dead_edge(e);
    let keep_slot = |s: SlotRef| keep(v.edges()[s]);
    lemma_listed_slots(v, v.edge_pages);
    lemma_filter_edges(v.edges(), slots, keep, keep_slot);
    lemma_filter_unique(slots, keep_slot);
    let dead = slots.filter(keep_slot);
    dead.unique_seq_to_set();
    seq_to_set_is_finite(dead);
    assert forall|s: SlotRef| #[trigger] dead.to_set().contains(s) <==> dead_edge_slots(
        v,
    ).contains(s) by {
        assert(dead.to_set().contains(s) <==> dead.contains(s));
        assert(dead.contains(s) <==> slots.contains(s) && keep_slot(s));
        if slots.contains(s) {
            lemma_kind_of_listed(v, v.edge_pages, RecordKind::Edge, s);
        }
    }
    assert(dead.to_set() =~= dead_edge_slots(v));
}

/// A compaction counts the slots on the listed node pages that hold a node with an id and
/// the mark of deletion, and the slots on the listed edge pages that hold such an edge.
pub proof fn law_reclaimed_slots(v: EngineView)
    requires
        heap_pages(v.pages),
        pages_of(v.pages, v.node_pages, RecordKind::Node),
        pages_of(v.pages, v.edge_pages, RecordKind::Edge),
    ensures
        ({
            let nodes = Set::new(
                |s: SlotRef|
                    v.nodes().contains_key(s) && v.node_pages.contains(s.spec_page_id() as u64)
                        && v.nodes()[s].node_id != 0 && v.nodes()[s].flags & 1 != 0,
            );
            let edges = Set::new(
                |s: SlotRef|
                    v.edges().contains_key(s) && v.edge_pages.contains(s.spec_page_id() as u64)
                        && v.edges()[s].record.edge_id != 0 && v.edges()[s].record.flags & 1 != 0,
            );
            &&& nodes.finite()
            &&& edges.finite()
            &&& reclaimable(v) == nodes.len() + edges.len()
        }),
{
    lemma_dead_node_slots(v);
    lemma_dead_edge_slots(v);
    let nodes = Set::new(
        |s: SlotRef|
            v.nodes().contains_key(s) && v.node_pages.contains(s.spec_page_id() as u64)
                && v.nodes()[s].node_id != 0 && v.nodes()[s].flags & 1 != 0,
    );
    let edges = Set::new(
        |s: SlotRef|
            v.edges().contains_key(s) && v.edge_pages.contains(s.spec_page_id() as u64)
                && v.edges()[s].record.edge_id != 0 && v.edges()[s].record.flags & 1 != 0,
    );
    assert(nodes =~= dead_node_slots(v));
    assert(edges =~= dead_edge_slots(v));
}

/// One more deleted edge on a listed page raises what a compaction counts by one.
pub proof fn law_deleted_edge_counts(a: EngineView, b: EngineView, slot: SlotRef)
    requires
        heap_pages(a.pages),
        heap_pages(b.pages),
        pages_of(a.pages, a.node_pages, RecordKind::Node),
        pages_of(a.pages, a.edge_pages, RecordKind::Edge),
        pages_of(b.pages, b.node_pages, RecordKind::Node),
        pages_of(b.pages, b.edge_pages, RecordKind::Edge),
        b.node_pages == a.node_pages,
        b.edge_pages == a.edge_pages,
        nodes_kept(a, b),
        edges_kept_but(a, b, slot),
        a.edges().contains_key(slot),
        a.edge_pages.contains(slot.spec_page_id() as u64),
        a.edges()[slot].record.edge_id != 0,
        b.edges()[slot].record.flags & 1 != 0,
    ensures
        reclaimable(b) == reclaimable(a) + (if a.edges()[slot].record.flags & 1 == 0 {
            1int
        } else {
            0
        }),
{
    law_reclaimed_slots(a);
    law_reclaimed_slots(b);
    lemma_dead_node_slots(a);
    lemma_dead_node_slots(b);
    lemma_dead_edge_slots(a);
    lemma_dead_edge_slots(b);
    assert(b.edges().contains_key(slot));
    assert forall|s: SlotRef| #[trigger] dead_node_slots(b).contains(s) == dead_node_slots(
        a,
    ).contains(s) by {
        assert(b.nodes().contains_key(s) == a.nodes().contains_key(s));
    }
    assert(dead_node_slots(b) =~= dead_node_slots(a));
    assert forall|s: SlotRef| #[trigger] dead_edge_slots(b).contains(s) == dead_edge_slots(
        a,
    ).insert(slot).contains(s) by {
        assert(b.edges().contains_key(s) == a.edges().contains_key(s));
    }
    assert(dead_edge_slots(b) =~= dead_edge_slots(a).insert(slot));
}

/// One more deleted node on a listed page raises what a compaction counts by one.
pub proof fn law_deleted_node_counts(a: EngineView, b: EngineView, slot: SlotRef, node: NodeRecord)
    requires
        heap_pages(a.pages),
        heap_pages(b.pages),
        pages_of(a.pages, a.node_pages, RecordKind::Node),
        pages_of(a.pages, a.edge_pages, RecordKind::Edge),
        pages_of(b.pages, b.node_pages, RecordKind::Node),
        pages_of(b.pages, b.edge_pages, RecordKind::Edge),
        b.node_pages == a.node_pages,
        b.edge_pages == a.edge_pages,
        b.edges() == a.edges(),
        b.nodes() == a.nodes().insert(slot, node),
        a.nodes().contains_key(slot),
        a.node_pages.contains(slot.spec_page_id() as u64),
        a.nodes()[slot].node_id != 0,
        node.node_id == a.nodes()[slot].node_id,
        node.flags & 1 != 0,
    ensures
        reclaimable(b) == reclaimable(a) + (if a.nodes()[slot].flags & 1 == 0 {
            1int
        } else {
            0
        }),
{
    law_reclaimed_slots(a);
    law_reclaimed_slots(b);
    lemma_dead_node_slots(a);
    lemma_dead_node_slots(b);
    lemma_dead_edge_slots(a);
    lemma_dead_edge_slots(b);
    assert(dead_edge_slots(b) =~= dead_edge_slots(a));
    assert(dead_node_slots(b) =~= dead_node_slots(a).insert(slot));
}

/// A compaction keeps a page of nodes in use if and only if there is a node on it that was
/// not deleted, and so for edges; it forgets the free slots on the other pages, and no
/// others. It writes to the log that it began, and what it counted. Records and indexes
/// stay as they are.
pub proof fn law_compaction_keeps(v: EngineView)
    ensures
        ({
            let w = compact_after(v);
            &&& forall|id: PageId| #[trigger]
                w.node_pages.contains(id) <==> v.node_pages.contains(id) && exists|i: int|
                    0 <= i < page_at(v.pages, id).records.len() && {
                        let n = #[trigger] page_nodes(page_at(v.pages, id))[i];
                        n.node_id != 0 && n.flags & 1 == 0
                    }
            &&& forall|id: PageId| #[trigger]
                w.edge_pages.contains(id) <==> v.edge_pages.contains(id) && exists|i: int|
                    0 <= i < page_at(v.pages, id).records.len() && {
                        let e = #[trigger] page_edges(page_at(v.pages, id))[i];
                        e.record.edge_id != 0 && e.record.flags & 1 == 0
                    }
            &&& v.node_pages.no_duplicates() ==> w.node_pages.no_duplicates()
            &&& v.edge_pages.no_duplicates() ==> w.edge_pages.no_duplicates()
            &&& forall|s: SlotRef| #[trigger]
                w.node_free.contains(s) <==> v.node_free.contains(s) && w.node_pages.contains(
                    s.spec_page_id() as u64,
                )
            &&& forall|s: SlotRef| #[trigger]
                w.edge_free.contains(s) <==> v.edge_free.contains(s) && w.edge_pages.contains(
                    s.spec_page_id() as u64,
                )
            &&& w.pages == v.pages
            &&& w.node_index == v.node_index
            &&& w.edge_index == v.edge_index
            &&& w.label_index == v.label_index
            &&& w.type_index == v.type_index
            &&& w.property_index == v.property_index
            &&& w.next_id == v.next_id
            &&& w.csr == v.csr
            &&& w.wal.len() == v.wal.len() + 2
            &&& w.wal.take(v.wal.len() as int) == v.wal
            &&& w.wal[v.wal.len() as int].record_type == RecordType::CompactionBegin
            &&& w.wal.last().record_type == RecordType::CompactionEnd
            &&& reclaimable(v) <= u64::MAX ==> be_value(w.wal.last().payload) == reclaimable(v)
                && w.wal.last().payload.len() == 8
        }),
{
    let w = compact_after(v);
    let keep_nodes = |id: PageId| has_live_node(page_nodes(page_at(v.pages, id)));
    let keep_edges = |id: PageId| has_live_edge(page_edges(page_at(v.pages, id)));
    assert forall|id: PageId| #[trigger]
        w.node_pages.contains(id) <==> v.node_pages.contains(id) && exists|i: int|
            0 <= i < page_at(v.pages, id).records.len() && {
                let n = #[trigger] page_nodes(page_at(v.pages, id))[i];
                n.node_id != 0 && n.flags & 1 == 0
            } by {
        lemma_filter_holds(v.node_pages, keep_nodes, id);
        let ns = page_nodes(page_at(v.pages, id));
        if has_live_node(ns) {
            let i = choose|i: int| 0 <= i < ns.len() && is_live_node(#[trigger] ns[i]);
            assert(ns[i].node_id != 0 && ns[i].flags & 1 == 0);
        }
        if exists|i: int|
            0 <= i < ns.len() && {
                let n = #[trigger] ns[i];
                n.node_id != 0 && n.flags & 1 == 0
            } {
            let i = choose|i: int|
                0 <= i < ns.len() && {
                    let n = #[trigger] ns[i];
                    n.node_id != 0 && n.flags & 1 == 0
                };
            assert(is_live_node(ns[i]));
        }
    }
    assert forall|id: PageId| #[trigger]
        w.edge_pages.contains(id) <==> v.edge_pages.contains(id) && exists|i: int|
            0 <= i < page_at(v.pages, id).records.len() && {
                let e = #[trigger] page_edges(page_at(v.pages, id))[i];
                e.record.edge_id != 0 && e.record.flags & 1 == 0
            } by {
        lemma_filter_holds(v.edge_pages, keep_edges, id);
        let es = page_edges(page_at(v.pages, id));
        if has_live_edge(es) {
            let i = choose|i: int| 0 <= i < es.len() && is_live_edge(#[trigger] es[i]);
            assert(es[i].record.edge_id != 0 && es[i].record.flags & 1 == 0);
        }
        if exists|i: int|
            0 <= i < es.len() && {
                let e = #[trigger] es[i];
                e.record.edge_id != 0 && e.record.flags & 1 == 0
            } {
            let i = choose|i: int|
                0 <= i < es.len() && {
                    let e = #[trigger] es[i];
                    e.record.edge_id != 0 && e.record.flags & 1 == 0
                };
            assert(is_live_edge(es[i]));
        }
    }
    if v.node_pages.no_duplicates() {
        lemma_filter_unique(v.node_pages, keep_nodes);
    }
    if v.edge_pages.no_duplicates() {
        lemma_filter_unique(v.edge_pages, keep_edges);
    }
    assert forall|s: SlotRef| #[trigger]
        w.node_free.contains(s) <==> v.node_free.contains(s) && w.node_pages.contains(
            s.spec_page_id() as u64,
        ) by {
        lemma_filter_holds(
            v.node_free,
            |t: SlotRef| w.node_pages.contains(t.spec_page_id() as u64),
            s,
        );
    }
    assert forall|s: SlotRef| #[trigger]
        w.edge_free.contains(s) <==> v.edge_free.contains(s) && w.edge_pages.contains(
            s.spec_page_id() as u64,
        ) by {
        lemma_filter_holds(
            v.edge_free,
            |t: SlotRef| w.edge_pages.contains(t.spec_page_id() as u64),
            s,
        );
    }
    assert(w.wal.take(v.wal.len() as int) =~= v.wal);
    lemma_pow256_sizes();
    if reclaimable(v) <= u64::MAX {
        broadcast use crate::bytes::be_bytes_len;

        lemma_be_roundtrip(reclaimable(v), 8);
    }
}

/// A compaction keeps the order of the pages and of the free slots that it keeps.
pub proof fn law_compaction_keeps_order(v: EngineView)
    ensures
        ({
            let w = compact_after(v);
            &&& w.node_pages == v.node_pages.filter(|id: PageId| w.node_pages.contains(id))
            &&& w.edge_pages == v.edge_pages.filter(|id: PageId| w.edge_pages.contains(id))
            &&& w.node_free == v.node_free.filter(
                |s: SlotRef| w.node_pages.contains(s.spec_page_id() as u64),
            )
            &&& w.edge_free == v.edge_free.filter(
                |s: SlotRef| w.edge_pages.contains(s.spec_page_id() as u64),
            )
        }),
{
    let w = compact_after(v);
    lemma_filter_by_result(
        v.node_pages,
        |id: PageId| has_live_node(page_nodes(page_at(v.pages, id))),
    );
    lemma_filter_by_result(
        v.edge_pages,
        |id: PageId| has_live_edge(page_edges(page_at(v.pages, id))),
    );
    lemma_same_filter(
        v.node_free,
        |s: SlotRef| w.node_pages.contains(s.spec_page_id() as u64),
        |s: SlotRef| w.node_pages.contains(s.spec_page_id() as u64),
    );
    lemma_same_filter(
        v.edge_free,
        |s: SlotRef| w.edge_pages.contains(s.spec_page_id() as u64),
        |s: SlotRef| w.edge_pages.contains(s.spec_page_id() as u64),
    );
}

/// What a filter lets through is what its result has.
proof fn lemma_filter_by_result<A>(s: Seq<A>, keep: spec_fn(A) -> bool)
    ensures
        s.filter(keep) == s.filter(|a: A| s.filter(keep).contains(a)),
{
    let r = s.filter(keep);
    let has = |a: A| r.contains(a);
    lemma_filter_agree(s, keep, has, s);
}

/// Filters that agree on what there is keep the same.
proof fn lemma_filter_agree<A>(
    s: Seq<A>,
    keep: spec_fn(A) -> bool,
    has: spec_fn(A) -> bool,
    part: Seq<A>,
)
    requires
        has == (|a: A| s.filter(keep).contains(a)),
        forall|i: int| 0 <= i < part.len() ==> s.contains(#[trigger] part[i]),
    ensures
        part.filter(keep) == part.filter(has),
    decreases part.len(),
{
    reveal(Seq::filter);
    if part.len() > 0 {
        let rest = part.drop_last();
        assert forall|i: int| 0 <= i < rest.len() implies s.contains(#[trigger] rest[i]) by {
            assert(rest[i] == part[i]);
        }
        lemma_filter_agree(s, keep, has, rest);
        assert(s.contains(part[part.len() - 1]));
        lemma_filter_holds(s, keep, part.last());
    }
}

/// A filter holds what it lets through, and nothing else.
proof fn lemma_filter_holds<A>(s: Seq<A>, keep: spec_fn(A) -> bool, a: A)
    ensures
        s.filter(keep).contains(a) <==> s.contains(a) && keep(a),
{
    if s.filter(keep).contains(a) {
        s.lemma_filter_contains_rev(keep, a);
        let k = choose|k: int| 0 <= k < s.filter(keep).len() && s.filter(keep)[k] == a;
        s.lemma_filter_pred(keep, k);
    }
    if s.contains(a) && keep(a) {
        let k = choose|k: int| 0 <= k < s.len() && s[k] == a;
        s.lemma_filter_contains(keep, k);
    }
}

} // verus!
