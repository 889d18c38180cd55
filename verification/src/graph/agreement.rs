//! The adjacency snapshot and the adjacency lists tell the same edges.

use vstd::prelude::*;

use crate::graph::adjacency::place_ok;
use crate::graph::adjacency::Side;
use crate::graph::csr::edge_of;
use crate::graph::csr::row_of;
use crate::graph::csr::CsrAdjacency;
use crate::graph::csr::CsrEdge;
use crate::graph::engine::node_entry_ok;
use crate::graph::engine::EngineView;
use crate::graph::maintenance::is_live_edge;
use crate::graph::maintenance::row_for;
use crate::graph::maintenance::rows_for;
use crate::graph::record::SlotRef;
use crate::graph::reopen::heap_pages;
use crate::graph::scan::csr_hop;
use crate::graph::scan::edges_at;
use crate::graph::scan::hop_of;
use crate::graph::scan::is_wanted;
use crate::graph::scan::law_walk_follows_list;
use crate::graph::scan::law_walk_is_complete;
use crate::graph::scan::wanted_along;
use crate::graph::scan::MAX_HOPS;
use crate::graph::store::edge_in;
use crate::graph::store::listed_edges;
use crate::graph::store::page_edges;
use crate::graph::stored::StoredEdge;
use crate::graph::wiring::list_of;
use crate::graph::wiring::recs;
use crate::storage::heap::cells;
use crate::storage::heap::is_page;
use crate::storage::heap::is_slot;
use crate::storage::heap::lemma_slot_on;
use crate::storage::heap::lemma_slot_parts;
use crate::storage::heap::page_at;
use crate::storage::heap::page_fits;
use crate::storage::heap::pages_of;
use crate::storage::heap::slot_on;
use crate::storage::heap::FIRST_DATA_PAGE;
use crate::storage::heap::PageView;
use crate::storage::heap::RecordKind;
use crate::storage::page::PageId;

verus! {

// ---------------------------------------------------------------------------
// Counting
// ---------------------------------------------------------------------------

/// How often something occurs among the images of a list is how many items of the
/// list have it as their image.
proof fn lemma_count_images<A, B>(
    s: Seq<A>,
    f: spec_fn(A) -> B,
    x: B,
    keep: spec_fn(A) -> bool,
)
    requires
        forall|a: A| #[trigger] keep(a) == (f(a) == x),
    ensures
        s.map_values(f).to_multiset().count(x) == s.filter(keep).len(),
    decreases s.len(),
{
    broadcast use vstd::seq_lib::group_to_multiset_ensures;

    reveal(Seq::filter);
    if s.len() == 0 {
        assert(s.map_values(f) =~= Seq::empty());
    } else {
        let rest = s.drop_last();
        lemma_count_images(rest, f, x, keep);
        assert(s.map_values(f) =~= rest.map_values(f).push(f(s.last())));
    }
}

/// Keeping some items of a list without duplicates leaves none.
pub proof fn lemma_filter_unique<A>(s: Seq<A>, keep: spec_fn(A) -> bool)
    requires
        s.no_duplicates(),
    ensures
        s.filter(keep).no_duplicates(),
        forall|a: A| #[trigger] s.filter(keep).contains(a) <==> s.contains(a) && keep(a),
    decreases s.len(),
{
    reveal(Seq::filter);
    if s.len() > 0 {
        let rest = s.drop_last();
        assert(rest.no_duplicates());
        lemma_filter_unique(rest, keep);
        let kept = rest.filter(keep);
        let all = s.filter(keep);
        let last = s.last();
        assert forall|a: A| #[trigger] s.contains(a) <==> rest.contains(a) || a == last by {
            if rest.contains(a) {
                let i = choose|i: int| 0 <= i < rest.len() && rest[i] == a;
                assert(s[i] == a);
            }
            if s.contains(a) {
                let i = choose|i: int| 0 <= i < s.len() && s[i] == a;
                if i < rest.len() {
                    assert(rest[i] == a);
                }
            }
            assert(s[s.len() - 1] == last);
        }
        assert(!rest.contains(last)) by {
            if rest.contains(last) {
                let i = choose|i: int| 0 <= i < rest.len() && rest[i] == last;
                assert(s[i] == s[s.len() - 1]);
            }
        }
        if keep(last) {
            assert(all == kept.push(last));
            assert(!kept.contains(last));
            assert(all.no_duplicates()) by {
                assert forall|i: int, j: int| 0 <= i < all.len() && 0 <= j < all.len() && i
                    != j implies all[i] != all[j] by {
                    if i < kept.len() {
                        assert(kept.contains(kept[i]));
                    }
                    if j < kept.len() {
                        assert(kept.contains(kept[j]));
                    }
                }
            }
            assert forall|a: A| #[trigger] all.contains(a) <==> s.contains(a) && keep(a) by {
                if kept.contains(a) {
                    let i = choose|i: int| 0 <= i < kept.len() && kept[i] == a;
                    assert(all[i] == a);
                }
                if all.contains(a) {
                    let i = choose|i: int| 0 <= i < all.len() && all[i] == a;
                    if i < kept.len() {
                        assert(kept[i] == a);
                    }
                }
                assert(all[all.len() - 1] == last);
                assert(s.contains(a) <==> rest.contains(a) || a == last);
            }
        } else {
            assert forall|a: A| #[trigger] all.contains(a) <==> s.contains(a) && keep(a) by {
                assert(s.contains(a) <==> rest.contains(a) || a == last);
            }
        }
    }
}

/// Two lists without duplicates that hold the same are equally long.
proof fn lemma_same_length<A>(a: Seq<A>, b: Seq<A>)
    requires
        a.no_duplicates(),
        b.no_duplicates(),
        forall|x: A| #[trigger] a.contains(x) <==> b.contains(x),
    ensures
        a.len() == b.len(),
{
    a.unique_seq_to_set();
    b.unique_seq_to_set();
    assert forall|x: A| #[trigger] a.to_set().contains(x) <==> b.to_set().contains(x) by {
        assert(a.to_set().contains(x) <==> a.contains(x));
        assert(b.to_set().contains(x) <==> b.contains(x));
    }
    assert(a.to_set() =~= b.to_set());
}

/// Edges in slots, with only some of them kept.
pub proof fn lemma_filter_edges(
    edges: Map<SlotRef, StoredEdge>,
    s: Seq<SlotRef>,
    keep: spec_fn(StoredEdge) -> bool,
    keep_slot: spec_fn(SlotRef) -> bool,
)
    requires
        forall|t: SlotRef| #[trigger] keep_slot(t) == keep(edges[t]),
    ensures
        edges_at(edges, s).filter(keep) == edges_at(edges, s.filter(keep_slot)),
    decreases s.len(),
{
    reveal(Seq::filter);
    if s.len() == 0 {
        assert(edges_at(edges, s) =~= Seq::empty());
        assert(edges_at(edges, s.filter(keep_slot)) =~= Seq::empty());
    } else {
        let rest = s.drop_last();
        lemma_filter_edges(edges, rest, keep, keep_slot);
        assert(edges_at(edges, s).drop_last() =~= edges_at(edges, rest));
        assert(edges_at(edges, s).last() == edges[s.last()]);
        if keep(edges[s.last()]) {
            assert(edges_at(edges, s.filter(keep_slot)) =~= edges_at(
                edges,
                rest.filter(keep_slot),
            ).push(edges[s.last()]));
        }
    }
}

// ---------------------------------------------------------------------------
// The slots of the listed pages
// ---------------------------------------------------------------------------

/// The slots of a page.
pub open spec fn page_slots(pages: Seq<PageView>, id: PageId) -> Seq<SlotRef> {
    Seq::new(page_at(pages, id).records.len(), |k: int| slot_on(id, k))
}

/// The slots of some pages.
pub open spec fn listed_slots(pages: Seq<PageView>, list: Seq<PageId>) -> Seq<SlotRef>
    decreases list.len(),
{
    if list.len() == 0 {
        Seq::empty()
    } else {
        listed_slots(pages, list.drop_last()) + page_slots(pages, list.last())
    }
}

proof fn lemma_page_slots(v: EngineView, id: PageId)
    requires
        heap_pages(v.pages),
        is_page(v.pages, id),
        page_at(v.pages, id).kind == RecordKind::Edge,
    ensures
        page_edges(page_at(v.pages, id)) == edges_at(v.edges(), page_slots(v.pages, id)),
        page_slots(v.pages, id).no_duplicates(),
        forall|s: SlotRef| #[trigger]
            page_slots(v.pages, id).contains(s) <==> is_slot(v.pages, s) && s.spec_page_id() == id,
{
    let page = page_at(v.pages, id);
    let slots = page_slots(v.pages, id);
    assert(page_fits(v.pages[id - FIRST_DATA_PAGE]));
    assert forall|k: int| 0 <= k < page.records.len() implies #[trigger] slots[k] == slot_on(id, k)
        && slots[k].spec_page_id() == id && slots[k].spec_slot_index() == k && is_slot(
        v.pages,
        slots[k],
    ) by {
        lemma_slot_on(id, k);
    }
    assert(page_edges(page) =~= edges_at(v.edges(), slots)) by {
        assert forall|k: int| 0 <= k < page.records.len() implies #[trigger] page_edges(page)[k]
            == edges_at(v.edges(), slots)[k] by {
            assert(is_slot(v.pages, slots[k]));
            assert(cells(v.pages)[slots[k]].bytes == page.records[k]);
            assert(v.edges()[slots[k]] == edge_in(page.records[k]));
        }
    }
    assert(slots.no_duplicates()) by {
        assert forall|i: int, j: int| 0 <= i < slots.len() && 0 <= j < slots.len() && i
            != j implies slots[i] != slots[j] by {
            assert(slots[i].spec_slot_index() == i && slots[j].spec_slot_index() == j);
        }
    }
    assert forall|s: SlotRef| #[trigger]
        slots.contains(s) <==> is_slot(v.pages, s) && s.spec_page_id() == id by {
        if slots.contains(s) {
            let k = choose|k: int| 0 <= k < slots.len() && slots[k] == s;
            assert(is_slot(v.pages, slots[k]));
        }
        if is_slot(v.pages, s) && s.spec_page_id() == id {
            let k = s.spec_slot_index() as int;
            lemma_slot_parts(s);
            assert(slots[k] == s);
        }
    }
}

pub proof fn lemma_listed_slots(v: EngineView, list: Seq<PageId>)
    requires
        heap_pages(v.pages),
        pages_of(v.pages, list, RecordKind::Edge),
    ensures
        listed_edges(v.pages, list) == edges_at(v.edges(), listed_slots(v.pages, list)),
        listed_slots(v.pages, list).no_duplicates(),
        forall|s: SlotRef| #[trigger]
            listed_slots(v.pages, list).contains(s) <==> is_slot(v.pages, s) && list.contains(
                s.spec_page_id() as u64,
            ),
    decreases list.len(),
{
    if list.len() == 0 {
        assert(edges_at(v.edges(), listed_slots(v.pages, list)) =~= Seq::empty());
    } else {
        let rest = list.drop_last();
        let id = list.last();
        assert(list[list.len() - 1] == id);
        assert(is_page(v.pages, list[list.len() - 1]));
        assert(pages_of(v.pages, rest, RecordKind::Edge)) by {
            assert forall|i: int| 0 <= i < rest.len() implies is_page(v.pages, #[trigger] rest[i])
                && page_at(v.pages, rest[i]).kind == RecordKind::Edge by {
                assert(rest[i] == list[i]);
            }
        }
        lemma_listed_slots(v, rest);
        lemma_page_slots(v, id);
        let a = listed_slots(v.pages, rest);
        let b = page_slots(v.pages, id);
        let all = listed_slots(v.pages, list);
        assert(edges_at(v.edges(), a + b) =~= edges_at(v.edges(), a) + edges_at(v.edges(), b));
        assert(!rest.contains(id)) by {
            if rest.contains(id) {
                let i = choose|i: int| 0 <= i < rest.len() && rest[i] == id;
                assert(list[i] == list[list.len() - 1]);
            }
        }
        assert(all.no_duplicates()) by {
            assert forall|i: int, j: int| 0 <= i < all.len() && 0 <= j < all.len() && i
                != j implies all[i] != all[j] by {
                if i < a.len() {
                    assert(a.contains(a[i]));
                } else {
                    assert(b.contains(b[i - a.len()]));
                }
                if j < a.len() {
                    assert(a.contains(a[j]));
                } else {
                    assert(b.contains(b[j - a.len()]));
                }
            }
        }
        assert forall|s: SlotRef| #[trigger]
            all.contains(s) <==> is_slot(v.pages, s) && list.contains(
                s.spec_page_id() as u64,
            ) by {
            let p = s.spec_page_id() as u64;
            if all.contains(s) {
                let i = choose|i: int| 0 <= i < all.len() && all[i] == s;
                if i < a.len() {
                    assert(a[i] == s);
                    assert(a.contains(s));
                    let k = choose|k: int| 0 <= k < rest.len() && rest[k] == p;
                    assert(list[k] == p);
                } else {
                    assert(b[i - a.len()] == s);
                    assert(b.contains(s));
                    assert(list[list.len() - 1] == p);
                }
            }
            if is_slot(v.pages, s) && list.contains(p) {
                let k = choose|k: int| 0 <= k < list.len() && list[k] == p;
                if k < rest.len() {
                    assert(rest[k] == p);
                    assert(a.contains(s));
                    let i = choose|i: int| 0 <= i < a.len() && a[i] == s;
                    assert(all[i] == s);
                } else {
                    assert(b.contains(s));
                    let i = choose|i: int| 0 <= i < b.len() && b[i] == s;
                    assert(all[a.len() + i] == s);
                }
            }
        }
    }
}

// ---------------------------------------------------------------------------
// The law
// ---------------------------------------------------------------------------

/// Do the edges that are there name this node as their source if and only if they
/// are linked to it, and stand on listed pages?
pub open spec fn sources_agree(v: EngineView, node_id: u64) -> bool {
    forall|s: SlotRef| #[trigger]
        v.edges().contains_key(s) && !v.edges()[s].record.is_deleted() ==> {
            let edge = v.edges()[s];
            &&& edge.record.edge_id != 0
            &&& v.edge_pages.contains(s.spec_page_id() as u64)
            &&& edge.source_id == node_id <==> edge.record.source_node == v.node_slot(node_id)
        }
}

/// Edges that lead to their sources agree with every node.
pub proof fn law_sources_agree(v: EngineView, node_id: u64)
    requires
        v.indexes_lead(),
        v.sources_lead(),
        v.has_node(node_id),
    ensures
        sources_agree(v, node_id),
{
    assert(node_entry_ok(v, node_id));
    assert forall|s: SlotRef| #[trigger]
        v.edges().contains_key(s) && !v.edges()[s].record.is_deleted() implies {
        let edge = v.edges()[s];
        &&& edge.record.edge_id != 0
        &&& v.edge_pages.contains(s.spec_page_id() as u64)
        &&& edge.source_id == node_id <==> edge.record.source_node == v.node_slot(node_id)
    } by {
        assert(node_entry_ok(v, v.edges()[s].source_id));
    }
}

/// A snapshot and the list of a node give the same hops, if in another order.
pub proof fn law_snapshot_agrees(
    v: EngineView,
    csr: CsrAdjacency,
    node_id: u64,
    list: Seq<SlotRef>,
)
    requires
        heap_pages(v.pages),
        pages_of(v.pages, v.edge_pages, RecordKind::Edge),
        v.indexes_lead(),
        v.lists_whole(),
        v.has_node(node_id),
        list_of(v.nodes(), recs(v.edges()), Side::Source, v.node_slot(node_id), list),
        list.len() <= MAX_HOPS,
        sources_agree(v, node_id),
        csr.holds(rows_for(listed_edges(v.pages, v.edge_pages))),
    ensures
        csr.row(node_id).map_values(|e: CsrEdge| csr_hop(e)).to_multiset() == wanted_along(
            v,
            node_id,
            Side::Source,
            Seq::empty(),
        ).map_values(|e: StoredEdge| hop_of(e)).to_multiset(),
{
    let edges = v.edges();
    let a = csr.row(node_id).map_values(|e: CsrEdge| csr_hop(e));
    let b = wanted_along(v, node_id, Side::Source, Seq::empty()).map_values(
        |e: StoredEdge| hop_of(e),
    );
    assert forall|h: (u64, u64, u32)| a.to_multiset().count(h) == b.to_multiset().count(h) by {
        lemma_snapshot_count(v, csr, node_id, h);
        lemma_list_count(v, node_id, list, h);
        let slots = listed_slots(v.pages, v.edge_pages);
        let is_live = |s: SlotRef| is_live_edge(v.edges()[s]);
        let is_row = |s: SlotRef| row_for(v.edges()[s]) == (node_id, h.0, h.1, h.2);
        let wanted = |s: SlotRef| is_wanted(v.edges()[s], Seq::empty());
        let is_hop = |s: SlotRef| hop_of(v.edges()[s]) == h;
        let live = slots.filter(is_live);
        let x = live.filter(is_row);
        let there = list.filter(wanted);
        let y = there.filter(is_hop);
        lemma_listed_slots(v, v.edge_pages);
        lemma_filter_unique(slots, is_live);
        lemma_filter_unique(live, is_row);
        lemma_filter_unique(list, wanted);
        lemma_filter_unique(there, is_hop);
        assert forall|s: SlotRef| #[trigger] x.contains(s) <==> y.contains(s) by {
            lemma_same_slot(v, node_id, list, s);
            assert(x.contains(s) <==> live.contains(s) && is_row(s));
            assert(live.contains(s) <==> slots.contains(s) && is_live(s));
            assert(y.contains(s) <==> there.contains(s) && is_hop(s));
            assert(there.contains(s) <==> list.contains(s) && wanted(s));
        }
        lemma_same_length(x, y);
    }
    assert(a.to_multiset() =~= b.to_multiset());
}

/// A slot with an edge that is there and leaves the node is in the list of the node
/// and on a listed page.
proof fn lemma_same_slot(v: EngineView, node_id: u64, list: Seq<SlotRef>, s: SlotRef)
    requires
        heap_pages(v.pages),
        pages_of(v.pages, v.edge_pages, RecordKind::Edge),
        v.indexes_lead(),
        v.lists_whole(),
        v.has_node(node_id),
        list_of(v.nodes(), recs(v.edges()), Side::Source, v.node_slot(node_id), list),
        list.len() <= MAX_HOPS,
        sources_agree(v, node_id),
    ensures
        (listed_slots(v.pages, v.edge_pages).contains(s) && is_live_edge(v.edges()[s])
            && v.edges()[s].source_id == node_id) <==> (list.contains(s)
            && !v.edges()[s].record.is_deleted()),
{
    lemma_listed_slots(v, v.edge_pages);
    let slots = listed_slots(v.pages, v.edge_pages);
    if slots.contains(s) {
        let p = s.spec_page_id() as u64;
        let k = choose|k: int| 0 <= k < v.edge_pages.len() && v.edge_pages[k] == p;
        assert(is_page(v.pages, v.edge_pages[k]));
        assert(v.edges().contains_key(s));
    }
    if list.contains(s) {
        let i = choose|i: int| 0 <= i < list.len() && list[i] == s;
        assert(place_ok(recs(v.edges()), Side::Source, list, i));
        assert(v.edges().contains_key(s));
    }
    if v.edges().contains_key(s) && !v.edges()[s].record.is_deleted() {
        law_walk_is_complete(v, node_id, Side::Source, list, s);
        assert(is_slot(v.pages, s));
    }
}

/// How often a hop occurs in the row of a node.
proof fn lemma_snapshot_count(
    v: EngineView,
    csr: CsrAdjacency,
    node_id: u64,
    h: (u64, u64, u32),
)
    requires
        heap_pages(v.pages),
        pages_of(v.pages, v.edge_pages, RecordKind::Edge),
        csr.holds(rows_for(listed_edges(v.pages, v.edge_pages))),
    ensures
        csr.row(node_id).map_values(|e: CsrEdge| csr_hop(e)).to_multiset().count(h)
            == listed_slots(v.pages, v.edge_pages).filter(
            |s: SlotRef| is_live_edge(v.edges()[s]),
        ).filter(|s: SlotRef| row_for(v.edges()[s]) == (node_id, h.0, h.1, h.2)).len(),
{
    let edges = v.edges();
    let slots = listed_slots(v.pages, v.edge_pages);
    let is_live = |s: SlotRef| is_live_edge(v.edges()[s]);
    let live = slots.filter(is_live);
    let row = (node_id, h.0, h.1, h.2);
    let e = edge_of(row);
    lemma_listed_slots(v, v.edge_pages);
    lemma_filter_edges(edges, slots, |x: StoredEdge| is_live_edge(x), is_live);
    let rows = rows_for(listed_edges(v.pages, v.edge_pages));
    let to_row = |s: SlotRef| row_for(edges[s]);
    assert(rows =~= live.map_values(to_row));
    lemma_count_images(
        live,
        to_row,
        row,
        |s: SlotRef| row_for(v.edges()[s]) == (node_id, h.0, h.1, h.2),
    );
    assert(row_of(node_id, e) == row);
    assert(csr.row(node_id).to_multiset().count(e) == rows.to_multiset().count(row));
    let is_hop = |x: CsrEdge| csr_hop(x) == h;
    lemma_count_images(csr.row(node_id), |x: CsrEdge| csr_hop(x), h, is_hop);
    assert forall|x: CsrEdge| #[trigger] is_hop(x) == (x == e) by {}
    lemma_count_images(csr.row(node_id), |x: CsrEdge| x, e, is_hop);
    assert(csr.row(node_id).map_values(|x: CsrEdge| x) =~= csr.row(node_id));
}

/// How often a hop occurs in the walk along the list of a node.
proof fn lemma_list_count(v: EngineView, node_id: u64, list: Seq<SlotRef>, h: (u64, u64, u32))
    requires
        v.has_node(node_id),
        list_of(v.nodes(), recs(v.edges()), Side::Source, v.node_slot(node_id), list),
        list.len() <= MAX_HOPS,
    ensures
        wanted_along(v, node_id, Side::Source, Seq::empty()).map_values(
            |e: StoredEdge| hop_of(e),
        ).to_multiset().count(h) == list.filter(
            |s: SlotRef| is_wanted(v.edges()[s], Seq::empty()),
        ).filter(|s: SlotRef| hop_of(v.edges()[s]) == h).len(),
{
    let edges = v.edges();
    law_walk_follows_list(v, node_id, Side::Source, list);
    let wanted = |e: StoredEdge| is_wanted(e, Seq::empty());
    let wanted_slot = |s: SlotRef| is_wanted(v.edges()[s], Seq::empty());
    lemma_filter_edges(edges, list, wanted, wanted_slot);
    let there = list.filter(wanted_slot);
    assert(wanted_along(v, node_id, Side::Source, Seq::empty()) == edges_at(edges, there));
    let to_hop = |s: SlotRef| hop_of(edges[s]);
    assert(edges_at(edges, there).map_values(|e: StoredEdge| hop_of(e)) =~= there.map_values(
        to_hop,
    ));
    lemma_count_images(there, to_hop, h, |s: SlotRef| hop_of(v.edges()[s]) == h);
}

} // verus!
