//! Upkeep of the engine: compaction and adjacency snapshots.

use std::sync::Arc;

use vstd::prelude::*;

use crate::bytes::be_bytes;
use crate::bytes::push_be;
use crate::graph::csr::max3;
use crate::graph::csr::CsrAdjacency;
use crate::graph::csr::CsrBuilder;
use crate::graph::csr::EdgeRow;
use crate::graph::engine::agreements_kept;
use crate::graph::engine::lemma_same_entries;
use crate::graph::engine::lemma_sources_kept;
use crate::graph::engine::EngineView;
use crate::graph::engine::GraphStorageEngine;
use crate::graph::record::edge_flags;
use crate::graph::record::node_flags;
use crate::graph::record::NodeRecord;
use crate::graph::record::SlotRef;
use crate::graph::scan::lemma_filter_push;
use crate::graph::store::has_page;
use crate::graph::store::listed_edges;
use crate::graph::store::listed_nodes;
use crate::graph::store::page_edges;
use crate::graph::store::page_nodes;
use crate::graph::stored::StoredEdge;
use crate::storage::heap::is_page;
use crate::storage::heap::is_slot;
use crate::storage::heap::page_at;
use crate::storage::heap::pages_of;
use crate::storage::heap::FIRST_DATA_PAGE;
use crate::storage::heap::PageView;
use crate::storage::heap::RecordKind;
use crate::storage::page::PageId;
use crate::storage::wal::RecordType;
use crate::storage::wal::WalView;

verus! {

/// Is this the record of a node that is there?
pub open spec fn is_live_node(n: NodeRecord) -> bool {
    n.node_id != 0 && !n.is_deleted()
}

/// Is this the record of a deleted node?
pub open spec fn is_dead_node(n: NodeRecord) -> bool {
    n.node_id != 0 && n.is_deleted()
}

/// Is this an edge that is there?
pub open spec fn is_live_edge(e: StoredEdge) -> bool {
    e.record.edge_id != 0 && !e.record.is_deleted()
}

/// Is this a deleted edge?
pub open spec fn is_dead_edge(e: StoredEdge) -> bool {
    e.record.edge_id != 0 && e.record.is_deleted()
}

/// Is there a node on the page?
pub open spec fn has_live_node(ns: Seq<NodeRecord>) -> bool {
    exists|i: int| 0 <= i < ns.len() && is_live_node(#[trigger] ns[i])
}

/// Is there an edge on the page?
pub open spec fn has_live_edge(es: Seq<StoredEdge>) -> bool {
    exists|i: int| 0 <= i < es.len() && is_live_edge(#[trigger] es[i])
}

/// The deleted nodes among these.
pub open spec fn dead_nodes(ns: Seq<NodeRecord>) -> Seq<NodeRecord> {
    ns.filter(|n: NodeRecord| is_dead_node(n))
}

/// The deleted edges among these.
pub open spec fn dead_edges(es: Seq<StoredEdge>) -> Seq<StoredEdge> {
    es.filter(|e: StoredEdge| is_dead_edge(e))
}

/// The pages of a list with a node on them.
pub open spec fn live_node_pages(pages: Seq<PageView>, list: Seq<PageId>) -> Seq<PageId> {
    list.filter(|id: PageId| has_live_node(page_nodes(page_at(pages, id))))
}

/// The pages of a list with an edge on them.
pub open spec fn live_edge_pages(pages: Seq<PageView>, list: Seq<PageId>) -> Seq<PageId> {
    list.filter(|id: PageId| has_live_edge(page_edges(page_at(pages, id))))
}

/// The slots on one of these pages.
pub open spec fn slots_on_pages(free: Seq<SlotRef>, list: Seq<PageId>) -> Seq<SlotRef> {
    free.filter(|s: SlotRef| list.contains(s.spec_page_id() as u64))
}

/// The number of records that a compaction finds deleted.
pub open spec fn reclaimable(v: EngineView) -> nat {
    dead_nodes(listed_nodes(v.pages, v.node_pages)).len() + dead_edges(
        listed_edges(v.pages, v.edge_pages),
    ).len()
}

/// The engine after a compaction.
pub open spec fn compact_after(v: EngineView) -> EngineView {
    let node_pages = live_node_pages(v.pages, v.node_pages);
    let edge_pages = live_edge_pages(v.pages, v.edge_pages);
    EngineView {
        node_pages,
        edge_pages,
        node_free: slots_on_pages(v.node_free, node_pages),
        edge_free: slots_on_pages(v.edge_free, edge_pages),
        wal: v.wal.push(
            WalView { record_type: RecordType::CompactionBegin, txid: 0, payload: Seq::empty() },
        ).push(
            WalView {
                record_type: RecordType::CompactionEnd,
                txid: 0,
                payload: be_bytes(reclaimable(v), 8),
            },
        ),
        ..v
    }
}

/// The rows of a snapshot for these edges.
pub open spec fn rows_for(es: Seq<StoredEdge>) -> Seq<EdgeRow> {
    es.filter(|e: StoredEdge| is_live_edge(e)).map_values(|e: StoredEdge| row_for(e))
}

/// The row of a snapshot for an edge.
pub open spec fn row_for(e: StoredEdge) -> EdgeRow {
    (e.source_id, e.target_id, e.record.edge_id, e.record.type_id)
}

/// The largest node id at the ends of these edges that are there.
pub open spec fn max_end(es: Seq<StoredEdge>) -> u64
    decreases es.len(),
{
    if es.len() == 0 {
        0
    } else {
        let m = max_end(es.drop_last());
        let e = es.last();
        if is_live_edge(e) {
            max3(m, e.source_id, e.target_id)
        } else {
            m
        }
    }
}

/// The largest of `start` and the ids of these nodes, deleted or not.
pub open spec fn max_node(start: u64, ns: Seq<NodeRecord>) -> u64
    decreases ns.len(),
{
    if ns.len() == 0 {
        start
    } else {
        max3(max_node(start, ns.drop_last()), ns.last().node_id, 0)
    }
}

/// The largest node id of a snapshot.
pub open spec fn snapshot_max(v: EngineView) -> u64 {
    max_node(max_end(listed_edges(v.pages, v.edge_pages)), listed_nodes(v.pages, v.node_pages))
}

/// A snapshot has a row for each edge that has an id and was not deleted: its source, its
/// target, its id and its type.
pub proof fn law_snapshot_rows(es: Seq<StoredEdge>)
    ensures
        rows_for(es) == es.filter(
            |e: StoredEdge| e.record.edge_id != 0 && e.record.flags & 1 == 0,
        ).map_values(
            |e: StoredEdge| (e.source_id, e.target_id, e.record.edge_id, e.record.type_id),
        ),
    decreases es.len(),
{
    let keep = |e: StoredEdge| e.record.edge_id != 0 && e.record.flags & 1 == 0;
    let row = |e: StoredEdge| (e.source_id, e.target_id, e.record.edge_id, e.record.type_id);
    reveal(Seq::filter);
    if es.len() > 0 {
        let rest = es.drop_last();
        law_snapshot_rows(rest);
        lemma_rows_push(rest, es.last());
        assert(rest.push(es.last()) =~= es);
        if keep(es.last()) {
            assert(es.filter(keep).map_values(row) =~= rest.filter(keep).map_values(row).push(
                row(es.last()),
            ));
        }
    }
    assert(rows_for(es) =~= es.filter(keep).map_values(row));
}

/// A snapshot reaches up to the largest id among the listed nodes and the ends of the listed
/// edges that are there, and no further.
pub proof fn law_snapshot_max(v: EngineView)
    ensures
        ({
            let ns = listed_nodes(v.pages, v.node_pages);
            let es = listed_edges(v.pages, v.edge_pages);
            let m = snapshot_max(v);
            &&& forall|i: int| 0 <= i < ns.len() ==> (#[trigger] ns[i]).node_id <= m
            &&& forall|i: int|
                0 <= i < es.len() && (#[trigger] es[i]).record.edge_id != 0 && es[i].record.flags
                    & 1 == 0 ==> es[i].source_id <= m && es[i].target_id <= m
            &&& m == 0 || (exists|i: int| 0 <= i < ns.len() && (#[trigger] ns[i]).node_id == m) || (
            exists|i: int|
                0 <= i < es.len() && (#[trigger] es[i]).record.edge_id != 0 && es[i].record.flags
                    & 1 == 0 && (es[i].source_id == m || es[i].target_id == m))
        }),
{
    let ns = listed_nodes(v.pages, v.node_pages);
    let es = listed_edges(v.pages, v.edge_pages);
    lemma_max_end(es);
    lemma_max_node(max_end(es), ns);
}

proof fn lemma_max_end(es: Seq<StoredEdge>)
    ensures
        forall|i: int|
            0 <= i < es.len() && is_live_edge(#[trigger] es[i]) ==> es[i].source_id <= max_end(es)
                && es[i].target_id <= max_end(es),
        max_end(es) == 0 || exists|i: int|
            0 <= i < es.len() && is_live_edge(#[trigger] es[i]) && (es[i].source_id == max_end(es)
                || es[i].target_id == max_end(es)),
    decreases es.len(),
{
    if es.len() > 0 {
        let rest = es.drop_last();
        lemma_max_end(rest);
        assert forall|i: int| 0 <= i < es.len() && is_live_edge(#[trigger] es[i]) implies es[i].source_id
            <= max_end(es) && es[i].target_id <= max_end(es) by {
            if i < rest.len() {
                assert(rest[i] == es[i]);
            }
        }
        if max_end(es) != 0 {
            if max_end(es) == max_end(rest) {
                let i = choose|i: int|
                    0 <= i < rest.len() && is_live_edge(#[trigger] rest[i]) && (rest[i].source_id
                        == max_end(rest) || rest[i].target_id == max_end(rest));
                assert(es[i] == rest[i]);
            } else {
                assert(is_live_edge(es[es.len() - 1]));
            }
        }
    }
}

proof fn lemma_max_node(start: u64, ns: Seq<NodeRecord>)
    ensures
        max_node(start, ns) >= start,
        forall|i: int| 0 <= i < ns.len() ==> (#[trigger] ns[i]).node_id <= max_node(start, ns),
        max_node(start, ns) == start || exists|i: int|
            0 <= i < ns.len() && (#[trigger] ns[i]).node_id == max_node(start, ns),
    decreases ns.len(),
{
    if ns.len() > 0 {
        let rest = ns.drop_last();
        lemma_max_node(start, rest);
        assert forall|i: int| 0 <= i < ns.len() implies (#[trigger] ns[i]).node_id <= max_node(
            start,
            ns,
        ) by {
            if i < rest.len() {
                assert(rest[i] == ns[i]);
            }
        }
        if max_node(start, ns) != start {
            if max_node(start, ns) == max_node(start, rest) {
                let i = choose|i: int|
                    0 <= i < rest.len() && (#[trigger] rest[i]).node_id == max_node(start, rest);
                assert(ns[i] == rest[i]);
            } else {
                assert(ns[ns.len() - 1].node_id == max_node(start, ns));
            }
        }
    }
}

// ---------------------------------------------------------------------------
// Lemmas
// ---------------------------------------------------------------------------

/// Different page ids out of `n` are at most `n`.
proof fn lemma_few_pages(list: Seq<PageId>, n: nat)
    requires
        list.no_duplicates(),
        forall|i: int|
            0 <= i < list.len() ==> FIRST_DATA_PAGE <= #[trigger] list[i] < FIRST_DATA_PAGE + n,
    ensures
        list.len() <= n,
    decreases n,
{
    if n == 0 {
        if list.len() > 0 {
            assert(FIRST_DATA_PAGE <= list[0]);
        }
    } else {
        let top = FIRST_DATA_PAGE + n - 1;
        if exists|k: int| 0 <= k < list.len() && #[trigger] list[k] == top {
            let k = choose|k: int| 0 <= k < list.len() && #[trigger] list[k] == top;
            let rest = list.remove(k);
            assert forall|i: int| 0 <= i < rest.len() implies FIRST_DATA_PAGE <= #[trigger] rest[i]
                < FIRST_DATA_PAGE + (n - 1) by {
                let j = if i < k {
                    i
                } else {
                    i + 1
                };
                assert(rest[i] == list[j]);
            }
            assert(rest.no_duplicates()) by {
                assert forall|i: int, j: int| 0 <= i < rest.len() && 0 <= j < rest.len() && i
                    != j implies rest[i] != rest[j] by {
                    let a = if i < k {
                        i
                    } else {
                        i + 1
                    };
                    let b = if j < k {
                        j
                    } else {
                        j + 1
                    };
                    assert(rest[i] == list[a] && rest[j] == list[b]);
                }
            }
            lemma_few_pages(rest, (n - 1) as nat);
        } else {
            lemma_few_pages(list, (n - 1) as nat);
        }
    }
}

/// The node pages and the edge pages together are no more than there are pages.
proof fn lemma_listed_pages(pages: Seq<PageView>, nodes: Seq<PageId>, edges: Seq<PageId>)
    requires
        pages_of(pages, nodes, RecordKind::Node),
        pages_of(pages, edges, RecordKind::Edge),
    ensures
        nodes.len() + edges.len() <= pages.len(),
{
    let both = nodes + edges;
    assert forall|i: int| 0 <= i < both.len() implies FIRST_DATA_PAGE <= #[trigger] both[i]
        < FIRST_DATA_PAGE + pages.len() by {
        if i < nodes.len() {
            assert(is_page(pages, nodes[i]));
        } else {
            assert(is_page(pages, edges[i - nodes.len()]));
        }
    }
    assert(both.no_duplicates()) by {
        assert forall|i: int, j: int| 0 <= i < both.len() && 0 <= j < both.len() && i
            != j implies both[i] != both[j] by {
            if i < nodes.len() && j >= nodes.len() {
                assert(is_page(pages, nodes[i]) && is_page(pages, edges[j - nodes.len()]));
            }
            if j < nodes.len() && i >= nodes.len() {
                assert(is_page(pages, nodes[j]) && is_page(pages, edges[i - nodes.len()]));
            }
        }
    }
    lemma_few_pages(both, pages.len());
}

/// Keeping some pages of a list keeps it a list of such pages.
proof fn lemma_kept_pages(
    pages: Seq<PageView>,
    list: Seq<PageId>,
    kind: RecordKind,
    keep: spec_fn(PageId) -> bool,
)
    requires
        pages_of(pages, list, kind),
    ensures
        pages_of(pages, list.filter(keep), kind),
    decreases list.len(),
{
    reveal(Seq::filter);
    if list.len() > 0 {
        let rest = list.drop_last();
        assert(pages_of(pages, rest, kind)) by {
            assert forall|i: int| 0 <= i < rest.len() implies is_page(pages, #[trigger] rest[i])
                && page_at(pages, rest[i]).kind == kind by {
                assert(rest[i] == list[i]);
            }
        }
        lemma_kept_pages(pages, rest, kind, keep);
        let kept = rest.filter(keep);
        assert(is_page(pages, list[list.len() - 1]));
        if keep(list.last()) {
            if kept.contains(list.last()) {
                rest.lemma_filter_contains_rev(keep, list.last());
                let i = choose|i: int| 0 <= i < rest.len() && rest[i] == list.last();
                assert(list[i] == list[list.len() - 1]);
            }
            let all = list.filter(keep);
            assert forall|i: int, j: int| 0 <= i < all.len() && 0 <= j < all.len() && i
                != j implies all[i] != all[j] by {
                if i < kept.len() {
                    assert(kept.contains(kept[i]));
                }
                if j < kept.len() {
                    assert(kept.contains(kept[j]));
                }
            }
        }
    }
}

proof fn lemma_dead_nodes_add(a: Seq<NodeRecord>, b: Seq<NodeRecord>)
    ensures
        dead_nodes(a + b) == dead_nodes(a) + dead_nodes(b),
        dead_nodes(b).len() <= b.len(),
{
    let dead = |n: NodeRecord| is_dead_node(n);
    Seq::filter_distributes_over_add(a, b, dead);
    b.lemma_filter_len(dead);
}

proof fn lemma_dead_edges_add(a: Seq<StoredEdge>, b: Seq<StoredEdge>)
    ensures
        dead_edges(a + b) == dead_edges(a) + dead_edges(b),
        dead_edges(b).len() <= b.len(),
{
    let dead = |e: StoredEdge| is_dead_edge(e);
    Seq::filter_distributes_over_add(a, b, dead);
    b.lemma_filter_len(dead);
}

proof fn lemma_rows_push(es: Seq<StoredEdge>, e: StoredEdge)
    ensures
        rows_for(es.push(e)) == (if is_live_edge(e) {
            rows_for(es).push(row_for(e))
        } else {
            rows_for(es)
        }),
        max_end(es.push(e)) == (if is_live_edge(e) {
            max3(max_end(es), e.source_id, e.target_id)
        } else {
            max_end(es)
        }),
        rows_for(es).len() <= es.len(),
{
    let live = |x: StoredEdge| is_live_edge(x);
    reveal(Seq::filter);
    assert(es.push(e).drop_last() =~= es);
    es.lemma_filter_len(live);
    if is_live_edge(e) {
        assert(rows_for(es.push(e)) =~= rows_for(es).push(row_for(e)));
    }
}

// ---------------------------------------------------------------------------
// The engine
// ---------------------------------------------------------------------------

/// Is there a node among these, and how many of them are deleted?
fn weigh_nodes(ns: &Vec<NodeRecord>) -> (r: (bool, usize))
    ensures
        r.0 == has_live_node(ns@),
        r.1 == dead_nodes(ns@).len(),
{
    let mut live: bool = false;
    let mut dead: usize = 0;
    let mut i: usize = 0;
    let ghost is_dead = |n: NodeRecord| is_dead_node(n);
    assert(dead_nodes(ns@.take(0)) =~= Seq::empty()) by {
        reveal(Seq::filter);
    }
    while i < ns.len()
        invariant
            i <= ns@.len(),
            is_dead == (|n: NodeRecord| is_dead_node(n)),
            dead == dead_nodes(ns@.take(i as int)).len(),
            dead <= i,
            live == exists|j: int| 0 <= j < i && is_live_node(#[trigger] ns@[j]),
        decreases ns@.len() - i,
    {
        let n = ns[i];
        proof {
            lemma_filter_push(ns@, i as int, is_dead);
        }
        if n.node_id != 0 {
            if n.flags & node_flags::DELETED == 0 {
                live = true;
                assert(is_live_node(ns@[i as int]));
            } else {
                dead += 1;
            }
        }
        i += 1;
    }
    assert(ns@.take(i as int) =~= ns@);
    (live, dead)
}

/// Is there an edge among these, and how many of them are deleted?
fn weigh_edges(es: &Vec<StoredEdge>) -> (r: (bool, usize))
    ensures
        r.0 == has_live_edge(es@),
        r.1 == dead_edges(es@).len(),
{
    let mut live: bool = false;
    let mut dead: usize = 0;
    let mut i: usize = 0;
    let ghost is_dead = |e: StoredEdge| is_dead_edge(e);
    assert(dead_edges(es@.take(0)) =~= Seq::empty()) by {
        reveal(Seq::filter);
    }
    while i < es.len()
        invariant
            i <= es@.len(),
            is_dead == (|e: StoredEdge| is_dead_edge(e)),
            dead == dead_edges(es@.take(i as int)).len(),
            dead <= i,
            live == exists|j: int| 0 <= j < i && is_live_edge(#[trigger] es@[j]),
        decreases es@.len() - i,
    {
        let e = es[i];
        proof {
            lemma_filter_push(es@, i as int, is_dead);
        }
        if e.record.edge_id != 0 {
            if e.record.flags & edge_flags::DELETED == 0 {
                live = true;
                assert(is_live_edge(es@[i as int]));
            } else {
                dead += 1;
            }
        }
        i += 1;
    }
    assert(es@.take(i as int) =~= es@);
    (live, dead)
}

/// The slots on one of these pages.
fn keep_slots(free: &Vec<SlotRef>, list: &Vec<PageId>) -> (r: Vec<SlotRef>)
    ensures
        r@ == slots_on_pages(free@, list@),
{
    let mut out: Vec<SlotRef> = Vec::new();
    let mut i: usize = 0;
    let ghost keep = |s: SlotRef| list@.contains(s.spec_page_id() as u64);
    assert(free@.take(0).filter(keep) =~= Seq::empty()) by {
        reveal(Seq::filter);
    }
    while i < free.len()
        invariant
            i <= free@.len(),
            keep == (|s: SlotRef| list@.contains(s.spec_page_id() as u64)),
            out@ == free@.take(i as int).filter(keep),
        decreases free@.len() - i,
    {
        let s = free[i];
        proof {
            lemma_filter_push(free@, i as int, keep);
        }
        if has_page(list, s.page_id() as u64) {
            out.push(s);
        }
        i += 1;
    }
    assert(free@.take(i as int) =~= free@);
    out
}

/// Every edge that is there stands on a page that stays in use.
proof fn lemma_live_pages_listed(a: EngineView, b: EngineView)
    requires
        a.sources_lead(),
        b.pages == a.pages,
        b.node_index == a.node_index,
        b.edge_pages == live_edge_pages(a.pages, a.edge_pages),
    ensures
        b.sources_lead(),
{
    let keep = |id: PageId| has_live_edge(page_edges(page_at(a.pages, id)));
    assert forall|s: SlotRef| #[trigger]
        b.edges().contains_key(s) && !b.edges()[s].record.is_deleted() implies b.edge_pages.contains(
        s.spec_page_id() as u64,
    ) by {
        let id = s.spec_page_id() as u64;
        let page = page_at(a.pages, id);
        assert(a.edges().contains_key(s));
        assert(is_slot(a.pages, s));
        assert(page_edges(page)[s.spec_slot_index() as int] == a.edges()[s]);
        assert(is_live_edge(page_edges(page)[s.spec_slot_index() as int]));
        assert(keep(id));
        a.edge_pages.lemma_filter_contains(keep, a.edge_pages.index_of(id));
    }
    lemma_sources_kept(a, b);
}

impl GraphStorageEngine {
    /// The node pages with a node on them, and the number of deleted nodes.
    fn sift_node_pages(&self) -> (r: (Vec<PageId>, usize))
        requires
            self.wf(),
        ensures
            r.0@ == live_node_pages(self@.pages, self@.node_pages),
            r.1 == dead_nodes(listed_nodes(self@.pages, self@.node_pages)).len(),
            r.1 <= 256 * self@.node_pages.len(),
    {
        let list = self.store.node_pages();
        let mut kept: Vec<PageId> = Vec::new();
        let mut dead: usize = 0;
        let mut i: usize = 0;
        let ghost keep = |id: PageId| has_live_node(page_nodes(page_at(self@.pages, id)));
        proof {
            self.lemma_page_bounds();
            assert(list@.take(0).filter(keep) =~= Seq::empty()) by {
                reveal(Seq::filter);
            }
            assert(dead_nodes(Seq::empty()) =~= Seq::empty()) by {
                reveal(Seq::filter);
            }
        }
        while i < list.len()
            invariant
                self.wf(),
                list@ == self@.node_pages,
                i <= list@.len(),
                256 * list@.len() <= u32::MAX,
                keep == (|id: PageId| has_live_node(page_nodes(page_at(self@.pages, id)))),
                kept@ == list@.take(i as int).filter(keep),
                dead == dead_nodes(listed_nodes(self@.pages, list@.take(i as int))).len(),
                dead <= 256 * i,
            decreases list@.len() - i,
        {
            let id: PageId = list[i];
            assert(is_page(self@.pages, list@[i as int]));
            let ns = self.store.nodes_on(id);
            let (live, n) = weigh_nodes(&ns);
            proof {
                lemma_filter_push(list@, i as int, keep);
                assert(list@.take(i + 1).drop_last() =~= list@.take(i as int));
                lemma_dead_nodes_add(listed_nodes(self@.pages, list@.take(i as int)), ns@);
            }
            dead = dead + n;
            if live {
                kept.push(id);
            }
            i += 1;
        }
        assert(list@.take(i as int) =~= list@);
        (kept, dead)
    }

    /// The edge pages with an edge on them, and the number of deleted edges.
    fn sift_edge_pages(&self) -> (r: (Vec<PageId>, usize))
        requires
            self.wf(),
        ensures
            r.0@ == live_edge_pages(self@.pages, self@.edge_pages),
            r.1 == dead_edges(listed_edges(self@.pages, self@.edge_pages)).len(),
            r.1 <= 256 * self@.edge_pages.len(),
    {
        let list = self.store.edge_pages();
        let mut kept: Vec<PageId> = Vec::new();
        let mut dead: usize = 0;
        let mut i: usize = 0;
        let ghost keep = |id: PageId| has_live_edge(page_edges(page_at(self@.pages, id)));
        proof {
            self.lemma_page_bounds();
            assert(list@.take(0).filter(keep) =~= Seq::empty()) by {
                reveal(Seq::filter);
            }
            assert(dead_edges(Seq::empty()) =~= Seq::empty()) by {
                reveal(Seq::filter);
            }
        }
        while i < list.len()
            invariant
                self.wf(),
                list@ == self@.edge_pages,
                i <= list@.len(),
                256 * list@.len() <= u32::MAX,
                keep == (|id: PageId| has_live_edge(page_edges(page_at(self@.pages, id)))),
                kept@ == list@.take(i as int).filter(keep),
                dead == dead_edges(listed_edges(self@.pages, list@.take(i as int))).len(),
                dead <= 256 * i,
            decreases list@.len() - i,
        {
            let id: PageId = list[i];
            assert(is_page(self@.pages, list@[i as int]));
            let es = self.store.edges_on(id);
            let (live, n) = weigh_edges(&es);
            proof {
                lemma_filter_push(list@, i as int, keep);
                assert(list@.take(i + 1).drop_last() =~= list@.take(i as int));
                lemma_dead_edges_add(listed_edges(self@.pages, list@.take(i as int)), es@);
            }
            dead = dead + n;
            if live {
                kept.push(id);
            }
            i += 1;
        }
        assert(list@.take(i as int) =~= list@);
        (kept, dead)
    }

    /// The slots of all listed pages can be counted.
    proof fn lemma_page_bounds(&self)
        requires
            self.wf(),
        ensures
            256 * (self@.node_pages.len() + self@.edge_pages.len()) <= u32::MAX,
    {
        self.store.lemma_page_count();
        lemma_listed_pages(self@.pages, self@.node_pages, self@.edge_pages);
    }

    /// Takes the pages that hold deleted records only out of use, forgets the free
    /// slots on them, and returns the number of deleted records that were found.
    pub fn compact(&mut self) -> (r: usize)
        requires
            old(self).wf(),
        ensures
            final(self).wf(),
            r == reclaimable(old(self)@),
            final(self)@ == compact_after(old(self)@),
            agreements_kept(old(self)@, final(self)@),
            final(self).room() == old(self).room(),
    {
        let ghost before = self@;
        self.log(RecordType::CompactionBegin, 0, Vec::new());
        let ghost opened = self@;
        let (node_pages, dead_nodes) = self.sift_node_pages();
        let (edge_pages, dead_edges) = self.sift_edge_pages();
        proof {
            self.lemma_page_bounds();
            lemma_kept_pages(
                before.pages,
                before.node_pages,
                RecordKind::Node,
                |id: PageId| has_live_node(page_nodes(page_at(before.pages, id))),
            );
            lemma_kept_pages(
                before.pages,
                before.edge_pages,
                RecordKind::Edge,
                |id: PageId| has_live_edge(page_edges(page_at(before.pages, id))),
            );
        }
        let reclaimed: usize = dead_nodes + dead_edges;
        self.node_free_list = keep_slots(&self.node_free_list, &node_pages);
        self.edge_free_list = keep_slots(&self.edge_free_list, &edge_pages);
        self.store.set_pages(node_pages, edge_pages);
        proof {
            lemma_same_entries(opened, self@);
            if opened.sources_lead() {
                lemma_live_pages_listed(opened, self@);
            }
        }
        let mut payload: Vec<u8> = Vec::new();
        push_be(&mut payload, reclaimed as u128, 8);
        assert(payload@ =~= be_bytes(reclaimable(before), 8));
        self.log(RecordType::CompactionEnd, 0, payload);
        assert(self@ =~= compact_after(before));
        reclaimed
    }

    /// A snapshot builder with the edges of all listed pages.
    fn gather_edges(&self) -> (r: CsrBuilder)
        requires
            self.wf(),
        ensures
            r.wf(),
            r.edges() == rows_for(listed_edges(self@.pages, self@.edge_pages)),
            r.max_id() == max_end(listed_edges(self@.pages, self@.edge_pages)),
            r.edges().len() <= u32::MAX,
    {
        let mut builder = CsrBuilder::new();
        let list = self.store.edge_pages();
        let mut i: usize = 0;
        proof {
            self.lemma_page_bounds();
            assert(rows_for(Seq::empty()) =~= Seq::empty()) by {
                reveal(Seq::filter);
            }
        }
        while i < list.len()
            invariant
                self.wf(),
                list@ == self@.edge_pages,
                i <= list@.len(),
                256 * list@.len() <= u32::MAX,
                builder.wf(),
                builder.edges() == rows_for(listed_edges(self@.pages, list@.take(i as int))),
                builder.max_id() == max_end(listed_edges(self@.pages, list@.take(i as int))),
                builder.edges().len() <= 256 * i,
            decreases list@.len() - i,
        {
            let id: PageId = list[i];
            assert(is_page(self@.pages, list@[i as int]));
            let es = self.store.edges_on(id);
            let ghost before = listed_edges(self@.pages, list@.take(i as int));
            let mut j: usize = 0;
            assert(before + es@.take(0) =~= before);
            while j < es.len()
                invariant
                    j <= es@.len(),
                    es@.len() <= 256,
                    builder.wf(),
                    builder.edges() == rows_for(before + es@.take(j as int)),
                    builder.max_id() == max_end(before + es@.take(j as int)),
                    builder.edges().len() <= 256 * i + j,
                decreases es@.len() - j,
            {
                let edge = es[j];
                proof {
                    lemma_rows_push(before + es@.take(j as int), edge);
                    assert(before + es@.take(j + 1) =~= (before + es@.take(j as int)).push(edge));
                }
                if edge.record.edge_id != 0 {
                    builder.add_edge(&edge);
                }
                j += 1;
            }
            assert(es@.take(j as int) =~= es@);
            assert(list@.take(i + 1).drop_last() =~= list@.take(i as int));
            i += 1;
        }
        assert(list@.take(i as int) =~= list@);
        builder
    }

    /// Makes the builder cover the nodes of all listed pages.
    fn gather_nodes(&self, builder: &mut CsrBuilder)
        requires
            self.wf(),
            old(builder).wf(),
        ensures
            final(builder).wf(),
            final(builder).edges() == old(builder).edges(),
            final(builder).max_id() == max_node(
                old(builder).max_id(),
                listed_nodes(self@.pages, self@.node_pages),
            ),
    {
        let list = self.store.node_pages();
        let ghost start = builder.max_id();
        let ghost rows = builder.edges();
        let mut i: usize = 0;
        while i < list.len()
            invariant
                self.wf(),
                list@ == self@.node_pages,
                i <= list@.len(),
                builder.wf(),
                builder.edges() == rows,
                builder.max_id() == max_node(
                    start,
                    listed_nodes(self@.pages, list@.take(i as int)),
                ),
            decreases list@.len() - i,
        {
            let id: PageId = list[i];
            assert(is_page(self@.pages, list@[i as int]));
            let ns = self.store.nodes_on(id);
            let ghost before = listed_nodes(self@.pages, list@.take(i as int));
            let mut j: usize = 0;
            assert(before + ns@.take(0) =~= before);
            while j < ns.len()
                invariant
                    j <= ns@.len(),
                    builder.wf(),
                    builder.edges() == rows,
                    builder.max_id() == max_node(start, before + ns@.take(j as int)),
                decreases ns@.len() - j,
            {
                let node = ns[j];
                assert((before + ns@.take(j + 1)).drop_last() =~= before + ns@.take(j as int));
                if node.node_id != 0 {
                    builder.add_node(&node);
                }
                j += 1;
            }
            assert(ns@.take(j as int) =~= ns@);
            assert(list@.take(i + 1).drop_last() =~= list@.take(i as int));
            i += 1;
        }
        assert(list@.take(i as int) =~= list@);
    }

    /// Builds an adjacency snapshot of the edges on all listed pages and makes it
    /// the current one. It has a row for every node id up to the largest.
    pub fn freeze_adjacency(&mut self) -> (r: Arc<CsrAdjacency>)
        requires
            old(self).wf(),
            snapshot_max(old(self)@) <= usize::MAX - 2,
        ensures
            final(self).wf(),
            r.wf(),
            r.holds(rows_for(listed_edges(old(self)@.pages, old(self)@.edge_pages))),
            r.max_node_id == snapshot_max(old(self)@),
            final(self)@ == (EngineView { csr: Some(r), ..old(self)@ }),
            agreements_kept(old(self)@, final(self)@),
            final(self).room() == old(self).room(),
    {
        let ghost before = self@;
        let mut builder = self.gather_edges();
        self.gather_nodes(&mut builder);
        let csr = Arc::new(builder.build());
        self.csr.publish(csr.clone());
        proof {
            lemma_same_entries(before, self@);
        }
        csr
    }
}

} // verus!
