//! Adjacency lists on pages.
//!
//! A node record holds the first edge of its two lists, an edge its neighbours in
//! both. Here edges are linked and unlinked where they stand on the pages, and
//! the lists are shown to stay whole.

use vstd::prelude::*;

use crate::graph::adjacency::is_list;
use crate::graph::adjacency::law_link_head;
use crate::graph::adjacency::law_link_keeps_other;
use crate::graph::adjacency::law_unlink;
use crate::graph::adjacency::law_unlink_keeps_other;
use crate::graph::adjacency::linked;
use crate::graph::adjacency::next_of;
use crate::graph::adjacency::node_of;
use crate::graph::adjacency::place_ok;
use crate::graph::adjacency::prev_of;
use crate::graph::adjacency::set_links;
use crate::graph::adjacency::set_next;
use crate::graph::adjacency::set_prev;
use crate::graph::adjacency::unlinked;
use crate::graph::adjacency::with_next;
use crate::graph::adjacency::with_prev;
use crate::graph::adjacency::Edges;
use crate::graph::adjacency::Side;
use crate::graph::record::EdgeRecord;
use crate::graph::record::NodeRecord;
use crate::graph::record::SlotRef;
use crate::graph::store::edges_of;
use crate::graph::store::nodes_of;
use crate::graph::store::RecordStore;
use crate::graph::stored::StoredEdge;
use crate::storage::heap::cells;
use crate::storage::heap::with_cell;
use crate::storage::heap::PageView;

verus! {

/// The generation behind `g`; behind the largest one it starts again at 0.
pub open spec fn next_generation(g: u16) -> u16 {
    if g == u16::MAX {
        0
    } else {
        (g + 1) as u16
    }
}

/// Generations are counted one by one, and start again at 0.
pub proof fn law_generations(g: u16)
    ensures
        g < u16::MAX ==> next_generation(g) == g + 1,
        next_generation(u16::MAX) == 0,
{
}

/// The generation behind `g`.
pub fn bump(g: u16) -> (r: u16)
    ensures
        r == next_generation(g),
{
    if g == u16::MAX {
        0
    } else {
        g + 1
    }
}

/// The node record in a slot.
pub open spec fn node_at(pages: Seq<PageView>, slot: SlotRef) -> NodeRecord {
    nodes_of(cells(pages))[slot]
}

/// The edge in a slot.
pub open spec fn edge_at(pages: Seq<PageView>, slot: SlotRef) -> StoredEdge {
    edges_of(cells(pages))[slot]
}

/// Is there a node record in the slot?
pub open spec fn has_node_at(pages: Seq<PageView>, slot: SlotRef) -> bool {
    nodes_of(cells(pages)).contains_key(slot)
}

/// Is there an edge in the slot?
pub open spec fn has_edge_at(pages: Seq<PageView>, slot: SlotRef) -> bool {
    edges_of(cells(pages)).contains_key(slot)
}

/// The first edge of a list of the node.
pub open spec fn head_of(node: NodeRecord, side: Side) -> SlotRef {
    match side {
        Side::Source => node.first_outgoing_edge,
        Side::Target => node.first_incoming_edge,
    }
}

/// The node with another first edge.
pub open spec fn with_head(node: NodeRecord, side: Side, head: SlotRef) -> NodeRecord {
    match side {
        Side::Source => NodeRecord {
            first_outgoing_edge: head,
            generation: next_generation(node.generation),
            ..node
        },
        Side::Target => NodeRecord {
            first_incoming_edge: head,
            generation: next_generation(node.generation),
            ..node
        },
    }
}

/// The edge with another record.
pub open spec fn relinked(edge: StoredEdge, record: EdgeRecord) -> StoredEdge {
    StoredEdge { record, ..edge }
}

/// The edge records without the ids of their end nodes.
pub open spec fn recs(edges: Map<SlotRef, StoredEdge>) -> Edges {
    Map::new(|s: SlotRef| edges.contains_key(s), |s: SlotRef| edges[s].record)
}

/// The ids of the end nodes of the edges.
pub open spec fn ends(edges: Map<SlotRef, StoredEdge>) -> Map<SlotRef, (u64, u64)> {
    Map::new(
        |s: SlotRef| edges.contains_key(s),
        |s: SlotRef| (edges[s].source_id, edges[s].target_id),
    )
}

fn get_head(node: &NodeRecord, side: Side) -> (r: SlotRef)
    ensures
        r == head_of(*node, side),
{
    match side {
        Side::Source => node.first_outgoing_edge,
        Side::Target => node.first_incoming_edge,
    }
}

fn get_prev(rec: &EdgeRecord, side: Side) -> (r: SlotRef)
    ensures
        r == prev_of(*rec, side),
{
    match side {
        Side::Source => rec.prev_source_edge,
        Side::Target => rec.prev_target_edge,
    }
}

fn get_next(rec: &EdgeRecord, side: Side) -> (r: SlotRef)
    ensures
        r == next_of(*rec, side),
{
    match side {
        Side::Source => rec.next_source_edge,
        Side::Target => rec.next_target_edge,
    }
}

fn put_head(node: NodeRecord, side: Side, head: SlotRef) -> (r: NodeRecord)
    ensures
        r == with_head(node, side, head),
{
    let mut r = node;
    match side {
        Side::Source => {
            r.first_outgoing_edge = head;
        },
        Side::Target => {
            r.first_incoming_edge = head;
        },
    }
    r.generation = bump(node.generation);
    r
}

fn put_prev(edge: StoredEdge, side: Side, prev: SlotRef) -> (r: StoredEdge)
    ensures
        r == relinked(edge, with_prev(edge.record, side, prev)),
{
    let mut r = edge;
    match side {
        Side::Source => {
            r.record.prev_source_edge = prev;
        },
        Side::Target => {
            r.record.prev_target_edge = prev;
        },
    }
    r
}

fn put_next(edge: StoredEdge, side: Side, next: SlotRef) -> (r: StoredEdge)
    ensures
        r == relinked(edge, with_next(edge.record, side, next)),
{
    let mut r = edge;
    match side {
        Side::Source => {
            r.record.next_source_edge = next;
        },
        Side::Target => {
            r.record.next_target_edge = next;
        },
    }
    r
}

// ---------------------------------------------------------------------------
// Linking
// ---------------------------------------------------------------------------

/// Is there a node in the slot, and an edge where its list starts?
pub open spec fn can_wire(pages: Seq<PageView>, side: Side, node: SlotRef) -> bool {
    let head = head_of(node_at(pages, node), side);
    has_node_at(pages, node) && (head.spec_is_null() || has_edge_at(pages, head))
}

/// The pages after an edge was linked at the head of a list of a node.
pub open spec fn wired(pages: Seq<PageView>, side: Side, edge: SlotRef, node: SlotRef) -> Seq<
    PageView,
> {
    let old_node = node_at(pages, node);
    let head = head_of(old_node, side);
    let old_edge = edge_at(pages, edge);
    let p1 = with_cell(
        pages,
        edge,
        relinked(
            old_edge,
            with_prev(with_next(old_edge.record, side, head), side, SlotRef::null()),
        ).spec_bytes(),
    );
    let p2 = if head.spec_is_null() {
        p1
    } else {
        let old_head = edge_at(p1, head);
        with_cell(
            p1,
            head,
            relinked(old_head, with_prev(old_head.record, side, edge)).spec_bytes(),
        )
    };
    with_cell(p2, node, with_head(old_node, side, edge).spec_bytes())
}

/// The edges that leave a node and those that enter it have each a head of their own.
pub proof fn law_heads(node: NodeRecord, slot: SlotRef)
    ensures
        head_of(node, Side::Source) == node.first_outgoing_edge,
        head_of(node, Side::Target) == node.first_incoming_edge,
        with_head(node, Side::Source, slot).first_outgoing_edge == slot,
        with_head(node, Side::Source, slot).first_incoming_edge == node.first_incoming_edge,
        with_head(node, Side::Target, slot).first_incoming_edge == slot,
        with_head(node, Side::Target, slot).first_outgoing_edge == node.first_outgoing_edge,
        forall|side: Side|
            ({
                let n = #[trigger] with_head(node, side, slot);
                n.node_id == node.node_id && n.label_id == node.label_id && n.flags == node.flags
                    && n.first_property == node.first_property
            }),
{
}

/// Links an edge at the head of a list of a node.
pub fn wire(store: &mut RecordStore, side: Side, edge: SlotRef, node: SlotRef)
    requires
        old(store).wf(),
        can_wire(old(store).pages(), side, node),
        old(store).edges().contains_key(edge),
    ensures
        final(store).wf(),
        final(store).pages() == wired(old(store).pages(), side, edge, node),
        final(store).spec_node_pages() == old(store).spec_node_pages(),
        final(store).spec_edge_pages() == old(store).spec_edge_pages(),
        final(store).spec_property_pages() == old(store).spec_property_pages(),
        final(store).nodes() == old(store).nodes().insert(
            node,
            with_head(old(store).nodes()[node], side, edge),
        ),
        recs(final(store).edges()) == linked(
            recs(old(store).edges()),
            side,
            edge,
            head_of(old(store).nodes()[node], side),
        ),
        ends(final(store).edges()) == ends(old(store).edges()),
        final(store).properties() == old(store).properties(),
{
    let ghost edges0 = store.edges();
    match store.node(node) {
        Some(old_node) => {
            let head = get_head(&old_node, side);
            match store.edge(edge) {
                Some(old_edge) => {
                    let linked_edge = put_prev(
                        put_next(old_edge, side, head),
                        side,
                        SlotRef::null(),
                    );
                    store.set_edge(edge, &linked_edge);
                },
                None => {},
            }
            if !head.is_null() {
                match store.edge(head) {
                    Some(old_head) => {
                        let patched = put_prev(old_head, side, edge);
                        store.set_edge(head, &patched);
                    },
                    None => {},
                }
            }
            let new_node = put_head(old_node, side, edge);
            store.set_node(node, &new_node);
            proof {
                assert(recs(store.edges()) =~= linked(recs(edges0), side, edge, head));
                assert(ends(store.edges()) =~= ends(edges0));
            }
        },
        None => {},
    }
}

/// Is an edge in a list of the node, as far as the records tell?
pub open spec fn is_wired(pages: Seq<PageView>, side: Side, edge: SlotRef, node: SlotRef) -> bool {
    !prev_of(edge_at(pages, edge).record, side).spec_is_null() || head_of(
        node_at(pages, node),
        side,
    ) == edge
}

/// Is there a node in the slot, where the edge has no predecessor, and an edge at each
/// neighbour, where it is in a list?
pub open spec fn can_unwire(pages: Seq<PageView>, side: Side, edge: SlotRef, node: SlotRef) -> bool {
    let prev = prev_of(edge_at(pages, edge).record, side);
    let next = next_of(edge_at(pages, edge).record, side);
    &&& prev.spec_is_null() ==> has_node_at(pages, node)
    &&& is_wired(pages, side, edge, node) ==> {
        &&& prev.spec_is_null() || has_edge_at(pages, prev)
        &&& next.spec_is_null() || has_edge_at(pages, next)
    }
}

/// The pages after an edge was unlinked from a list of a node. An edge that is in
/// no list stays as it is.
pub open spec fn unwired(pages: Seq<PageView>, side: Side, edge: SlotRef, node: SlotRef) -> Seq<
    PageView,
> {
    let prev = prev_of(edge_at(pages, edge).record, side);
    let next = next_of(edge_at(pages, edge).record, side);
    if !is_wired(pages, side, edge, node) {
        pages
    } else {
        let p1 = if prev.spec_is_null() {
            pages
        } else {
            let e = edge_at(pages, prev);
            with_cell(pages, prev, relinked(e, with_next(e.record, side, next)).spec_bytes())
        };
        let p2 = if next.spec_is_null() {
            p1
        } else {
            let e = edge_at(p1, next);
            with_cell(p1, next, relinked(e, with_prev(e.record, side, prev)).spec_bytes())
        };
        let e = edge_at(p2, edge);
        let p3 = with_cell(
            p2,
            edge,
            relinked(
                e,
                with_prev(with_next(e.record, side, SlotRef::null()), side, SlotRef::null()),
            ).spec_bytes(),
        );
        if prev.spec_is_null() {
            with_cell(p3, node, with_head(node_at(p3, node), side, next).spec_bytes())
        } else {
            p3
        }
    }
}

/// Can an edge be unlinked from a list of a node?
pub fn check_unwire(store: &RecordStore, side: Side, edge: SlotRef, node: SlotRef) -> (r: bool)
    requires
        store.wf(),
        store.edges().contains_key(edge),
    ensures
        r == can_unwire(store.pages(), side, edge, node),
{
    match store.edge(edge) {
        Some(old_edge) => {
            let prev = get_prev(&old_edge.record, side);
            let next = get_next(&old_edge.record, side);
            if prev.is_null() {
                match store.node(node) {
                    Some(old_node) => {
                        if get_head(&old_node, side) != edge {
                            return true;
                        }
                    },
                    None => {
                        return false;
                    },
                }
            }
            (prev.is_null() || store.edge(prev).is_some()) && (next.is_null() || store.edge(
                next,
            ).is_some())
        },
        None => false,
    }
}

/// Can an edge be linked at the head of a list of a node?
pub fn check_wire(store: &RecordStore, side: Side, node: SlotRef) -> (r: bool)
    requires
        store.wf(),
    ensures
        r == can_wire(store.pages(), side, node),
{
    match store.node(node) {
        Some(old_node) => {
            let head = get_head(&old_node, side);
            head.is_null() || store.edge(head).is_some()
        },
        None => false,
    }
}

/// Unlinks an edge from a list of a node.
pub fn unwire(store: &mut RecordStore, side: Side, edge: SlotRef, node: SlotRef)
    requires
        old(store).wf(),
        old(store).edges().contains_key(edge),
        can_unwire(old(store).pages(), side, edge, node),
    ensures
        final(store).wf(),
        final(store).pages() == unwired(old(store).pages(), side, edge, node),
        final(store).spec_node_pages() == old(store).spec_node_pages(),
        final(store).spec_edge_pages() == old(store).spec_edge_pages(),
        final(store).spec_property_pages() == old(store).spec_property_pages(),
        final(store).properties() == old(store).properties(),
        ends(final(store).edges()) == ends(old(store).edges()),
        recs(final(store).edges()) == (if is_wired(old(store).pages(), side, edge, node) {
            unlinked(recs(old(store).edges()), side, edge)
        } else {
            recs(old(store).edges())
        }),
        final(store).nodes() == (if is_wired(old(store).pages(), side, edge, node) && prev_of(
            old(store).edges()[edge].record,
            side,
        ).spec_is_null() {
            old(store).nodes().insert(
                node,
                with_head(
                    old(store).nodes()[node],
                    side,
                    next_of(old(store).edges()[edge].record, side),
                ),
            )
        } else {
            old(store).nodes()
        }),
{
    let found = store.node(node);
    match store.edge(edge) {
        Some(old_edge) => {
            let prev = get_prev(&old_edge.record, side);
            let next = get_next(&old_edge.record, side);
            if prev.is_null() {
                if let Some(old_node) = &found {
                    if get_head(old_node, side) != edge {
                        return;
                    }
                }
            }
            patch_next(store, side, prev, next);
            patch_prev(store, side, next, prev);
            clear_links(store, side, edge);
            if prev.is_null() {
                if let Some(old_node) = found {
                    store.set_node(node, &put_head(old_node, side, next));
                }
            }
        },
        None => {},
    }
}

/// Has the store the same page lists, nodes and properties, and edges between
/// the same end nodes?
spec fn only_links_differ(a: RecordStore, b: RecordStore) -> bool {
    &&& b.spec_node_pages() == a.spec_node_pages()
    &&& b.spec_edge_pages() == a.spec_edge_pages()
    &&& b.spec_property_pages() == a.spec_property_pages()
    &&& b.nodes() == a.nodes()
    &&& b.properties() == a.properties()
    &&& ends(b.edges()) == ends(a.edges())
}

/// Puts another edge behind the one in a slot, if there is one.
fn patch_next(store: &mut RecordStore, side: Side, slot: SlotRef, next: SlotRef)
    requires
        old(store).wf(),
        slot.spec_is_null() || old(store).edges().contains_key(slot),
    ensures
        final(store).wf(),
        only_links_differ(*old(store), *final(store)),
        recs(final(store).edges()) == set_next(recs(old(store).edges()), side, slot, next),
        final(store).pages() == (if slot.spec_is_null() {
            old(store).pages()
        } else {
            let e = edge_at(old(store).pages(), slot);
            with_cell(
                old(store).pages(),
                slot,
                relinked(e, with_next(e.record, side, next)).spec_bytes(),
            )
        }),
{
    let ghost edges0 = store.edges();
    if !slot.is_null() {
        match store.edge(slot) {
            Some(e) => {
                store.set_edge(slot, &put_next(e, side, next));
            },
            None => {},
        }
    }
    assert(recs(store.edges()) =~= set_next(recs(edges0), side, slot, next));
    assert(ends(store.edges()) =~= ends(edges0));
}

/// Puts another edge before the one in a slot, if there is one.
fn patch_prev(store: &mut RecordStore, side: Side, slot: SlotRef, prev: SlotRef)
    requires
        old(store).wf(),
        slot.spec_is_null() || old(store).edges().contains_key(slot),
    ensures
        final(store).wf(),
        only_links_differ(*old(store), *final(store)),
        recs(final(store).edges()) == set_prev(recs(old(store).edges()), side, slot, prev),
        final(store).pages() == (if slot.spec_is_null() {
            old(store).pages()
        } else {
            let e = edge_at(old(store).pages(), slot);
            with_cell(
                old(store).pages(),
                slot,
                relinked(e, with_prev(e.record, side, prev)).spec_bytes(),
            )
        }),
{
    let ghost edges0 = store.edges();
    if !slot.is_null() {
        match store.edge(slot) {
            Some(e) => {
                store.set_edge(slot, &put_prev(e, side, prev));
            },
            None => {},
        }
    }
    assert(recs(store.edges()) =~= set_prev(recs(edges0), side, slot, prev));
    assert(ends(store.edges()) =~= ends(edges0));
}

/// Takes the neighbours from an edge.
fn clear_links(store: &mut RecordStore, side: Side, slot: SlotRef)
    requires
        old(store).wf(),
        old(store).edges().contains_key(slot),
    ensures
        final(store).wf(),
        only_links_differ(*old(store), *final(store)),
        recs(final(store).edges()) == set_links(
            recs(old(store).edges()),
            side,
            slot,
            SlotRef::null(),
            SlotRef::null(),
        ),
        final(store).pages() == ({
            let e = edge_at(old(store).pages(), slot);
            with_cell(
                old(store).pages(),
                slot,
                relinked(
                    e,
                    with_prev(with_next(e.record, side, SlotRef::null()), side, SlotRef::null()),
                ).spec_bytes(),
            )
        }),
{
    let ghost edges0 = store.edges();
    match store.edge(slot) {
        Some(e) => {
            let cleared = put_prev(put_next(e, side, SlotRef::null()), side, SlotRef::null());
            store.set_edge(slot, &cleared);
        },
        None => {},
    }
    assert(recs(store.edges()) =~= set_links(
        recs(edges0),
        side,
        slot,
        SlotRef::null(),
        SlotRef::null(),
    ));
    assert(ends(store.edges()) =~= ends(edges0));
}

// ---------------------------------------------------------------------------
// Whole lists
// ---------------------------------------------------------------------------

/// Are these edges the list of a node, and edges of that node?
pub open spec fn list_of(
    nodes: Map<SlotRef, NodeRecord>,
    edges: Edges,
    side: Side,
    node: SlotRef,
    list: Seq<SlotRef>,
) -> bool {
    &&& is_list(edges, side, head_of(nodes[node], side), list)
    &&& forall|i: int|
        0 <= i < list.len() ==> node_of(edges[#[trigger] list[i]], side) == node
}

/// Has the node a list?
pub open spec fn has_list(
    nodes: Map<SlotRef, NodeRecord>,
    edges: Edges,
    side: Side,
    node: SlotRef,
) -> bool {
    exists|list: Seq<SlotRef>| list_of(nodes, edges, side, node, list)
}

/// Is the edge in the list of its node?
pub open spec fn is_listed(
    nodes: Map<SlotRef, NodeRecord>,
    edges: Edges,
    side: Side,
    edge: SlotRef,
) -> bool {
    exists|list: Seq<SlotRef>| #[trigger]
        list_of(nodes, edges, side, node_of(edges[edge], side), list) && list.contains(edge)
}

/// Is the edge in the list of its node or, if it is deleted, in none? An edge
/// with no node on this side is in no list.
pub open spec fn edge_settled(
    nodes: Map<SlotRef, NodeRecord>,
    edges: Edges,
    side: Side,
    edge: SlotRef,
) -> bool {
    let rec = edges[edge];
    node_of(rec, side).spec_is_null() || (nodes.contains_key(node_of(rec, side)) && (is_listed(
        nodes,
        edges,
        side,
        edge,
    ) || (rec.is_deleted() && prev_of(rec, side).spec_is_null() && next_of(
        rec,
        side,
    ).spec_is_null())))
}

/// Has every node its list, and is every edge but `except` where it belongs?
pub open spec fn lists_ok_but(
    nodes: Map<SlotRef, NodeRecord>,
    edges: Edges,
    side: Side,
    except: Option<SlotRef>,
) -> bool {
    &&& forall|n: SlotRef| #[trigger] nodes.contains_key(n) ==> has_list(nodes, edges, side, n)
    &&& forall|e: SlotRef| #[trigger]
        edges.contains_key(e) && except != Some(e) ==> edge_settled(nodes, edges, side, e)
}

/// Are the adjacency lists of one side whole?
pub open spec fn lists_ok(nodes: Map<SlotRef, NodeRecord>, edges: Edges, side: Side) -> bool {
    lists_ok_but(nodes, edges, side, None)
}

/// A list that holds the same links is still a list.
proof fn lemma_list_kept(
    edges: Edges,
    after: Edges,
    side: Side,
    head: SlotRef,
    list: Seq<SlotRef>,
)
    requires
        is_list(edges, side, head, list),
        forall|i: int|
            0 <= i < list.len() ==> after.contains_key(#[trigger] list[i]) && prev_of(
                after[list[i]],
                side,
            ) == prev_of(edges[list[i]], side) && next_of(after[list[i]], side) == next_of(
                edges[list[i]],
                side,
            ),
    ensures
        is_list(after, side, head, list),
{
    assert forall|i: int| 0 <= i < list.len() implies #[trigger] place_ok(
        after,
        side,
        list,
        i,
    ) by {
        assert(place_ok(edges, side, list, i));
        assert(after.contains_key(list[i]));
    }
}

/// Where heads and links of one side stay, so do its lists.
pub proof fn lemma_lists_kept(
    nodes: Map<SlotRef, NodeRecord>,
    edges: Edges,
    nodes2: Map<SlotRef, NodeRecord>,
    edges2: Edges,
    side: Side,
    except: Option<SlotRef>,
    except2: Option<SlotRef>,
)
    requires
        lists_ok_but(nodes, edges, side, except),
        forall|n: SlotRef| #[trigger]
            nodes2.contains_key(n) ==> (nodes.contains_key(n) && head_of(nodes2[n], side)
                == head_of(nodes[n], side)) || (!nodes.contains_key(n) && head_of(
                nodes2[n],
                side,
            ).spec_is_null()),
        forall|n: SlotRef| #[trigger] nodes.contains_key(n) ==> nodes2.contains_key(n),
        forall|e: SlotRef| #[trigger]
            edges.contains_key(e) ==> edges2.contains_key(e) && prev_of(edges2[e], side) == prev_of(
                edges[e],
                side,
            ) && next_of(edges2[e], side) == next_of(edges[e], side) && node_of(edges2[e], side)
                == node_of(edges[e], side) && (edges[e].is_deleted() ==> edges2[e].is_deleted()),
        forall|e: SlotRef| #[trigger]
            edges2.contains_key(e) ==> edges.contains_key(e) || except2 == Some(e) || node_of(
                edges2[e],
                side,
            ).spec_is_null(),
        except is Some ==> except2 == except,
    ensures
        lists_ok_but(nodes2, edges2, side, except2),
{
    assert forall|n: SlotRef, list: Seq<SlotRef>| #[trigger]
        list_of(nodes, edges, side, n, list) && nodes.contains_key(n) implies list_of(
        nodes2,
        edges2,
        side,
        n,
        list,
    ) by {
        assert forall|i: int| 0 <= i < list.len() implies edges.contains_key(
            #[trigger] list[i],
        ) by {
            assert(place_ok(edges, side, list, i));
        }
        lemma_list_kept(edges, edges2, side, head_of(nodes[n], side), list);
        assert(nodes2.contains_key(n));
        assert forall|i: int| 0 <= i < list.len() implies node_of(
            edges2[#[trigger] list[i]],
            side,
        ) == n by {
            assert(edges.contains_key(list[i]));
        }
    }
    assert forall|n: SlotRef| #[trigger] nodes2.contains_key(n) implies has_list(
        nodes2,
        edges2,
        side,
        n,
    ) by {
        if nodes.contains_key(n) {
            let list = choose|list: Seq<SlotRef>| list_of(nodes, edges, side, n, list);
            assert(list_of(nodes2, edges2, side, n, list));
        } else {
            let list = Seq::<SlotRef>::empty();
            assert(head_of(nodes2[n], side) == SlotRef::null());
            assert(list_of(nodes2, edges2, side, n, list));
        }
    }
    assert forall|e: SlotRef| #[trigger]
        edges2.contains_key(e) && except2 != Some(e) implies edge_settled(
        nodes2,
        edges2,
        side,
        e,
    ) by {
        if edges.contains_key(e) {
            assert(edge_settled(nodes, edges, side, e));
            let n = node_of(edges[e], side);
            if !n.spec_is_null() && is_listed(nodes, edges, side, e) {
                let list = choose|list: Seq<SlotRef>| #[trigger]
                    list_of(nodes, edges, side, n, list) && list.contains(e);
                assert(list_of(nodes2, edges2, side, n, list));
            }
        }
    }
}

/// Linking the one edge that is not settled makes the lists whole.
pub proof fn lemma_wire_lists(
    nodes: Map<SlotRef, NodeRecord>,
    edges: Edges,
    side: Side,
    edge: SlotRef,
)
    requires
        lists_ok_but(nodes, edges, side, Some(edge)),
        edges.contains_key(edge),
        !edge.spec_is_null(),
        nodes.contains_key(node_of(edges[edge], side)),
        !is_listed(nodes, edges, side, edge),
    ensures
        ({
            let n = node_of(edges[edge], side);
            lists_ok(
                nodes.insert(n, with_head(nodes[n], side, edge)),
                linked(edges, side, edge, head_of(nodes[n], side)),
                side,
            )
        }),
{
    let n = node_of(edges[edge], side);
    let head = head_of(nodes[n], side);
    let nodes2 = nodes.insert(n, with_head(nodes[n], side, edge));
    let edges2 = linked(edges, side, edge, head);
    assert(has_list(nodes, edges, side, n));
    let own = choose|list: Seq<SlotRef>| list_of(nodes, edges, side, n, list);
    if own.contains(edge) {
        assert(list_of(nodes, edges, side, node_of(edges[edge], side), own));
    }
    law_link_head(edges, side, edge, head, own);
    let longer = seq![edge] + own;
    if own.len() > 0 {
        assert(place_ok(edges, side, own, 0));
    }
    assert forall|e: SlotRef| #[trigger] edges2.contains_key(e) implies edges.contains_key(e)
        && node_of(edges2[e], side) == node_of(edges[e], side) && edges2[e].is_deleted()
        == edges[e].is_deleted() by {
        if !head.spec_is_null() {
            assert(own.len() > 0);
            assert(edges.contains_key(head));
        }
    }
    assert(list_of(nodes2, edges2, side, n, longer)) by {
        assert forall|i: int| 0 <= i < longer.len() implies node_of(
            edges2[#[trigger] longer[i]],
            side,
        ) == n by {
            assert(place_ok(edges2, side, longer, i));
            if i > 0 {
                assert(longer[i] == own[i - 1]);
            }
        }
    }
    assert forall|m: SlotRef, list: Seq<SlotRef>| #[trigger]
        list_of(nodes, edges, side, m, list) && m != n implies list_of(
        nodes2,
        edges2,
        side,
        m,
        list,
    ) by {
        assert(!list.contains(edge)) by {
            if list.contains(edge) {
                let i = choose|i: int| 0 <= i < list.len() && list[i] == edge;
                assert(node_of(edges[list[i]], side) == m);
            }
        }
        assert(!list.contains(head)) by {
            if list.contains(head) {
                let i = choose|i: int| 0 <= i < list.len() && list[i] == head;
                assert(place_ok(edges, side, list, i));
                assert(node_of(edges[list[i]], side) == m);
                assert(own.len() > 0);
                assert(node_of(edges[own[0]], side) == n);
            }
        }
        law_link_keeps_other(edges, side, edge, head, head_of(nodes[m], side), list);
        assert forall|i: int| 0 <= i < list.len() implies node_of(
            edges2[#[trigger] list[i]],
            side,
        ) == m by {
            assert(place_ok(edges2, side, list, i));
        }
    }
    assert forall|m: SlotRef| #[trigger] nodes2.contains_key(m) implies has_list(
        nodes2,
        edges2,
        side,
        m,
    ) by {
        if m == n {
            assert(list_of(nodes2, edges2, side, n, longer));
        } else {
            assert(nodes.contains_key(m));
            let list = choose|list: Seq<SlotRef>| list_of(nodes, edges, side, m, list);
            assert(list_of(nodes2, edges2, side, m, list));
        }
    }
    assert forall|e: SlotRef| #[trigger] edges2.contains_key(e) implies edge_settled(
        nodes2,
        edges2,
        side,
        e,
    ) by {
        let m = node_of(edges[e], side);
        if e == edge {
            assert(longer[0] == edge);
            assert(longer.contains(edge));
            assert(list_of(nodes2, edges2, side, n, longer));
        } else if !m.spec_is_null() {
            assert(edge_settled(nodes, edges, side, e));
            if is_listed(nodes, edges, side, e) {
                let list = choose|list: Seq<SlotRef>| #[trigger]
                    list_of(nodes, edges, side, m, list) && list.contains(e);
                if m == n {
                    lemma_one_list(nodes, edges, side, n, own, list);
                    let i = choose|i: int| 0 <= i < own.len() && own[i] == e;
                    assert(longer[i + 1] == e);
                    assert(longer.contains(e));
                    assert(list_of(nodes2, edges2, side, n, longer));
                } else {
                    assert(list_of(nodes2, edges2, side, m, list));
                }
            } else {
                if e == head && !head.spec_is_null() {
                    assert(own.len() > 0 && own[0] == e);
                    assert(own.contains(e));
                    assert(list_of(nodes, edges, side, m, own));
                }
                assert(edges2[e] == edges[e]);
            }
        }
    }
}

/// A node has one list.
pub proof fn lemma_one_list(
    nodes: Map<SlotRef, NodeRecord>,
    edges: Edges,
    side: Side,
    node: SlotRef,
    a: Seq<SlotRef>,
    b: Seq<SlotRef>,
)
    requires
        list_of(nodes, edges, side, node, a),
        list_of(nodes, edges, side, node, b),
    ensures
        a == b,
{
    let head = head_of(nodes[node], side);
    crate::graph::adjacency::law_list_is_chain(edges, side, head, a);
    crate::graph::adjacency::law_list_is_chain(edges, side, head, b);
    crate::graph::adjacency::law_chain_unique(edges, side, head, a, b);
}

/// In whole lists an edge has links if and only if it is in the list of its
/// node, and its neighbours are edges.
pub proof fn lemma_wired_is_listed(
    nodes: Map<SlotRef, NodeRecord>,
    edges: Edges,
    side: Side,
    edge: SlotRef,
)
    requires
        lists_ok(nodes, edges, side),
        edges.contains_key(edge),
        !node_of(edges[edge], side).spec_is_null(),
        !edge.spec_is_null(),
    ensures
        ({
            let rec = edges[edge];
            let n = node_of(rec, side);
            let wired = !prev_of(rec, side).spec_is_null() || head_of(nodes[n], side) == edge;
            &&& nodes.contains_key(n)
            &&& wired == is_listed(nodes, edges, side, edge)
            &&& wired ==> (prev_of(rec, side).spec_is_null() || edges.contains_key(
                prev_of(rec, side),
            )) && (next_of(rec, side).spec_is_null() || edges.contains_key(next_of(rec, side)))
        }),
{
    let rec = edges[edge];
    let n = node_of(rec, side);
    assert(edge_settled(nodes, edges, side, edge));
    if is_listed(nodes, edges, side, edge) {
        let list = choose|list: Seq<SlotRef>| #[trigger]
            list_of(nodes, edges, side, n, list) && list.contains(edge);
        let k = choose|k: int| 0 <= k < list.len() && list[k] == edge;
        assert(place_ok(edges, side, list, k));
        if k > 0 {
            assert(place_ok(edges, side, list, k - 1));
        }
        if k + 1 < list.len() {
            assert(place_ok(edges, side, list, k + 1));
        }
    } else {
        assert(prev_of(rec, side).spec_is_null());
        if head_of(nodes[n], side) == edge {
            assert(has_list(nodes, edges, side, n));
            let list = choose|list: Seq<SlotRef>| list_of(nodes, edges, side, n, list);
            assert(list.len() > 0 && list[0] == edge);
            assert(list.contains(edge));
        }
    }
}

/// Unlinking an edge keeps the lists whole, but for that edge.
pub proof fn lemma_unwire_lists(
    nodes: Map<SlotRef, NodeRecord>,
    edges: Edges,
    side: Side,
    edge: SlotRef,
)
    requires
        lists_ok(nodes, edges, side),
        edges.contains_key(edge),
        !edge.spec_is_null(),
        is_listed(nodes, edges, side, edge),
        nodes.contains_key(node_of(edges[edge], side)),
    ensures
        ({
            let n = node_of(edges[edge], side);
            let nodes2 = if prev_of(edges[edge], side).spec_is_null() {
                nodes.insert(n, with_head(nodes[n], side, next_of(edges[edge], side)))
            } else {
                nodes
            };
            let edges2 = unlinked(edges, side, edge);
            &&& lists_ok_but(nodes2, edges2, side, Some(edge))
            &&& prev_of(edges2[edge], side).spec_is_null()
            &&& next_of(edges2[edge], side).spec_is_null()
            &&& node_of(edges2[edge], side) == n
        }),
{
    let n = node_of(edges[edge], side);
    let prev = prev_of(edges[edge], side);
    let next = next_of(edges[edge], side);
    let own = choose|list: Seq<SlotRef>| #[trigger]
        list_of(nodes, edges, side, n, list) && list.contains(edge);
    let k = choose|k: int| 0 <= k < own.len() && own[k] == edge;
    let head = head_of(nodes[n], side);
    let edges2 = unlinked(edges, side, edge);
    let nodes2 = if prev.spec_is_null() {
        nodes.insert(n, with_head(nodes[n], side, next))
    } else {
        nodes
    };
    law_unlink(edges, side, head, own, k);
    let shorter = own.remove(k);
    assert(place_ok(edges, side, own, k));
    if k > 0 {
        assert(place_ok(edges, side, own, k - 1));
    }
    if k + 1 < own.len() {
        assert(place_ok(edges, side, own, k + 1));
    }
    assert forall|e: SlotRef| #[trigger] edges2.contains_key(e) implies edges.contains_key(e)
        && node_of(edges2[e], side) == node_of(edges[e], side) && edges2[e].is_deleted()
        == edges[e].is_deleted() by {}
    assert(list_of(nodes2, edges2, side, n, shorter)) by {
        assert forall|i: int| 0 <= i < shorter.len() implies node_of(
            edges2[#[trigger] shorter[i]],
            side,
        ) == n by {
            assert(place_ok(edges2, side, shorter, i));
            let p = if i < k {
                i
            } else {
                i + 1
            };
            assert(shorter[i] == own[p]);
            assert(node_of(edges[own[p]], side) == n);
        }
    }
    assert forall|m: SlotRef, list: Seq<SlotRef>| #[trigger]
        list_of(nodes, edges, side, m, list) && m != n implies list_of(
        nodes2,
        edges2,
        side,
        m,
        list,
    ) by {
        assert forall|x: SlotRef| #[trigger] own.contains(x) implies !list.contains(x) by {
            if list.contains(x) {
                let i = choose|i: int| 0 <= i < list.len() && list[i] == x;
                let j = choose|j: int| 0 <= j < own.len() && own[j] == x;
                assert(node_of(edges[list[i]], side) == m);
                assert(node_of(edges[own[j]], side) == n);
            }
        }
        assert forall|i: int| 0 <= i < list.len() implies !(#[trigger] list[i]).spec_is_null() by {
            assert(place_ok(edges, side, list, i));
        }
        assert(!list.contains(SlotRef::null()));
        assert(!list.contains(prev)) by {
            if k > 0 {
                assert(own.contains(own[k - 1]));
            }
        }
        assert(!list.contains(next)) by {
            if k + 1 < own.len() {
                assert(own.contains(own[k + 1]));
            }
        }
        assert(!list.contains(edge));
        law_unlink_keeps_other(edges, side, edge, head_of(nodes[m], side), list);
        assert forall|i: int| 0 <= i < list.len() implies node_of(
            edges2[#[trigger] list[i]],
            side,
        ) == m by {
            assert(place_ok(edges2, side, list, i));
        }
    }
    assert forall|m: SlotRef| #[trigger] nodes2.contains_key(m) implies has_list(
        nodes2,
        edges2,
        side,
        m,
    ) by {
        if m == n {
            assert(list_of(nodes2, edges2, side, n, shorter));
        } else {
            assert(nodes.contains_key(m));
            let list = choose|list: Seq<SlotRef>| list_of(nodes, edges, side, m, list);
            assert(list_of(nodes2, edges2, side, m, list));
        }
    }
    assert forall|e: SlotRef| #[trigger]
        edges2.contains_key(e) && Some(edge) != Some(e) implies edge_settled(
        nodes2,
        edges2,
        side,
        e,
    ) by {
        let m = node_of(edges[e], side);
        if !m.spec_is_null() {
            assert(edge_settled(nodes, edges, side, e));
            if is_listed(nodes, edges, side, e) {
                let list = choose|list: Seq<SlotRef>| #[trigger]
                    list_of(nodes, edges, side, m, list) && list.contains(e);
                if m == n {
                    lemma_one_list(nodes, edges, side, n, own, list);
                    let i = choose|i: int| 0 <= i < own.len() && own[i] == e;
                    let p = if i < k {
                        i
                    } else {
                        i - 1
                    };
                    assert(shorter[p] == e);
                    assert(shorter.contains(e));
                    assert(list_of(nodes2, edges2, side, n, shorter));
                } else {
                    assert(list_of(nodes2, edges2, side, m, list));
                }
            } else {
                assert(!own.contains(e)) by {
                    if own.contains(e) {
                        let i = choose|i: int| 0 <= i < own.len() && own[i] == e;
                        assert(node_of(edges[own[i]], side) == n);
                        assert(list_of(nodes, edges, side, m, own));
                    }
                }
                if k > 0 {
                    assert(own.contains(own[k - 1]));
                }
                if k + 1 < own.len() {
                    assert(own.contains(own[k + 1]));
                }
                assert(edges2[e] == edges[e]);
            }
        }
    }
}

} // verus!
