//! Doubly-linked adjacency lists.
//!
//! The edges of a node form two lists, one of the edges that leave it and one of
//! those that enter it, by the `prev` and `next` slots of the edge records. An
//! edge is linked at the head of a list and unlinked from any place in it, each
//! in a few writes.

use std::collections::HashMap;

use vstd::prelude::*;

use crate::graph::record::EdgeRecord;
use crate::graph::record::SlotRef;

verus! {

/// Why an adjacency operation was refused.
#[derive(Debug, Clone, Copy, PartialEq, Eq, Structural)]
pub enum AdjacencyError {
    /// The edge has neighbours in a list already.
    AlreadyLinked,
    /// There is no edge record at the slot.
    InvalidSlot,
    /// The edge has no node on this side.
    NullNode,
}

impl AdjacencyError {
    /// The message of the error.
    pub fn message(&self) -> (r: &'static str)
        ensures
            r@ == match self {
                AdjacencyError::AlreadyLinked => "edge already linked to an adjacency list"@,
                AdjacencyError::InvalidSlot => "invalid slot reference"@,
                AdjacencyError::NullNode => "edge has no source or target node"@,
            },
    {
        match self {
            AdjacencyError::AlreadyLinked => "edge already linked to an adjacency list",
            AdjacencyError::InvalidSlot => "invalid slot reference",
            AdjacencyError::NullNode => "edge has no source or target node",
        }
    }
}

/// Edge records by their slots.
pub type Edges = Map<SlotRef, EdgeRecord>;

/// Where edge records are kept.
pub trait EdgeRecordView {
    /// The records.
    spec fn edges(&self) -> Edges;

    /// The edge record at `slot`.
    fn read(&self, slot: SlotRef) -> (r: Option<EdgeRecord>)
        ensures
            match r {
                Some(rec) => self.edges().contains_key(slot) && rec == self.edges()[slot],
                None => !self.edges().contains_key(slot),
            },
    ;

    /// Writes the edge record at `slot`.
    fn write(&mut self, slot: SlotRef, record: &EdgeRecord)
        ensures
            final(self).edges() == old(self).edges().insert(slot, *record),
    ;
}

/// Edge records in memory, by slot.
#[derive(Debug)]
pub struct EdgeTable {
    records: HashMap<u32, EdgeRecord>,
}

impl EdgeTable {
    /// A table without records.
    pub fn new() -> (r: Self)
        ensures
            r.edges() == Edges::empty(),
    {
        let table = EdgeTable { records: HashMap::new() };
        assert(table.edges() =~= Edges::empty());
        table
    }
}

impl EdgeRecordView for EdgeTable {
    closed spec fn edges(&self) -> Edges {
        Map::new(
            |slot: SlotRef| self.records@.contains_key(slot.raw),
            |slot: SlotRef| self.records@[slot.raw],
        )
    }

    fn read(&self, slot: SlotRef) -> (r: Option<EdgeRecord>) {
        broadcast use vstd::std_specs::hash::group_hash_axioms;

        match self.records.get(&slot.raw) {
            Some(rec) => Some(*rec),
            None => None,
        }
    }

    fn write(&mut self, slot: SlotRef, record: &EdgeRecord) {
        broadcast use vstd::std_specs::hash::group_hash_axioms;

        self.records.insert(slot.raw, *record);
        assert(self.edges() =~= old(self).edges().insert(slot, *record));
    }
}

/// One of the two lists that an edge can be in.
#[derive(Debug, Clone, Copy, PartialEq, Eq, Structural)]
pub enum Side {
    /// The edges that leave the source node.
    Source,
    /// The edges that enter the target node.
    Target,
}

/// The node whose list of this side the edge belongs to.
pub open spec fn node_of(rec: EdgeRecord, side: Side) -> SlotRef {
    match side {
        Side::Source => rec.source_node,
        Side::Target => rec.target_node,
    }
}

/// The edge before this one in its list.
pub open spec fn prev_of(rec: EdgeRecord, side: Side) -> SlotRef {
    match side {
        Side::Source => rec.prev_source_edge,
        Side::Target => rec.prev_target_edge,
    }
}

/// The edge behind this one in its list.
pub open spec fn next_of(rec: EdgeRecord, side: Side) -> SlotRef {
    match side {
        Side::Source => rec.next_source_edge,
        Side::Target => rec.next_target_edge,
    }
}

/// The record with another edge before it.
pub open spec fn with_prev(rec: EdgeRecord, side: Side, prev: SlotRef) -> EdgeRecord {
    match side {
        Side::Source => EdgeRecord { prev_source_edge: prev, ..rec },
        Side::Target => EdgeRecord { prev_target_edge: prev, ..rec },
    }
}

/// The record with another edge behind it.
pub open spec fn with_next(rec: EdgeRecord, side: Side, next: SlotRef) -> EdgeRecord {
    match side {
        Side::Source => EdgeRecord { next_source_edge: next, ..rec },
        Side::Target => EdgeRecord { next_target_edge: next, ..rec },
    }
}

/// The records with another edge before the one at `slot`, if there is one.
pub open spec fn set_prev(edges: Edges, side: Side, slot: SlotRef, prev: SlotRef) -> Edges {
    if slot.spec_is_null() {
        edges
    } else {
        edges.insert(slot, with_prev(edges[slot], side, prev))
    }
}

/// The records with another edge behind the one at `slot`, if there is one.
pub open spec fn set_next(edges: Edges, side: Side, slot: SlotRef, next: SlotRef) -> Edges {
    if slot.spec_is_null() {
        edges
    } else {
        edges.insert(slot, with_next(edges[slot], side, next))
    }
}

/// The records with the edge at `slot` between two neighbours, which do not know
/// of it yet.
pub open spec fn set_links(
    edges: Edges,
    side: Side,
    slot: SlotRef,
    prev: SlotRef,
    next: SlotRef,
) -> Edges {
    edges.insert(slot, with_prev(with_next(edges[slot], side, next), side, prev))
}

/// The records after `edge` was put before the list that starts at `head`.
pub open spec fn linked(edges: Edges, side: Side, edge: SlotRef, head: SlotRef) -> Edges {
    set_prev(set_links(edges, side, edge, SlotRef::null(), head), side, head, edge)
}

/// The records after `edge` was taken out of its list.
pub open spec fn unlinked(edges: Edges, side: Side, edge: SlotRef) -> Edges {
    let prev = prev_of(edges[edge], side);
    let next = next_of(edges[edge], side);
    let patched = set_prev(set_next(edges, side, prev, next), side, next, prev);
    patched.insert(
        edge,
        with_prev(with_next(edges[edge], side, SlotRef::null()), side, SlotRef::null()),
    )
}

// ---------------------------------------------------------------------------
// Lists
// ---------------------------------------------------------------------------

/// Do the slots `list` form the list that starts at `head`, each edge linked to
/// its two neighbours?
pub open spec fn is_list(edges: Edges, side: Side, head: SlotRef, list: Seq<SlotRef>) -> bool {
    &&& list.no_duplicates()
    &&& head == slot_at(list, 0)
    &&& forall|i: int| 0 <= i < list.len() ==> #[trigger] place_ok(edges, side, list, i)
}

/// The slot at a place of a list; no slot outside of it.
pub open spec fn slot_at(list: Seq<SlotRef>, i: int) -> SlotRef {
    if 0 <= i < list.len() {
        list[i]
    } else {
        SlotRef::null()
    }
}

/// Is the edge at place `i` linked to its two neighbours?
pub open spec fn place_ok(edges: Edges, side: Side, list: Seq<SlotRef>, i: int) -> bool {
    &&& !list[i].spec_is_null()
    &&& edges.contains_key(list[i])
    &&& prev_of(edges[list[i]], side) == slot_at(list, i - 1)
    &&& next_of(edges[list[i]], side) == slot_at(list, i + 1)
}

/// Do the slots `list` follow each other from `head` on, up to the first that
/// has no record or no next edge?
pub open spec fn is_chain(edges: Edges, side: Side, head: SlotRef, list: Seq<SlotRef>) -> bool {
    &&& head == slot_at(list, 0)
    &&& forall|i: int| 0 <= i < list.len() ==> !(#[trigger] list[i]).spec_is_null()
    &&& forall|i: int|
        0 <= i < list.len() ==> #[trigger] chain_step(edges, side, list, i)
}

/// Does the slot behind place `i` follow from the record at that place?
pub open spec fn chain_step(edges: Edges, side: Side, list: Seq<SlotRef>, i: int) -> bool {
    if edges.contains_key(list[i]) {
        next_of(edges[list[i]], side) == slot_at(list, i + 1)
    } else {
        i == list.len() - 1
    }
}

/// A list is a chain.
pub proof fn law_list_is_chain(edges: Edges, side: Side, head: SlotRef, list: Seq<SlotRef>)
    requires
        is_list(edges, side, head, list),
    ensures
        is_chain(edges, side, head, list),
{
    assert forall|i: int| 0 <= i < list.len() implies !(#[trigger] list[i]).spec_is_null() by {
        assert(place_ok(edges, side, list, i));
    }
    assert forall|i: int| 0 <= i < list.len() implies #[trigger] chain_step(
        edges,
        side,
        list,
        i,
    ) by {
        assert(place_ok(edges, side, list, i));
    }
}

/// There is one chain from a head.
pub proof fn law_chain_unique(
    edges: Edges,
    side: Side,
    head: SlotRef,
    a: Seq<SlotRef>,
    b: Seq<SlotRef>,
)
    requires
        is_chain(edges, side, head, a),
        is_chain(edges, side, head, b),
    ensures
        a == b,
{
    assert forall|n: nat| n <= a.len() implies n <= b.len() && #[trigger] a.take(n as int)
        == b.take(n as int) by {
        lemma_chain_prefix(edges, side, head, a, b, n);
    }
    assert forall|n: nat| n <= b.len() implies n <= a.len() && #[trigger] b.take(n as int)
        == a.take(n as int) by {
        lemma_chain_prefix(edges, side, head, b, a, n);
    }
    assert(a.take(a.len() as int) == b.take(a.len() as int));
    assert(b.take(b.len() as int) == a.take(b.len() as int));
    assert(a =~= a.take(a.len() as int));
    assert(b =~= b.take(b.len() as int));
}

proof fn lemma_chain_prefix(
    edges: Edges,
    side: Side,
    head: SlotRef,
    a: Seq<SlotRef>,
    b: Seq<SlotRef>,
    n: nat,
)
    requires
        is_chain(edges, side, head, a),
        is_chain(edges, side, head, b),
        n <= a.len(),
    ensures
        n <= b.len(),
        a.take(n as int) == b.take(n as int),
    decreases n,
{
    if n > 0 {
        let m = (n - 1) as nat;
        lemma_chain_prefix(edges, side, head, a, b, m);
        assert(!a[m as int].spec_is_null());
        if m > 0 {
            assert(chain_step(edges, side, a, m - 1));
            assert(a.take(m as int)[m - 1] == b.take(m as int)[m - 1]);
            assert(chain_step(edges, side, b, m - 1));
        }
        assert(slot_at(a, m as int) == slot_at(b, m as int));
        assert(a.take(n as int) =~= a.take(m as int).push(a[m as int]));
        assert(b.take(n as int) =~= b.take(m as int).push(b[m as int]));
    } else {
        assert(a.take(0) =~= b.take(0));
    }
}

/// Linking an edge at the head of a list puts it in front of the list.
pub proof fn law_link_head(
    edges: Edges,
    side: Side,
    edge: SlotRef,
    head: SlotRef,
    list: Seq<SlotRef>,
)
    requires
        is_list(edges, side, head, list),
        edges.contains_key(edge),
        !edge.spec_is_null(),
        !list.contains(edge),
    ensures
        is_list(linked(edges, side, edge, head), side, edge, seq![edge] + list),
{
    let after = linked(edges, side, edge, head);
    let longer = seq![edge] + list;
    assert forall|i: int, j: int|
        0 <= i < longer.len() && 0 <= j < longer.len() && i != j implies longer[i]
        != longer[j] by {
        if i == 0 {
            assert(list.contains(list[j - 1]));
        } else if j == 0 {
            assert(list.contains(list[i - 1]));
        } else {
            assert(list[i - 1] != list[j - 1]);
        }
    }
    assert forall|i: int| 0 <= i < longer.len() implies #[trigger] place_ok(
        after,
        side,
        longer,
        i,
    ) by {
        if list.len() > 0 {
            assert(place_ok(edges, side, list, 0));
            assert(list.contains(list[0]));
        }
        if i > 0 {
            assert(place_ok(edges, side, list, i - 1));
            assert(longer[i] == list[i - 1]);
            assert(list.contains(list[i - 1]));
            if i > 1 {
                assert(list[i - 1] != list[0]);
            }
        }
    }
}

/// Unlinking an edge takes it out of its list and leaves the rest in order.
pub proof fn law_unlink(edges: Edges, side: Side, head: SlotRef, list: Seq<SlotRef>, k: int)
    requires
        is_list(edges, side, head, list),
        0 <= k < list.len(),
    ensures
        ({
            let after = unlinked(edges, side, list[k]);
            let new_head = if k == 0 {
                next_of(edges[list[k]], side)
            } else {
                head
            };
            &&& is_list(after, side, new_head, list.remove(k))
            &&& prev_of(after[list[k]], side).spec_is_null()
            &&& next_of(after[list[k]], side).spec_is_null()
            &&& (k == 0 <==> prev_of(edges[list[k]], side).spec_is_null())
        }),
{
    let edge = list[k];
    let after = unlinked(edges, side, edge);
    let shorter = list.remove(k);
    assert(place_ok(edges, side, list, k));
    if k > 0 {
        assert(place_ok(edges, side, list, k - 1));
    }
    if k + 1 < list.len() {
        assert(place_ok(edges, side, list, k + 1));
    }
    assert forall|i: int, j: int|
        0 <= i < shorter.len() && 0 <= j < shorter.len() && i != j implies shorter[i]
        != shorter[j] by {
        let p = if i < k {
            i
        } else {
            i + 1
        };
        let q = if j < k {
            j
        } else {
            j + 1
        };
        assert(list[p] != list[q]);
    }
    assert forall|i: int| 0 <= i < shorter.len() implies #[trigger] place_ok(
        after,
        side,
        shorter,
        i,
    ) by {
        let p = if i < k {
            i
        } else {
            i + 1
        };
        assert(shorter[i] == list[p]);
        assert(place_ok(edges, side, list, p));
        assert(list[p] != list[k]);
        if k > 0 && p != k - 1 {
            assert(list[p] != list[k - 1]);
        }
        if k + 1 < list.len() && p != k + 1 {
            assert(list[p] != list[k + 1]);
        }
        if k > 0 && k + 1 < list.len() {
            assert(list[k - 1] != list[k + 1]);
        }
    }
}

/// A list of which neither the linked edge nor the old head is part stays as it
/// is.
pub proof fn law_link_keeps_other(
    edges: Edges,
    side: Side,
    edge: SlotRef,
    head: SlotRef,
    other_head: SlotRef,
    other: Seq<SlotRef>,
)
    requires
        is_list(edges, side, other_head, other),
        !other.contains(edge),
        !other.contains(head),
    ensures
        is_list(linked(edges, side, edge, head), side, other_head, other),
{
    let after = linked(edges, side, edge, head);
    assert forall|i: int| 0 <= i < other.len() implies #[trigger] place_ok(
        after,
        side,
        other,
        i,
    ) by {
        assert(place_ok(edges, side, other, i));
        assert(other.contains(other[i]));
    }
}

/// A list of which neither the unlinked edge nor a neighbour of it is part stays
/// as it is.
pub proof fn law_unlink_keeps_other(
    edges: Edges,
    side: Side,
    edge: SlotRef,
    other_head: SlotRef,
    other: Seq<SlotRef>,
)
    requires
        is_list(edges, side, other_head, other),
        !other.contains(edge),
        !other.contains(prev_of(edges[edge], side)),
        !other.contains(next_of(edges[edge], side)),
    ensures
        is_list(unlinked(edges, side, edge), side, other_head, other),
{
    let after = unlinked(edges, side, edge);
    assert forall|i: int| 0 <= i < other.len() implies #[trigger] place_ok(
        after,
        side,
        other,
        i,
    ) by {
        assert(place_ok(edges, side, other, i));
        assert(other.contains(other[i]));
    }
}

/// The lists of one side do not change when an edge is linked or unlinked on the
/// other.
pub proof fn law_sides_apart(
    edges: Edges,
    side: Side,
    other_side: Side,
    edge: SlotRef,
    head: SlotRef,
    other_head: SlotRef,
    other: Seq<SlotRef>,
)
    requires
        side != other_side,
        is_list(edges, other_side, other_head, other),
    ensures
        is_list(linked(edges, side, edge, head), other_side, other_head, other),
        is_list(unlinked(edges, side, edge), other_side, other_head, other),
{
    assert forall|i: int| 0 <= i < other.len() implies #[trigger] place_ok(
        linked(edges, side, edge, head),
        other_side,
        other,
        i,
    ) by {
        assert(place_ok(edges, other_side, other, i));
    }
    assert forall|i: int| 0 <= i < other.len() implies #[trigger] place_ok(
        unlinked(edges, side, edge),
        other_side,
        other,
        i,
    ) by {
        assert(place_ok(edges, other_side, other, i));
    }
}

// ---------------------------------------------------------------------------
// Operations
// ---------------------------------------------------------------------------

/// What linking `edge` before `head` comes to: the error, if any, and the
/// records afterwards. Where there is no edge at `head`, the record of `edge` has
/// been written already.
pub open spec fn link_outcome(edges: Edges, side: Side, edge: SlotRef, head: SlotRef) -> (
    Option<AdjacencyError>,
    Edges,
) {
    let begun = set_links(edges, side, edge, SlotRef::null(), head);
    if !edges.contains_key(edge) {
        (Some(AdjacencyError::InvalidSlot), edges)
    } else if node_of(edges[edge], side).spec_is_null() {
        (Some(AdjacencyError::NullNode), edges)
    } else if !next_of(edges[edge], side).spec_is_null() || !prev_of(
        edges[edge],
        side,
    ).spec_is_null() {
        (Some(AdjacencyError::AlreadyLinked), edges)
    } else if !head.spec_is_null() && !begun.contains_key(head) {
        (Some(AdjacencyError::InvalidSlot), begun)
    } else {
        (None, linked(edges, side, edge, head))
    }
}

/// What unlinking `edge` comes to: the error, if any, and the records
/// afterwards. Where a neighbour has no record, the one before it may have been
/// patched already.
pub open spec fn unlink_outcome(edges: Edges, side: Side, edge: SlotRef) -> (
    Option<AdjacencyError>,
    Edges,
) {
    let prev = prev_of(edges[edge], side);
    let next = next_of(edges[edge], side);
    if !edges.contains_key(edge) {
        (Some(AdjacencyError::InvalidSlot), edges)
    } else if !prev.spec_is_null() && !edges.contains_key(prev) {
        (Some(AdjacencyError::InvalidSlot), edges)
    } else if !next.spec_is_null() && !set_next(edges, side, prev, next).contains_key(next) {
        (Some(AdjacencyError::InvalidSlot), set_next(edges, side, prev, next))
    } else {
        (None, unlinked(edges, side, edge))
    }
}

/// The fields that an edge is linked by: those of the source list and those of the target
/// list.
pub proof fn law_side_fields(rec: EdgeRecord, slot: SlotRef)
    ensures
        node_of(rec, Side::Source) == rec.source_node,
        node_of(rec, Side::Target) == rec.target_node,
        next_of(rec, Side::Source) == rec.next_source_edge,
        next_of(rec, Side::Target) == rec.next_target_edge,
        prev_of(rec, Side::Source) == rec.prev_source_edge,
        prev_of(rec, Side::Target) == rec.prev_target_edge,
        with_next(rec, Side::Source, slot) == (EdgeRecord { next_source_edge: slot, ..rec }),
        with_next(rec, Side::Target, slot) == (EdgeRecord { next_target_edge: slot, ..rec }),
        with_prev(rec, Side::Source, slot) == (EdgeRecord { prev_source_edge: slot, ..rec }),
        with_prev(rec, Side::Target, slot) == (EdgeRecord { prev_target_edge: slot, ..rec }),
{
}

/// An edge is linked if it is there, has its node and no neighbours yet, and the head of the
/// list, if there is one, is there as well. Then it stands before the head, and nothing but
/// these two records has changed.
pub proof fn law_link_outcome(edges: Edges, side: Side, edge: SlotRef, head: SlotRef)
    ensures
        ({
            let (error, after) = link_outcome(edges, side, edge, head);
            let known = edges.contains_key(edge);
            let placed = !node_of(edges[edge], side).spec_is_null();
            let alone = next_of(edges[edge], side).spec_is_null() && prev_of(
                edges[edge],
                side,
            ).spec_is_null();
            let behind = head.spec_is_null() || edges.contains_key(head);
            &&& error is None <==> known && placed && alone && behind
            &&& error == Some(AdjacencyError::InvalidSlot) <==> !known || (placed && alone
                && !behind)
            &&& error == Some(AdjacencyError::NullNode) <==> known && !placed
            &&& error == Some(AdjacencyError::AlreadyLinked) <==> known && placed && !alone
            &&& error is None && edge != head ==> {
                &&& after.contains_key(edge)
                &&& next_of(after[edge], side) == head
                &&& prev_of(after[edge], side).spec_is_null()
                &&& !head.spec_is_null() ==> prev_of(after[head], side) == edge && next_of(
                    after[head],
                    side,
                ) == next_of(edges[head], side)
            }
            &&& forall|s: SlotRef|
                s != edge && s != head ==> #[trigger] after.contains_key(s) == edges.contains_key(s)
                    && after[s] == edges[s]
        }),
{
    assert(SlotRef::null().spec_is_null());
}

/// An edge is unlinked if it is there and its neighbours are. Then it has no neighbours, they
/// have each other, and nothing but these three records has changed.
pub proof fn law_unlink_outcome(edges: Edges, side: Side, edge: SlotRef)
    ensures
        ({
            let (error, after) = unlink_outcome(edges, side, edge);
            let prev = prev_of(edges[edge], side);
            let next = next_of(edges[edge], side);
            &&& error is None <==> edges.contains_key(edge) && (prev.spec_is_null()
                || edges.contains_key(prev)) && (next.spec_is_null() || edges.contains_key(next))
            &&& error is Some ==> error == Some(AdjacencyError::InvalidSlot)
            &&& error is None && prev != edge && next != edge && prev != next ==> {
                &&& next_of(after[edge], side).spec_is_null()
                &&& prev_of(after[edge], side).spec_is_null()
                &&& !prev.spec_is_null() ==> next_of(after[prev], side) == next && prev_of(
                    after[prev],
                    side,
                ) == prev_of(edges[prev], side)
                &&& !next.spec_is_null() ==> prev_of(after[next], side) == prev && next_of(
                    after[next],
                    side,
                ) == next_of(edges[next], side)
            }
            &&& forall|s: SlotRef|
                s != edge && s != prev && s != next ==> #[trigger] after.contains_key(s)
                    == edges.contains_key(s) && after[s] == edges[s]
        }),
{
    assert(SlotRef::null().spec_is_null());
}

/// Links `new_edge` before `head`, the first edge that leaves the node, and
/// returns the new head.
pub fn link_source_head<V: EdgeRecordView>(view: &mut V, new_edge: SlotRef, head: SlotRef) -> (r:
    Result<SlotRef, AdjacencyError>)
    ensures
        r == match link_outcome(old(view).edges(), Side::Source, new_edge, head).0 {
            Some(e) => Err::<SlotRef, AdjacencyError>(e),
            None => Ok::<SlotRef, AdjacencyError>(new_edge),
        },
        final(view).edges() == link_outcome(old(view).edges(), Side::Source, new_edge, head).1,
{
    let mut rec = match view.read(new_edge) {
        Some(rec) => rec,
        None => {
            return Err(AdjacencyError::InvalidSlot);
        },
    };
    if rec.source_node.is_null() {
        return Err(AdjacencyError::NullNode);
    }
    if !rec.next_source_edge.is_null() || !rec.prev_source_edge.is_null() {
        return Err(AdjacencyError::AlreadyLinked);
    }
    rec.next_source_edge = head;
    rec.prev_source_edge = SlotRef::null();
    view.write(new_edge, &rec);
    if !head.is_null() {
        let mut head_rec = match view.read(head) {
            Some(rec) => rec,
            None => {
                return Err(AdjacencyError::InvalidSlot);
            },
        };
        head_rec.prev_source_edge = new_edge;
        view.write(head, &head_rec);
    }
    Ok(new_edge)
}

/// Links `new_edge` before `head`, the first edge that enters the node, and
/// returns the new head.
pub fn link_target_head<V: EdgeRecordView>(view: &mut V, new_edge: SlotRef, head: SlotRef) -> (r:
    Result<SlotRef, AdjacencyError>)
    ensures
        r == match link_outcome(old(view).edges(), Side::Target, new_edge, head).0 {
            Some(e) => Err::<SlotRef, AdjacencyError>(e),
            None => Ok::<SlotRef, AdjacencyError>(new_edge),
        },
        final(view).edges() == link_outcome(old(view).edges(), Side::Target, new_edge, head).1,
{
    let mut rec = match view.read(new_edge) {
        Some(rec) => rec,
        None => {
            return Err(AdjacencyError::InvalidSlot);
        },
    };
    if rec.target_node.is_null() {
        return Err(AdjacencyError::NullNode);
    }
    if !rec.next_target_edge.is_null() || !rec.prev_target_edge.is_null() {
        return Err(AdjacencyError::AlreadyLinked);
    }
    rec.next_target_edge = head;
    rec.prev_target_edge = SlotRef::null();
    view.write(new_edge, &rec);
    if !head.is_null() {
        let mut head_rec = match view.read(head) {
            Some(rec) => rec,
            None => {
                return Err(AdjacencyError::InvalidSlot);
            },
        };
        head_rec.prev_target_edge = new_edge;
        view.write(head, &head_rec);
    }
    Ok(new_edge)
}

/// Unlinks `edge` from the list of its source node; returns the new head of the
/// list where `edge` was the head.
pub fn unlink_source<V: EdgeRecordView>(view: &mut V, edge: SlotRef) -> (r: Result<
    Option<SlotRef>,
    AdjacencyError,
>)
    ensures
        r == match unlink_outcome(old(view).edges(), Side::Source, edge).0 {
            Some(e) => Err::<Option<SlotRef>, AdjacencyError>(e),
            None => Ok::<Option<SlotRef>, AdjacencyError>(
                if prev_of(old(view).edges()[edge], Side::Source).spec_is_null() {
                    Some(next_of(old(view).edges()[edge], Side::Source))
                } else {
                    None
                },
            ),
        },
        final(view).edges() == unlink_outcome(old(view).edges(), Side::Source, edge).1,
{
    let rec = match view.read(edge) {
        Some(rec) => rec,
        None => {
            return Err(AdjacencyError::InvalidSlot);
        },
    };
    let prev = rec.prev_source_edge;
    let next = rec.next_source_edge;
    if !prev.is_null() {
        let mut prev_rec = match view.read(prev) {
            Some(rec) => rec,
            None => {
                return Err(AdjacencyError::InvalidSlot);
            },
        };
        prev_rec.next_source_edge = next;
        view.write(prev, &prev_rec);
    }
    if !next.is_null() {
        let mut next_rec = match view.read(next) {
            Some(rec) => rec,
            None => {
                return Err(AdjacencyError::InvalidSlot);
            },
        };
        next_rec.prev_source_edge = prev;
        view.write(next, &next_rec);
    }
    let mut cleared = rec;
    cleared.prev_source_edge = SlotRef::null();
    cleared.next_source_edge = SlotRef::null();
    view.write(edge, &cleared);
    if prev.is_null() {
        Ok(Some(next))
    } else {
        Ok(None)
    }
}

/// Unlinks `edge` from the list of its target node; returns the new head of the
/// list where `edge` was the head.
pub fn unlink_target<V: EdgeRecordView>(view: &mut V, edge: SlotRef) -> (r: Result<
    Option<SlotRef>,
    AdjacencyError,
>)
    ensures
        r == match unlink_outcome(old(view).edges(), Side::Target, edge).0 {
            Some(e) => Err::<Option<SlotRef>, AdjacencyError>(e),
            None => Ok::<Option<SlotRef>, AdjacencyError>(
                if prev_of(old(view).edges()[edge], Side::Target).spec_is_null() {
                    Some(next_of(old(view).edges()[edge], Side::Target))
                } else {
                    None
                },
            ),
        },
        final(view).edges() == unlink_outcome(old(view).edges(), Side::Target, edge).1,
{
    let rec = match view.read(edge) {
        Some(rec) => rec,
        None => {
            return Err(AdjacencyError::InvalidSlot);
        },
    };
    let prev = rec.prev_target_edge;
    let next = rec.next_target_edge;
    if !prev.is_null() {
        let mut prev_rec = match view.read(prev) {
            Some(rec) => rec,
            None => {
                return Err(AdjacencyError::InvalidSlot);
            },
        };
        prev_rec.next_target_edge = next;
        view.write(prev, &prev_rec);
    }
    if !next.is_null() {
        let mut next_rec = match view.read(next) {
            Some(rec) => rec,
            None => {
                return Err(AdjacencyError::InvalidSlot);
            },
        };
        next_rec.prev_target_edge = prev;
        view.write(next, &next_rec);
    }
    let mut cleared = rec;
    cleared.prev_target_edge = SlotRef::null();
    cleared.next_target_edge = SlotRef::null();
    view.write(edge, &cleared);
    if prev.is_null() {
        Ok(Some(next))
    } else {
        Ok(None)
    }
}

/// The slots of the outgoing edges from `head` on, where they do not run in a
/// circle.
pub fn collect_outgoing<V: EdgeRecordView>(view: &V, head: SlotRef) -> (r: Vec<SlotRef>)
    requires
        exists|list: Seq<SlotRef>| is_chain(view.edges(), Side::Source, head, list),
    ensures
        is_chain(view.edges(), Side::Source, head, r@),
{
    let ghost list = choose|list: Seq<SlotRef>|
        is_chain(view.edges(), Side::Source, head, list);
    let mut result: Vec<SlotRef> = Vec::new();
    let mut current = head;
    let mut done = false;
    assert(list.take(0) =~= result@);
    while !done && !current.is_null()
        invariant
            is_chain(view.edges(), Side::Source, head, list),
            result@.len() <= list.len(),
            result@ == list.take(result@.len() as int),
            !done ==> current == slot_at(list, result@.len() as int),
            done ==> result@.len() == list.len(),
        decreases list.len() - result@.len(),
    {
        let ghost i = result@.len() as int;
        assert(!slot_at(list, i).spec_is_null());
        assert(chain_step(view.edges(), Side::Source, list, i));
        result.push(current);
        assert(list.take(i + 1) =~= list.take(i).push(list[i]));
        match view.read(current) {
            Some(rec) => {
                current = rec.next_source_edge;
            },
            None => {
                done = true;
            },
        }
    }
    proof {
        let n = result@.len() as int;
        if !done && n < list.len() {
            assert(!list[n].spec_is_null());
        }
        assert(list.take(n) =~= list);
    }
    result
}

/// The slots of the incoming edges from `head` on, where they do not run in a
/// circle.
pub fn collect_incoming<V: EdgeRecordView>(view: &V, head: SlotRef) -> (r: Vec<SlotRef>)
    requires
        exists|list: Seq<SlotRef>| is_chain(view.edges(), Side::Target, head, list),
    ensures
        is_chain(view.edges(), Side::Target, head, r@),
{
    let ghost list = choose|list: Seq<SlotRef>|
        is_chain(view.edges(), Side::Target, head, list);
    let mut result: Vec<SlotRef> = Vec::new();
    let mut current = head;
    let mut done = false;
    assert(list.take(0) =~= result@);
    while !done && !current.is_null()
        invariant
            is_chain(view.edges(), Side::Target, head, list),
            result@.len() <= list.len(),
            result@ == list.take(result@.len() as int),
            !done ==> current == slot_at(list, result@.len() as int),
            done ==> result@.len() == list.len(),
        decreases list.len() - result@.len(),
    {
        let ghost i = result@.len() as int;
        assert(!slot_at(list, i).spec_is_null());
        assert(chain_step(view.edges(), Side::Target, list, i));
        result.push(current);
        assert(list.take(i + 1) =~= list.take(i).push(list[i]));
        match view.read(current) {
            Some(rec) => {
                current = rec.next_target_edge;
            },
            None => {
                done = true;
            },
        }
    }
    proof {
        let n = result@.len() as int;
        if !done && n < list.len() {
            assert(!list[n].spec_is_null());
        }
        assert(list.take(n) =~= list);
    }
    result
}

} // verus!
