//! What the other nodes and relationships keep while one is created or deleted.

use vstd::prelude::*;

use crate::graph::chain::chained;
use crate::graph::chain::entry_storable;
use crate::graph::chain::lemma_chain_same;
use crate::graph::chain::link;
use crate::graph::chain::linked_in;
use crate::graph::chain::list_storable;
use crate::graph::chain::property_pages_ok;
use crate::graph::chain::read_chain;
use crate::graph::chain::MAX_CHAIN_DEPTH;
use crate::graph::edges::edges_kept_and;
use crate::graph::engine::edge_entry_ok;
use crate::graph::engine::edges_kept_but;
use crate::graph::engine::edge_with_first_property;
use crate::graph::engine::node_entry_ok;
use crate::graph::engine::nodes_kept;
use crate::graph::engine::property_at;
use crate::graph::engine::with_first_property;
use crate::graph::engine::EngineView;
use crate::graph::graph::node_with_id;
use crate::graph::graph::relationship_with_id;
use crate::graph::property::Entry;
use crate::graph::record::SlotRef;
use crate::graph::store::lemma_insert_cells;
use crate::graph::store::properties_of;
use crate::graph::stored::law_stored_property_roundtrip;
use crate::graph::stored::property_bytes;
use crate::graph::stored::property_of;
use crate::storage::heap::cells;
use crate::storage::heap::insert_outcome;
use crate::storage::heap::PageView;
use crate::storage::heap::RecordKind;

verus! {

/// Is the slot none, or that of a property that is there?
pub open spec fn leads(stored: Map<SlotRef, Seq<u8>>, slot: SlotRef) -> bool {
    slot.spec_is_null() || stored.contains_key(slot)
}

/// Does every property lead on to a property that is there, or end its chain?
pub open spec fn properties_closed(stored: Map<SlotRef, Seq<u8>>) -> bool {
    forall|s: SlotRef| #[trigger]
        stored.contains_key(s) ==> (property_of(stored[s]) matches Some(p) ==> leads(
            stored,
            p.next_property,
        ))
}

/// Is every chain of properties there to its end, from the first one on?
pub open spec fn chains_closed(v: EngineView) -> bool {
    &&& properties_closed(v.properties())
    &&& forall|s: SlotRef| #[trigger]
        v.nodes().contains_key(s) ==> leads(v.properties(), v.nodes()[s].first_property)
    &&& forall|s: SlotRef| #[trigger]
        v.edges().contains_key(s) ==> leads(v.properties(), v.edges()[s].record.first_property)
}

/// In an engine without pages every chain is there to its end.
pub proof fn law_empty_engine_closed(v: EngineView)
    requires
        v.pages.len() == 0,
    ensures
        chains_closed(v),
{
}

/// Are all the stored bytes still there?
pub open spec fn all_still_there(a: Map<SlotRef, Seq<u8>>, b: Map<SlotRef, Seq<u8>>) -> bool {
    forall|s: SlotRef| #[trigger] a.contains_key(s) ==> b.contains_key(s) && b[s] == a[s]
}

/// A chain that is there to its end is read the same while others are stored.
proof fn lemma_chain_grown(a: Seq<PageView>, b: Seq<PageView>, head: SlotRef, depth: nat)
    requires
        properties_closed(properties_of(cells(a))),
        all_still_there(properties_of(cells(a)), properties_of(cells(b))),
        leads(properties_of(cells(a)), head),
    ensures
        read_chain(b, head, depth) == read_chain(a, head, depth),
    decreases depth,
{
    if !head.spec_is_null() && depth > 0 {
        if let Some(p) = property_at(a, head) {
            lemma_chain_grown(a, b, p.next_property, (depth - 1) as nat);
        }
    }
}

/// Storing a chain keeps all that is stored, and the chains there to their ends.
pub proof fn lemma_chained_closed(v: EngineView, entity_id: u64, list: Seq<Entry>, next: SlotRef)
    requires
        property_pages_ok(v),
        list_storable(list),
        properties_closed(v.properties()),
        leads(v.properties(), next),
    ensures
        ({
            let (r, w) = chained(v, entity_id, list, next);
            &&& w.nodes() == v.nodes()
            &&& w.edges() == v.edges()
            &&& all_still_there(v.properties(), w.properties())
            &&& properties_closed(w.properties())
            &&& r matches Ok(head) ==> leads(w.properties(), head)
        }),
    decreases list.len(),
{
    if list.len() > 0 {
        let entry = list.last();
        let p = link(entry, next);
        let bytes = property_bytes(p);
        lemma_insert_cells(v.pages, RecordKind::Property, bytes, v.property_pages);
        if let Ok(slot) = insert_outcome(
            v.pages,
            RecordKind::Property,
            bytes,
            v.property_pages,
        ).0 {
            let v2 = linked_in(v, entity_id, entry, next, slot);
            let before = list.drop_last();
            assert(list_storable(before)) by {
                assert forall|i: int| 0 <= i < before.len() implies entry_storable(
                    #[trigger] before[i],
                ) by {
                    assert(before[i] == list[i]);
                }
            }
            assert(v2.nodes() =~= v.nodes());
            assert(v2.edges() =~= v.edges());
            assert(v2.properties() =~= v.properties().insert(slot, bytes));
            assert(entry_storable(list[list.len() - 1]));
            law_stored_property_roundtrip(p);
            assert forall|s: SlotRef| #[trigger] v2.properties().contains_key(s) implies (
            property_of(v2.properties()[s]) matches Some(q) ==> leads(
                v2.properties(),
                q.next_property,
            )) by {
                if s != slot {
                    assert(v.properties().contains_key(s));
                }
            }
            lemma_chained_closed(v2, entity_id, before, slot);
            let w = chained(v2, entity_id, before, slot).1;
            assert forall|s: SlotRef| #[trigger] v.properties().contains_key(s) implies
                w.properties().contains_key(s) && w.properties()[s] == v.properties()[s] by {
                assert(v2.properties().contains_key(s));
            }
        }
    }
}

/// Nodes are as they were where their records, but for the heads of their lists of edges,
/// and their properties are.
proof fn lemma_node_as_before(a: EngineView, b: EngineView, id: u64)
    requires
        a.indexes_lead(),
        b.has_node(id) == a.has_node(id),
        a.has_node(id) ==> {
            let s = a.node_slot(id);
            &&& b.node_slot(id) == s
            &&& b.nodes()[s].node_id == a.nodes()[s].node_id
            &&& b.nodes()[s].label_id == a.nodes()[s].label_id
            &&& b.nodes()[s].flags == a.nodes()[s].flags
            &&& b.nodes()[s].first_property == a.nodes()[s].first_property
            &&& b.nodes().contains_key(s)
        },
        b.properties() == a.properties() || (chains_closed(a) && all_still_there(
            a.properties(),
            b.properties(),
        )),
    ensures
        node_with_id(b, id) == node_with_id(a, id),
{
    if a.has_node(id) {
        assert(node_entry_ok(a, id));
        let s = a.node_slot(id);
        assert(a.nodes().contains_key(s));
        let head = a.nodes()[s].first_property;
        if b.properties() == a.properties() {
            lemma_chain_same(a.pages, b.pages, head, MAX_CHAIN_DEPTH as nat);
        } else {
            lemma_chain_grown(a.pages, b.pages, head, MAX_CHAIN_DEPTH as nat);
        }
    }
}

/// Relationships are as they were where their records, but for their neighbours in lists,
/// and their properties are.
proof fn lemma_relationship_as_before(a: EngineView, b: EngineView, id: u64)
    requires
        a.indexes_lead(),
        b.has_edge(id) == a.has_edge(id),
        a.has_edge(id) ==> {
            let s = a.edge_slot(id);
            &&& b.edge_slot(id) == s
            &&& b.edges()[s].record.edge_id == a.edges()[s].record.edge_id
            &&& b.edges()[s].record.type_id == a.edges()[s].record.type_id
            &&& b.edges()[s].record.flags == a.edges()[s].record.flags
            &&& b.edges()[s].record.first_property == a.edges()[s].record.first_property
            &&& b.edges()[s].source_id == a.edges()[s].source_id
            &&& b.edges()[s].target_id == a.edges()[s].target_id
            &&& b.edges().contains_key(s)
        },
        b.properties() == a.properties() || (chains_closed(a) && all_still_there(
            a.properties(),
            b.properties(),
        )),
    ensures
        relationship_with_id(b, id) == relationship_with_id(a, id),
{
    if a.has_edge(id) {
        assert(edge_entry_ok(a, id));
        let s = a.edge_slot(id);
        assert(a.edges().contains_key(s));
        let head = a.edges()[s].record.first_property;
        if b.properties() == a.properties() {
            lemma_chain_same(a.pages, b.pages, head, MAX_CHAIN_DEPTH as nat);
        } else {
            lemma_chain_grown(a.pages, b.pages, head, MAX_CHAIN_DEPTH as nat);
        }
    }
}

/// Nodes and relationships are read from the pages and the two indexes of ids alone.
pub proof fn lemma_same_entities(a: EngineView, b: EngineView)
    requires
        b.pages == a.pages,
        b.node_index == a.node_index,
        b.edge_index == a.edge_index,
    ensures
        forall|id: u64| #[trigger] node_with_id(b, id) == node_with_id(a, id),
        forall|id: u64| #[trigger] relationship_with_id(b, id) == relationship_with_id(a, id),
        chains_closed(a) ==> chains_closed(b),
{
    assert(b.nodes() == a.nodes() && b.edges() == a.edges() && b.properties() == a.properties());
}

/// Deleting a node leaves every other node and every relationship as it was.
pub proof fn lemma_node_deleted_alone(a: EngineView, b: EngineView, node_id: u64)
    requires
        a.indexes_lead(),
        a.has_node(node_id),
        b.node_index == a.node_index,
        b.edge_index == a.edge_index,
        b.nodes() == a.nodes().insert(a.node_slot(node_id), b.node(node_id)),
        b.node(node_id).first_property == a.node(node_id).first_property,
        b.edges() == a.edges(),
        b.properties() == a.properties(),
    ensures
        forall|id: u64|
            id != node_id ==> #[trigger] node_with_id(b, id) == node_with_id(a, id),
        forall|id: u64| #[trigger] relationship_with_id(b, id) == relationship_with_id(a, id),
        chains_closed(a) ==> chains_closed(b),
{
    assert(node_entry_ok(a, node_id));
    assert forall|id: u64| id != node_id implies #[trigger] node_with_id(b, id) == node_with_id(
        a,
        id,
    ) by {
        if a.has_node(id) {
            assert(node_entry_ok(a, id));
        }
        lemma_node_as_before(a, b, id);
    }
    assert forall|id: u64| #[trigger]
        relationship_with_id(b, id) == relationship_with_id(a, id) by {
        if a.has_edge(id) {
            assert(edge_entry_ok(a, id));
        }
        lemma_relationship_as_before(a, b, id);
    }
    if chains_closed(a) {
        let slot = a.node_slot(node_id);
        assert(a.nodes().contains_key(slot));
        assert forall|s: SlotRef| #[trigger] b.nodes().contains_key(s) implies leads(
            b.properties(),
            b.nodes()[s].first_property,
        ) by {
            assert(a.nodes().contains_key(s));
        }
    }
}

/// Deleting a relationship leaves every node and every other relationship as it was.
pub proof fn lemma_edge_deleted_alone(a: EngineView, b: EngineView, edge_id: u64)
    requires
        a.indexes_lead(),
        a.has_edge(edge_id),
        b.node_index == a.node_index,
        b.edge_index == a.edge_index,
        nodes_kept(a, b),
        edges_kept_but(a, b, a.edge_slot(edge_id)),
        b.properties() == a.properties(),
    ensures
        forall|id: u64| #[trigger] node_with_id(b, id) == node_with_id(a, id),
        forall|id: u64|
            id != edge_id ==> #[trigger] relationship_with_id(b, id) == relationship_with_id(
                a,
                id,
            ),
        chains_closed(a) ==> chains_closed(b),
{
    assert(edge_entry_ok(a, edge_id));
    assert forall|id: u64| #[trigger] node_with_id(b, id) == node_with_id(a, id) by {
        if a.has_node(id) {
            assert(node_entry_ok(a, id));
            assert(b.nodes().contains_key(a.node_slot(id)));
        }
        lemma_node_as_before(a, b, id);
    }
    assert forall|id: u64| id != edge_id implies #[trigger] relationship_with_id(b, id)
        == relationship_with_id(a, id) by {
        if a.has_edge(id) {
            assert(edge_entry_ok(a, id));
            assert(b.edges().contains_key(a.edge_slot(id)));
        }
        lemma_relationship_as_before(a, b, id);
    }
}

/// Was a node stored in a slot, with the chain of its properties, and nothing else changed?
pub open spec fn node_added(a: EngineView, b: EngineView, id: u64, slot: SlotRef) -> bool {
    &&& forall|other: u64| #![trigger b.has_node(other)]
        other != id ==> b.has_node(other) == a.has_node(other) && (a.has_node(other)
            ==> b.node_slot(other) == a.node_slot(other))
    &&& b.edge_index == a.edge_index
    &&& !a.nodes().contains_key(slot)
    &&& b.nodes() == a.nodes().insert(slot, b.nodes()[slot])
    &&& b.edges() == a.edges()
    &&& chains_closed(a)
    &&& properties_closed(b.properties())
    &&& all_still_there(a.properties(), b.properties())
    &&& leads(b.properties(), b.nodes()[slot].first_property)
}

/// Storing a node leaves every other node and every relationship as it was.
pub proof fn lemma_node_stored_alone(a: EngineView, b: EngineView, id: u64, slot: SlotRef)
    requires
        a.indexes_lead(),
        node_added(a, b, id, slot),
    ensures
        forall|other: u64|
            other != id ==> #[trigger] node_with_id(b, other) == node_with_id(a, other),
        forall|other: u64| #[trigger]
            relationship_with_id(b, other) == relationship_with_id(a, other),
        chains_closed(b),
{
    assert forall|other: u64| other != id implies #[trigger] node_with_id(b, other)
        == node_with_id(a, other) by {
        assert(b.has_node(other) == a.has_node(other));
        if a.has_node(other) {
            assert(node_entry_ok(a, other));
            assert(a.nodes().contains_key(a.node_slot(other)));
        }
        lemma_node_as_before(a, b, other);
    }
    assert forall|other: u64| #[trigger]
        relationship_with_id(b, other) == relationship_with_id(a, other) by {
        if a.has_edge(other) {
            assert(edge_entry_ok(a, other));
        }
        lemma_relationship_as_before(a, b, other);
    }
    assert forall|s: SlotRef| #[trigger] b.nodes().contains_key(s) implies leads(
        b.properties(),
        b.nodes()[s].first_property,
    ) by {
        if s != slot {
            assert(a.nodes().contains_key(s));
        }
    }
    assert forall|s: SlotRef| #[trigger] b.edges().contains_key(s) implies leads(
        b.properties(),
        b.edges()[s].record.first_property,
    ) by {
        assert(a.edges().contains_key(s));
    }
}

/// A chain is stored for a new node.
pub proof fn lemma_node_chained(
    a: EngineView,
    b: EngineView,
    c: EngineView,
    id: u64,
    slot: SlotRef,
    list: Seq<Entry>,
)
    requires
        node_added(a, b, id, slot),
        property_pages_ok(b),
        list_storable(list),
        c.pages == chained(b, id, list, SlotRef::null()).1.pages,
        c.node_index == b.node_index,
        c.edge_index == b.edge_index,
    ensures
        node_added(a, c, id, slot),
        chained(b, id, list, SlotRef::null()).0 matches Ok(head) ==> leads(c.properties(), head),
{
    let w = chained(b, id, list, SlotRef::null()).1;
    lemma_chained_closed(b, id, list, SlotRef::null());
    assert(c.nodes() == w.nodes() && c.edges() == w.edges() && c.properties() == w.properties());
    assert forall|other: u64| #![trigger c.has_node(other)]
        other != id implies c.has_node(other) == a.has_node(other) && (a.has_node(other)
        ==> c.node_slot(other) == a.node_slot(other)) by {
        assert(b.has_node(other) == c.has_node(other));
    }
    assert forall|s: SlotRef| #[trigger] a.properties().contains_key(s) implies
        c.properties().contains_key(s) && c.properties()[s] == a.properties()[s] by {
        assert(b.properties().contains_key(s));
    }
    assert(leads(c.properties(), b.nodes()[slot].first_property));
}

/// The chain is attached to the new node.
pub proof fn lemma_node_attached(
    a: EngineView,
    b: EngineView,
    c: EngineView,
    id: u64,
    slot: SlotRef,
    head: SlotRef,
)
    requires
        node_added(a, b, id, slot),
        leads(b.properties(), head),
        c.nodes() == b.nodes().insert(slot, with_first_property(b.nodes()[slot], head)),
        c.edges() == b.edges(),
        c.properties() == b.properties(),
        c.node_index == b.node_index,
        c.edge_index == b.edge_index,
    ensures
        node_added(a, c, id, slot),
{
    assert(c.nodes() =~= a.nodes().insert(slot, c.nodes()[slot]));
    assert forall|other: u64| #![trigger c.has_node(other)]
        other != id implies c.has_node(other) == a.has_node(other) && (a.has_node(other)
        ==> c.node_slot(other) == a.node_slot(other)) by {
        assert(b.has_node(other) == c.has_node(other));
    }
}

/// Was a relationship stored in a slot, with the chain of its properties, and nothing else
/// changed but the lists that it is in?
pub open spec fn edge_added(a: EngineView, b: EngineView, id: u64, slot: SlotRef) -> bool {
    &&& b.node_index == a.node_index
    &&& forall|other: u64| #![trigger b.has_edge(other)]
        other != id ==> b.has_edge(other) == a.has_edge(other) && (a.has_edge(other)
            ==> b.edge_slot(other) == a.edge_slot(other))
    &&& !a.edges().contains_key(slot)
    &&& nodes_kept(a, b)
    &&& edges_kept_and(a, b, slot)
    &&& chains_closed(a)
    &&& properties_closed(b.properties())
    &&& all_still_there(a.properties(), b.properties())
    &&& leads(b.properties(), b.edges()[slot].record.first_property)
}

/// Storing a relationship leaves every node and every other relationship as it was.
pub proof fn lemma_edge_stored_alone(a: EngineView, b: EngineView, id: u64, slot: SlotRef)
    requires
        a.indexes_lead(),
        edge_added(a, b, id, slot),
    ensures
        forall|other: u64| #[trigger] node_with_id(b, other) == node_with_id(a, other),
        forall|other: u64|
            other != id ==> #[trigger] relationship_with_id(b, other) == relationship_with_id(
                a,
                other,
            ),
        chains_closed(b),
{
    assert forall|other: u64| #[trigger] node_with_id(b, other) == node_with_id(a, other) by {
        if a.has_node(other) {
            assert(node_entry_ok(a, other));
            assert(b.nodes().contains_key(a.node_slot(other)));
        }
        lemma_node_as_before(a, b, other);
    }
    assert forall|other: u64| other != id implies #[trigger] relationship_with_id(b, other)
        == relationship_with_id(a, other) by {
        assert(b.has_edge(other) == a.has_edge(other));
        if a.has_edge(other) {
            assert(edge_entry_ok(a, other));
            assert(a.edges().contains_key(a.edge_slot(other)));
            assert(b.edges().contains_key(a.edge_slot(other)));
        }
        lemma_relationship_as_before(a, b, other);
    }
    assert forall|s: SlotRef| #[trigger] b.nodes().contains_key(s) implies leads(
        b.properties(),
        b.nodes()[s].first_property,
    ) by {
        assert(a.nodes().contains_key(s));
    }
    assert forall|s: SlotRef| #[trigger] b.edges().contains_key(s) implies leads(
        b.properties(),
        b.edges()[s].record.first_property,
    ) by {
        if s != slot {
            assert(a.edges().contains_key(s));
        }
    }
}

/// A chain is stored for a new relationship.
pub proof fn lemma_edge_chained(
    a: EngineView,
    b: EngineView,
    c: EngineView,
    id: u64,
    slot: SlotRef,
    list: Seq<Entry>,
)
    requires
        edge_added(a, b, id, slot),
        property_pages_ok(b),
        list_storable(list),
        c.pages == chained(b, id, list, SlotRef::null()).1.pages,
        c.node_index == b.node_index,
        c.edge_index == b.edge_index,
    ensures
        edge_added(a, c, id, slot),
        chained(b, id, list, SlotRef::null()).0 matches Ok(head) ==> leads(c.properties(), head),
{
    let w = chained(b, id, list, SlotRef::null()).1;
    lemma_chained_closed(b, id, list, SlotRef::null());
    assert(c.nodes() == w.nodes() && c.edges() == w.edges() && c.properties() == w.properties());
    assert forall|other: u64| #![trigger c.has_edge(other)]
        other != id implies c.has_edge(other) == a.has_edge(other) && (a.has_edge(other)
        ==> c.edge_slot(other) == a.edge_slot(other)) by {
        assert(b.has_edge(other) == c.has_edge(other));
    }
    assert forall|s: SlotRef| #[trigger] a.properties().contains_key(s) implies
        c.properties().contains_key(s) && c.properties()[s] == a.properties()[s] by {
        assert(b.properties().contains_key(s));
    }
    assert(leads(c.properties(), b.edges()[slot].record.first_property));
}

/// The chain is attached to the new relationship.
pub proof fn lemma_edge_attached(
    a: EngineView,
    b: EngineView,
    c: EngineView,
    id: u64,
    slot: SlotRef,
    head: SlotRef,
)
    requires
        edge_added(a, b, id, slot),
        leads(b.properties(), head),
        c.nodes() == b.nodes(),
        c.edges() == b.edges().insert(slot, edge_with_first_property(b.edges()[slot], head)),
        c.properties() == b.properties(),
        c.node_index == b.node_index,
        c.edge_index == b.edge_index,
    ensures
        edge_added(a, c, id, slot),
{
    assert forall|other: u64| #![trigger c.has_edge(other)]
        other != id implies c.has_edge(other) == a.has_edge(other) && (a.has_edge(other)
        ==> c.edge_slot(other) == a.edge_slot(other)) by {
        assert(b.has_edge(other) == c.has_edge(other));
    }
    assert forall|s: SlotRef| #[trigger]
        c.edges().contains_key(s) == (a.edges().contains_key(s) || s == slot) by {
        assert(b.edges().contains_key(s) == (a.edges().contains_key(s) || s == slot));
    }
}

} // verus!
