//! The graph: nodes and relationships with their properties.

use std::sync::Arc;

use vstd::prelude::*;

use crate::graph::builder::NodeBuilder;
use crate::graph::builder::RelationshipBuilder;
use crate::graph::chain::all_read_back;
use crate::graph::chain::chain_map;
use crate::graph::chain::chained;
use crate::graph::chain::law_chain_roundtrip;
use crate::graph::chain::law_properties_read_back;
use crate::graph::chain::lemma_chain_same;
use crate::graph::chain::lemma_chained;
use crate::graph::chain::lemma_chained_next_id;
use crate::graph::chain::lemma_storable;
use crate::graph::chain::list_storable;
use crate::graph::chain::property_pages_ok;
use crate::graph::chain::read_chain;
use crate::graph::chain::read_entries;
use crate::graph::chain::read_property_chain_engine;
use crate::graph::chain::storable;
use crate::graph::chain::store_chain;
use crate::graph::chain::MAX_CHAIN_DEPTH;
use crate::graph::csr::CsrAdjacency;
use crate::graph::edges::delete_edge_after;
use crate::graph::edges::ends_can_be_unwired;
use crate::graph::edges::ends_can_be_wired;
use crate::graph::edges::law_delete_edge_after;
use crate::graph::edges::law_put_edge_after;
use crate::graph::edges::put_edge_after;
use crate::graph::edges::put_edge_result;
use crate::graph::edges::same_edge;
use crate::graph::engine::agreements_kept;
use crate::graph::engine::attach_to_edge_after;
use crate::graph::engine::attach_to_node_after;
use crate::graph::engine::delete_node_after;
use crate::graph::engine::edge_entry_ok;
use crate::graph::engine::edge_with_first_property;
use crate::graph::engine::law_delete_node_after;
use crate::graph::engine::law_put_node_after;
use crate::graph::engine::lemma_same_entries;
use crate::graph::engine::node_entry_ok;
use crate::graph::engine::put_node_after;
use crate::graph::engine::put_node_result;
use crate::graph::engine::with_first_property;
use crate::graph::engine::EngineView;
use crate::graph::engine::GraphStorageEngine;
use crate::graph::frame::chains_closed;
use crate::graph::frame::lemma_edge_attached;
use crate::graph::frame::lemma_edge_chained;
use crate::graph::frame::lemma_edge_deleted_alone;
use crate::graph::frame::lemma_edge_stored_alone;
use crate::graph::frame::lemma_node_attached;
use crate::graph::frame::lemma_node_chained;
use crate::graph::frame::lemma_node_deleted_alone;
use crate::graph::frame::lemma_node_stored_alone;
use crate::graph::frame::lemma_same_entities;
use crate::graph::ids::id_after;
use crate::graph::maintenance::compact_after;
use crate::graph::maintenance::reclaimable;
use crate::graph::maintenance::rows_for;
use crate::graph::maintenance::snapshot_max;
use crate::graph::property::by_name;
use crate::graph::property::Entry;
use crate::graph::property::PropertyMap;
use crate::graph::property::PropertyModel;
use crate::graph::record::edge_flags;
use crate::graph::record::node_flags;
use crate::graph::record::NodeRecord;
use crate::graph::record::SlotRef;
use crate::graph::record::ValueType;
use crate::graph::reopen::fresh_view;
use crate::graph::reopen::heap_pages;
use crate::graph::reopen::law_restart_keeps_graph;
use crate::graph::reopen::rebuild_after;
use crate::graph::scan::edges_rise;
use crate::graph::scan::hops_from;
use crate::graph::scan::is_edge_scan;
use crate::graph::scan::is_node_scan;
use crate::graph::scan::law_all_edges_scan;
use crate::graph::scan::law_all_nodes_scan;
use crate::graph::scan::law_label_scan;
use crate::graph::scan::law_type_scan;
use crate::graph::scan::nodes_rise;
use crate::graph::store::listed_edges;
use crate::graph::stored::StoredEdge;
use crate::index::key::be_u64;
use crate::index::property::holders;
use crate::index::property::index_value;
use crate::index::slots::lists_ids;
use crate::index::slots::tails;
use crate::storage::error::StorageError;
use crate::storage::heap::cells;
use crate::storage::heap::insert_outcome;
use crate::storage::heap::RecordKind;

verus! {

/// A node with its properties.
#[derive(Debug, PartialEq)]
pub struct Node {
    pub node_id: u64,
    pub label_id: u32,
    pub properties: PropertyMap,
}

/// What a node is.
#[verifier::ext_equal]
pub struct NodeView {
    pub node_id: u64,
    pub label_id: u32,
    pub properties: Map<Seq<char>, PropertyModel>,
}

impl View for Node {
    type V = NodeView;

    open spec fn view(&self) -> NodeView {
        NodeView {
            node_id: self.node_id,
            label_id: self.label_id,
            properties: self.properties@,
        }
    }
}

impl Clone for Node {
    fn clone(&self) -> (r: Self)
        ensures
            r@ == self@,
            self.properties.wf() ==> r.properties.wf(),
    {
        Node {
            node_id: self.node_id,
            label_id: self.label_id,
            properties: self.properties.clone(),
        }
    }
}

/// A relationship with its properties.
#[derive(Debug, PartialEq)]
pub struct Relationship {
    pub edge_id: u64,
    pub type_id: u32,
    pub source_id: u64,
    pub target_id: u64,
    pub properties: PropertyMap,
}

/// What a relationship is.
#[verifier::ext_equal]
pub struct RelationshipView {
    pub edge_id: u64,
    pub type_id: u32,
    pub source_id: u64,
    pub target_id: u64,
    pub properties: Map<Seq<char>, PropertyModel>,
}

impl View for Relationship {
    type V = RelationshipView;

    open spec fn view(&self) -> RelationshipView {
        RelationshipView {
            edge_id: self.edge_id,
            type_id: self.type_id,
            source_id: self.source_id,
            target_id: self.target_id,
            properties: self.properties@,
        }
    }
}

impl Clone for Relationship {
    fn clone(&self) -> (r: Self)
        ensures
            r@ == self@,
            self.properties.wf() ==> r.properties.wf(),
    {
        Relationship {
            edge_id: self.edge_id,
            type_id: self.type_id,
            source_id: self.source_id,
            target_id: self.target_id,
            properties: self.properties.clone(),
        }
    }
}

/// The node of a record.
pub open spec fn node_of_record(v: EngineView, rec: NodeRecord) -> NodeView {
    NodeView {
        node_id: rec.node_id,
        label_id: rec.label_id,
        properties: chain_map(v.pages, rec.first_property),
    }
}

/// The relationship of an edge.
pub open spec fn relationship_of_edge(v: EngineView, edge: StoredEdge) -> RelationshipView {
    RelationshipView {
        edge_id: edge.record.edge_id,
        type_id: edge.record.type_id,
        source_id: edge.source_id,
        target_id: edge.target_id,
        properties: chain_map(v.pages, edge.record.first_property),
    }
}

/// The node with an id, unless it was deleted.
pub open spec fn node_with_id(v: EngineView, id: u64) -> Option<NodeView> {
    if v.has_node(id) && !v.node(id).is_deleted() {
        Some(node_of_record(v, v.node(id)))
    } else {
        None
    }
}

/// The relationship with an id, unless it was deleted.
pub open spec fn relationship_with_id(v: EngineView, id: u64) -> Option<RelationshipView> {
    if v.has_edge(id) && !v.edge(id).record.is_deleted() {
        Some(relationship_of_edge(v, v.edge(id)))
    } else {
        None
    }
}

/// The views of some nodes.
pub open spec fn node_views(nodes: Seq<Node>) -> Seq<NodeView> {
    nodes.map_values(|n: Node| n@)
}

/// The views of some relationships.
pub open spec fn relationship_views(rels: Seq<Relationship>) -> Seq<RelationshipView> {
    rels.map_values(|r: Relationship| r@)
}

/// The nodes of some records.
pub open spec fn nodes_of_records(v: EngineView, recs: Seq<NodeRecord>) -> Seq<NodeView> {
    recs.map_values(|rec: NodeRecord| node_of_record(v, rec))
}

/// The relationships of some edges.
pub open spec fn relationships_of_edges(v: EngineView, edges: Seq<StoredEdge>) -> Seq<
    RelationshipView,
> {
    edges.map_values(|e: StoredEdge| relationship_of_edge(v, e))
}

/// Does `r` list all nodes that are there, or all with one label, and no others, by
/// rising id?
pub open spec fn lists_nodes(v: EngineView, label_id: Option<u32>, r: Seq<NodeView>) -> bool {
    &&& forall|node: NodeView| #[trigger]
        r.contains(node) <==> node_with_id(v, node.node_id) == Some(node) && (label_id matches Some(
            label,
        ) ==> node.label_id == label)
    &&& forall|i: int, j: int|
        0 <= i < j < r.len() ==> (#[trigger] r[i]).node_id < (#[trigger] r[j]).node_id
}

/// Does `r` list all relationships that are there, or all of one type, and no others,
/// by rising id?
pub open spec fn lists_relationships(
    v: EngineView,
    type_id: Option<u32>,
    r: Seq<RelationshipView>,
) -> bool {
    &&& forall|rel: RelationshipView| #[trigger]
        r.contains(rel) <==> relationship_with_id(v, rel.edge_id) == Some(rel) && (
        type_id matches Some(t) ==> rel.type_id == t)
    &&& forall|i: int, j: int|
        0 <= i < j < r.len() ==> (#[trigger] r[i]).edge_id < (#[trigger] r[j]).edge_id
}

/// The nodes of records that are all the nodes that are there, or all with one label.
proof fn lemma_lists_nodes(v: EngineView, label_id: Option<u32>, recs: Seq<NodeRecord>)
    requires
        v.indexes_lead(),
        forall|node: NodeRecord| #[trigger]
            recs.contains(node) <==> v.has_node(node.node_id) && v.node(node.node_id) == node
                && !node.is_deleted() && (label_id matches Some(label) ==> node.label_id == label),
        nodes_rise(recs),
    ensures
        lists_nodes(v, label_id, nodes_of_records(v, recs)),
{
    let r = nodes_of_records(v, recs);
    assert forall|node: NodeView| #[trigger]
        r.contains(node) <==> node_with_id(v, node.node_id) == Some(node) && (label_id matches Some(
            label,
        ) ==> node.label_id == label) by {
        if r.contains(node) {
            let i = choose|i: int| 0 <= i < r.len() && r[i] == node;
            assert(recs.contains(recs[i]));
        }
        if node_with_id(v, node.node_id) == Some(node) && (label_id matches Some(label)
            ==> node.label_id == label) {
            assert(node_entry_ok(v, node.node_id));
            let rec = v.node(node.node_id);
            assert(recs.contains(rec));
            let i = choose|i: int| 0 <= i < recs.len() && recs[i] == rec;
            assert(r[i] == node);
        }
    }
}

/// The relationships of edges that are all the edges that are there, or all of one type.
proof fn lemma_lists_relationships(v: EngineView, type_id: Option<u32>, edges: Seq<StoredEdge>)
    requires
        v.indexes_lead(),
        forall|edge: StoredEdge| #[trigger]
            edges.contains(edge) <==> v.has_edge(edge.record.edge_id) && v.edge(
                edge.record.edge_id,
            ) == edge && !edge.record.is_deleted() && (type_id matches Some(t)
                ==> edge.record.type_id == t),
        edges_rise(edges),
    ensures
        lists_relationships(v, type_id, relationships_of_edges(v, edges)),
{
    let r = relationships_of_edges(v, edges);
    assert forall|rel: RelationshipView| #[trigger]
        r.contains(rel) <==> relationship_with_id(v, rel.edge_id) == Some(rel) && (
        type_id matches Some(t) ==> rel.type_id == t) by {
        if r.contains(rel) {
            let i = choose|i: int| 0 <= i < r.len() && r[i] == rel;
            assert(edges.contains(edges[i]));
        }
        if relationship_with_id(v, rel.edge_id) == Some(rel) && (type_id matches Some(t)
            ==> rel.type_id == t) {
            assert(edge_entry_ok(v, rel.edge_id));
            let edge = v.edge(rel.edge_id);
            assert(edges.contains(edge));
            let i = choose|i: int| 0 <= i < edges.len() && edges[i] == edge;
            assert(r[i] == rel);
        }
    }
}

/// The id that an entity of the index of values stands for.
pub open spec fn entity_node_id(entity_id: u128) -> u64 {
    (entity_id % 0x1_0000_0000_0000_0000) as u64
}

/// The nodes with these ids, without those that are not there.
pub open spec fn nodes_with_ids(v: EngineView, found: Seq<(u128, SlotRef)>) -> Seq<NodeView>
    decreases found.len(),
{
    if found.len() == 0 {
        Seq::empty()
    } else {
        let rest = nodes_with_ids(v, found.drop_last());
        match node_with_id(v, entity_node_id(found.last().0)) {
            Some(node) => rest.push(node),
            None => rest,
        }
    }
}

/// A node is among those with one value of a property if and only if it is there and
/// an entity with its id holds the value.
pub proof fn law_value_scan(
    v: EngineView,
    entities: Map<u128, SlotRef>,
    found: Seq<(u128, SlotRef)>,
    node: NodeView,
)
    requires
        lists_ids(entities, found),
    ensures
        nodes_with_ids(v, found).contains(node) <==> exists|e: u128| #[trigger]
            entities.contains_key(e) && node_with_id(v, entity_node_id(e)) == Some(node),
{
    lemma_nodes_with_ids(v, found, node);
    if nodes_with_ids(v, found).contains(node) {
        let i = choose|i: int|
            0 <= i < found.len() && node_with_id(v, entity_node_id((#[trigger] found[i]).0)) == Some(
                node,
            );
        assert(entities.contains_key(found[i].0));
    }
    if exists|e: u128| #[trigger]
        entities.contains_key(e) && node_with_id(v, entity_node_id(e)) == Some(node) {
        let e = choose|e: u128| #[trigger]
            entities.contains_key(e) && node_with_id(v, entity_node_id(e)) == Some(node);
        assert(found.contains((e, entities[e])));
        let i = choose|i: int| 0 <= i < found.len() && found[i] == (e, entities[e]);
        assert(found[i].0 == e);
    }
}

/// Every entity that holds the value gives its node once, in the order of the entities, and
/// nothing if the node is not there.
pub proof fn law_value_scan_each_once(v: EngineView, found: Seq<(u128, SlotRef)>)
    ensures
        nodes_with_ids(v, found) == found.filter(
            |e: (u128, SlotRef)|
                node_with_id(v, (e.0 % 0x1_0000_0000_0000_0000) as u64) is Some,
        ).map_values(
            |e: (u128, SlotRef)| node_with_id(v, (e.0 % 0x1_0000_0000_0000_0000) as u64)->0,
        ),
    decreases found.len(),
{
    let keep = |e: (u128, SlotRef)|
        node_with_id(v, (e.0 % 0x1_0000_0000_0000_0000) as u64) is Some;
    let node = |e: (u128, SlotRef)| node_with_id(v, (e.0 % 0x1_0000_0000_0000_0000) as u64)->0;
    reveal(Seq::filter);
    if found.len() > 0 {
        law_value_scan_each_once(v, found.drop_last());
        let rest = found.drop_last().filter(keep);
        if keep(found.last()) {
            assert(found.filter(keep).map_values(node) =~= rest.map_values(node).push(
                node(found.last()),
            ));
        }
    }
    assert(nodes_with_ids(v, found) =~= found.filter(keep).map_values(node));
}

/// No node is listed twice among those with one value of a property: their ids rise, if the
/// entities are nodes with ids of eight bytes.
pub proof fn law_value_scan_rises(
    v: EngineView,
    entities: Map<u128, SlotRef>,
    found: Seq<(u128, SlotRef)>,
)
    requires
        v.indexes_lead(),
        lists_ids(entities, found),
        forall|e: u128| #[trigger] entities.contains_key(e) ==> e <= u64::MAX,
    ensures
        ({
            let r = nodes_with_ids(v, found);
            &&& forall|i: int, j: int|
                0 <= i < j < r.len() ==> (#[trigger] r[i]).node_id < (#[trigger] r[j]).node_id
            &&& r.no_duplicates()
        }),
{
    assert forall|i: int| 0 <= i < found.len() implies (#[trigger] found[i]).0 <= u64::MAX by {
        assert(entities.contains_key(found[i].0));
    }
    lemma_found_rise(v, found);
}

proof fn lemma_found_rise(v: EngineView, found: Seq<(u128, SlotRef)>)
    requires
        v.indexes_lead(),
        forall|i: int, j: int|
            0 <= i < j < found.len() ==> (#[trigger] found[i]).0 < (#[trigger] found[j]).0,
        forall|i: int| 0 <= i < found.len() ==> (#[trigger] found[i]).0 <= u64::MAX,
    ensures
        ({
            let r = nodes_with_ids(v, found);
            &&& forall|i: int, j: int|
                0 <= i < j < r.len() ==> (#[trigger] r[i]).node_id < (#[trigger] r[j]).node_id
            &&& forall|i: int|
                0 <= i < r.len() ==> found.len() > 0 && (#[trigger] r[i]).node_id <= found.last().0
        }),
    decreases found.len(),
{
    if found.len() > 0 {
        let rest = found.drop_last();
        assert forall|i: int, j: int| 0 <= i < j < rest.len() implies (#[trigger] rest[i]).0 < (
        #[trigger] rest[j]).0 by {
            assert(found[i].0 < found[j].0);
        }
        assert forall|i: int| 0 <= i < rest.len() implies (#[trigger] rest[i]).0 <= u64::MAX by {
            assert(found[i].0 <= u64::MAX);
        }
        lemma_found_rise(v, rest);
        if rest.len() > 0 {
            assert(found[rest.len() - 1].0 < found[found.len() - 1].0);
        }
        assert(found[found.len() - 1].0 <= u64::MAX);
        let id = entity_node_id(found.last().0);
        assert(id == found.last().0);
        assert(v.has_node(id) ==> node_entry_ok(v, id));
        let before = nodes_with_ids(v, rest);
        let r = nodes_with_ids(v, found);
        assert forall|i: int| 0 <= i < before.len() implies (#[trigger] before[i]).node_id
            < found.last().0 by {
            assert(before[i].node_id <= rest.last().0);
        }
        match node_with_id(v, id) {
            Some(node) => {
                assert(r == before.push(node));
                assert(node.node_id == id);
            },
            None => {
                assert(r == before);
            },
        }
    }
}

proof fn lemma_nodes_with_ids(v: EngineView, found: Seq<(u128, SlotRef)>, node: NodeView)
    ensures
        nodes_with_ids(v, found).contains(node) <==> exists|i: int|
            0 <= i < found.len() && node_with_id(v, entity_node_id((#[trigger] found[i]).0)) == Some(
                node,
            ),
    decreases found.len(),
{
    if found.len() > 0 {
        let before = found.drop_last();
        let rest = nodes_with_ids(v, before);
        let all = nodes_with_ids(v, found);
        let last = node_with_id(v, entity_node_id(found.last().0));
        lemma_nodes_with_ids(v, before, node);
        if rest.contains(node) {
            let i = choose|i: int| 0 <= i < rest.len() && rest[i] == node;
            assert(all[i] == node);
            let k = choose|k: int|
                0 <= k < before.len() && node_with_id(
                    v,
                    entity_node_id((#[trigger] before[k]).0),
                ) == Some(node);
            assert(found[k] == before[k]);
        }
        if last == Some(node) {
            assert(all[all.len() - 1] == node);
            assert(found[found.len() - 1] == found.last());
        }
        if all.contains(node) && last != Some(node) {
            let i = choose|i: int| 0 <= i < all.len() && all[i] == node;
            assert(rest[i] == node);
        }
        if exists|i: int|
            0 <= i < found.len() && node_with_id(v, entity_node_id((#[trigger] found[i]).0)) == Some(
                node,
            ) {
            let i = choose|i: int|
                0 <= i < found.len() && node_with_id(v, entity_node_id((#[trigger] found[i]).0))
                    == Some(node);
            if i < before.len() {
                assert(before[i] == found[i]);
            }
        }
    }
}

/// The outcome of creating a node: its slot and id, or why it could not be created,
/// and the engine then. `full` tells whether an index is out of page ids.
pub open spec fn node_created(v: EngineView, label_id: u32, list: Seq<Entry>, full: bool) -> (
    Result<(SlotRef, u64), StorageError>,
    EngineView,
) {
    let id = v.next_id;
    let v1 = EngineView { next_id: id_after(id), ..v };
    let node = NodeRecord::spec_new(id, label_id);
    match put_node_result(v1, node, full) {
        Err(e) => (Err(e), v1),
        Ok(slot) => {
            let v2 = put_node_after(v1, node, slot);
            if list.len() == 0 {
                (Ok((slot, id)), v2)
            } else {
                let (head, v3) = chained(v2, id, list, SlotRef::null());
                match head {
                    Err(e) => (Err(e), v3),
                    Ok(head) => (Ok((slot, id)), attach_to_node_after(v3, id, head)),
                }
            }
        },
    }
}

/// The outcome of creating a relationship: its slot and id, or why it could not be
/// created, and the engine then. `full` tells whether an index is out of page ids.
pub open spec fn relationship_created(v: EngineView, builder: RelationshipBuilder, full: bool) -> (
    Result<(SlotRef, u64), StorageError>,
    EngineView,
) {
    let id = v.next_id;
    let v1 = EngineView { next_id: id_after(id), ..v };
    let source = builder.source_id->0;
    let target = builder.target_id->0;
    let list = builder.properties.list();
    if builder.lacks() is Some {
        (Err(StorageError::IoError), v)
    } else if !v.has_node(source) || v.node(source).is_deleted() || !v.has_node(target) || v.node(
        target,
    ).is_deleted() {
        (Err(StorageError::NotFound), v1)
    } else {
        let edge = StoredEdge::spec_new(
            id,
            builder.type_id,
            source,
            target,
            v.node_slot(source),
            v.node_slot(target),
        );
        match put_edge_result(v1, edge, full) {
            Err(e) => (Err(e), v1),
            Ok(slot) => {
                let v2 = put_edge_after(v1, edge, slot);
                if list.len() == 0 {
                    (Ok((slot, id)), v2)
                } else {
                    let (head, v3) = chained(v2, id, list, SlotRef::null());
                    match head {
                        Err(e) => (Err(e), v3),
                        Ok(head) => (Ok((slot, id)), attach_to_edge_after(v3, id, head)),
                    }
                }
            },
        }
    }
}

/// A node without properties is created, under the next id, unless that id is none or names a
/// node already, an index is out of page ids, or its record cannot be placed.
pub proof fn law_node_created(v: EngineView, label_id: u32, list: Seq<Entry>, full: bool)
    ensures
        ({
            let (outcome, after) = node_created(v, label_id, list, full);
            let place = insert_outcome(
                v.pages,
                RecordKind::Node,
                NodeRecord::spec_new(v.next_id, label_id).spec_bytes(),
                v.node_pages,
            ).0;
            &&& after.next_id == id_after(v.next_id)
            &&& outcome matches Ok(made) ==> made.1 == v.next_id && v.next_id != 0 && !v.has_node(
                v.next_id,
            ) && !full && place == Ok::<SlotRef, StorageError>(made.0)
            &&& v.next_id == 0 ==> outcome == Err::<(SlotRef, u64), StorageError>(
                StorageError::InvalidId,
            )
            &&& v.next_id != 0 && v.has_node(v.next_id) ==> outcome == Err::<
                (SlotRef, u64),
                StorageError,
            >(StorageError::AlreadyExists)
            &&& v.next_id != 0 && !v.has_node(v.next_id) && !full && place is Ok && list.len() == 0
                ==> outcome is Ok
        }),
{
    let id = v.next_id;
    let node = NodeRecord::spec_new(id, label_id);
    let v1 = EngineView { next_id: id_after(id), ..v };
    if let Ok(slot) = put_node_result(v1, node, full) {
        lemma_chained_next_id(put_node_after(v1, node, slot), id, list, SlotRef::null());
    }
}

/// A relationship without properties is created, under the next id and between two nodes that
/// are there, unless that id is none or names a relationship already, an index is out of page
/// ids, its record cannot be placed or the nodes cannot take it into their lists. Without a
/// source, a target or a type nothing happens at all, and without its nodes only the id is
/// gone.
pub proof fn law_relationship_created(v: EngineView, builder: RelationshipBuilder, full: bool)
    ensures
        ({
            let (outcome, after) = relationship_created(v, builder, full);
            let source = builder.source_id->0;
            let target = builder.target_id->0;
            let complete = builder.source_id is Some && builder.target_id is Some
                && builder.type_id != 0;
            let both = node_with_id(v, source) is Some && node_with_id(v, target) is Some;
            let edge = StoredEdge::spec_new(
                v.next_id,
                builder.type_id,
                source,
                target,
                v.node_slot(source),
                v.node_slot(target),
            );
            let place = insert_outcome(
                v.pages,
                RecordKind::Edge,
                edge.spec_bytes(),
                v.edge_pages,
            ).0;
            &&& !complete ==> outcome == Err::<(SlotRef, u64), StorageError>(StorageError::IoError)
                && after == v
            &&& complete ==> after.next_id == id_after(v.next_id)
            &&& complete && !both ==> outcome == Err::<(SlotRef, u64), StorageError>(
                StorageError::NotFound,
            ) && after.pages == v.pages && after.edge_index == v.edge_index
            &&& outcome matches Ok(made) ==> made.1 == v.next_id && complete && both && v.next_id
                != 0 && !v.has_edge(v.next_id) && !full && ends_can_be_wired(v, edge) && place
                == Ok::<SlotRef, StorageError>(made.0)
            &&& complete && both && v.next_id != 0 && !v.has_edge(v.next_id) && !full
                && ends_can_be_wired(v, edge) && place is Ok && builder.properties.list().len() == 0
                ==> outcome is Ok
        }),
{
    let id = v.next_id;
    let v1 = EngineView { next_id: id_after(id), ..v };
    let source = builder.source_id->0;
    let target = builder.target_id->0;
    let list = builder.properties.list();
    let edge = StoredEdge::spec_new(
        id,
        builder.type_id,
        source,
        target,
        v.node_slot(source),
        v.node_slot(target),
    );
    if let Ok(slot) = put_edge_result(v1, edge, full) {
        lemma_chained_next_id(put_edge_after(v1, edge, slot), id, list, SlotRef::null());
    }
}

// ---------------------------------------------------------------------------
// Operations on an engine
// ---------------------------------------------------------------------------

/// Takes the next id.
fn take_id(engine: &mut GraphStorageEngine) -> (id: u64)
    requires
        old(engine).wf(),
    ensures
        final(engine).wf(),
        id == old(engine)@.next_id,
        final(engine)@ == (EngineView { next_id: id_after(id), ..old(engine)@ }),
        final(engine).node_index == old(engine).node_index,
        final(engine).edge_index == old(engine).edge_index,
        final(engine).label_index == old(engine).label_index,
        final(engine).type_index == old(engine).type_index,
        final(engine).property_index == old(engine).property_index,
        final(engine).room() == old(engine).room(),
        agreements_kept(old(engine)@, final(engine)@),
{
    let ghost before = engine@;
    let id: u64 = engine.id_allocator.allocate();
    proof {
        lemma_same_entries(before, engine@);
    }
    id
}

/// The node is there with its properties once they have been stored and attached.
proof fn lemma_node_reads_back(
    v2: EngineView,
    v3: EngineView,
    v4: EngineView,
    id: u64,
    label_id: u32,
    list: Seq<Entry>,
    head: SlotRef,
)
    requires
        property_pages_ok(v2),
        list_storable(list),
        list.len() <= MAX_CHAIN_DEPTH,
        v2.has_node(id),
        v2.nodes().contains_key(v2.node_slot(id)),
        v2.node(id) == NodeRecord::spec_new(id, label_id),
        chained(v2, id, list, SlotRef::null()).0 == Ok::<SlotRef, StorageError>(head),
        v3.pages == chained(v2, id, list, SlotRef::null()).1.pages,
        v3.node_index == v2.node_index,
        v4.properties() == v3.properties(),
        v4.node_index == v3.node_index,
        v4.nodes() == v3.nodes().insert(
            v3.node_slot(id),
            with_first_property(v3.node(id), head),
        ),
    ensures
        node_with_id(v4, id) == Some(
            NodeView { node_id: id, label_id, properties: by_name(read_entries(list)) },
        ),
{
    lemma_chained(v2, id, list, SlotRef::null());
    law_chain_roundtrip(v2, id, list);
    let slot = v2.node_slot(id);
    let w = chained(v2, id, list, SlotRef::null()).1;
    assert(cells(v2.pages).contains_key(slot));
    assert(cells(w.pages)[slot] == cells(v2.pages)[slot]);
    assert(v3.node(id) == v2.node(id));
    assert(v4.nodes()[slot].first_property == head);
    lemma_chain_same(v4.pages, v3.pages, head, MAX_CHAIN_DEPTH as nat);
    assert(0u16 & 0x0001u16 == 0) by (bit_vector);
}

/// Creates a node with an id of its own.
#[verifier::rlimit(60)]
fn create_node_engine(engine: &mut GraphStorageEngine, builder: NodeBuilder) -> (r: Result<
    (SlotRef, u64),
    StorageError,
>)
    requires
        old(engine).wf(),
        builder.wf(),
        storable(builder.properties@),
    ensures
        final(engine).wf(),
        ({
            let (outcome, after) = node_created(
                old(engine)@,
                builder.label_id,
                builder.properties.list(),
                old(engine).node_index.is_full() || old(engine).label_index.is_full(),
            );
            &&& r == outcome
            &&& final(engine)@ == (EngineView {
                property_index: final(engine)@.property_index,
                ..after
            })
            &&& !final(engine).property_index.is_full() ==> final(engine)@ == after
        }),
        r matches Ok(made) ==> builder.properties.list().len() <= MAX_CHAIN_DEPTH ==> node_with_id(
            final(engine)@,
            made.1,
        ) == Some(
            NodeView {
                node_id: made.1,
                label_id: builder.label_id,
                properties: all_read_back(builder.properties@),
            },
        ),
        r matches Ok(made) ==> made.1 == old(engine)@.next_id,
        chains_closed(old(engine)@) ==> {
            &&& chains_closed(final(engine)@)
            &&& forall|id: u64|
                id != old(engine)@.next_id ==> #[trigger] node_with_id(final(engine)@, id)
                    == node_with_id(old(engine)@, id)
            &&& forall|id: u64| #[trigger]
                relationship_with_id(final(engine)@, id) == relationship_with_id(old(engine)@, id)
        },
        agreements_kept(old(engine)@, final(engine)@),
        old(engine).room() > builder.properties.list().len() ==> final(engine).room() >= old(
            engine,
        ).room() - 1 - builder.properties.list().len(),
{
    let ghost label_id = builder.label_id;
    let (mut record, properties) = builder.into_parts();
    let ghost list = properties.list();
    proof {
        lemma_storable(properties);
        law_properties_read_back(list);
    }
    let ghost v0 = engine@;
    let id: u64 = take_id(engine);
    let ghost v1 = engine@;
    proof {
        lemma_same_entities(v0, v1);
    }
    record.node_id = id;
    assert(record == NodeRecord::spec_new(id, label_id));
    let slot = match engine.put_node(&record) {
        Ok(slot) => slot,
        Err(e) => {
            return Err(e);
        },
    };
    let ghost v2 = engine@;
    proof {
        assert(v2.node(id) == record);
        engine.store.lemma_page_count();
        law_put_node_after(v1, record, slot);
        if chains_closed(v0) {
            lemma_node_stored_alone(v0, v2, id, slot);
        }
    }
    if properties.is_empty() {
        proof {
            assert(0u16 & 0x0001u16 == 0) by (bit_vector);
            assert(read_entries(list) =~= Seq::empty());
            assert(read_chain(
                v2.pages,
                SlotRef::null(),
                MAX_CHAIN_DEPTH as nat,
            ) =~= Seq::empty());
        }
        return Ok((slot, id));
    }
    let head = match store_chain(engine, id, &properties) {
        Ok(head) => head,
        Err(e) => {
            proof {
                lemma_chained(v2, id, list, SlotRef::null());
                if chains_closed(v0) {
                    lemma_node_chained(v0, v2, engine@, id, slot, list);
                    lemma_node_stored_alone(v0, engine@, id, slot);
                }
            }
            return Err(e);
        },
    };
    let ghost v3 = engine@;
    proof {
        lemma_chained(v2, id, list, SlotRef::null());
        assert(v3.has_node(id));
        if chains_closed(v0) {
            lemma_node_chained(v0, v2, v3, id, slot, list);
        }
    }
    let attached = engine.attach_property_to_node(id, head);
    proof {
        if list.len() <= MAX_CHAIN_DEPTH {
            lemma_node_reads_back(v2, v3, engine@, id, label_id, list, head);
        }
        if chains_closed(v0) {
            lemma_node_attached(v0, v3, engine@, id, slot, head);
            lemma_node_stored_alone(v0, engine@, id, slot);
        }
    }
    Ok((slot, id))
}

/// The relationship is there with its properties once they have been stored and
/// attached.
proof fn lemma_relationship_reads_back(
    v2: EngineView,
    v3: EngineView,
    v4: EngineView,
    edge: StoredEdge,
    list: Seq<Entry>,
    head: SlotRef,
)
    requires
        property_pages_ok(v2),
        list_storable(list),
        list.len() <= MAX_CHAIN_DEPTH,
        v2.has_edge(edge.record.edge_id),
        v2.edges().contains_key(v2.edge_slot(edge.record.edge_id)),
        same_edge(edge, v2.edge(edge.record.edge_id)),
        edge.record.flags == 0,
        chained(v2, edge.record.edge_id, list, SlotRef::null()).0 == Ok::<SlotRef, StorageError>(
            head,
        ),
        v3.pages == chained(v2, edge.record.edge_id, list, SlotRef::null()).1.pages,
        v3.edge_index == v2.edge_index,
        v4.properties() == v3.properties(),
        v4.edge_index == v3.edge_index,
        v4.edges() == v3.edges().insert(
            v3.edge_slot(edge.record.edge_id),
            edge_with_first_property(v3.edge(edge.record.edge_id), head),
        ),
    ensures
        relationship_with_id(v4, edge.record.edge_id) == Some(
            RelationshipView {
                edge_id: edge.record.edge_id,
                type_id: edge.record.type_id,
                source_id: edge.source_id,
                target_id: edge.target_id,
                properties: by_name(read_entries(list)),
            },
        ),
{
    let id = edge.record.edge_id;
    lemma_chained(v2, id, list, SlotRef::null());
    law_chain_roundtrip(v2, id, list);
    let slot = v2.edge_slot(id);
    let w = chained(v2, id, list, SlotRef::null()).1;
    assert(cells(v2.pages).contains_key(slot));
    assert(cells(w.pages)[slot] == cells(v2.pages)[slot]);
    assert(v3.edge(id) == v2.edge(id));
    assert(v4.edges()[slot].record.first_property == head);
    lemma_chain_same(v4.pages, v3.pages, head, MAX_CHAIN_DEPTH as nat);
    assert(0u16 & 0x0001u16 == 0) by (bit_vector);
}

/// Creates a relationship with an id of its own.
#[verifier::rlimit(60)]
fn create_relationship_engine(engine: &mut GraphStorageEngine, builder: RelationshipBuilder) -> (r:
    Result<(SlotRef, u64), StorageError>)
    requires
        old(engine).wf(),
        builder.wf(),
        storable(builder.properties@),
    ensures
        final(engine).wf(),
        ({
            let (outcome, after) = relationship_created(
                old(engine)@,
                builder,
                old(engine).edge_index.is_full() || old(engine).type_index.is_full(),
            );
            &&& r == outcome
            &&& final(engine)@ == (EngineView {
                property_index: final(engine)@.property_index,
                ..after
            })
            &&& !final(engine).property_index.is_full() ==> final(engine)@ == after
        }),
        r matches Ok(made) ==> builder.properties.list().len() <= MAX_CHAIN_DEPTH
            ==> relationship_with_id(final(engine)@, made.1) == Some(
            RelationshipView {
                edge_id: made.1,
                type_id: builder.type_id,
                source_id: builder.source_id->0,
                target_id: builder.target_id->0,
                properties: all_read_back(builder.properties@),
            },
        ),
        r matches Ok(made) ==> made.1 == old(engine)@.next_id,
        chains_closed(old(engine)@) ==> {
            &&& chains_closed(final(engine)@)
            &&& forall|id: u64| #[trigger]
                node_with_id(final(engine)@, id) == node_with_id(old(engine)@, id)
            &&& forall|id: u64|
                id != old(engine)@.next_id ==> #[trigger] relationship_with_id(final(engine)@, id)
                    == relationship_with_id(old(engine)@, id)
        },
        agreements_kept(old(engine)@, final(engine)@),
        old(engine).room() > builder.properties.list().len() ==> final(engine).room() >= old(
            engine,
        ).room() - 1 - builder.properties.list().len(),
{
    let (mut edge, properties) = match builder.into_parts() {
        Ok(parts) => parts,
        Err(_) => {
            return Err(StorageError::IoError);
        },
    };
    let ghost v0 = engine@;
    let ghost list = properties.list();
    proof {
        lemma_storable(properties);
        law_properties_read_back(list);
    }
    let id: u64 = take_id(engine);
    edge.record.edge_id = id;
    let ghost v1 = engine@;
    proof {
        lemma_same_entities(v0, v1);
    }
    assert(v1.nodes() == v0.nodes());
    edge.record.source_node = match engine.lookup_node_slot(edge.source_id) {
        Some(slot) => slot,
        None => {
            return Err(StorageError::NotFound);
        },
    };
    edge.record.target_node = match engine.lookup_node_slot(edge.target_id) {
        Some(slot) => slot,
        None => {
            return Err(StorageError::NotFound);
        },
    };
    assert(edge == StoredEdge::spec_new(
        id,
        builder.type_id,
        builder.source_id->0,
        builder.target_id->0,
        v0.node_slot(builder.source_id->0),
        v0.node_slot(builder.target_id->0),
    ));
    let slot = match engine.put_edge(&edge) {
        Ok(slot) => slot,
        Err(e) => {
            return Err(e);
        },
    };
    let ghost v2 = engine@;
    proof {
        assert(v2.edge(id) == v2.edges()[slot]);
        engine.store.lemma_page_count();
        law_put_edge_after(v1, edge, slot);
        if chains_closed(v0) {
            lemma_edge_stored_alone(v0, v2, id, slot);
        }
    }
    if properties.is_empty() {
        proof {
            assert(0u16 & 0x0001u16 == 0) by (bit_vector);
            assert(read_entries(list) =~= Seq::empty());
            assert(read_chain(v2.pages, SlotRef::null(), MAX_CHAIN_DEPTH as nat) =~= Seq::empty());
        }
        return Ok((slot, id));
    }
    let head = match store_chain(engine, id, &properties) {
        Ok(head) => head,
        Err(e) => {
            proof {
                lemma_chained(v2, id, list, SlotRef::null());
                if chains_closed(v0) {
                    lemma_edge_chained(v0, v2, engine@, id, slot, list);
                    lemma_edge_stored_alone(v0, engine@, id, slot);
                }
            }
            return Err(e);
        },
    };
    let ghost v3 = engine@;
    proof {
        lemma_chained(v2, id, list, SlotRef::null());
        assert(v3.has_edge(id));
        if chains_closed(v0) {
            lemma_edge_chained(v0, v2, v3, id, slot, list);
        }
    }
    let attached = engine.attach_property_to_edge(id, head);
    proof {
        if list.len() <= MAX_CHAIN_DEPTH {
            lemma_relationship_reads_back(v2, v3, engine@, edge, list, head);
        }
        if chains_closed(v0) {
            lemma_edge_attached(v0, v3, engine@, id, slot, head);
            lemma_edge_stored_alone(v0, engine@, id, slot);
        }
    }
    Ok((slot, id))
}

/// The node of a record.
fn read_node(engine: &GraphStorageEngine, rec: &NodeRecord) -> (r: Node)
    requires
        engine.wf(),
    ensures
        r.properties.wf(),
        r@ == node_of_record(engine@, *rec),
{
    Node {
        node_id: rec.node_id,
        label_id: rec.label_id,
        properties: read_property_chain_engine(engine, rec.first_property),
    }
}

/// The relationship of an edge.
fn read_relationship(engine: &GraphStorageEngine, edge: &StoredEdge) -> (r: Relationship)
    requires
        engine.wf(),
    ensures
        r.properties.wf(),
        r@ == relationship_of_edge(engine@, *edge),
{
    Relationship {
        edge_id: edge.record.edge_id,
        type_id: edge.record.type_id,
        source_id: edge.source_id,
        target_id: edge.target_id,
        properties: read_property_chain_engine(engine, edge.record.first_property),
    }
}

/// The node with an id, unless it was deleted.
fn get_node_engine(engine: &GraphStorageEngine, node_id: u64) -> (r: Option<Node>)
    requires
        engine.wf(),
    ensures
        match r {
            Some(node) => node_with_id(engine@, node_id) == Some(node@) && node.properties.wf(),
            None => node_with_id(engine@, node_id) is None,
        },
{
    match engine.get_node(node_id) {
        Some(rec) => {
            if rec.flags & node_flags::DELETED == 0 {
                Some(read_node(engine, &rec))
            } else {
                None
            }
        },
        None => None,
    }
}

/// The nodes of some records.
fn read_nodes(engine: &GraphStorageEngine, recs: &Vec<NodeRecord>) -> (r: Vec<Node>)
    requires
        engine.wf(),
    ensures
        node_views(r@) == nodes_of_records(engine@, recs@),
{
    let mut out: Vec<Node> = Vec::new();
    let mut i: usize = 0;
    while i < recs.len()
        invariant
            engine.wf(),
            i <= recs@.len(),
            node_views(out@) == nodes_of_records(engine@, recs@.take(i as int)),
        decreases recs@.len() - i,
    {
        let ghost before = out@;
        let node = read_node(engine, &recs[i]);
        out.push(node);
        assert(node_views(out@) =~= node_views(before).push(node@));
        assert(nodes_of_records(engine@, recs@.take(i + 1)) =~= nodes_of_records(
            engine@,
            recs@.take(i as int),
        ).push(node_of_record(engine@, recs@[i as int])));
        i += 1;
    }
    assert(recs@.take(i as int) =~= recs@);
    out
}

/// The relationships of some edges.
fn read_relationships(engine: &GraphStorageEngine, edges: &Vec<StoredEdge>) -> (r: Vec<
    Relationship,
>)
    requires
        engine.wf(),
    ensures
        relationship_views(r@) == relationships_of_edges(engine@, edges@),
{
    let mut out: Vec<Relationship> = Vec::new();
    let mut i: usize = 0;
    while i < edges.len()
        invariant
            engine.wf(),
            i <= edges@.len(),
            relationship_views(out@) == relationships_of_edges(engine@, edges@.take(i as int)),
        decreases edges@.len() - i,
    {
        let ghost before = out@;
        let rel = read_relationship(engine, &edges[i]);
        out.push(rel);
        assert(relationship_views(out@) =~= relationship_views(before).push(rel@));
        assert(relationships_of_edges(engine@, edges@.take(i + 1)) =~= relationships_of_edges(
            engine@,
            edges@.take(i as int),
        ).push(relationship_of_edge(engine@, edges@[i as int])));
        i += 1;
    }
    assert(edges@.take(i as int) =~= edges@);
    out
}

// ---------------------------------------------------------------------------
// The graph
// ---------------------------------------------------------------------------

/// A graph over an engine of its own.
pub struct Graph {
    pub engine: GraphStorageEngine,
}

impl View for Graph {
    type V = EngineView;

    open spec fn view(&self) -> EngineView {
        self.engine@
    }
}

impl Graph {
    pub open spec fn wf(&self) -> bool {
        self.engine.wf()
    }

    /// The graph over an engine.
    pub fn new(engine: GraphStorageEngine) -> (r: Self)
        ensures
            r.engine == engine,
    {
        Graph { engine }
    }

    /// The engine.
    pub fn engine(&self) -> (r: &GraphStorageEngine)
        ensures
            *r == self.engine,
    {
        &self.engine
    }

    /// The engine, to be changed.
    pub fn engine_mut(&mut self) -> (r: &mut GraphStorageEngine)
        ensures
            *r == old(self).engine,
            final(self).engine == *final(r),
    {
        &mut self.engine
    }

    /// Creates a node with an id of its own, and stores its properties.
    pub fn create_node(&mut self, builder: NodeBuilder) -> (r: Result<(SlotRef, u64), StorageError>)
        requires
            old(self).wf(),
            builder.wf(),
            storable(builder.properties@),
        ensures
            final(self).wf(),
            ({
                let (outcome, after) = node_created(
                    old(self)@,
                    builder.label_id,
                    builder.properties.list(),
                    old(self).engine.node_index.is_full() || old(
                        self,
                    ).engine.label_index.is_full(),
                );
                &&& r == outcome
                &&& final(self)@ == (EngineView {
                    property_index: final(self)@.property_index,
                    ..after
                })
                &&& !final(self).engine.property_index.is_full() ==> final(self)@ == after
            }),
            r matches Ok(made) ==> builder.properties.list().len() <= MAX_CHAIN_DEPTH
                ==> node_with_id(final(self)@, made.1) == Some(
                NodeView {
                    node_id: made.1,
                    label_id: builder.label_id,
                    properties: all_read_back(builder.properties@),
                },
            ),
            r matches Ok(made) ==> made.1 == old(self)@.next_id,
            chains_closed(old(self)@) ==> {
                &&& chains_closed(final(self)@)
                &&& forall|id: u64|
                    id != old(self)@.next_id ==> #[trigger] node_with_id(final(self)@, id)
                        == node_with_id(old(self)@, id)
                &&& forall|id: u64| #[trigger]
                    relationship_with_id(final(self)@, id) == relationship_with_id(old(self)@, id)
            },
            agreements_kept(old(self)@, final(self)@),
            old(self).engine.room() > builder.properties.list().len() ==> final(self).engine.room() >= old(
                self,
            ).engine.room() - 1 - builder.properties.list().len(),
    {
        create_node_engine(&mut self.engine, builder)
    }

    /// Creates a relationship between two nodes with an id of its own, and stores
    /// its properties.
    pub fn create_relationship(&mut self, builder: RelationshipBuilder) -> (r: Result<
        (SlotRef, u64),
        StorageError,
    >)
        requires
            old(self).wf(),
            builder.wf(),
            storable(builder.properties@),
        ensures
            final(self).wf(),
            ({
                let (outcome, after) = relationship_created(
                    old(self)@,
                    builder,
                    old(self).engine.edge_index.is_full() || old(
                        self,
                    ).engine.type_index.is_full(),
                );
                &&& r == outcome
                &&& final(self)@ == (EngineView {
                    property_index: final(self)@.property_index,
                    ..after
                })
                &&& !final(self).engine.property_index.is_full() ==> final(self)@ == after
            }),
            r matches Ok(made) ==> builder.properties.list().len() <= MAX_CHAIN_DEPTH
                ==> relationship_with_id(final(self)@, made.1) == Some(
                RelationshipView {
                    edge_id: made.1,
                    type_id: builder.type_id,
                    source_id: builder.source_id->0,
                    target_id: builder.target_id->0,
                    properties: all_read_back(builder.properties@),
                },
            ),
            r matches Ok(made) ==> made.1 == old(self)@.next_id,
            chains_closed(old(self)@) ==> {
                &&& chains_closed(final(self)@)
                &&& forall|id: u64| #[trigger]
                    node_with_id(final(self)@, id) == node_with_id(old(self)@, id)
                &&& forall|id: u64|
                    id != old(self)@.next_id ==> #[trigger] relationship_with_id(final(self)@, id)
                        == relationship_with_id(old(self)@, id)
            },
            agreements_kept(old(self)@, final(self)@),
            old(self).engine.room() > builder.properties.list().len() ==> final(self).engine.room() >= old(
                self,
            ).engine.room() - 1 - builder.properties.list().len(),
    {
        create_relationship_engine(&mut self.engine, builder)
    }

    /// The node with an id, unless it was deleted.
    pub fn get_node(&self, node_id: u64) -> (r: Option<Node>)
        requires
            self.wf(),
        ensures
            match r {
                Some(node) => node_with_id(self@, node_id) == Some(node@) && node.properties.wf(),
                None => node_with_id(self@, node_id) is None,
            },
    {
        get_node_engine(&self.engine, node_id)
    }

    /// The relationship with an id, unless it was deleted.
    pub fn get_relationship(&self, edge_id: u64) -> (r: Option<Relationship>)
        requires
            self.wf(),
        ensures
            match r {
                Some(rel) => relationship_with_id(self@, edge_id) == Some(rel@)
                    && rel.properties.wf(),
                None => relationship_with_id(self@, edge_id) is None,
            },
    {
        match self.engine.get_edge(edge_id) {
            Some(edge) => {
                if edge.record.flags & edge_flags::DELETED == 0 {
                    Some(read_relationship(&self.engine, &edge))
                } else {
                    None
                }
            },
            None => None,
        }
    }

    /// Deletes a node. Its relationships stay.
    pub fn delete_node(&mut self, node_id: u64) -> (r: Result<(), StorageError>)
        requires
            old(self).wf(),
        ensures
            final(self).wf(),
            r is Ok == old(self)@.has_node(node_id),
            r matches Err(e) ==> e == StorageError::NotFound,
            final(self)@ == (if r is Ok {
                delete_node_after(old(self)@, node_id)
            } else {
                old(self)@
            }),
            node_with_id(final(self)@, node_id) is None,
            forall|id: u64|
                id != node_id ==> #[trigger] node_with_id(final(self)@, id)
                    == node_with_id(old(self)@, id),
            forall|id: u64| #[trigger]
                relationship_with_id(final(self)@, id) == relationship_with_id(old(self)@, id),
            chains_closed(old(self)@) ==> chains_closed(final(self)@),
            agreements_kept(old(self)@, final(self)@),
            final(self).engine.room() >= old(self).engine.room(),
    {
        let ghost before = self.engine@;
        let r = self.engine.delete_node(node_id);
        proof {
            if r is Ok {
                law_delete_node_after(before, node_id);
                lemma_node_deleted_alone(before, self.engine@, node_id);
            }
        }
        r
    }

    /// Deletes a relationship.
    pub fn delete_relationship(&mut self, edge_id: u64) -> (r: Result<(), StorageError>)
        requires
            old(self).wf(),
        ensures
            final(self).wf(),
            r is Ok == (old(self)@.has_edge(edge_id) && ends_can_be_unwired(old(self)@, edge_id)),
            r matches Err(e) ==> e == StorageError::NotFound,
            final(self)@ == (if r is Ok {
                delete_edge_after(old(self)@, edge_id)
            } else {
                old(self)@
            }),
            r is Ok ==> relationship_with_id(final(self)@, edge_id) is None,
            forall|id: u64| #[trigger]
                node_with_id(final(self)@, id) == node_with_id(old(self)@, id),
            forall|id: u64|
                id != edge_id ==> #[trigger] relationship_with_id(final(self)@, id)
                    == relationship_with_id(old(self)@, id),
            chains_closed(old(self)@) ==> chains_closed(final(self)@),
            agreements_kept(old(self)@, final(self)@),
            old(self)@.lists_whole() ==> r is Ok == old(self)@.has_edge(edge_id),
            final(self).engine.room() >= old(self).engine.room(),
    {
        let ghost before = self.engine@;
        let r = self.engine.delete_edge(edge_id);
        proof {
            if r is Ok {
                law_delete_edge_after(before, edge_id);
                lemma_edge_deleted_alone(before, self.engine@, edge_id);
            }
        }
        r
    }

    /// The nodes with a label, by id.
    pub fn scan_by_label(&self, label_id: u32) -> (r: Vec<Node>)
        requires
            self.wf(),
        ensures
            exists|recs: Seq<NodeRecord>| #[trigger]
                is_node_scan(
                    self@.nodes(),
                    tails(self@.label_index, be_u64(label_id as u64)),
                    recs,
                ) && node_views(r@) == nodes_of_records(self@, recs),
            self@.indexes_agree() ==> lists_nodes(self@, Some(label_id), node_views(r@)),
    {
        let recs = self.engine.scan_nodes_by_label(label_id as u64);
        proof {
            if self@.indexes_agree() {
                law_label_scan(self@, label_id as u64, recs@);
                lemma_lists_nodes(self@, Some(label_id), recs@);
            }
        }
        read_nodes(&self.engine, &recs)
    }

    /// The relationships of a type, by id.
    pub fn scan_by_type(&self, type_id: u32) -> (r: Vec<Relationship>)
        requires
            self.wf(),
        ensures
            exists|edges: Seq<StoredEdge>| #[trigger]
                is_edge_scan(
                    self@.edges(),
                    tails(self@.type_index, be_u64(type_id as u64)),
                    edges,
                ) && relationship_views(r@) == relationships_of_edges(self@, edges),
            self@.indexes_agree() ==> lists_relationships(
                self@,
                Some(type_id),
                relationship_views(r@),
            ),
    {
        let edges = self.engine.scan_edges_by_type(type_id as u64);
        proof {
            if self@.indexes_agree() {
                law_type_scan(self@, type_id as u64, edges@);
                lemma_lists_relationships(self@, Some(type_id), edges@);
            }
        }
        read_relationships(&self.engine, &edges)
    }

    /// All nodes, by id.
    pub fn scan_all_nodes(&self) -> (r: Vec<Node>)
        requires
            self.wf(),
        ensures
            exists|all: Seq<NodeRecord>| #[trigger]
                is_node_scan(self@.nodes(), tails(self@.node_index, Seq::empty()), all)
                    && node_views(r@) == nodes_of_records(
                    self@,
                    all.filter(|n: NodeRecord| n.node_id != 0),
                ),
            self@.indexes_agree() ==> lists_nodes(self@, None, node_views(r@)),
    {
        let recs = self.engine.scan_all_nodes();
        proof {
            if self@.indexes_agree() {
                let all = choose|all: Seq<NodeRecord>| #[trigger]
                    is_node_scan(self@.nodes(), tails(self@.node_index, Seq::empty()), all)
                        && recs@ == all.filter(|n: NodeRecord| n.node_id != 0);
                law_all_nodes_scan(self@, all);
                lemma_lists_nodes(self@, None, recs@);
            }
        }
        read_nodes(&self.engine, &recs)
    }

    /// All relationships, by id.
    pub fn scan_all_relationships(&self) -> (r: Vec<Relationship>)
        requires
            self.wf(),
        ensures
            exists|all: Seq<StoredEdge>| #[trigger]
                is_edge_scan(self@.edges(), tails(self@.edge_index, Seq::empty()), all)
                    && relationship_views(r@) == relationships_of_edges(
                    self@,
                    all.filter(|e: StoredEdge| e.record.edge_id != 0),
                ),
            self@.indexes_agree() ==> lists_relationships(self@, None, relationship_views(r@)),
    {
        let edges = self.engine.scan_all_edges();
        proof {
            if self@.indexes_agree() {
                let all = choose|all: Seq<StoredEdge>| #[trigger]
                    is_edge_scan(self@.edges(), tails(self@.edge_index, Seq::empty()), all)
                        && edges@ == all.filter(|e: StoredEdge| e.record.edge_id != 0);
                law_all_edges_scan(self@, all);
                lemma_lists_relationships(self@, None, edges@);
            }
        }
        read_relationships(&self.engine, &edges)
    }

    /// Enters a value of a property into the index of values.
    pub fn insert_property_index(
        &mut self,
        entity_id: u64,
        property_id: u64,
        value_type: ValueType,
        payload: &[u8],
        slot: SlotRef,
    ) -> (r: Result<(), StorageError>)
        requires
            old(self).wf(),
        ensures
            final(self).wf(),
            r is Ok == !old(self).engine.property_index.is_full(),
            r matches Err(e) ==> e == StorageError::IndexError,
            final(self)@ == (if r is Ok {
                EngineView {
                    property_index: old(self)@.property_index.insert(
                        (property_id, index_value(value_type, payload@), entity_id as u128),
                        slot,
                    ),
                    ..old(self)@
                }
            } else {
                old(self)@
            }),
            agreements_kept(old(self)@, final(self)@),
            old(self).engine.room() > 0 ==> final(self).engine.room() >= old(self).engine.room() - 1,
    {
        self.engine.insert_property_index(
            entity_id as u128,
            property_id,
            value_type,
            payload,
            slot,
        )
    }

    /// Builds an adjacency snapshot and makes it the current one.
    pub fn freeze_adjacency(&mut self) -> (r: Arc<CsrAdjacency>)
        requires
            old(self).wf(),
            snapshot_max(old(self)@) <= usize::MAX - 2,
        ensures
            final(self).wf(),
            r.wf(),
            r.holds(rows_for(listed_edges(old(self)@.pages, old(self)@.edge_pages))),
            r.max_node_id == snapshot_max(old(self)@),
            final(self)@ == (EngineView { csr: Some(r), ..old(self)@ }),
            agreements_kept(old(self)@, final(self)@),
            final(self).engine.room() == old(self).engine.room(),
    {
        self.engine.freeze_adjacency()
    }

    /// Drops the adjacency snapshot.
    pub fn thaw_adjacency(&mut self)
        requires
            old(self).wf(),
        ensures
            final(self).wf(),
            final(self)@ == (EngineView { csr: None, ..old(self)@ }),
            agreements_kept(old(self)@, final(self)@),
            final(self).engine.room() == old(self).engine.room(),
    {
        self.engine.thaw_adjacency();
    }

    /// The hops from a node: target, edge id and type of every edge that leaves it.
    pub fn scan_adjacency(&self, node_id: u64) -> (r: Vec<(u64, u64, u32)>)
        requires
            self.wf(),
        ensures
            r@ == hops_from(self@, node_id),
    {
        self.engine.scan_adjacency(node_id)
    }

    /// Takes the pages that hold deleted records only out of use, and returns the
    /// number of deleted records that were found.
    pub fn compact(&mut self) -> (r: usize)
        requires
            old(self).wf(),
        ensures
            final(self).wf(),
            r == reclaimable(old(self)@),
            final(self)@ == compact_after(old(self)@),
            agreements_kept(old(self)@, final(self)@),
            final(self).engine.room() == old(self).engine.room(),
    {
        self.engine.compact()
    }

    /// The nodes with one value of a property, by id.
    pub fn scan_nodes_by_property(
        &self,
        property_id: u64,
        value_type: ValueType,
        payload: &[u8],
    ) -> (r: Vec<Node>)
        requires
            self.wf(),
        ensures
            exists|found: Seq<(u128, SlotRef)>| #[trigger]
                lists_ids(
                    holders(self@.property_index, property_id, index_value(value_type, payload@)),
                    found,
                ) && node_views(r@) == nodes_with_ids(self@, found),
            forall|node: NodeView| #[trigger]
                node_views(r@).contains(node) <==> exists|e: u128| #[trigger]
                    self@.property_index.contains_key(
                        (property_id, index_value(value_type, payload@), e),
                    ) && node_with_id(self@, (e % 0x1_0000_0000_0000_0000) as u64) == Some(node),
            (forall|e: u128| #[trigger]
                self@.property_index.contains_key(
                    (property_id, index_value(value_type, payload@), e),
                ) ==> e <= u64::MAX) ==> forall|i: int, j: int|
                0 <= i < j < r@.len() ==> (#[trigger] r@[i]).node_id < (#[trigger] r@[j]).node_id,
    {
        let found = self.engine.scan_property_index(property_id, value_type, payload);
        let mut out: Vec<Node> = Vec::new();
        let mut i: usize = 0;
        assert(node_views(out@) =~= nodes_with_ids(self@, found@.take(0)));
        while i < found.len()
            invariant
                self.wf(),
                i <= found@.len(),
                node_views(out@) == nodes_with_ids(self@, found@.take(i as int)),
            decreases found@.len() - i,
        {
            let node_id: u64 = (found[i].0 % 0x1_0000_0000_0000_0000) as u64;
            assert(found@.take(i + 1).drop_last() =~= found@.take(i as int));
            let ghost before = out@;
            if let Some(node) = get_node_engine(&self.engine, node_id) {
                out.push(node);
                assert(node_views(out@) =~= node_views(before).push(node@));
            }
            i += 1;
        }
        assert(found@.take(i as int) =~= found@);
        proof {
            let value = index_value(value_type, payload@);
            let entities = holders(self@.property_index, property_id, value);
            let all = node_views(out@);
            assert forall|node: NodeView| #[trigger]
                all.contains(node) <==> exists|e: u128| #[trigger]
                    self@.property_index.contains_key((property_id, value, e)) && node_with_id(
                        self@,
                        (e % 0x1_0000_0000_0000_0000) as u64,
                    ) == Some(node) by {
                law_value_scan(self@, entities, found@, node);
                if exists|e: u128| #[trigger]
                    self@.property_index.contains_key((property_id, value, e)) && node_with_id(
                        self@,
                        (e % 0x1_0000_0000_0000_0000) as u64,
                    ) == Some(node) {
                    let e = choose|e: u128| #[trigger]
                        self@.property_index.contains_key((property_id, value, e)) && node_with_id(
                            self@,
                            (e % 0x1_0000_0000_0000_0000) as u64,
                        ) == Some(node);
                    assert(entities.contains_key(e));
                }
                if all.contains(node) {
                    let e = choose|e: u128| #[trigger]
                        entities.contains_key(e) && node_with_id(self@, entity_node_id(e)) == Some(
                            node,
                        );
                    assert(self@.property_index.contains_key((property_id, value, e)));
                }
            }
            if forall|e: u128| #[trigger]
                self@.property_index.contains_key((property_id, value, e)) ==> e <= u64::MAX {
                assert forall|e: u128| #[trigger] entities.contains_key(e) implies e
                    <= u64::MAX by {
                    assert(self@.property_index.contains_key((property_id, value, e)));
                }
                law_value_scan_rises(self@, entities, found@);
                assert forall|i: int, j: int| 0 <= i < j < out@.len() implies (
                #[trigger] out@[i]).node_id < (#[trigger] out@[j]).node_id by {
                    assert(all[i].node_id < all[j].node_id);
                }
            }
        }
        out
    }
}

/// A graph over the engine of someone else.
pub struct GraphMut<'a> {
    pub engine: &'a mut GraphStorageEngine,
}

impl Graph {
    /// The graph over an engine that is only borrowed.
    pub fn new_ref(engine: &mut GraphStorageEngine) -> (r: GraphMut<'_>)
        ensures
            *r.engine == *old(engine),
            *final(engine) == *final(r.engine),
    {
        GraphMut { engine }
    }
}

impl<'a> GraphMut<'a> {
    /// What the engine holds.
    pub open spec fn current(&self) -> EngineView {
        self.engine@
    }

    /// Creates a node with an id of its own, and stores its properties.
    pub fn create_node(&mut self, builder: NodeBuilder) -> (r: Result<(SlotRef, u64), StorageError>)
        requires
            old(self).engine.wf(),
            builder.wf(),
            storable(builder.properties@),
        ensures
            final(self).engine.wf(),
            *final(final(self).engine) == *final(old(self).engine),
            ({
                let (outcome, after) = node_created(
                    old(self).engine@,
                    builder.label_id,
                    builder.properties.list(),
                    old(self).engine.node_index.is_full() || old(
                        self,
                    ).engine.label_index.is_full(),
                );
                &&& r == outcome
                &&& final(self).engine@ == (EngineView {
                    property_index: final(self).engine@.property_index,
                    ..after
                })
                &&& !final(self).engine.property_index.is_full() ==> final(self).engine@ == after
            }),
            r matches Ok(made) ==> builder.properties.list().len() <= MAX_CHAIN_DEPTH
                ==> node_with_id(final(self).engine@, made.1) == Some(
                NodeView {
                    node_id: made.1,
                    label_id: builder.label_id,
                    properties: all_read_back(builder.properties@),
                },
            ),
            r matches Ok(made) ==> made.1 == old(self).engine@.next_id,
            chains_closed(old(self).engine@) ==> {
                &&& chains_closed(final(self).engine@)
                &&& forall|id: u64|
                    id != old(self).engine@.next_id ==> #[trigger] node_with_id(final(self).engine@, id)
                        == node_with_id(old(self).engine@, id)
                &&& forall|id: u64| #[trigger]
                    relationship_with_id(final(self).engine@, id) == relationship_with_id(old(self).engine@, id)
            },
            agreements_kept(old(self).engine@, final(self).engine@),
            old(self).engine.room() > builder.properties.list().len() ==> final(self).engine.room() >= old(
                self,
            ).engine.room() - 1 - builder.properties.list().len(),
    {
        create_node_engine(self.engine, builder)
    }

    /// Creates a relationship between two nodes with an id of its own, and stores
    /// its properties.
    pub fn create_relationship(&mut self, builder: RelationshipBuilder) -> (r: Result<
        (SlotRef, u64),
        StorageError,
    >)
        requires
            old(self).engine.wf(),
            builder.wf(),
            storable(builder.properties@),
        ensures
            final(self).engine.wf(),
            *final(final(self).engine) == *final(old(self).engine),
            ({
                let (outcome, after) = relationship_created(
                    old(self).engine@,
                    builder,
                    old(self).engine.edge_index.is_full() || old(
                        self,
                    ).engine.type_index.is_full(),
                );
                &&& r == outcome
                &&& final(self).engine@ == (EngineView {
                    property_index: final(self).engine@.property_index,
                    ..after
                })
                &&& !final(self).engine.property_index.is_full() ==> final(self).engine@ == after
            }),
            r matches Ok(made) ==> builder.properties.list().len() <= MAX_CHAIN_DEPTH
                ==> relationship_with_id(final(self).engine@, made.1) == Some(
                RelationshipView {
                    edge_id: made.1,
                    type_id: builder.type_id,
                    source_id: builder.source_id->0,
                    target_id: builder.target_id->0,
                    properties: all_read_back(builder.properties@),
                },
            ),
            r matches Ok(made) ==> made.1 == old(self).engine@.next_id,
            chains_closed(old(self).engine@) ==> {
                &&& chains_closed(final(self).engine@)
                &&& forall|id: u64| #[trigger]
                    node_with_id(final(self).engine@, id) == node_with_id(old(self).engine@, id)
                &&& forall|id: u64|
                    id != old(self).engine@.next_id ==> #[trigger] relationship_with_id(final(self).engine@, id)
                        == relationship_with_id(old(self).engine@, id)
            },
            agreements_kept(old(self).engine@, final(self).engine@),
            old(self).engine.room() > builder.properties.list().len() ==> final(self).engine.room() >= old(
                self,
            ).engine.room() - 1 - builder.properties.list().len(),
    {
        create_relationship_engine(self.engine, builder)
    }

    /// Deletes a node. Its relationships stay.
    pub fn delete_node(&mut self, node_id: u64) -> (r: Result<(), StorageError>)
        requires
            old(self).engine.wf(),
        ensures
            final(self).engine.wf(),
            *final(final(self).engine) == *final(old(self).engine),
            r is Ok == old(self).engine@.has_node(node_id),
            r matches Err(e) ==> e == StorageError::NotFound,
            final(self).engine@ == (if r is Ok {
                delete_node_after(old(self).engine@, node_id)
            } else {
                old(self).engine@
            }),
            node_with_id(final(self).engine@, node_id) is None,
            forall|id: u64|
                id != node_id ==> #[trigger] node_with_id(final(self).engine@, id)
                    == node_with_id(old(self).engine@, id),
            forall|id: u64| #[trigger]
                relationship_with_id(final(self).engine@, id) == relationship_with_id(old(self).engine@, id),
            chains_closed(old(self).engine@) ==> chains_closed(final(self).engine@),
            agreements_kept(old(self).engine@, final(self).engine@),
            final(self).engine.room() >= old(self).engine.room(),
    {
        let ghost before = self.engine@;
        let r = self.engine.delete_node(node_id);
        proof {
            if r is Ok {
                law_delete_node_after(before, node_id);
                lemma_node_deleted_alone(before, self.engine@, node_id);
            }
        }
        r
    }

    /// Deletes a relationship.
    pub fn delete_edge(&mut self, edge_id: u64) -> (r: Result<(), StorageError>)
        requires
            old(self).engine.wf(),
        ensures
            final(self).engine.wf(),
            *final(final(self).engine) == *final(old(self).engine),
            r is Ok == (old(self).engine@.has_edge(edge_id) && ends_can_be_unwired(
                old(self).engine@,
                edge_id,
            )),
            r matches Err(e) ==> e == StorageError::NotFound,
            final(self).engine@ == (if r is Ok {
                delete_edge_after(old(self).engine@, edge_id)
            } else {
                old(self).engine@
            }),
            r is Ok ==> relationship_with_id(final(self).engine@, edge_id) is None,
            forall|id: u64| #[trigger]
                node_with_id(final(self).engine@, id) == node_with_id(old(self).engine@, id),
            forall|id: u64|
                id != edge_id ==> #[trigger] relationship_with_id(final(self).engine@, id)
                    == relationship_with_id(old(self).engine@, id),
            chains_closed(old(self).engine@) ==> chains_closed(final(self).engine@),
            old(self).engine@.lists_whole() ==> r is Ok == old(self).engine@.has_edge(edge_id),
            agreements_kept(old(self).engine@, final(self).engine@),
            final(self).engine.room() >= old(self).engine.room(),
    {
        let ghost before = self.engine@;
        let r = self.engine.delete_edge(edge_id);
        proof {
            if r is Ok {
                law_delete_edge_after(before, edge_id);
                lemma_edge_deleted_alone(before, self.engine@, edge_id);
            }
        }
        r
    }

    /// The node with an id, unless it was deleted.
    pub fn get_node(&self, node_id: u64) -> (r: Option<Node>)
        requires
            self.engine.wf(),
        ensures
            match r {
                Some(node) => node_with_id(self.current(), node_id) == Some(node@)
                    && node.properties.wf(),
                None => node_with_id(self.current(), node_id) is None,
            },
    {
        get_node_engine(&*self.engine, node_id)
    }
}

// ---------------------------------------------------------------------------
// Laws
// ---------------------------------------------------------------------------

/// Two nodes that are created one after the other get different ids.
pub proof fn law_created_ids_differ(
    v: EngineView,
    label_id: u32,
    list: Seq<Entry>,
    full: bool,
    label_id2: u32,
    list2: Seq<Entry>,
    full2: bool,
)
    ensures
        ({
            let (first, w) = node_created(v, label_id, list, full);
            let (second, _) = node_created(w, label_id2, list2, full2);
            first is Ok && second is Ok ==> first->Ok_0.1 != second->Ok_0.1
        }),
{
    let (first, w) = node_created(v, label_id, list, full);
    if first is Ok && list.len() > 0 {
        let v1 = EngineView { next_id: id_after(v.next_id), ..v };
        let node = NodeRecord::spec_new(v.next_id, label_id);
        let v2 = put_node_after(v1, node, put_node_result(v1, node, full)->Ok_0);
        lemma_chained_next_id(v2, v.next_id, list, SlotRef::null());
    }
}

/// A restart from the pages of an engine shows the same nodes and relationships,
/// with the same properties.
pub proof fn law_restart_keeps_entities(v: EngineView, id: u64)
    requires
        heap_pages(v.pages),
        v.indexes_lead(),
        v.all_indexed(),
    ensures
        ({
            let w = rebuild_after(fresh_view(v.pages));
            &&& node_with_id(w, id) == node_with_id(v, id)
            &&& relationship_with_id(w, id) == relationship_with_id(v, id)
        }),
{
    law_restart_keeps_graph(v, id);
}

/// A restart from the pages of an engine keeps the list of all nodes and that of every
/// label.
pub proof fn law_restart_keeps_node_lists(
    v: EngineView,
    label_id: Option<u32>,
    before: Seq<NodeView>,
    after: Seq<NodeView>,
)
    requires
        heap_pages(v.pages),
        v.indexes_lead(),
        v.all_indexed(),
        lists_nodes(v, label_id, before),
        lists_nodes(rebuild_after(fresh_view(v.pages)), label_id, after),
    ensures
        after == before,
{
    assert forall|node: NodeView| #[trigger] before.contains(node) == after.contains(node) by {
        law_restart_keeps_entities(v, node.node_id);
    }
    lemma_same_list(before, after, |n: NodeView| n.node_id);
}

/// A restart from the pages of an engine keeps the list of all relationships and that of
/// every type.
pub proof fn law_restart_keeps_relationship_lists(
    v: EngineView,
    type_id: Option<u32>,
    before: Seq<RelationshipView>,
    after: Seq<RelationshipView>,
)
    requires
        heap_pages(v.pages),
        v.indexes_lead(),
        v.all_indexed(),
        lists_relationships(v, type_id, before),
        lists_relationships(rebuild_after(fresh_view(v.pages)), type_id, after),
    ensures
        after == before,
{
    assert forall|rel: RelationshipView| #[trigger] before.contains(rel) == after.contains(
        rel,
    ) by {
        law_restart_keeps_entities(v, rel.edge_id);
    }
    lemma_same_list(before, after, |r: RelationshipView| r.edge_id);
}

/// Lists by rising id with the same items are the same.
proof fn lemma_same_list<A>(a: Seq<A>, b: Seq<A>, id: spec_fn(A) -> u64)
    requires
        forall|x: A| #[trigger] a.contains(x) == b.contains(x),
        forall|i: int, j: int| 0 <= i < j < a.len() ==> id(#[trigger] a[i]) < id(#[trigger] a[j]),
        forall|i: int, j: int| 0 <= i < j < b.len() ==> id(#[trigger] b[i]) < id(#[trigger] b[j]),
    ensures
        a == b,
    decreases a.len(),
{
    if a.len() == 0 {
        if b.len() > 0 {
            assert(b.contains(b[0]));
            assert(a.contains(b[0]));
        }
        assert(a =~= b);
    } else {
        let x = a.last();
        assert(a[a.len() - 1] == x);
        assert(a.contains(x));
        assert(b.contains(x));
        let y = b.last();
        assert(b[b.len() - 1] == y);
        assert(b.contains(y));
        assert(a.contains(y));
        assert(x == y) by {
            let j = b.index_of(x);
            let i = a.index_of(y);
            if j < b.len() - 1 {
                assert(id(b[j]) < id(b[b.len() - 1]));
                if i < a.len() - 1 {
                    assert(id(a[i]) < id(a[a.len() - 1]));
                }
            }
        }
        let ra = a.drop_last();
        let rb = b.drop_last();
        assert forall|z: A| #[trigger] ra.contains(z) == rb.contains(z) by {
            if ra.contains(z) {
                let k = ra.index_of(z);
                assert(a[k] == z && id(a[k]) < id(a[a.len() - 1]));
                assert(a.contains(z));
                let m = b.index_of(z);
                assert(rb[m] == z);
            }
            if rb.contains(z) {
                let k = rb.index_of(z);
                assert(b[k] == z && id(b[k]) < id(b[b.len() - 1]));
                assert(b.contains(z));
                assert(a.contains(z));
                let m = a.index_of(z);
                assert(ra[m] == z);
            }
        }
        assert forall|i: int, j: int| 0 <= i < j < ra.len() implies id(#[trigger] ra[i]) < id(
            #[trigger] ra[j],
        ) by {
            assert(ra[i] == a[i] && ra[j] == a[j]);
        }
        assert forall|i: int, j: int| 0 <= i < j < rb.len() implies id(#[trigger] rb[i]) < id(
            #[trigger] rb[j],
        ) by {
            assert(rb[i] == b[i] && rb[j] == b[j]);
        }
        lemma_same_list(ra, rb, id);
        assert(a =~= ra.push(x) && b =~= rb.push(y));
    }
}

} // verus!
