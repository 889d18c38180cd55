//! What a storage engine does.

use vstd::prelude::*;

use crate::graph::edges::delete_edge_after;
use crate::graph::edges::ends_can_be_unwired;
use crate::graph::edges::put_edge_after;
use crate::graph::edges::put_edge_result;
use crate::graph::engine::attach_to_edge_after;
use crate::graph::engine::attach_to_node_after;
use crate::graph::engine::delete_node_after;
use crate::graph::engine::property_at;
use crate::graph::engine::put_node_after;
use crate::graph::engine::put_node_result;
use crate::graph::engine::put_property_after;
use crate::graph::engine::EngineView;
use crate::graph::engine::GraphStorageEngine;
use crate::graph::record::NodeRecord;
use crate::graph::record::SlotRef;
use crate::graph::stored::property_bytes;
use crate::graph::stored::property_fits;
use crate::graph::stored::StoredEdge;
use crate::graph::stored::StoredProperty;
use crate::storage::error::StorageError;
use crate::storage::heap::insert_outcome;
use crate::storage::heap::RecordKind;

verus! {

/// The operations on nodes, edges and properties.
pub trait StorageEngine {
    /// What is stored.
    spec fn state(&self) -> EngineView;

    /// Is the engine well-formed?
    spec fn valid(&self) -> bool;

    /// Is there no room for another node in an index?
    spec fn nodes_full(&self) -> bool;

    /// Is there no room for another edge in an index?
    spec fn edges_full(&self) -> bool;

    /// For how many insertions is there room in the indexes at least?
    spec fn spare(&self) -> int;

    /// With room left, nodes and edges are taken.
    proof fn lemma_spare(&self)
        requires
            self.spare() > 0,
        ensures
            !self.nodes_full(),
            !self.edges_full(),
    ;

    /// Inserts a node. Returns its slot.
    fn put_node(&mut self, node: &NodeRecord) -> (r: Result<SlotRef, StorageError>)
        requires
            old(self).valid(),
        ensures
            final(self).valid(),
            r == put_node_result(old(self).state(), *node, old(self).nodes_full()),
            final(self).state() == (match r {
                Ok(slot) => put_node_after(old(self).state(), *node, slot),
                Err(_) => old(self).state(),
            }),
            old(self).spare() > 0 ==> final(self).spare() >= old(self).spare() - 1,
    ;

    /// The node with this id, a deleted one among them.
    fn get_node(&self, node_id: u64) -> (r: Option<NodeRecord>)
        requires
            self.valid(),
        ensures
            match r {
                Some(node) => self.state().has_node(node_id) && node == self.state().node(node_id),
                None => !self.state().has_node(node_id),
            },
    ;

    /// Deletes a node. Its record stays, marked as deleted.
    fn delete_node(&mut self, node_id: u64) -> (r: Result<(), StorageError>)
        requires
            old(self).valid(),
        ensures
            final(self).valid(),
            r is Ok == old(self).state().has_node(node_id),
            r matches Err(e) ==> e == StorageError::NotFound,
            final(self).state() == (if r is Ok {
                delete_node_after(old(self).state(), node_id)
            } else {
                old(self).state()
            }),
            final(self).spare() >= old(self).spare(),
    ;

    /// Inserts an edge. Returns its slot.
    fn put_edge(&mut self, edge: &StoredEdge) -> (r: Result<SlotRef, StorageError>)
        requires
            old(self).valid(),
        ensures
            final(self).valid(),
            r == put_edge_result(old(self).state(), *edge, old(self).edges_full()),
            final(self).state() == (match r {
                Ok(slot) => put_edge_after(old(self).state(), *edge, slot),
                Err(_) => old(self).state(),
            }),
            old(self).spare() > 0 ==> final(self).spare() >= old(self).spare() - 1,
    ;

    /// The edge with this id, a deleted one among them.
    fn get_edge(&self, edge_id: u64) -> (r: Option<StoredEdge>)
        requires
            self.valid(),
        ensures
            match r {
                Some(edge) => self.state().has_edge(edge_id) && edge == self.state().edge(edge_id),
                None => !self.state().has_edge(edge_id),
            },
    ;

    /// Deletes an edge. Its record stays, marked as deleted.
    fn delete_edge(&mut self, edge_id: u64) -> (r: Result<(), StorageError>)
        requires
            old(self).valid(),
        ensures
            final(self).valid(),
            r is Ok == (old(self).state().has_edge(edge_id) && ends_can_be_unwired(
                old(self).state(),
                edge_id,
            )),
            r matches Err(e) ==> e == StorageError::NotFound,
            final(self).state() == (if r is Ok {
                delete_edge_after(old(self).state(), edge_id)
            } else {
                old(self).state()
            }),
            final(self).spare() >= old(self).spare(),
    ;

    /// Inserts a property. Returns its slot.
    fn put_property(&mut self, prop: &StoredProperty) -> (r: Result<SlotRef, StorageError>)
        requires
            old(self).valid(),
            prop.wf(),
            property_fits(prop@),
        ensures
            final(self).valid(),
            r == insert_outcome(
                old(self).state().pages,
                RecordKind::Property,
                property_bytes(prop@),
                old(self).state().property_pages,
            ).0,
            final(self).state() == (match r {
                Ok(slot) => put_property_after(old(self).state(), prop@, slot),
                Err(_) => old(self).state(),
            }),
            final(self).spare() >= old(self).spare(),
    ;

    /// The property at a slot.
    fn get_property(&self, slot: SlotRef) -> (r: Option<StoredProperty>)
        requires
            self.valid(),
        ensures
            match r {
                Some(prop) => property_at(self.state().pages, slot) == Some(prop@) && prop.wf(),
                None => property_at(self.state().pages, slot) is None,
            },
    ;

    /// Makes a property the first one of a node.
    fn attach_property_to_node(&mut self, node_id: u64, prop_slot: SlotRef) -> (r: Result<
        (),
        StorageError,
    >)
        requires
            old(self).valid(),
        ensures
            final(self).valid(),
            r is Ok == old(self).state().has_node(node_id),
            r matches Err(e) ==> e == StorageError::NotFound,
            final(self).state() == (if r is Ok {
                attach_to_node_after(old(self).state(), node_id, prop_slot)
            } else {
                old(self).state()
            }),
            final(self).spare() >= old(self).spare(),
    ;

    /// Makes a property the first one of an edge.
    fn attach_property_to_edge(&mut self, edge_id: u64, prop_slot: SlotRef) -> (r: Result<
        (),
        StorageError,
    >)
        requires
            old(self).valid(),
        ensures
            final(self).valid(),
            r is Ok == old(self).state().has_edge(edge_id),
            r matches Err(e) ==> e == StorageError::NotFound,
            final(self).state() == (if r is Ok {
                attach_to_edge_after(old(self).state(), edge_id, prop_slot)
            } else {
                old(self).state()
            }),
            final(self).spare() >= old(self).spare(),
    ;
}

impl StorageEngine for GraphStorageEngine {
    open spec fn state(&self) -> EngineView {
        self@
    }

    open spec fn valid(&self) -> bool {
        self.wf()
    }

    open spec fn nodes_full(&self) -> bool {
        self.node_index.is_full() || self.label_index.is_full()
    }

    open spec fn edges_full(&self) -> bool {
        self.edge_index.is_full() || self.type_index.is_full()
    }

    open spec fn spare(&self) -> int {
        self.room()
    }

    proof fn lemma_spare(&self) {
        self.lemma_room();
    }

    fn put_node(&mut self, node: &NodeRecord) -> (r: Result<SlotRef, StorageError>) {
        GraphStorageEngine::put_node(self, node)
    }

    fn get_node(&self, node_id: u64) -> (r: Option<NodeRecord>) {
        GraphStorageEngine::get_node(self, node_id)
    }

    fn delete_node(&mut self, node_id: u64) -> (r: Result<(), StorageError>) {
        GraphStorageEngine::delete_node(self, node_id)
    }

    fn put_edge(&mut self, edge: &StoredEdge) -> (r: Result<SlotRef, StorageError>) {
        GraphStorageEngine::put_edge(self, edge)
    }

    fn get_edge(&self, edge_id: u64) -> (r: Option<StoredEdge>) {
        GraphStorageEngine::get_edge(self, edge_id)
    }

    fn delete_edge(&mut self, edge_id: u64) -> (r: Result<(), StorageError>) {
        GraphStorageEngine::delete_edge(self, edge_id)
    }

    fn put_property(&mut self, prop: &StoredProperty) -> (r: Result<SlotRef, StorageError>) {
        GraphStorageEngine::put_property(self, prop)
    }

    fn get_property(&self, slot: SlotRef) -> (r: Option<StoredProperty>) {
        GraphStorageEngine::get_property(self, slot)
    }

    fn attach_property_to_node(&mut self, node_id: u64, prop_slot: SlotRef) -> (r: Result<
        (),
        StorageError,
    >) {
        GraphStorageEngine::attach_property_to_node(self, node_id, prop_slot)
    }

    fn attach_property_to_edge(&mut self, edge_id: u64, prop_slot: SlotRef) -> (r: Result<
        (),
        StorageError,
    >) {
        GraphStorageEngine::attach_property_to_edge(self, edge_id, prop_slot)
    }
}

} // verus!
