use rgraph::graph::builder::{NodeBuilder, RelationshipBuilder};
use rgraph::graph::engine::GraphStorageEngine;
use rgraph::graph::float::OrderedF64;
use rgraph::graph::graph::Graph;
use rgraph::graph::property::Property;
use rgraph::graph::record::{NodeRecord, SlotRef, ValueType};
use rgraph::graph::stored::StoredEdge;
use rgraph::graph::value_form::decode_property_value;
use rgraph::storage::error::StorageError;

fn temp_graph() -> Graph {
    Graph::new(GraphStorageEngine::init())
}

#[test]
fn create_and_get_node() {
    let mut graph = temp_graph();
    let builder = NodeBuilder::new().label(42);
    let (slot, node_id) = graph.create_node(builder).unwrap();
    assert!(!slot.is_null());
    assert!(node_id > 0);

    let node = graph.get_node(node_id);
    assert!(node.is_some());
    let node = node.unwrap();
    assert_eq!(node.node_id, node_id);
    assert_eq!(node.label_id, 42);
}

#[test]
fn create_and_get_relationship() {
    let mut graph = temp_graph();

    // Need source and target nodes first.
    let src_builder = NodeBuilder::new().label(1);
    let tgt_builder = NodeBuilder::new().label(1);
    let (_, src_id) = graph.create_node(src_builder).unwrap();
    let (_, tgt_id) = graph.create_node(tgt_builder).unwrap();

    let rel = RelationshipBuilder::new()
        .from(src_id)
        .to(tgt_id)
        .type_id(7);
    let (slot, edge_id) = graph.create_relationship(rel).unwrap();
    assert!(!slot.is_null());
    assert!(edge_id > 0);

    let edge = graph.get_relationship(edge_id);
    assert!(edge.is_some());
    let edge = edge.unwrap();
    assert_eq!(edge.edge_id, edge_id);
    assert_eq!(edge.type_id, 7);
    assert_eq!(edge.source_id, src_id);
    assert_eq!(edge.target_id, tgt_id);
}

#[test]
fn graph_get_missing_node_returns_none() {
    let graph = temp_graph();
    let node = graph.get_node(999);
    assert!(node.is_none());
}

#[test]
fn get_missing_relationship_returns_none() {
    let graph = temp_graph();
    let rel = graph.get_relationship(999);
    assert!(rel.is_none());
}

#[test]
fn graph_delete_node_leaves_tombstone() {
    let mut graph = temp_graph();
    let builder = NodeBuilder::new().label(42);
    let (_, node_id) = graph.create_node(builder).unwrap();
    graph.delete_node(node_id).unwrap();

    let node = graph.get_node(node_id);
    assert!(node.is_none(), "deleted node should not be visible");
}

#[test]
fn delete_relationship_leaves_tombstone() {
    let mut graph = temp_graph();
    let src_builder = NodeBuilder::new().label(1);
    let tgt_builder = NodeBuilder::new().label(1);
    let (_, src_id) = graph.create_node(src_builder).unwrap();
    let (_, tgt_id) = graph.create_node(tgt_builder).unwrap();

    let rel = RelationshipBuilder::new()
        .from(src_id)
        .to(tgt_id)
        .type_id(7);
    let (_, edge_id) = graph.create_relationship(rel).unwrap();
    graph.delete_relationship(edge_id).unwrap();

    let edge = graph.get_relationship(edge_id);
    assert!(edge.is_none(), "deleted relationship should not be visible");
}

#[test]
fn node_builder_with_properties_roundtrip() {
    let mut graph = temp_graph();
    let builder = NodeBuilder::new()
        .label(42)
        .property("name", "Alice".into())
        .property("age", 30i64.into());
    let (slot, node_id) = graph.create_node(builder).unwrap();
    assert!(!slot.is_null());

    let node = graph.get_node(node_id).unwrap();
    assert_eq!(node.node_id, node_id);
    assert_eq!(node.label_id, 42);
    // Properties are persisted and returned from disk.
    assert_eq!(node.properties.get("name"), Some(&Property::String("Alice".to_string())));
    assert_eq!(node.properties.get("age"), Some(&Property::Integer(30)));
}

#[test]
fn scan_nodes_by_label_returns_matching_nodes() {
    let mut graph = temp_graph();
    let (_, id1) = graph.create_node(NodeBuilder::new().label(10)).unwrap();
    let (_, id2) = graph.create_node(NodeBuilder::new().label(20)).unwrap();
    let (_, id3) = graph.create_node(NodeBuilder::new().label(10)).unwrap();

    let nodes = graph.scan_by_label(10);
    assert_eq!(nodes.len(), 2);
    let ids: Vec<u64> = nodes.iter().map(|n| n.node_id).collect();
    assert!(ids.contains(&id1));
    assert!(ids.contains(&id3));
}

#[test]
fn scan_nodes_by_label_excludes_deleted() {
    let mut graph = temp_graph();
    let (_, id1) = graph.create_node(NodeBuilder::new().label(10)).unwrap();
    let (_, id2) = graph.create_node(NodeBuilder::new().label(10)).unwrap();
    graph.delete_node(id1).unwrap();

    let nodes = graph.scan_by_label(10);
    assert_eq!(nodes.len(), 1);
    assert_eq!(nodes[0].node_id, id2);
}

#[test]
fn scan_relationships_by_type_returns_matching_edges() {
    let mut graph = temp_graph();
    let (_, src_id) = graph.create_node(NodeBuilder::new().label(1)).unwrap();
    let (_, tgt_id) = graph.create_node(NodeBuilder::new().label(1)).unwrap();

    let (_, eid1) = graph.create_relationship(
        RelationshipBuilder::new().from(src_id).to(tgt_id).type_id(5),
    ).unwrap();
    let (_, eid2) = graph.create_relationship(
        RelationshipBuilder::new().from(tgt_id).to(src_id).type_id(7),
    ).unwrap();
    let (_, eid3) = graph.create_relationship(
        RelationshipBuilder::new().from(src_id).to(tgt_id).type_id(5),
    ).unwrap();

    let rels = graph.scan_by_type(5);
    assert_eq!(rels.len(), 2);
    let ids: Vec<u64> = rels.iter().map(|r| r.edge_id).collect();
    assert!(ids.contains(&eid1));
    assert!(ids.contains(&eid3));
}

#[test]
fn scan_relationships_by_type_excludes_deleted() {
    let mut graph = temp_graph();
    let (_, src_id) = graph.create_node(NodeBuilder::new().label(1)).unwrap();
    let (_, tgt_id) = graph.create_node(NodeBuilder::new().label(1)).unwrap();

    let (_, eid1) = graph.create_relationship(
        RelationshipBuilder::new().from(src_id).to(tgt_id).type_id(5),
    ).unwrap();
    let (_, eid2) = graph.create_relationship(
        RelationshipBuilder::new().from(tgt_id).to(src_id).type_id(5),
    ).unwrap();
    graph.delete_relationship(eid1).unwrap();

    let rels = graph.scan_by_type(5);
    assert_eq!(rels.len(), 1);
    assert_eq!(rels[0].edge_id, eid2);
}

#[test]
fn scan_nodes_by_property_returns_matching_nodes() {
    let mut graph = temp_graph();
    let (_, id1) = graph.create_node(NodeBuilder::new().label(10)).unwrap();
    let (_, id2) = graph.create_node(NodeBuilder::new().label(10)).unwrap();
    let (_, id3) = graph.create_node(NodeBuilder::new().label(10)).unwrap();

    // Manually insert property index entries.
    let slot = SlotRef::new(1, 0);
    graph.insert_property_index(id1, 42, ValueType::Int64, &10i64.to_be_bytes(), slot).unwrap();
    graph.insert_property_index(id2, 42, ValueType::Int64, &20i64.to_be_bytes(), slot).unwrap();
    graph.insert_property_index(id3, 42, ValueType::Int64, &10i64.to_be_bytes(), slot).unwrap();

    let nodes = graph.scan_nodes_by_property(42, ValueType::Int64, &10i64.to_be_bytes());
    assert_eq!(nodes.len(), 2);
    let ids: Vec<u64> = nodes.iter().map(|n| n.node_id).collect();
    assert!(ids.contains(&id1));
    assert!(ids.contains(&id3));
}

#[test]
fn scan_nodes_by_property_excludes_deleted() {
    let mut graph = temp_graph();
    let (_, id1) = graph.create_node(NodeBuilder::new().label(10)).unwrap();
    let (_, id2) = graph.create_node(NodeBuilder::new().label(10)).unwrap();

    let slot = SlotRef::new(1, 0);
    graph.insert_property_index(id1, 42, ValueType::Int64, &10i64.to_be_bytes(), slot).unwrap();
    graph.insert_property_index(id2, 42, ValueType::Int64, &10i64.to_be_bytes(), slot).unwrap();

    graph.delete_node(id1).unwrap();

    let nodes = graph.scan_nodes_by_property(42, ValueType::Int64, &10i64.to_be_bytes());
    assert_eq!(nodes.len(), 1);
    assert_eq!(nodes[0].node_id, id2);
}

#[test]
fn large_node_id_roundtrips() {
    let mut graph = temp_graph();
    let big_id = 16_777_216u64 + 1;

    // Bypass the high-level API to test the engine directly with a large id.
    let node = NodeRecord::new(big_id, 42);
    let slot = graph.engine_mut().put_node(&node).unwrap();
    assert!(!slot.is_null());

    let retrieved = graph.get_node(big_id);
    assert!(retrieved.is_some());
    let retrieved = retrieved.unwrap();
    assert_eq!(retrieved.node_id, big_id);
}

#[test]
fn ids_are_server_allocated_and_unique() {
    let mut graph = temp_graph();
    let (_, id1) = graph.create_node(NodeBuilder::new().label(1)).unwrap();
    let (_, id2) = graph.create_node(NodeBuilder::new().label(2)).unwrap();
    let (_, id3) = graph.create_node(NodeBuilder::new().label(3)).unwrap();

    assert!(id1 > 0);
    assert!(id2 > 0);
    assert!(id3 > 0);
    assert_ne!(id1, id2);
    assert_ne!(id2, id3);
    assert_ne!(id1, id3);
}

#[test]
fn id_zero_is_rejected_at_engine_put_node() {
    let mut graph = temp_graph();
    let node = NodeRecord::new(0, 42);
    let result = graph.engine_mut().put_node(&node);
    assert_eq!(result, Err(StorageError::InvalidId));
}

#[test]
fn id_zero_is_rejected_at_engine_put_edge() {
    let mut graph = temp_graph();
    let edge = StoredEdge::new(
        0, 5, 1, 2,
        SlotRef::new(1, 0),
        SlotRef::new(2, 0),
    );
    let result = graph.engine_mut().put_edge(&edge);
    assert_eq!(result, Err(StorageError::InvalidId));
}

#[test]
fn deleted_record_slot_is_reclaimable() {
    let mut graph = temp_graph();
    let (_, id1) = graph.create_node(NodeBuilder::new().label(42)).unwrap();
    let slot1 = graph.engine().lookup_node_slot(id1).unwrap();
    let page_id = slot1.page_id() as u64;

    graph.delete_node(id1).unwrap();

    // Insert another node of the same size; the slotted page should
    // reuse the deleted slot via best-fit.
    let (_, id2) = graph.create_node(NodeBuilder::new().label(99)).unwrap();
    let slot2 = graph.engine().lookup_node_slot(id2).unwrap();

    // slot2 should be on the same page, and ideally reuse the same slot index.
    assert_eq!(slot2.page_id(), page_id as u32, "deleted slot page should be reused");
}

#[test]
fn properties_survive_engine_restart() {
    // Create data and take its pages.
    let mut graph = temp_graph();
    let builder = NodeBuilder::new()
        .label(7)
        .property("name", "Alice".into())
        .property("age", 30i64.into());
    let (_, node_id) = graph.create_node(builder).unwrap();

    let (_, src_id) = graph.create_node(NodeBuilder::new().label(1)).unwrap();
    let (_, tgt_id) = graph.create_node(NodeBuilder::new().label(1)).unwrap();
    let rel = RelationshipBuilder::new()
        .from(src_id)
        .to(tgt_id)
        .type_id(5)
        .property("weight", 42i64.into());
    let (_, edge_id) = graph.create_relationship(rel).unwrap();
    let images = graph.engine().page_images();

    // Reopen: the properties are present.
    let graph = Graph::new(GraphStorageEngine::open(&images).unwrap());

    let node = graph.get_node(node_id).unwrap();
    assert_eq!(node.label_id, 7);
    assert_eq!(
        node.properties.get("name"),
        Some(&Property::String("Alice".to_string())),
        "name property must survive restart"
    );
    assert_eq!(
        node.properties.get("age"),
        Some(&Property::Integer(30)),
        "age property must survive restart"
    );

    let rel = graph.get_relationship(edge_id).unwrap();
    assert_eq!(
        rel.properties.get("weight"),
        Some(&Property::Integer(42)),
        "relationship property must survive restart"
    );
}

#[test]
fn adjacency_lists_are_populated_after_edge_insert() {
    let mut graph = temp_graph();

    let (_, src_id) = graph.create_node(NodeBuilder::new().label(1)).unwrap();
    let (_, tgt_id) = graph.create_node(NodeBuilder::new().label(1)).unwrap();

    let rel = RelationshipBuilder::new().from(src_id).to(tgt_id).type_id(5);
    let (edge_slot, _eid) = graph.create_relationship(rel).unwrap();
    assert!(!edge_slot.is_null());

    // The source node's first_outgoing_edge should point to the edge slot.
    let src_node = graph.engine().get_node(src_id).unwrap();
    assert_eq!(
        src_node.first_outgoing_edge,
        edge_slot,
        "source node first_outgoing_edge must point to inserted edge"
    );

    // The target node's first_incoming_edge should point to the edge slot.
    let tgt_node = graph.engine().get_node(tgt_id).unwrap();
    assert_eq!(
        tgt_node.first_incoming_edge,
        edge_slot,
        "target node first_incoming_edge must point to inserted edge"
    );
}

#[test]
fn adjacency_lists_are_unlinked_after_edge_delete() {
    let mut graph = temp_graph();

    let (_, src_id) = graph.create_node(NodeBuilder::new().label(1)).unwrap();
    let (_, tgt_id) = graph.create_node(NodeBuilder::new().label(1)).unwrap();

    let rel = RelationshipBuilder::new().from(src_id).to(tgt_id).type_id(5);
    let (_, eid) = graph.create_relationship(rel).unwrap();

    graph.delete_relationship(eid).unwrap();

    // After deletion the source node's adjacency head should be NULL.
    let src_node = graph.engine().get_node(src_id).unwrap();
    assert!(
        src_node.first_outgoing_edge.is_null(),
        "source outgoing head must be null after single edge deleted"
    );

    let tgt_node = graph.engine().get_node(tgt_id).unwrap();
    assert!(
        tgt_node.first_incoming_edge.is_null(),
        "target incoming head must be null after single edge deleted"
    );
}

#[test]
fn out_degree_and_neighbour_traversal() {
    let mut graph = temp_graph();
    let (_, src_id) = graph.create_node(NodeBuilder::new().label(1)).unwrap();
    let (_, tgt1) = graph.create_node(NodeBuilder::new().label(1)).unwrap();
    let (_, tgt2) = graph.create_node(NodeBuilder::new().label(1)).unwrap();

    let (e1_slot, eid1) = graph.create_relationship(
        RelationshipBuilder::new().from(src_id).to(tgt1).type_id(5),
    ).unwrap();
    let (e2_slot, eid2) = graph.create_relationship(
        RelationshipBuilder::new().from(src_id).to(tgt2).type_id(5),
    ).unwrap();

    let src_node = graph.engine().get_node(src_id).unwrap();
    let head = src_node.first_outgoing_edge;
    assert!(!head.is_null(), "source must have at least one outgoing edge");

    // Scan by type to confirm both edges are reachable.
    let rels = graph.scan_by_type(5);
    let edge_ids: Vec<u64> = rels.iter().map(|r| r.edge_id).collect();
    assert!(edge_ids.contains(&eid1), "edge 1 must be reachable via type scan");
    assert!(edge_ids.contains(&eid2), "edge 2 must be reachable via type scan");

    // The head slot must be one of the two inserted edges.
    let _ = (e1_slot, e2_slot); // used as sanity reference
}

#[test]
fn every_kind_of_value_survives_storage() {
    let mut graph = temp_graph();
    let builder = NodeBuilder::new()
        .property("int", (-5i64).into())
        .property("float", Property::Float(OrderedF64(2.5f64.to_bits())))
        .property("yes", true.into())
        .property("none", Property::Null)
        .property("text", "näh".into());
    let (_, id) = graph.create_node(builder).unwrap();
    let node = graph.get_node(id).unwrap();
    assert_eq!(node.properties.len(), 5);
    assert_eq!(node.properties.get("int"), Some(&Property::Integer(-5)));
    assert_eq!(
        node.properties.get("float"),
        Some(&Property::Float(OrderedF64(2.5f64.to_bits())))
    );
    assert_eq!(node.properties.get("yes"), Some(&Property::Boolean(true)));
    assert_eq!(node.properties.get("none"), Some(&Property::Null));
    assert_eq!(node.properties.get("text"), Some(&Property::String("näh".to_string())));
}

#[test]
fn stored_form_of_values() {
    assert_eq!(
        Property::Integer(1).to_value_type_payload(),
        Some((ValueType::Int64, vec![0, 0, 0, 0, 0, 0, 0, 1]))
    );
    assert_eq!(
        Property::Boolean(true).to_value_type_payload(),
        Some((ValueType::Bool, vec![1]))
    );
    assert_eq!(
        decode_property_value(ValueType::String, b"hi"),
        Property::String("hi".to_string())
    );
    assert_eq!(decode_property_value(ValueType::String, &[0xFF]), Property::Null);
}

#[test]
fn relationship_to_a_deleted_node_is_refused() {
    let mut graph = temp_graph();
    let (_, a) = graph.create_node(NodeBuilder::new()).unwrap();
    let (_, b) = graph.create_node(NodeBuilder::new()).unwrap();
    graph.delete_node(b).unwrap();
    assert_eq!(
        graph.create_relationship(RelationshipBuilder::new().from(a).to(b).type_id(1)),
        Err(StorageError::NotFound)
    );
    assert_eq!(graph.delete_relationship(77), Err(StorageError::NotFound));
}

#[test]
fn scans_of_everything() {
    let mut graph = temp_graph();
    let (_, a) = graph.create_node(NodeBuilder::new().label(3).property("n", 1i64.into())).unwrap();
    let (_, b) = graph.create_node(NodeBuilder::new().label(4)).unwrap();
    let (_, e) = graph
        .create_relationship(RelationshipBuilder::new().from(a).to(b).type_id(9))
        .unwrap();
    let nodes = graph.scan_all_nodes();
    assert_eq!(nodes.len(), 2);
    assert!(nodes
        .iter()
        .any(|n| n.node_id == a && n.properties.get("n") == Some(&Property::Integer(1))));
    let rels = graph.scan_all_relationships();
    assert_eq!(rels.len(), 1);
    assert_eq!((rels[0].edge_id, rels[0].source_id, rels[0].target_id), (e, a, b));
    assert_eq!(graph.scan_adjacency(a), vec![(b, e, 9)]);
    let snapshot = graph.freeze_adjacency();
    assert_eq!(snapshot.edge_count(), 1);
    assert_eq!(graph.scan_adjacency(a), vec![(b, e, 9)]);
    graph.thaw_adjacency();
    assert_eq!(graph.compact(), 0);
}

#[test]
fn borrowed_graph_edits_the_engine() {
    let mut engine = GraphStorageEngine::init();
    let mut graph = Graph::new_ref(&mut engine);
    let (_, a) = graph.create_node(NodeBuilder::new().label(1)).unwrap();
    let (_, b) = graph.create_node(NodeBuilder::new().label(1)).unwrap();
    let (_, e) = graph
        .create_relationship(RelationshipBuilder::new().from(a).to(b).type_id(2))
        .unwrap();
    assert_eq!(graph.get_node(a).unwrap().label_id, 1);
    graph.delete_edge(e).unwrap();
    graph.delete_node(a).unwrap();
    assert!(graph.get_node(a).is_none());
    assert!(engine.get_edge(e).is_some());
    assert!(engine.scan_all_edges().is_empty());
}

fn node_ids(graph: &Graph, label_id: u32) -> Vec<u64> {
    graph.scan_by_label(label_id).iter().map(|n| n.node_id).collect()
}

fn edge_ids(graph: &Graph, type_id: u32) -> Vec<u64> {
    graph.scan_by_type(type_id).iter().map(|r| r.edge_id).collect()
}

#[test]
fn label_and_type_lists_follow_every_change() {
    let mut graph = temp_graph();
    let mut n: Vec<u64> = Vec::new();
    for i in 0..5u32 {
        n.push(graph.create_node(NodeBuilder::new().label(3 + i % 2)).unwrap().1);
    }
    let mut e: Vec<u64> = Vec::new();
    for (from, to, type_id) in [(0, 1, 5), (1, 0, 6), (0, 3, 5)] {
        let rel = RelationshipBuilder::new().from(n[from]).to(n[to]).type_id(type_id);
        e.push(graph.create_relationship(rel).unwrap().1);
    }
    assert_eq!(node_ids(&graph, 3), vec![n[0], n[2], n[4]]);
    assert_eq!(node_ids(&graph, 4), vec![n[1], n[3]]);
    assert_eq!(edge_ids(&graph, 5), vec![e[0], e[2]]);
    assert_eq!(edge_ids(&graph, 6), vec![e[1]]);

    graph.delete_node(n[2]).unwrap();
    graph.delete_relationship(e[0]).unwrap();
    assert_eq!(node_ids(&graph, 3), vec![n[0], n[4]]);
    assert_eq!(edge_ids(&graph, 5), vec![e[2]]);
    assert!(node_ids(&graph, 7).is_empty());
    assert!(edge_ids(&graph, 7).is_empty());

    // A new entity comes last.
    n.push(graph.create_node(NodeBuilder::new().label(3)).unwrap().1);
    assert_eq!(node_ids(&graph, 3), vec![n[0], n[4], n[5]]);
}

#[test]
fn lists_are_the_same_after_a_restart() {
    let mut graph = temp_graph();
    let mut n: Vec<u64> = Vec::new();
    for i in 0..40u32 {
        let builder = NodeBuilder::new().label(i % 3).property("i", (i as i64).into());
        n.push(graph.create_node(builder).unwrap().1);
    }
    for i in 0..39 {
        let rel = RelationshipBuilder::new().from(n[i]).to(n[i + 1]).type_id((1 + i % 2) as u32);
        graph.create_relationship(rel).unwrap();
    }
    let gone = graph.scan_by_type(2)[0].edge_id;
    graph.delete_relationship(gone).unwrap();
    let last = graph.create_node(NodeBuilder::new().label(2)).unwrap().1;
    graph.delete_node(last).unwrap();
    graph.compact();
    graph.freeze_adjacency();

    let images = graph.engine().page_images();
    let again = Graph::new(GraphStorageEngine::open(&images).unwrap());
    for kind in 0..4u32 {
        assert_eq!(again.scan_by_label(kind), graph.scan_by_label(kind));
        assert_eq!(again.scan_by_type(kind), graph.scan_by_type(kind));
    }
    assert_eq!(again.scan_by_label(0).len(), 14);
    assert_eq!(again.scan_by_type(1).len(), 20);
    assert_eq!(again.scan_by_type(2).len(), 18);
    assert_eq!(again.scan_all_nodes(), graph.scan_all_nodes());
    assert_eq!(again.scan_all_relationships(), graph.scan_all_relationships());
    for id in &n {
        assert_eq!(again.scan_adjacency(*id), graph.scan_adjacency(*id));
    }
}

#[test]
fn created_values_are_found_in_the_index() {
    let mut graph = temp_graph();
    let (_, a) = graph.create_node(NodeBuilder::new().property("n", 7i64.into())).unwrap();
    let (_, b) = graph.create_node(NodeBuilder::new().property("n", 8i64.into())).unwrap();
    let (_, c) = graph.create_node(NodeBuilder::new().property("m", 7i64.into())).unwrap();
    let found: Vec<u64> = graph
        .scan_nodes_by_property(0, ValueType::Int64, &7i64.to_be_bytes())
        .iter()
        .map(|n| n.node_id)
        .collect();
    assert_eq!(found, vec![a, c]);
    graph.delete_node(a).unwrap();
    let left = graph.scan_nodes_by_property(0, ValueType::Int64, &7i64.to_be_bytes());
    assert_eq!(left.len(), 1);
    assert_eq!(left[0].node_id, c);
    let other = graph.scan_nodes_by_property(0, ValueType::Int64, &8i64.to_be_bytes());
    assert_eq!(other[0].node_id, b);
}

#[test]
fn copies_of_nodes_and_relationships() {
    let mut graph = temp_graph();
    let (_, a) = graph.create_node(NodeBuilder::new().label(3).property("k", "v".into())).unwrap();
    let (_, b) = graph.create_node(NodeBuilder::new()).unwrap();
    let (_, e) = graph
        .create_relationship(RelationshipBuilder::new().from(a).to(b).type_id(9))
        .unwrap();
    let node = graph.get_node(a).unwrap();
    assert_eq!(node.clone(), node);
    assert_eq!(node.clone().properties.get("k"), Some(&Property::String("v".to_string())));
    let rel = graph.get_relationship(e).unwrap();
    assert_eq!(rel.clone(), rel);
}
