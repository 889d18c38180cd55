use rgraph::graph::engine::GraphStorageEngine;
use rgraph::graph::ids::{edge_resource_id, node_resource_id, IdAllocator};
use rgraph::graph::record::{edge_flags, node_flags, NodeRecord, SlotRef, ValueType};
use rgraph::graph::storage_engine::StorageEngine;
use rgraph::graph::stored::{StoredEdge, StoredProperty};
use rgraph::index::btree::BTreeError;
use rgraph::index::key::{label_index_key, type_index_key};
use rgraph::storage::error::StorageError;
use rgraph::storage::heap::FIRST_DATA_PAGE;
use rgraph::storage::image::compute_checksum;
use rgraph::storage::wal::{RecordType, TupleHeader, WalRecord};

#[test]
fn init_and_open_roundtrip() {
    let images = GraphStorageEngine::init().page_images();
    let engine = GraphStorageEngine::open(&images).unwrap();
    // Only the pages before the data pages exist.
    let total_page_count = FIRST_DATA_PAGE as usize + engine.store.heap().page_count();
    assert_eq!(total_page_count, 3);
}

#[test]
fn put_and_get_node() {
    let mut engine = GraphStorageEngine::init();

    let node = NodeRecord::new(1, 42);
    let slot = engine.put_node(&node).unwrap();
    assert!(!slot.is_null());

    let retrieved = engine.get_node(1);
    assert!(retrieved.is_some());
    let retrieved = retrieved.unwrap();
    assert_eq!(retrieved.node_id, 1);
    assert_eq!(retrieved.label_id, 42);
}

#[test]
fn put_duplicate_node_fails() {
    let mut engine = GraphStorageEngine::init();

    let node = NodeRecord::new(1, 42);
    engine.put_node(&node).unwrap();
    let result = engine.put_node(&node);
    assert_eq!(result, Err(StorageError::AlreadyExists));
}

#[test]
fn engine_get_missing_node_returns_none() {
    let engine = GraphStorageEngine::init();
    let result = engine.get_node(999);
    assert!(result.is_none());
}

#[test]
fn engine_delete_node_leaves_tombstone() {
    let mut engine = GraphStorageEngine::init();

    let node = NodeRecord::new(1, 42);
    engine.put_node(&node).unwrap();
    engine.delete_node(1).unwrap();

    // Primary index still has the record (tombstone).
    let retrieved = engine.get_node(1);
    assert!(retrieved.is_some());
    let retrieved = retrieved.unwrap();
    assert_eq!(retrieved.node_id, 1);
    assert!(retrieved.flags & node_flags::DELETED != 0);
}

#[test]
fn put_and_get_edge() {
    let mut engine = GraphStorageEngine::init();

    // Insert source and target nodes first so adjacency wiring works.
    engine.put_node(&NodeRecord::new(1, 0)).unwrap();
    engine.put_node(&NodeRecord::new(2, 0)).unwrap();
    let source = engine.lookup_node_slot(1).unwrap();
    let target = engine.lookup_node_slot(2).unwrap();

    let edge = StoredEdge::new(100, 5, 1, 2, source, target);
    let slot = engine.put_edge(&edge).unwrap();
    assert!(!slot.is_null());

    let retrieved = engine.get_edge(100);
    assert!(retrieved.is_some());
    let retrieved = retrieved.unwrap();
    assert_eq!(retrieved.record.edge_id, 100);
    assert_eq!(retrieved.record.type_id, 5);
    assert_eq!(retrieved.source_id, 1);
    assert_eq!(retrieved.target_id, 2);
    assert_eq!(retrieved.record.source_node, source);
    assert_eq!(retrieved.record.target_node, target);
}

#[test]
fn delete_edge_leaves_tombstone() {
    let mut engine = GraphStorageEngine::init();

    engine.put_node(&NodeRecord::new(1, 0)).unwrap();
    engine.put_node(&NodeRecord::new(2, 0)).unwrap();
    let src_slot = engine.lookup_node_slot(1).unwrap();
    let tgt_slot = engine.lookup_node_slot(2).unwrap();

    let edge = StoredEdge::new(100, 5, 1, 2, src_slot, tgt_slot);
    engine.put_edge(&edge).unwrap();
    engine.delete_edge(100).unwrap();

    let retrieved = engine.get_edge(100);
    assert!(retrieved.is_some());
    let retrieved = retrieved.unwrap();
    assert!(retrieved.record.flags & edge_flags::DELETED != 0);
}

#[test]
fn put_and_get_property() {
    let mut engine = GraphStorageEngine::init();

    let prop = StoredProperty::inline(
        "msg",
        1,
        ValueType::String,
        b"hello".to_vec(),
    );
    let slot = engine.put_property(&prop).unwrap();

    let retrieved = engine.get_property(slot);
    assert!(retrieved.is_some());
    let retrieved = retrieved.unwrap();
    assert_eq!(retrieved.record.payload, b"hello");
}

#[test]
fn attach_property_to_node() {
    let mut engine = GraphStorageEngine::init();

    let node = NodeRecord::new(1, 42);
    engine.put_node(&node).unwrap();

    let prop = StoredProperty::inline(
        "name",
        1,
        ValueType::String,
        b"name".to_vec(),
    );
    let prop_slot = engine.put_property(&prop).unwrap();

    engine.attach_property_to_node(1, prop_slot).unwrap();

    let retrieved = engine.get_node(1).unwrap();
    assert_eq!(retrieved.first_property, prop_slot);
}

#[test]
fn attach_property_to_edge() {
    let mut engine = GraphStorageEngine::init();

    engine.put_node(&NodeRecord::new(1, 0)).unwrap();
    engine.put_node(&NodeRecord::new(2, 0)).unwrap();
    let src_slot = engine.lookup_node_slot(1).unwrap();
    let tgt_slot = engine.lookup_node_slot(2).unwrap();

    let edge = StoredEdge::new(100, 5, 1, 2, src_slot, tgt_slot);
    engine.put_edge(&edge).unwrap();

    let prop = StoredProperty::inline(
        "weight",
        1,
        ValueType::String,
        b"weight".to_vec(),
    );
    let prop_slot = engine.put_property(&prop).unwrap();

    engine.attach_property_to_edge(100, prop_slot).unwrap();

    let retrieved = engine.get_edge(100).unwrap();
    assert_eq!(retrieved.record.first_property, prop_slot);
}

#[test]
fn node_record_wal_logged() {
    let mut engine = GraphStorageEngine::init();

    let node = NodeRecord::new(7, 99);
    engine.put_node(&node).unwrap();

    // The log holds a record of the insertion.
    let mut found = false;
    for rec in engine.take_wal() {
        if rec.record_type == RecordType::NodeInsert {
            found = true;
            // Payload: node id (8), slot (4), version header (16), node record (32).
            assert_eq!(
                rec.payload.len(),
                8 + 4 + TupleHeader::SIZE + NodeRecord::SIZE,
                "NodeInsert WAL payload must include TupleHeader"
            );
        }
    }
    assert!(found, "NodeInsert WAL record not found");
}

#[test]
fn label_index_supports_range_scan() {
    let mut engine = GraphStorageEngine::init();

    for i in 1u64..=10 {
        let node = NodeRecord::new(i, 5);
        engine.put_node(&node).unwrap();
    }

    // Verify all nodes are in the label index by checking node_index.
    for i in 1u64..=10 {
        let retrieved = engine.get_node(i);
        assert!(retrieved.is_some(), "node {} should exist", i);
    }
}

#[test]
fn indexes_rebuilt_after_crash_recovery() {
    let mut engine = GraphStorageEngine::init();

    // Insert nodes with different labels.
    let node1 = NodeRecord::new(1, 10);
    let node2 = NodeRecord::new(2, 20);
    engine.put_node(&node1).unwrap();
    engine.put_node(&node2).unwrap();

    // Insert edges with different types.
    let n1_slot = engine.lookup_node_slot(1).unwrap();
    let n2_slot = engine.lookup_node_slot(2).unwrap();
    let edge1 = StoredEdge::new(100, 1, 1, 2, n1_slot, n2_slot);
    let edge2 = StoredEdge::new(101, 2, 1, 2, n1_slot, n2_slot);
    engine.put_edge(&edge1).unwrap();
    engine.put_edge(&edge2).unwrap();

    // The pages as they would lie on disk.
    let images = engine.page_images();

    // Verify data exists before crash.
    assert!(
        engine.get_node(1).is_some(),
        "node 1 should exist before crash"
    );

    // Simulate crash: drop the engine and reopen from disk.
    drop(engine);
    let recovered = GraphStorageEngine::open(&images).unwrap();

    // Verify primary indexes are restored.
    let n1 = recovered.get_node(1);
    assert!(n1.is_some(), "node 1 should be recoverable");
    assert_eq!(n1.unwrap().label_id, 10);

    let n2 = recovered.get_node(2);
    assert!(n2.is_some(), "node 2 should be recoverable");
    assert_eq!(n2.unwrap().label_id, 20);

    let e1 = recovered.get_edge(100);
    assert!(e1.is_some(), "edge 100 should be recoverable");
    assert_eq!(e1.unwrap().record.type_id, 1);

    let e2 = recovered.get_edge(101);
    assert!(e2.is_some(), "edge 101 should be recoverable");
    assert_eq!(e2.unwrap().record.type_id, 2);

    // Verify secondary label index is rebuilt.
    let label_key1 = label_index_key(10, 1);
    let label_key2 = label_index_key(20, 2);
    assert!(
        recovered.label_index.search(&label_key1).is_some(),
        "label index for node 1 should be rebuilt"
    );
    assert!(
        recovered.label_index.search(&label_key2).is_some(),
        "label index for node 2 should be rebuilt"
    );

    // Verify secondary type index is rebuilt.
    let type_key1 = type_index_key(1, 100);
    let type_key2 = type_index_key(2, 101);
    assert!(
        recovered.type_index.search(&type_key1).is_some(),
        "type index for edge 100 should be rebuilt"
    );
    assert!(
        recovered.type_index.search(&type_key2).is_some(),
        "type index for edge 101 should be rebuilt"
    );
}

#[test]
fn committed_data_survives_restart() {
    let mut engine = GraphStorageEngine::init();
    let node = NodeRecord::new(1, 42);
    engine.put_node(&node).unwrap();
    let images = engine.page_images();
    let node_id = 1u64;

    // Opening the pages again restores the committed state.
    let engine = GraphStorageEngine::open(&images).unwrap();
    let result = engine.get_node(node_id);
    assert!(
        result.is_some(),
        "committed node must be present after restart"
    );
    let n = result.unwrap();
    assert_eq!(n.node_id, 1);
    assert_eq!(n.label_id, 42);
}

#[test]
fn delete_node_adds_to_free_list() {
    let mut engine = GraphStorageEngine::init();

    let node = NodeRecord::new(1, 42);
    engine.put_node(&node).unwrap();
    assert_eq!(engine.node_free_list.len(), 0);

    engine.delete_node(1).unwrap();
    assert_eq!(
        engine.node_free_list.len(),
        1,
        "free list should have 1 entry after deletion"
    );
}

#[test]
fn delete_edge_adds_to_free_list() {
    let mut engine = GraphStorageEngine::init();

    // Insert endpoints first so adjacency wiring succeeds.
    engine.put_node(&NodeRecord::new(1, 0)).unwrap();
    engine.put_node(&NodeRecord::new(2, 0)).unwrap();
    let src = engine.lookup_node_slot(1).unwrap();
    let tgt = engine.lookup_node_slot(2).unwrap();

    let edge = StoredEdge::new(100, 5, 1, 2, src, tgt);
    engine.put_edge(&edge).unwrap();
    assert_eq!(engine.edge_free_list.len(), 0);

    engine.delete_edge(100).unwrap();
    assert_eq!(
        engine.edge_free_list.len(),
        1,
        "edge free list should have 1 entry after deletion"
    );
}

#[test]
fn compact_wal_logs_and_returns_reclaimed_count() {
    let mut engine = GraphStorageEngine::init();

    // Insert and delete nodes to create tombstones.
    for i in 1u64..=5 {
        engine.put_node(&NodeRecord::new(i, 10)).unwrap();
    }
    for i in 1u64..=5 {
        engine.delete_node(i).unwrap();
    }

    let reclaimed = engine.compact();
    assert!(
        reclaimed >= 5,
        "compact() should report at least the 5 deleted node slots; got {}",
        reclaimed
    );

    // The free list must not grow beyond what compaction leaves behind.
    let fl = engine.node_free_list.len();
    assert!(fl <= 5, "free list should not grow past the deletions");
}

#[test]
fn compact_is_wal_logged_with_brackets() {
    let mut engine = GraphStorageEngine::init();
    engine.put_node(&NodeRecord::new(1, 10)).unwrap();
    engine.delete_node(1).unwrap();
    engine.compact();

    let mut saw_begin = false;
    let mut saw_end = false;
    for rec in engine.take_wal() {
        match rec.record_type {
            RecordType::CompactionBegin => saw_begin = true,
            RecordType::CompactionEnd => saw_end = true,
            _ => {}
        }
    }
    assert!(saw_begin, "CompactionBegin WAL record must be present");
    assert!(saw_end, "CompactionEnd WAL record must be present");
}

#[test]
fn freeze_adjacency_returns_correct_edges() {
    let mut engine = GraphStorageEngine::init();

    engine.put_node(&NodeRecord::new(1, 1)).unwrap();
    engine.put_node(&NodeRecord::new(2, 1)).unwrap();
    let src = engine.lookup_node_slot(1).unwrap();
    let tgt = engine.lookup_node_slot(2).unwrap();

    // Edge 100: logical node 1 → node 2.
    let edge = StoredEdge::new(100, 5, 1, 2, src, tgt);
    engine.put_edge(&edge).unwrap();

    let snap = engine.freeze_adjacency();
    assert!(
        engine.csr.is_frozen(),
        "CSR should be frozen after freeze_adjacency()"
    );

    let edges = snap.outgoing_edges(1);
    assert_eq!(edges.len(), 1, "node 1 should have 1 outgoing edge");
    assert_eq!(edges[0].target_id, 2, "edge target should be node 2");
    assert_eq!(edges[0].edge_id, 100, "edge id should be 100");
    assert_eq!(edges[0].edge_type, 5, "edge type should be 5");
}

#[test]
fn scan_adjacency_csr_and_linked_list_agree() {
    let mut engine = GraphStorageEngine::init();

    engine.put_node(&NodeRecord::new(1, 1)).unwrap();
    engine.put_node(&NodeRecord::new(2, 1)).unwrap();
    engine.put_node(&NodeRecord::new(3, 1)).unwrap();
    let s1 = engine.lookup_node_slot(1).unwrap();
    let s2 = engine.lookup_node_slot(2).unwrap();
    let s3 = engine.lookup_node_slot(3).unwrap();

    // Edges from node 1 → 2 and node 1 → 3 (adjacency auto-wired by put_edge).
    engine.put_edge(&StoredEdge::new(10, 1, 1, 2, s1, s2)).unwrap();
    engine.put_edge(&StoredEdge::new(11, 1, 1, 3, s1, s3)).unwrap();

    // Linked-list path (no CSR yet) must already see both edges.
    let mut ll = engine.scan_adjacency(1);
    ll.sort_by_key(|(t, _, _)| *t);
    let ll_targets: Vec<u64> = ll.iter().map(|(t, _, _)| *t).collect();
    assert_eq!(ll_targets, vec![2, 3], "linked-list scan should see both edges");

    // Freeze and compare CSR results.
    engine.freeze_adjacency();
    let mut csr = engine.scan_adjacency(1);
    csr.sort_by_key(|(t, _, _)| *t);
    assert_eq!(csr, ll, "CSR and linked-list scans must agree");
}

#[test]
fn thaw_removes_csr_snapshot() {
    let mut engine = GraphStorageEngine::init();
    engine.freeze_adjacency();
    assert!(engine.csr.is_frozen());
    engine.thaw_adjacency();
    assert!(
        !engine.csr.is_frozen(),
        "CSR should not be frozen after thaw_adjacency()"
    );
}

fn two_nodes() -> (GraphStorageEngine, SlotRef, SlotRef) {
    let mut engine = GraphStorageEngine::init();
    let a = engine.put_node(&NodeRecord::new(1, 1)).unwrap();
    let b = engine.put_node(&NodeRecord::new(2, 1)).unwrap();
    (engine, a, b)
}

#[test]
fn edges_to_missing_nodes_are_refused() {
    let (mut engine, a, b) = two_nodes();
    assert_eq!(
        engine.put_edge(&StoredEdge::new(5, 1, 1, 9, a, SlotRef::new(900, 0))),
        Err(StorageError::NotFound)
    );
    engine.put_edge(&StoredEdge::new(5, 1, 1, 2, a, b)).unwrap();
    assert_eq!(
        engine.put_edge(&StoredEdge::new(5, 1, 1, 2, a, b)),
        Err(StorageError::AlreadyExists)
    );
    assert_eq!(engine.delete_edge(6), Err(StorageError::NotFound));
    assert_eq!(engine.delete_node(7), Err(StorageError::NotFound));
    assert_eq!(
        engine.attach_property_to_node(7, SlotRef::null()),
        Err(StorageError::NotFound)
    );
}

#[test]
fn scans_follow_the_lists_both_ways() {
    let (mut engine, a, b) = two_nodes();
    for id in 10..14u64 {
        engine.put_edge(&StoredEdge::new(id, (id % 2) as u32, 1, 2, a, b)).unwrap();
    }
    let out: Vec<u64> =
        engine.scan_outgoing_edges(1, &[]).iter().map(|e| e.0.record.edge_id).collect();
    assert_eq!(out, vec![13, 12, 11, 10]);
    let odd = engine.scan_incoming_edges(2, &[1]);
    assert_eq!(odd.len(), 2);
    assert_eq!(odd[0].1, 1);
    engine.delete_edge(12).unwrap();
    let out: Vec<u64> =
        engine.scan_outgoing_edges(1, &[]).iter().map(|e| e.0.record.edge_id).collect();
    assert_eq!(out, vec![13, 11, 10]);
    assert!(engine.scan_outgoing_edges(2, &[]).is_empty());
    assert!(engine.scan_outgoing_edges(99, &[]).is_empty());
}

#[test]
fn a_loop_edge_stands_in_both_lists_of_its_node() {
    let (mut engine, a, _) = two_nodes();
    engine.put_edge(&StoredEdge::new(7, 3, 1, 1, a, a)).unwrap();
    assert_eq!(engine.scan_outgoing_edges(1, &[]).len(), 1);
    assert_eq!(engine.scan_incoming_edges(1, &[3]).len(), 1);
    engine.delete_edge(7).unwrap();
    assert!(engine.scan_outgoing_edges(1, &[]).is_empty());
    assert!(engine.scan_incoming_edges(1, &[]).is_empty());
}

#[test]
fn deleted_nodes_have_no_slot() {
    let (mut engine, a, _) = two_nodes();
    assert_eq!(engine.lookup_node_slot(1), Some(a));
    engine.delete_node(1).unwrap();
    assert_eq!(engine.lookup_node_slot(1), None);
    assert_eq!(engine.scan_all_nodes().len(), 1);
    assert!(engine.scan_nodes_by_label(1).iter().all(|n| n.node_id == 2));
}

#[test]
fn reopened_engine_holds_the_same_graph() {
    let (mut engine, a, b) = two_nodes();
    for id in 1..=300u64 {
        engine.put_edge(&StoredEdge::new(id, 4, 1, 2, a, b)).unwrap();
    }
    engine.delete_edge(150).unwrap();
    let images = engine.page_images();
    assert!(images.iter().all(|image| image.len() == 8192));
    let again = GraphStorageEngine::open(&images).unwrap();
    assert_eq!(again.scan_outgoing_edges(1, &[]), engine.scan_outgoing_edges(1, &[]));
    assert_eq!(again.scan_all_edges().len(), 299);
    assert_eq!(again.lookup_node_slot(2), Some(b));
    assert_eq!(again.id_allocator.peek(), 301);
}

#[test]
fn torn_page_image_is_dropped() {
    let (engine, _, _) = two_nodes();
    let mut images = engine.page_images();
    images[0][100] ^= 1;
    let again = GraphStorageEngine::open(&images).unwrap();
    assert_eq!(again.get_node(1), None);
}

#[test]
fn ids_rise_past_what_was_seen() {
    let mut ids = IdAllocator::new(0);
    assert_eq!(ids.allocate(), 1);
    ids.observe(41);
    assert_eq!(ids.peek(), 42);
    ids.observe(7);
    assert_eq!(ids.allocate(), 42);
    assert_eq!(ids.allocate(), 43);
    assert_ne!(node_resource_id(5), edge_resource_id(5));
}

#[test]
fn page_checksum_notices_a_change() {
    assert_ne!(compute_checksum(&[1, 2, 3]), compute_checksum(&[1, 2, 4]));
}

#[test]
fn storage_errors_have_messages() {
    assert_eq!(StorageError::IoError.message(), "I/O error");
    assert_eq!(StorageError::NotFound.message(), "entity not found");
    assert_eq!(StorageError::IndexError.message(), "index error");
    assert_eq!(StorageError::PageFull.message(), "page full");
    assert_eq!(StorageError::SlotOverflow.message(), "slot reference overflow");
    assert_eq!(StorageError::AlreadyExists.message(), "entity already exists");
    assert_eq!(
        StorageError::InvalidId.message(),
        "id 0 is reserved and may not be used"
    );
    assert_eq!(StorageError::from(BTreeError::SplitFailed), StorageError::IndexError);
}

/// Two nodes with a property and an edge, in any engine.
fn fill<E: StorageEngine>(engine: &mut E) {
    let a = engine.put_node(&NodeRecord::new(1, 1)).unwrap();
    let b = engine.put_node(&NodeRecord::new(2, 1)).unwrap();
    engine.put_edge(&StoredEdge::new(3, 4, 1, 2, a, b)).unwrap();
    let prop = StoredProperty::inline("p", 0, ValueType::Bool, vec![1]);
    let slot = engine.put_property(&prop).unwrap();
    engine.attach_property_to_node(1, slot).unwrap();
    engine.attach_property_to_edge(3, slot).unwrap();
    engine.delete_node(2).unwrap();
    engine.delete_edge(3).unwrap();
}

#[test]
fn operations_through_the_trait() {
    let mut engine = GraphStorageEngine::init();
    fill(&mut engine);
    let slot = StorageEngine::get_node(&engine, 1).unwrap().first_property;
    assert_eq!(StorageEngine::get_property(&engine, slot).unwrap().name, "p");
    let edge = StorageEngine::get_edge(&engine, 3).unwrap();
    assert_eq!(edge.record.first_property, slot);
    assert!(edge.record.flags & edge_flags::DELETED != 0);
}

#[test]
fn log_record_bytes() {
    let record = WalRecord { record_type: RecordType::EdgeInsert, txid: 0x0102, payload: vec![9, 8] };
    assert_eq!(
        record.encode(),
        [3, 0, 0, 0, 0, 0, 0, 1, 2, 0, 0, 0, 0, 0, 0, 0, 2, 9, 8]
    );
    assert_eq!(RecordType::CompactionEnd.code(), 7);
}

#[test]
fn edge_behind_another_needs_no_node_record() {
    let (mut engine, a, b) = two_nodes();
    engine.put_edge(&StoredEdge::new(10, 4, 1, 2, a, b)).unwrap();
    engine.put_edge(&StoredEdge::new(11, 4, 1, 2, a, b)).unwrap();
    let mut images = engine.page_images();
    // The page of the nodes is lost, that of the edges is not.
    images[0][100] ^= 1;
    let mut again = GraphStorageEngine::open(&images).unwrap();
    assert_eq!(again.get_node(1), None);
    // Edge 11 heads both lists, edge 10 stands behind it.
    assert_eq!(again.delete_edge(11), Err(StorageError::NotFound));
    assert_eq!(again.delete_edge(10), Ok(()));
    assert_eq!(again.scan_all_edges().len(), 1);
}
