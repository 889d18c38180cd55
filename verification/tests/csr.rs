use rgraph::graph::csr::{CsrBuilder, CsrEdge, CsrHolder};
use rgraph::graph::record::{edge_flags, NodeRecord, SlotRef};
use rgraph::graph::stored::StoredEdge;

/// An edge whose logical endpoints are `src_id` and `dst_id`.
fn make_edge(edge_id: u64, type_id: u32, src_id: u64, dst_id: u64) -> StoredEdge {
    StoredEdge::new(
        edge_id,
        type_id,
        src_id,
        dst_id,
        SlotRef::new(src_id as u32, 0),
        SlotRef::new(dst_id as u32, 0),
    )
}

#[test]
fn build_empty_graph() {
    let csr = CsrBuilder::new().build();
    assert_eq!(csr.edge_count(), 0);
    assert_eq!(csr.out_degree(0), 0);
}

#[test]
fn single_edge_round_trip() {
    let mut b = CsrBuilder::new();
    b.add_edge(&make_edge(1, 5, 10, 20));
    let csr = b.build();
    assert_eq!(csr.edge_count(), 1);
    let edges: Vec<CsrEdge> = csr.outgoing_edges(10);
    assert_eq!(edges.len(), 1);
    assert_eq!(edges[0].target_id, 20);
    assert_eq!(edges[0].edge_id, 1);
    assert_eq!(edges[0].edge_type, 5);
}

#[test]
fn multiple_outgoing_edges_sorted_by_target() {
    let mut b = CsrBuilder::new();
    b.add_edge(&make_edge(10, 1, 1, 3));
    b.add_edge(&make_edge(20, 1, 1, 2));
    b.add_edge(&make_edge(30, 1, 1, 4));
    let csr = b.build();
    let targets: Vec<u64> = csr.outgoing_edges(1).iter().map(|e| e.target_id).collect();
    // Should be sorted by target id.
    let mut sorted = targets.clone();
    sorted.sort();
    assert_eq!(targets, sorted);
    assert_eq!(targets.len(), 3);
}

#[test]
fn nodes_with_no_outgoing_edges_return_empty() {
    let mut b = CsrBuilder::new();
    b.add_node(&NodeRecord::new(99, 0));
    b.add_edge(&make_edge(1, 1, 1, 2));
    let csr = b.build();
    assert_eq!(csr.out_degree(99), 0);
    assert_eq!(csr.outgoing_edges(99).len(), 0);
}

#[test]
fn tombstoned_edges_excluded() {
    let mut e = make_edge(1, 1, 10, 20);
    e.record.flags = edge_flags::DELETED;
    let mut b = CsrBuilder::new();
    b.add_edge(&e);
    let csr = b.build();
    assert_eq!(csr.edge_count(), 0);
}

#[test]
fn large_graph_row_ptr_prefix_sum_correct() {
    let mut b = CsrBuilder::new();
    // A star: node 1 to the nodes 2..=11.
    for dst in 2u64..=11 {
        b.add_edge(&make_edge(dst, 1, 1, dst));
    }
    let csr = b.build();
    assert_eq!(csr.out_degree(1), 10);
    assert_eq!(csr.out_degree(2), 0);
    let targets: Vec<u64> = csr.outgoing_edges(1).iter().map(|e| e.target_id).collect();
    assert_eq!(targets.len(), 10);
    for (i, &t) in targets.iter().enumerate() {
        assert_eq!(t, (i + 2) as u64, "expected target {} got {}", i + 2, t);
    }
}

#[test]
fn holder_starts_empty() {
    let h = CsrHolder::new();
    assert!(!h.is_frozen());
    assert!(h.snapshot().is_none());
}

#[test]
fn freeze_makes_snapshot_available() {
    let mut h = CsrHolder::new();
    let mut b = CsrBuilder::new();
    b.add_edge(&make_edge(1, 1, 10, 20));
    h.freeze(b.build());
    assert!(h.is_frozen());
    let snap = h.snapshot().unwrap();
    assert_eq!(snap.edge_count(), 1);
}

#[test]
fn thaw_removes_snapshot() {
    let mut h = CsrHolder::new();
    h.freeze(CsrBuilder::new().build());
    assert!(h.is_frozen());
    h.thaw();
    assert!(!h.is_frozen());
}

#[test]
fn old_arc_survives_new_freeze() {
    let mut h = CsrHolder::new();
    let mut b = CsrBuilder::new();
    b.add_edge(&make_edge(1, 1, 10, 20));
    h.freeze(b.build());
    let old_snap = h.snapshot().unwrap();

    // New freeze with different data.
    let mut b2 = CsrBuilder::new();
    b2.add_edge(&make_edge(2, 1, 10, 30));
    b2.add_edge(&make_edge(3, 1, 10, 40));
    h.freeze(b2.build());

    // The old snapshot is still valid and still has one edge.
    assert_eq!(old_snap.edge_count(), 1);
    // The new snapshot has two edges.
    let new_snap = h.snapshot().unwrap();
    assert_eq!(new_snap.edge_count(), 2);
}

#[test]
fn rows_cover_every_node_id_up_to_the_largest() {
    let mut b = CsrBuilder::new();
    b.add_node(&NodeRecord::new(6, 0));
    b.add_edge(&make_edge(1, 2, 3, 9));
    let csr = b.build();
    assert_eq!(csr.node_count(), 9);
    assert_eq!(csr.out_degree(3), 1);
    assert_eq!(csr.out_degree(10), 0);
    assert_eq!(csr.outgoing_edges(u64::MAX).len(), 0);
}

#[test]
fn copy_of_a_snapshot() {
    let mut builder = CsrBuilder::new();
    builder.add_edge(&make_edge(1, 5, 0, 2));
    let csr = builder.build();
    let copy = csr.clone();
    assert_eq!(copy.edge_count(), 1);
    assert_eq!(copy.edge_ids, csr.edge_ids);
    assert_eq!(copy.row_ptr, csr.row_ptr);
    assert_eq!(copy.col_idx, vec![2]);
    assert_eq!(copy.edge_types, vec![5]);
    assert_eq!(copy.max_node_id, csr.max_node_id);
}
