use rgraph::graph::adjacency::{
    collect_incoming, collect_outgoing, link_source_head, link_target_head, unlink_source,
    unlink_target, AdjacencyError, EdgeRecordView, EdgeTable,
};
use rgraph::graph::record::{EdgeRecord, SlotRef};

#[test]
fn link_source_head_empty_list() {
    let mut store = EdgeTable::new();
    let e1 = SlotRef::new(1, 0);
    let n1 = SlotRef::new(10, 0);
    store.write(e1, &EdgeRecord::new(100, 1, n1, SlotRef::null()));

    let head = link_source_head(&mut store, e1, SlotRef::null()).unwrap();
    assert_eq!(head, e1);

    let rec = store.read(e1).unwrap();
    assert!(rec.next_source_edge.is_null());
    assert!(rec.prev_source_edge.is_null());
}

#[test]
fn link_source_head_two_edges() {
    let mut store = EdgeTable::new();
    let n1 = SlotRef::new(10, 0);
    let e1 = SlotRef::new(1, 0);
    let e2 = SlotRef::new(2, 0);

    store.write(e1, &EdgeRecord::new(100, 1, n1, SlotRef::null()));
    store.write(e2, &EdgeRecord::new(200, 1, n1, SlotRef::null()));

    // Link e1 first.
    let head = link_source_head(&mut store, e1, SlotRef::null()).unwrap();
    assert_eq!(head, e1);

    // Link e2 at head.
    let head = link_source_head(&mut store, e2, head).unwrap();
    assert_eq!(head, e2);

    let rec2 = store.read(e2).unwrap();
    assert_eq!(rec2.next_source_edge, e1);
    assert!(rec2.prev_source_edge.is_null());

    let rec1 = store.read(e1).unwrap();
    assert_eq!(rec1.prev_source_edge, e2);
    assert!(rec1.next_source_edge.is_null());
}

#[test]
fn link_target_head_empty_list() {
    let mut store = EdgeTable::new();
    let e1 = SlotRef::new(1, 0);
    let n1 = SlotRef::new(10, 0);
    store.write(e1, &EdgeRecord::new(100, 1, SlotRef::null(), n1));

    let head = link_target_head(&mut store, e1, SlotRef::null()).unwrap();
    assert_eq!(head, e1);
}

#[test]
fn unlink_source_middle() {
    let mut store = EdgeTable::new();
    let n1 = SlotRef::new(10, 0);
    let e1 = SlotRef::new(1, 0);
    let e2 = SlotRef::new(2, 0);
    let e3 = SlotRef::new(3, 0);

    store.write(e1, &EdgeRecord::new(100, 1, n1, SlotRef::null()));
    store.write(e2, &EdgeRecord::new(200, 1, n1, SlotRef::null()));
    store.write(e3, &EdgeRecord::new(300, 1, n1, SlotRef::null()));

    let _ = link_source_head(&mut store, e1, SlotRef::null()).unwrap();
    let _head = link_source_head(&mut store, e2, e1).unwrap();
    let _head = link_source_head(&mut store, e3, _head).unwrap();

    // The list is now e3, e2, e1.
    let new_head = unlink_source(&mut store, e2).unwrap();
    assert!(new_head.is_none()); // e2 was not the head

    let rec3 = store.read(e3).unwrap();
    assert_eq!(rec3.next_source_edge, e1);

    let rec1 = store.read(e1).unwrap();
    assert_eq!(rec1.prev_source_edge, e3);

    let rec2 = store.read(e2).unwrap();
    assert!(rec2.prev_source_edge.is_null());
    assert!(rec2.next_source_edge.is_null());
}

#[test]
fn unlink_source_head() {
    let mut store = EdgeTable::new();
    let n1 = SlotRef::new(10, 0);
    let e1 = SlotRef::new(1, 0);
    let e2 = SlotRef::new(2, 0);

    store.write(e1, &EdgeRecord::new(100, 1, n1, SlotRef::null()));
    store.write(e2, &EdgeRecord::new(200, 1, n1, SlotRef::null()));

    let _head = link_source_head(&mut store, e1, SlotRef::null()).unwrap();
    let _head = link_source_head(&mut store, e2, _head).unwrap();

    let new_head = unlink_source(&mut store, e2).unwrap();
    assert_eq!(new_head, Some(e1));

    let rec1 = store.read(e1).unwrap();
    assert!(rec1.prev_source_edge.is_null());
}

#[test]
fn unlink_target_middle() {
    let mut store = EdgeTable::new();
    let n1 = SlotRef::new(10, 0);
    let e1 = SlotRef::new(1, 0);
    let e2 = SlotRef::new(2, 0);
    let e3 = SlotRef::new(3, 0);

    store.write(e1, &EdgeRecord::new(100, 1, SlotRef::null(), n1));
    store.write(e2, &EdgeRecord::new(200, 1, SlotRef::null(), n1));
    store.write(e3, &EdgeRecord::new(300, 1, SlotRef::null(), n1));

    let _ = link_target_head(&mut store, e1, SlotRef::null()).unwrap();
    let _head = link_target_head(&mut store, e2, e1).unwrap();
    let _head = link_target_head(&mut store, e3, _head).unwrap();

    let new_head = unlink_target(&mut store, e2).unwrap();
    assert!(new_head.is_none());

    let rec3 = store.read(e3).unwrap();
    assert_eq!(rec3.next_target_edge, e1);
}

#[test]
fn collect_outgoing_traversal() {
    let mut store = EdgeTable::new();
    let n1 = SlotRef::new(10, 0);
    let e1 = SlotRef::new(1, 0);
    let e2 = SlotRef::new(2, 0);
    let e3 = SlotRef::new(3, 0);

    store.write(e1, &EdgeRecord::new(100, 1, n1, SlotRef::null()));
    store.write(e2, &EdgeRecord::new(200, 1, n1, SlotRef::null()));
    store.write(e3, &EdgeRecord::new(300, 1, n1, SlotRef::null()));

    let _ = link_source_head(&mut store, e1, SlotRef::null()).unwrap();
    let head = link_source_head(&mut store, e2, e1).unwrap();
    let head = link_source_head(&mut store, e3, head).unwrap();

    let edges = collect_outgoing(&store, head);
    assert_eq!(edges, vec![e3, e2, e1]);
}

#[test]
fn collect_incoming_traversal() {
    let mut store = EdgeTable::new();
    let n1 = SlotRef::new(10, 0);
    let e1 = SlotRef::new(1, 0);
    let e2 = SlotRef::new(2, 0);

    store.write(e1, &EdgeRecord::new(100, 1, SlotRef::null(), n1));
    store.write(e2, &EdgeRecord::new(200, 1, SlotRef::null(), n1));

    let _ = link_target_head(&mut store, e1, SlotRef::null()).unwrap();
    let head = link_target_head(&mut store, e2, e1).unwrap();

    let edges = collect_incoming(&store, head);
    assert_eq!(edges, vec![e2, e1]);
}

#[test]
fn link_already_linked_fails() {
    let mut store = EdgeTable::new();
    let n1 = SlotRef::new(10, 0);
    let e1 = SlotRef::new(1, 0);
    let e2 = SlotRef::new(2, 0);
    store.write(e1, &EdgeRecord::new(100, 1, n1, SlotRef::null()));
    store.write(e2, &EdgeRecord::new(200, 1, n1, SlotRef::null()));

    // Link e1 first, then e2, so that e1 has a neighbour.
    let head = link_source_head(&mut store, e1, SlotRef::null()).unwrap();
    let _head = link_source_head(&mut store, e2, head).unwrap();

    // Linking e1 again fails.
    let result = link_source_head(&mut store, e1, SlotRef::null());
    assert_eq!(result, Err(AdjacencyError::AlreadyLinked));
}

#[test]
fn link_null_node_fails() {
    let mut store = EdgeTable::new();
    let e1 = SlotRef::new(1, 0);
    store.write(e1, &EdgeRecord::new(100, 1, SlotRef::null(), SlotRef::null()));

    let result = link_source_head(&mut store, e1, SlotRef::null());
    assert_eq!(result, Err(AdjacencyError::NullNode));
}

#[test]
fn link_missing_edge_fails() {
    let mut store = EdgeTable::new();
    let e1 = SlotRef::new(1, 0);
    assert_eq!(
        link_target_head(&mut store, e1, SlotRef::null()),
        Err(AdjacencyError::InvalidSlot)
    );
    assert_eq!(unlink_target(&mut store, e1), Err(AdjacencyError::InvalidSlot));
    assert!(store.read(e1).is_none());
}

#[test]
fn unlinking_the_only_edge_leaves_an_empty_list() {
    let mut store = EdgeTable::new();
    let e1 = SlotRef::new(1, 0);
    store.write(e1, &EdgeRecord::new(100, 1, SlotRef::new(10, 0), SlotRef::null()));
    let _ = link_source_head(&mut store, e1, SlotRef::null()).unwrap();
    let before = store.read(e1).unwrap();
    assert_eq!(unlink_source(&mut store, e1), Ok(Some(SlotRef::null())));
    assert_eq!(store.read(e1).unwrap(), before);
}
