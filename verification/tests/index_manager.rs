use rgraph::graph::record::{SlotRef, ValueType};
use rgraph::index::key::{edge_id_key, node_id_key, rdf_osp_key, rdf_pos_key, rdf_spo_key};
use rgraph::index::manager::{IndexManager, IndexMutation};
use rgraph::index::rdf_store::{Permutation, RdfQuad, RdfStore, RdfTriple};

#[test]
fn insert_and_lookup_exact() {
    let mut store = RdfStore::new();
    let triple = RdfTriple {
        subject: 1,
        predicate: 10,
        object: 100,
    };
    let slot = SlotRef::new(5, 3);
    store.insert(&triple, slot, Some(7)).unwrap();
    let result = store.lookup(&triple);
    assert_eq!(result, Some((slot, Some(7))));
}

#[test]
fn delete_removes_from_all_indexes() {
    let mut store = RdfStore::new();
    let t = RdfTriple {
        subject: 1,
        predicate: 10,
        object: 100,
    };
    store.insert(&t, SlotRef::new(1, 0), None).unwrap();
    assert!(store.delete(&t).unwrap());
    assert!(store.lookup(&t).is_none());
}

#[test]
fn scan_by_subject_predicate() {
    let mut store = RdfStore::new();
    let t1 = RdfTriple {
        subject: 1,
        predicate: 10,
        object: 100,
    };
    let t2 = RdfTriple {
        subject: 1,
        predicate: 10,
        object: 101,
    };
    let t3 = RdfTriple {
        subject: 1,
        predicate: 11,
        object: 200,
    };
    store.insert(&t1, SlotRef::new(1, 0), None).unwrap();
    store.insert(&t2, SlotRef::new(2, 0), None).unwrap();
    store.insert(&t3, SlotRef::new(3, 0), None).unwrap();

    let results = store.scan_by_subject_predicate(1, 10);
    assert_eq!(results.len(), 2);
    assert!(results.iter().any(|(t, _, _)| t.object == 100));
    assert!(results.iter().any(|(t, _, _)| t.object == 101));
}

#[test]
fn scan_by_subject() {
    let mut store = RdfStore::new();
    for i in 1u128..=50 {
        let t = RdfTriple {
            subject: 42,
            predicate: i as u64,
            object: i * 10,
        };
        store.insert(&t, SlotRef::new(i as u32, 0), None).unwrap();
    }
    let results = store.scan_by_subject(42);
    assert_eq!(results.len(), 50);
}

#[test]
fn scan_by_object() {
    let mut store = RdfStore::new();
    let t1 = RdfTriple {
        subject: 1,
        predicate: 10,
        object: 99,
    };
    let t2 = RdfTriple {
        subject: 2,
        predicate: 20,
        object: 99,
    };
    let t3 = RdfTriple {
        subject: 3,
        predicate: 30,
        object: 100,
    };
    store.insert(&t1, SlotRef::new(1, 0), None).unwrap();
    store.insert(&t2, SlotRef::new(2, 0), None).unwrap();
    store.insert(&t3, SlotRef::new(3, 0), None).unwrap();

    let results = store.scan_by_object(99);
    assert_eq!(results.len(), 2);
}

#[test]
fn scan_by_predicate_object() {
    let mut store = RdfStore::new();
    let t1 = RdfTriple {
        subject: 1,
        predicate: 10,
        object: 99,
    };
    let t2 = RdfTriple {
        subject: 2,
        predicate: 10,
        object: 99,
    };
    let t3 = RdfTriple {
        subject: 3,
        predicate: 20,
        object: 99,
    };
    store.insert(&t1, SlotRef::new(1, 0), None).unwrap();
    store.insert(&t2, SlotRef::new(2, 0), None).unwrap();
    store.insert(&t3, SlotRef::new(3, 0), None).unwrap();

    let results = store.scan_by_predicate_object(10, 99);
    assert_eq!(results.len(), 2);
}

#[test]
fn pos_scan_returns_correctly_depermuted_triples() {
    // A POS scan reads keys laid out as predicate|object|subject; without
    // de-permutation the returned triple fields would be scrambled.
    let mut store = RdfStore::new();
    let t1 = RdfTriple { subject: 11, predicate: 7, object: 99 };
    let t2 = RdfTriple { subject: 22, predicate: 7, object: 99 };
    store.insert(&t1, SlotRef::new(1, 0), None).unwrap();
    store.insert(&t2, SlotRef::new(2, 0), None).unwrap();

    let results = store.scan_by_predicate_object(7, 99);
    assert_eq!(results.len(), 2);
    let mut subjects: Vec<u128> = results.iter().map(|(t, _, _)| t.subject).collect();
    subjects.sort_unstable();
    assert_eq!(subjects, vec![11, 22], "subjects must be de-permuted correctly");
    for (t, _, _) in &results {
        assert_eq!(t.predicate, 7, "predicate must round-trip");
        assert_eq!(t.object, 99, "object must round-trip");
    }
}

#[test]
fn osp_scan_returns_correctly_depermuted_triples() {
    // An OSP scan reads keys laid out as object|subject|predicate.
    let mut store = RdfStore::new();
    let t1 = RdfTriple { subject: 5, predicate: 30, object: 100 };
    let t2 = RdfTriple { subject: 6, predicate: 40, object: 100 };
    store.insert(&t1, SlotRef::new(1, 0), None).unwrap();
    store.insert(&t2, SlotRef::new(2, 0), None).unwrap();

    let results = store.scan_by_object(100);
    assert_eq!(results.len(), 2);
    assert!(
        results.iter().any(|(t, _, _)| *t == t1),
        "OSP scan must reconstruct {t1:?} exactly"
    );
    assert!(
        results.iter().any(|(t, _, _)| *t == t2),
        "OSP scan must reconstruct {t2:?} exactly"
    );
}

#[test]
fn insert_many_and_scan() {
    let mut store = RdfStore::new();
    for s in 1u128..=10 {
        for p in 1u64..=10 {
            for o in 1u128..=10 {
                let t = RdfTriple { subject: s, predicate: p, object: o };
                store.insert(&t, SlotRef::new((s + p as u128 + o) as u32, 0), None).unwrap();
            }
        }
    }
    let results = store.scan_by_subject_predicate(5, 5);
    assert_eq!(results.len(), 10);
}

#[test]
fn batch_insert_and_lookup() {
    let mut mgr = IndexManager::new();
    let mutations = [
        IndexMutation::InsertNode {
            node_id: 1,
            slot: SlotRef::new(10, 5),
        },
        IndexMutation::InsertLabel {
            label_id: 7,
            node_id: 1,
            slot: SlotRef::new(10, 5),
        },
        IndexMutation::InsertProperty {
            property_id: 3,
            value_type: ValueType::Int64,
            payload: 42i64.to_be_bytes().to_vec(),
            entity_id: 1,
            slot: SlotRef::new(10, 6),
        },
    ];
    mgr.apply_batch(&mutations).unwrap();

    assert!(mgr.node_index.search(&node_id_key(1)).is_some());
    assert!(mgr.label_index.lookup(7, 1).is_some());
    assert!(mgr.property_index.lookup(3, ValueType::Int64, &42i64.to_be_bytes(), 1).is_some());
}

#[test]
fn batch_delete_removes_entries() {
    let mut mgr = IndexManager::new();
    mgr.apply(&IndexMutation::InsertNode {
        node_id: 2,
        slot: SlotRef::new(20, 0),
    })
    .unwrap();
    mgr.apply(&IndexMutation::DeleteNode { node_id: 2 }).unwrap();
    assert!(mgr.node_index.search(&node_id_key(2)).is_none());
}

#[test]
fn batch_rdf_roundtrip() {
    let mut mgr = IndexManager::new();
    let triple = RdfTriple {
        subject: 1,
        predicate: 10,
        object: 100,
    };
    mgr.apply(&IndexMutation::InsertRdf {
        triple,
        slot: SlotRef::new(5, 3),
        graph: Some(7),
    })
    .unwrap();
    assert!(mgr.rdf_store.lookup(&triple).is_some());

    mgr.apply(&IndexMutation::DeleteRdf { triple }).unwrap();
    assert!(mgr.rdf_store.lookup(&triple).is_none());
}

#[test]
fn batch_adjacency_roundtrip() {
    let mut mgr = IndexManager::new();
    mgr.apply(&IndexMutation::InsertAdjacency {
        source_id: 1,
        type_id: 10,
        target_id: 100,
        slot: SlotRef::new(5, 3),
    })
    .unwrap();
    assert!(mgr.adjacency_index.lookup(1, 10, 100).is_some());

    mgr.apply(&IndexMutation::DeleteAdjacency {
        source_id: 1,
        type_id: 10,
        target_id: 100,
    })
    .unwrap();
    assert!(mgr.adjacency_index.lookup(1, 10, 100).is_none());
}

#[test]
fn apply_batch_rolls_back_applied_prefix_on_failure() {
    // Directly exercise the rollback path: a batch that fails partway must
    // undo the mutations that already applied, leaving pre-existing state
    // intact.
    let mut mgr = IndexManager::new();
    mgr.apply(&IndexMutation::InsertNode {
        node_id: 100,
        slot: SlotRef::new(1, 0),
    })
    .unwrap();

    // Simulate `apply_batch` failing at the third mutation: apply the first
    // two, then run the same rollback procedure `apply_batch` uses.
    let applied = [
        IndexMutation::InsertNode { node_id: 1, slot: SlotRef::new(2, 0) },
        IndexMutation::InsertEdge { edge_id: 2, slot: SlotRef::new(3, 0) },
    ];
    for m in &applied {
        mgr.apply_one(m).unwrap();
    }
    assert!(mgr.node_index.search(&node_id_key(1)).is_some());
    assert!(mgr.edge_index.search(&edge_id_key(2)).is_some());

    // Rollback in reverse order, as `apply_batch` does on error.
    for m in applied.iter().rev() {
        let inv = IndexManager::inverse(m).expect("inserts are invertible");
        mgr.apply_one(&inv).unwrap();
    }

    assert!(
        mgr.node_index.search(&node_id_key(1)).is_none(),
        "rolled-back node 1 must be absent"
    );
    assert!(
        mgr.edge_index.search(&edge_id_key(2)).is_none(),
        "rolled-back edge 2 must be absent"
    );
    assert!(
        mgr.node_index.search(&node_id_key(100)).is_some(),
        "pre-existing node 100 must survive the rollback"
    );
}

#[test]
fn apply_batch_inverse_round_trips_to_empty() {
    // Applying a set of inserts and then their inverses in reverse order
    // (the exact rollback procedure) must leave no trace.
    let mut mgr = IndexManager::new();
    let inserts = [
        IndexMutation::InsertNode { node_id: 1, slot: SlotRef::new(1, 0) },
        IndexMutation::InsertEdge { edge_id: 2, slot: SlotRef::new(2, 0) },
        IndexMutation::InsertLabel { label_id: 3, node_id: 1, slot: SlotRef::new(1, 0) },
        IndexMutation::InsertRdf {
            triple: RdfTriple { subject: 1, predicate: 2, object: 3 },
            slot: SlotRef::new(5, 0),
            graph: None,
        },
    ];
    mgr.apply_batch(&inserts).unwrap();
    assert!(mgr.node_index.search(&node_id_key(1)).is_some());

    for m in inserts.iter().rev() {
        let inv = IndexManager::inverse(m).expect("inserts must be invertible");
        mgr.apply_one(&inv).unwrap();
    }
    assert!(mgr.node_index.search(&node_id_key(1)).is_none());
    assert!(mgr.edge_index.search(&edge_id_key(2)).is_none());
    assert!(mgr.label_index.lookup(3, 1).is_none());
    assert!(
        mgr.rdf_store
            .lookup(&RdfTriple { subject: 1, predicate: 2, object: 3 })
            .is_none()
    );
}

#[test]
fn failing_batch_leaves_the_indexes_as_they_were() {
    let mut mgr = IndexManager::default();
    mgr.apply(&IndexMutation::InsertNode { node_id: 100, slot: SlotRef::new(1, 0) }).unwrap();
    let batch = [
        IndexMutation::InsertNode { node_id: 1, slot: SlotRef::new(2, 0) },
        IndexMutation::InsertType { type_id: 4, edge_id: 2, slot: SlotRef::new(3, 0) },
        IndexMutation::DeleteEdge { edge_id: 77 },
    ];
    // Deleting an edge that no index holds is no failure.
    mgr.apply_batch(&batch).unwrap();
    assert_eq!(mgr.type_index.lookup(4, 2), Some(SlotRef::new(3, 0)));
    assert!(IndexManager::inverse(&batch[2]).is_none());
    assert_eq!(mgr.node_index.search(&node_id_key(100)), Some(SlotRef::new(1, 0)));
}

#[test]
fn permuted_keys_decode() {
    let t = RdfTriple { subject: 1, predicate: 2, object: 3 };
    assert_eq!(Permutation::Spo.decode_triple(rdf_spo_key(1, 2, 3).as_slice()), Some(t));
    assert_eq!(Permutation::Pos.decode_triple(rdf_pos_key(2, 3, 1).as_slice()), Some(t));
    assert_eq!(Permutation::Osp.decode_triple(rdf_osp_key(3, 1, 2).as_slice()), Some(t));
    assert_eq!(Permutation::Spo.decode_triple(&[0u8; 39]), None);
    assert_eq!(RdfQuad::new(9, 1, 2, 3).triple, t);
}

#[test]
fn deleted_triple_leaves_every_scan() {
    let mut store = RdfStore::default();
    let t = RdfTriple { subject: 1, predicate: 2, object: 3 };
    store.insert(&t, SlotRef::new(1, 0), Some(4)).unwrap();
    assert_eq!(store.scan_by_subject(1), vec![(t, SlotRef::new(1, 0), Some(4))]);
    assert!(store.delete(&t).unwrap());
    assert!(!store.delete(&t).unwrap());
    assert!(store.scan_by_subject(1).is_empty());
    assert!(store.scan_by_object(3).is_empty());
    assert!(store.scan_by_predicate_object(2, 3).is_empty());
}

#[test]
fn rollback_brings_back_overwritten_and_deleted_entries() {
    let mut mgr = IndexManager::new();
    let triple = RdfTriple { subject: 1, predicate: 2, object: 3 };
    let payload = 42i64.to_be_bytes().to_vec();
    let before = [
        IndexMutation::InsertNode { node_id: 1, slot: SlotRef::new(1, 1) },
        IndexMutation::InsertEdge { edge_id: 2, slot: SlotRef::new(1, 2) },
        IndexMutation::InsertLabel { label_id: 3, node_id: 1, slot: SlotRef::new(1, 3) },
        IndexMutation::InsertProperty {
            property_id: 5,
            value_type: ValueType::Int64,
            payload: payload.clone(),
            entity_id: 1,
            slot: SlotRef::new(1, 4),
        },
        IndexMutation::InsertAdjacency {
            source_id: 1,
            type_id: 4,
            target_id: 9,
            slot: SlotRef::new(1, 5),
        },
        IndexMutation::InsertRdf { triple, slot: SlotRef::new(1, 6), graph: Some(7) },
    ];
    mgr.apply_batch(&before).unwrap();

    // Overwrites, deletes and an insert, each noted down before it is made.
    let batch = [
        IndexMutation::InsertNode { node_id: 1, slot: SlotRef::new(8, 8) },
        IndexMutation::DeleteNode { node_id: 1 },
        IndexMutation::DeleteEdge { edge_id: 2 },
        IndexMutation::InsertLabel { label_id: 3, node_id: 1, slot: SlotRef::new(8, 8) },
        IndexMutation::DeleteProperty {
            property_id: 5,
            value_type: ValueType::Int64,
            payload: payload.clone(),
            entity_id: 1,
        },
        IndexMutation::DeleteAdjacency { source_id: 1, type_id: 4, target_id: 9 },
        IndexMutation::InsertRdf { triple, slot: SlotRef::new(8, 8), graph: None },
        IndexMutation::InsertType { type_id: 4, edge_id: 2, slot: SlotRef::new(8, 8) },
    ];
    let mut undo = Vec::new();
    for m in &batch {
        undo.push(mgr.restoring(m));
        mgr.apply_one(m).unwrap();
    }
    assert_eq!(mgr.node_index.search(&node_id_key(1)), None);
    assert_eq!(mgr.rdf_store.lookup(&triple), Some((SlotRef::new(8, 8), None)));

    for u in undo.iter().rev() {
        mgr.apply_one(u).unwrap();
    }
    assert_eq!(mgr.node_index.search(&node_id_key(1)), Some(SlotRef::new(1, 1)));
    assert_eq!(mgr.edge_index.search(&edge_id_key(2)), Some(SlotRef::new(1, 2)));
    assert_eq!(mgr.label_index.lookup(3, 1), Some(SlotRef::new(1, 3)));
    assert_eq!(
        mgr.property_index.lookup(5, ValueType::Int64, &payload, 1),
        Some(SlotRef::new(1, 4))
    );
    assert_eq!(mgr.adjacency_index.lookup(1, 4, 9), Some(SlotRef::new(1, 5)));
    assert_eq!(mgr.rdf_store.lookup(&triple), Some((SlotRef::new(1, 6), Some(7))));
    assert_eq!(mgr.type_index.lookup(4, 2), None);
}
