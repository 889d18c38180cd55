//! Index manager: all secondary indexes, updated in batches.
//!
//! The mutations of a batch are applied in order. What each of them replaces or
//! drops is remembered; where one fails, those before it are undone in reverse
//! order, so that a batch is applied as a whole or not at all.

use vstd::prelude::*;

use crate::bytes::copy_range;
use crate::graph::record::SlotRef;
use crate::graph::record::ValueType;
use crate::index::adjacency_index::AdjacencyIndex;
use crate::index::adjacency_index::Link;
use crate::index::btree::least;
use crate::index::btree::BTreeError;
use crate::index::key::be_u128;
use crate::index::key::edge_id_key;
use crate::index::key::node_id_key;
use crate::index::label::LabelIndex;
use crate::index::property::index_value;
use crate::index::property::PropertyIndex;
use crate::index::property::PropertyKey;
use crate::index::rdf_store::RdfStore;
use crate::index::rdf_store::RdfTriple;
use crate::index::slots::insert_result;
use crate::index::slots::SlotIndex;
use crate::index::type_index::TypeIndex;

verus! {

/// A change of one secondary index.
#[derive(Debug, Clone)]
#[allow(inconsistent_fields)]
pub enum IndexMutation {
    /// A node gets a slot.
    InsertNode { node_id: u64, slot: SlotRef },
    /// A node is dropped.
    DeleteNode { node_id: u64 },
    /// An edge gets a slot.
    InsertEdge { edge_id: u64, slot: SlotRef },
    /// An edge is dropped.
    DeleteEdge { edge_id: u64 },
    /// A node gets a label.
    InsertLabel { label_id: u64, node_id: u128, slot: SlotRef },
    /// A node loses a label.
    DeleteLabel { label_id: u64, node_id: u128 },
    /// An edge gets a type.
    InsertType { type_id: u64, edge_id: u128, slot: SlotRef },
    /// An edge loses a type.
    DeleteType { type_id: u64, edge_id: u128 },
    /// An entity gets a property value.
    InsertProperty {
        property_id: u64,
        value_type: ValueType,
        payload: Vec<u8>,
        entity_id: u128,
        slot: SlotRef,
    },
    /// An entity loses a property value.
    DeleteProperty {
        property_id: u64,
        value_type: ValueType,
        payload: Vec<u8>,
        entity_id: u128,
    },
    /// Two nodes become adjacent.
    InsertAdjacency { source_id: u128, type_id: u64, target_id: u128, slot: SlotRef },
    /// Two nodes are no longer adjacent.
    DeleteAdjacency { source_id: u128, type_id: u64, target_id: u128 },
    /// A triple is added.
    InsertRdf { triple: RdfTriple, slot: SlotRef, graph: Option<u64> },
    /// A triple is dropped.
    DeleteRdf { triple: RdfTriple },
}

/// What the indexes hold.
#[verifier::ext_equal]
pub struct IndexState {
    pub nodes: Map<Seq<u8>, SlotRef>,
    pub edges: Map<Seq<u8>, SlotRef>,
    pub labels: Map<(u64, u128), SlotRef>,
    pub types: Map<(u64, u128), SlotRef>,
    pub properties: Map<PropertyKey, SlotRef>,
    pub links: Map<Link, SlotRef>,
    pub triples: Map<RdfTriple, (SlotRef, Option<u64>)>,
}

/// Is the mutation one that adds an entry?
pub open spec fn is_insert(m: IndexMutation) -> bool {
    match m {
        IndexMutation::InsertNode { .. } => true,
        IndexMutation::InsertEdge { .. } => true,
        IndexMutation::InsertLabel { .. } => true,
        IndexMutation::InsertType { .. } => true,
        IndexMutation::InsertProperty { .. } => true,
        IndexMutation::InsertAdjacency { .. } => true,
        IndexMutation::InsertRdf { .. } => true,
        _ => false,
    }
}

/// The indexes after a mutation.
pub open spec fn applied(s: IndexState, m: IndexMutation) -> IndexState {
    match m {
        IndexMutation::InsertNode { node_id, slot } => IndexState {
            nodes: s.nodes.insert(be_u128(node_id as u128), slot),
            ..s
        },
        IndexMutation::DeleteNode { node_id } => IndexState {
            nodes: s.nodes.remove(be_u128(node_id as u128)),
            ..s
        },
        IndexMutation::InsertEdge { edge_id, slot } => IndexState {
            edges: s.edges.insert(be_u128(edge_id as u128), slot),
            ..s
        },
        IndexMutation::DeleteEdge { edge_id } => IndexState {
            edges: s.edges.remove(be_u128(edge_id as u128)),
            ..s
        },
        IndexMutation::InsertLabel { label_id, node_id, slot } => IndexState {
            labels: s.labels.insert((label_id, node_id), slot),
            ..s
        },
        IndexMutation::DeleteLabel { label_id, node_id } => IndexState {
            labels: s.labels.remove((label_id, node_id)),
            ..s
        },
        IndexMutation::InsertType { type_id, edge_id, slot } => IndexState {
            types: s.types.insert((type_id, edge_id), slot),
            ..s
        },
        IndexMutation::DeleteType { type_id, edge_id } => IndexState {
            types: s.types.remove((type_id, edge_id)),
            ..s
        },
        IndexMutation::InsertProperty { property_id, value_type, payload, entity_id, slot } => IndexState {
            properties: s.properties.insert((property_id, index_value(value_type, payload@), entity_id), slot),
            ..s
        },
        IndexMutation::DeleteProperty { property_id, value_type, payload, entity_id } => IndexState {
            properties: s.properties.remove((property_id, index_value(value_type, payload@), entity_id)),
            ..s
        },
        IndexMutation::InsertAdjacency { source_id, type_id, target_id, slot } => IndexState {
            links: s.links.insert((source_id, type_id, target_id), slot),
            ..s
        },
        IndexMutation::DeleteAdjacency { source_id, type_id, target_id } => IndexState {
            links: s.links.remove((source_id, type_id, target_id)),
            ..s
        },
        IndexMutation::InsertRdf { triple, slot, graph } => IndexState {
            triples: s.triples.insert(triple, (slot, graph)),
            ..s
        },
        IndexMutation::DeleteRdf { triple } => IndexState {
            triples: s.triples.remove(triple),
            ..s
        },
    }
}

/// The indexes without the entry that a mutation adds.
pub open spec fn without_added(s: IndexState, m: IndexMutation) -> IndexState {
    match m {
        IndexMutation::InsertNode { node_id, .. } => IndexState {
            nodes: s.nodes.remove(be_u128(node_id as u128)),
            ..s
        },
        IndexMutation::InsertEdge { edge_id, .. } => IndexState {
            edges: s.edges.remove(be_u128(edge_id as u128)),
            ..s
        },
        IndexMutation::InsertLabel { label_id, node_id, .. } => IndexState {
            labels: s.labels.remove((label_id, node_id)),
            ..s
        },
        IndexMutation::InsertType { type_id, edge_id, .. } => IndexState {
            types: s.types.remove((type_id, edge_id)),
            ..s
        },
        IndexMutation::InsertProperty { property_id, value_type, payload, entity_id, .. } => IndexState {
            properties: s.properties.remove((property_id, index_value(value_type, payload@), entity_id)),
            ..s
        },
        IndexMutation::InsertAdjacency { source_id, type_id, target_id, .. } => IndexState {
            links: s.links.remove((source_id, type_id, target_id)),
            ..s
        },
        IndexMutation::InsertRdf { triple, .. } => IndexState {
            triples: s.triples.remove(triple),
            ..s
        },
        _ => s,
    }
}

/// One of the indexes.
#[derive(Debug, Clone, Copy, PartialEq, Eq, Structural)]
pub enum IndexKind {
    Nodes,
    Edges,
    Labels,
    Types,
    Properties,
    Links,
    Triples,
}

/// The index that a mutation changes.
pub open spec fn kind_of(m: IndexMutation) -> IndexKind {
    match m {
        IndexMutation::InsertNode { .. } => IndexKind::Nodes,
        IndexMutation::DeleteNode { .. } => IndexKind::Nodes,
        IndexMutation::InsertEdge { .. } => IndexKind::Edges,
        IndexMutation::DeleteEdge { .. } => IndexKind::Edges,
        IndexMutation::InsertLabel { .. } => IndexKind::Labels,
        IndexMutation::DeleteLabel { .. } => IndexKind::Labels,
        IndexMutation::InsertType { .. } => IndexKind::Types,
        IndexMutation::DeleteType { .. } => IndexKind::Types,
        IndexMutation::InsertProperty { .. } => IndexKind::Properties,
        IndexMutation::DeleteProperty { .. } => IndexKind::Properties,
        IndexMutation::InsertAdjacency { .. } => IndexKind::Links,
        IndexMutation::DeleteAdjacency { .. } => IndexKind::Links,
        IndexMutation::InsertRdf { .. } => IndexKind::Triples,
        IndexMutation::DeleteRdf { .. } => IndexKind::Triples,
    }
}

/// Does `u`, applied after `m`, bring the indexes back to `s`, and change the same
/// index?
pub open spec fn restores(s: IndexState, m: IndexMutation, u: IndexMutation) -> bool {
    &&& applied(applied(s, m), u) == s
    &&& kind_of(u) == kind_of(m)
}

/// The indexes after the first `n` mutations.
pub open spec fn after(s: IndexState, ms: Seq<IndexMutation>, n: int) -> IndexState
    decreases n,
{
    if n <= 0 {
        s
    } else {
        applied(after(s, ms, n - 1), ms[n - 1])
    }
}

/// The indexes after the first `n` of these mutations, the last one first.
pub open spec fn rolled_back(s: IndexState, us: Seq<IndexMutation>, n: int) -> IndexState
    decreases n,
{
    if n <= 0 {
        s
    } else {
        rolled_back(applied(s, us[n - 1]), us, n - 1)
    }
}

/// What each mutation does: it adds, replaces or drops one entry of one index.
pub proof fn law_mutation_effect(s: IndexState, m: IndexMutation)
    ensures
        m matches IndexMutation::InsertNode { node_id, slot } ==> applied(s, m) == (IndexState {
                nodes: s.nodes.insert(be_u128(node_id as u128), slot),
                ..s
            }),
        m matches IndexMutation::DeleteNode { node_id } ==> applied(s, m) == (IndexState {
                nodes: s.nodes.remove(be_u128(node_id as u128)),
                ..s
            }),
        m matches IndexMutation::InsertEdge { edge_id, slot } ==> applied(s, m) == (IndexState {
                edges: s.edges.insert(be_u128(edge_id as u128), slot),
                ..s
            }),
        m matches IndexMutation::DeleteEdge { edge_id } ==> applied(s, m) == (IndexState {
                edges: s.edges.remove(be_u128(edge_id as u128)),
                ..s
            }),
        m matches IndexMutation::InsertLabel { label_id, node_id, slot } ==> applied(s, m) == (IndexState {
                labels: s.labels.insert((label_id, node_id), slot),
                ..s
            }),
        m matches IndexMutation::DeleteLabel { label_id, node_id } ==> applied(s, m) == (IndexState {
                labels: s.labels.remove((label_id, node_id)),
                ..s
            }),
        m matches IndexMutation::InsertType { type_id, edge_id, slot } ==> applied(s, m) == (IndexState {
                types: s.types.insert((type_id, edge_id), slot),
                ..s
            }),
        m matches IndexMutation::DeleteType { type_id, edge_id } ==> applied(s, m) == (IndexState {
                types: s.types.remove((type_id, edge_id)),
                ..s
            }),
        m matches IndexMutation::InsertProperty { property_id, value_type, payload, entity_id, slot } ==> applied(s, m) == (IndexState {
                properties: s.properties.insert((property_id, index_value(value_type, payload@), entity_id), slot),
                ..s
            }),
        m matches IndexMutation::DeleteProperty { property_id, value_type, payload, entity_id } ==> applied(s, m) == (IndexState {
                properties: s.properties.remove((property_id, index_value(value_type, payload@), entity_id)),
                ..s
            }),
        m matches IndexMutation::InsertAdjacency { source_id, type_id, target_id, slot } ==> applied(s, m) == (IndexState {
                links: s.links.insert((source_id, type_id, target_id), slot),
                ..s
            }),
        m matches IndexMutation::DeleteAdjacency { source_id, type_id, target_id } ==> applied(s, m) == (IndexState {
                links: s.links.remove((source_id, type_id, target_id)),
                ..s
            }),
        m matches IndexMutation::InsertRdf { triple, slot, graph } ==> applied(s, m) == (IndexState {
                triples: s.triples.insert(triple, (slot, graph)),
                ..s
            }),
        m matches IndexMutation::DeleteRdf { triple } ==> applied(s, m) == (IndexState {
                triples: s.triples.remove(triple),
                ..s
            }),
{
}

/// A batch is its mutations one after the other.
pub proof fn law_batch_in_order(s: IndexState, ms: Seq<IndexMutation>, n: int)
    ensures
        after(s, ms, 0) == s,
        0 <= n < ms.len() ==> after(s, ms, n + 1) == applied(after(s, ms, n), ms[n]),
{
}

/// A mutation changes no index but that of its kind.
pub proof fn law_mutation_kind(s: IndexState, m: IndexMutation)
    ensures
        kind_of(m) != IndexKind::Nodes ==> applied(s, m).nodes == s.nodes,
        kind_of(m) != IndexKind::Edges ==> applied(s, m).edges == s.edges,
        kind_of(m) != IndexKind::Labels ==> applied(s, m).labels == s.labels,
        kind_of(m) != IndexKind::Types ==> applied(s, m).types == s.types,
        kind_of(m) != IndexKind::Properties ==> applied(s, m).properties == s.properties,
        kind_of(m) != IndexKind::Links ==> applied(s, m).links == s.links,
        kind_of(m) != IndexKind::Triples ==> applied(s, m).triples == s.triples,
{
}

/// Dropping what an insertion added leaves what dropping it without the insertion leaves.
pub proof fn law_insertion_can_be_dropped(s: IndexState, m: IndexMutation)
    requires
        is_insert(m),
    ensures
        without_added(applied(s, m), m) == without_added(s, m),
{
    assert(without_added(applied(s, m), m) =~= without_added(s, m));
}

/// Rolling back a batch with what restores each of its mutations leaves the indexes
/// as they were before it.
pub proof fn law_rollback_restores(
    s: IndexState,
    ms: Seq<IndexMutation>,
    us: Seq<IndexMutation>,
    n: int,
)
    requires
        0 <= n <= ms.len(),
        forall|i: int| 0 <= i < n ==> restores(#[trigger] after(s, ms, i), ms[i], us[i]),
    ensures
        rolled_back(after(s, ms, n), us, n) == s,
    decreases n,
{
    if n > 0 {
        assert(restores(after(s, ms, n - 1), ms[n - 1], us[n - 1]));
        law_rollback_restores(s, ms, us, n - 1);
    }
}

/// How many of the first `n` mutations change an index?
pub open spec fn changes(ms: Seq<IndexMutation>, n: int, kind: IndexKind) -> int
    decreases n,
{
    if n <= 0 {
        0
    } else if kind_of(ms[n - 1]) == kind {
        changes(ms, n - 1, kind) + 1
    } else {
        changes(ms, n - 1, kind)
    }
}

proof fn lemma_changes(ms: Seq<IndexMutation>, n: int, kind: IndexKind)
    requires
        0 <= n,
    ensures
        0 <= changes(ms, n, kind) <= n,
    decreases n,
{
    if n > 0 {
        lemma_changes(ms, n - 1, kind);
    }
}

/// All secondary indexes.
pub struct IndexManager {
    pub node_index: SlotIndex,
    pub edge_index: SlotIndex,
    pub label_index: LabelIndex,
    pub type_index: TypeIndex,
    pub property_index: PropertyIndex,
    pub adjacency_index: AdjacencyIndex,
    pub rdf_store: RdfStore,
}

/// Does a batch that starts at `trace[0]` go through the states `trace`, no
/// mutation on the way failing?
pub open spec fn is_run(trace: Seq<IndexManager>, start: IndexManager, ms: Seq<IndexMutation>) -> bool {
    &&& 1 <= trace.len() <= ms.len() + 1
    &&& trace[0] == start
    &&& forall|i: int| 0 <= i < trace.len() ==> #[trigger] run_step(trace, start, ms, i)
}

/// Is state `i` of a run the one after `i` mutations, and has the index of the next
/// one room for it and for undoing all of them?
pub open spec fn run_step(
    trace: Seq<IndexManager>,
    start: IndexManager,
    ms: Seq<IndexMutation>,
    i: int,
) -> bool {
    &&& trace[i].wf()
    &&& trace[i].state() == after(start.state(), ms, i)
    &&& i + 1 < trace.len() ==> trace[i].room_in(kind_of(ms[i])) >= i + 2
}

impl IndexManager {
    pub open spec fn wf(&self) -> bool {
        &&& self.node_index.wf()
        &&& self.edge_index.wf()
        &&& self.label_index.wf()
        &&& self.type_index.wf()
        &&& self.property_index.wf()
        &&& self.adjacency_index.wf()
        &&& self.rdf_store.wf()
    }

    /// What the indexes hold.
    pub open spec fn state(&self) -> IndexState {
        IndexState {
            nodes: self.node_index@,
            edges: self.edge_index@,
            labels: self.label_index@,
            types: self.type_index@,
            properties: self.property_index@,
            links: self.adjacency_index@,
            triples: self.rdf_store@,
        }
    }

    /// Are the page ids used up that the mutation may need? A mutation that drops
    /// an entry needs none.
    pub open spec fn is_full_for(&self, m: IndexMutation) -> bool {
        match m {
            IndexMutation::InsertNode { .. } => self.node_index.is_full(),
            IndexMutation::InsertEdge { .. } => self.edge_index.is_full(),
            IndexMutation::InsertLabel { .. } => self.label_index.is_full(),
            IndexMutation::InsertType { .. } => self.type_index.is_full(),
            IndexMutation::InsertProperty { .. } => self.property_index.is_full(),
            IndexMutation::InsertAdjacency { .. } => self.adjacency_index.is_full(),
            IndexMutation::InsertRdf { .. } => self.rdf_store.is_full(),
            _ => false,
        }
    }

    /// For how many insertions has every index page ids left at least?
    pub open spec fn room(&self) -> int {
        least(
            least(
                least(self.node_index.room(), self.edge_index.room()),
                least(self.label_index.room(), self.type_index.room()),
            ),
            least(
                self.property_index.room(),
                least(self.adjacency_index.room(), self.rdf_store.room()),
            ),
        )
    }

    /// For how many insertions has an index page ids left at least?
    pub open spec fn room_in(&self, kind: IndexKind) -> int {
        match kind {
            IndexKind::Nodes => self.node_index.room(),
            IndexKind::Edges => self.edge_index.room(),
            IndexKind::Labels => self.label_index.room(),
            IndexKind::Types => self.type_index.room(),
            IndexKind::Properties => self.property_index.room(),
            IndexKind::Links => self.adjacency_index.room(),
            IndexKind::Triples => self.rdf_store.room(),
        }
    }

    /// With room left in its index, no mutation is refused.
    pub proof fn lemma_room(&self, m: IndexMutation)
        requires
            self.room_in(kind_of(m)) > 0,
        ensures
            !self.is_full_for(m),
    {
        match kind_of(m) {
            IndexKind::Nodes => self.node_index.lemma_room(),
            IndexKind::Edges => self.edge_index.lemma_room(),
            IndexKind::Labels => self.label_index.lemma_room(),
            IndexKind::Types => self.type_index.lemma_room(),
            IndexKind::Properties => self.property_index.lemma_room(),
            IndexKind::Links => self.adjacency_index.lemma_room(),
            IndexKind::Triples => self.rdf_store.lemma_room(),
        }
    }

    /// A manager with empty indexes.
    pub fn new() -> (r: Self)
        ensures
            r.wf(),
            r.state() == (IndexState {
                nodes: Map::empty(),
                edges: Map::empty(),
                labels: Map::empty(),
                types: Map::empty(),
                properties: Map::empty(),
                links: Map::empty(),
                triples: Map::empty(),
            }),
            forall|m: IndexMutation| !#[trigger] r.is_full_for(m),
            r.room() == 0x4000_0000,
    {
        IndexManager {
            node_index: SlotIndex::new(),
            edge_index: SlotIndex::new(),
            label_index: LabelIndex::new(),
            type_index: TypeIndex::new(),
            property_index: PropertyIndex::new(),
            adjacency_index: AdjacencyIndex::new(),
            rdf_store: RdfStore::new(),
        }
    }

    /// Applies a batch as a whole or not at all. A mutation fails where its index has
    /// not enough page ids left for it and for undoing the batch. Then those before it
    /// are undone, the last one first, and its error is returned.
    pub fn apply_batch(&mut self, mutations: &[IndexMutation]) -> (r: Result<(), BTreeError>)
        requires
            old(self).wf(),
        ensures
            final(self).wf(),
            r is Ok ==> final(self).state() == after(
                old(self).state(),
                mutations@,
                mutations@.len() as int,
            ),
            r is Err ==> final(self).state() == old(self).state(),
            exists|trace: Seq<IndexManager>| #[trigger]
                is_run(trace, *old(self), mutations@) && match r {
                    Ok(_) => trace.len() == mutations@.len() + 1,
                    Err(e) => e == BTreeError::SplitFailed && trace.len() <= mutations@.len()
                        && trace.last().room_in(kind_of(mutations@[trace.len() - 1]))
                        < trace.len() + 1,
                },
            old(self).room() >= 2 * mutations@.len() ==> r is Ok && final(self).room() >= old(
                self,
            ).room() - mutations@.len(),
    {
        let ghost start = *self;
        let ghost ms = mutations@;
        let ghost mut trace: Seq<IndexManager> = seq![*self];
        let mut undo: Vec<IndexMutation> = Vec::new();
        let mut n: usize = 0;
        assert(run_step(trace, start, ms, 0));
        while n < mutations.len()
            invariant
                n <= ms.len(),
                ms == mutations@,
                start == *old(self),
                self.wf(),
                trace.len() == n + 1,
                trace.last() == *self,
                is_run(trace, start, ms),
                undo@.len() == n,
                forall|i: int|
                    0 <= i < n ==> restores(
                        #[trigger] after(start.state(), ms, i),
                        ms[i],
                        undo@[i],
                    ),
                n > 0 ==> forall|kind: IndexKind| #[trigger]
                    changes(ms, n as int, kind) > 0 ==> self.room_in(kind) >= changes(
                        ms,
                        n as int,
                        kind,
                    ),
                start.room() >= 2 * ms.len() ==> self.room() >= start.room() - n,
            decreases ms.len() - n,
        {
            let m = &mutations[n];
            let ghost before = trace;
            assert(run_step(before, start, ms, n as int));
            if !self.has_room_after(m, n as u64 + 1) {
                assert(start.room() < 2 * ms.len());
                self.roll_back(&undo, Ghost(start.state()), Ghost(ms));
                return Err(BTreeError::SplitFailed);
            }
            undo.push(self.restoring(m));
            let ghost old_self = *self;
            proof {
                self.lemma_room(*m);
            }
            let _done = self.apply_one(m);
            proof {
                trace = trace.push(*self);
                assert forall|i: int| 0 <= i < trace.len() implies #[trigger] run_step(
                    trace,
                    start,
                    ms,
                    i,
                ) by {
                    if i < before.len() {
                        assert(run_step(before, start, ms, i));
                        assert(trace[i] == before[i]);
                    }
                }
                assert forall|kind: IndexKind| #[trigger]
                    changes(ms, n + 1, kind) > 0 implies self.room_in(kind) >= changes(
                    ms,
                    n + 1,
                    kind,
                ) by {
                    lemma_changes(ms, n as int, kind);
                    assert(self.room_in(kind) >= old_self.room_in(kind) - if kind == kind_of(*m) {
                        1int
                    } else {
                        0int
                    });
                }
            }
            n += 1;
        }
        assert(run_step(trace, start, ms, n as int));
        Ok(())
    }

    /// Undoes the mutations that were applied, the last one first.
    fn roll_back(
        &mut self,
        undo: &Vec<IndexMutation>,
        Ghost(s): Ghost<IndexState>,
        Ghost(ms): Ghost<Seq<IndexMutation>>,
    )
        requires
            old(self).wf(),
            undo@.len() <= ms.len(),
            old(self).state() == after(s, ms, undo@.len() as int),
            forall|i: int|
                0 <= i < undo@.len() ==> restores(#[trigger] after(s, ms, i), ms[i], undo@[i]),
            forall|kind: IndexKind| #[trigger]
                changes(ms, undo@.len() as int, kind) > 0 ==> old(self).room_in(kind) >= changes(
                    ms,
                    undo@.len() as int,
                    kind,
                ),
        ensures
            final(self).wf(),
            final(self).state() == rolled_back(
                old(self).state(),
                undo@,
                undo@.len() as int,
            ),
            final(self).state() == s,
    {
        let ghost reached = self.state();
        let mut k: usize = undo.len();
        while k > 0
            invariant
                k <= undo@.len() <= ms.len(),
                self.wf(),
                self.state() == after(s, ms, k as int),
                rolled_back(self.state(), undo@, k as int) == rolled_back(
                    reached,
                    undo@,
                    undo@.len() as int,
                ),
                forall|i: int|
                    0 <= i < undo@.len() ==> restores(#[trigger] after(s, ms, i), ms[i], undo@[i]),
                forall|kind: IndexKind| #[trigger]
                    changes(ms, k as int, kind) > 0 ==> self.room_in(kind) >= changes(
                        ms,
                        k as int,
                        kind,
                    ),
            decreases k,
        {
            let u = &undo[k - 1];
            let ghost old_self = *self;
            proof {
                assert(restores(after(s, ms, k - 1), ms[k - 1], undo@[k - 1]));
                let kind = kind_of(ms[k - 1]);
                lemma_changes(ms, k - 1, kind);
                assert(changes(ms, k as int, kind) > 0);
                self.lemma_room(*u);
            }
            let _done = self.apply_one(u);
            proof {
                assert forall|kind: IndexKind| #[trigger]
                    changes(ms, k - 1, kind) > 0 implies self.room_in(kind) >= changes(
                    ms,
                    k - 1,
                    kind,
                ) by {
                    assert(changes(ms, k as int, kind) > 0);
                    assert(self.room_in(kind) >= old_self.room_in(kind) - if kind == kind_of(*u) {
                        1int
                    } else {
                        0int
                    });
                }
            }
            k -= 1;
        }
    }

    /// Has the index that a mutation changes page ids left for one more insertion
    /// after `n` others?
    fn has_room_after(&self, m: &IndexMutation, n: u64) -> (r: bool)
        requires
            self.wf(),
        ensures
            r == (self.room_in(kind_of(*m)) > n),
    {
        match m {
            IndexMutation::InsertNode { .. } => self.node_index.has_room_after(n),
            IndexMutation::DeleteNode { .. } => self.node_index.has_room_after(n),
            IndexMutation::InsertEdge { .. } => self.edge_index.has_room_after(n),
            IndexMutation::DeleteEdge { .. } => self.edge_index.has_room_after(n),
            IndexMutation::InsertLabel { .. } => self.label_index.has_room_after(n),
            IndexMutation::DeleteLabel { .. } => self.label_index.has_room_after(n),
            IndexMutation::InsertType { .. } => self.type_index.has_room_after(n),
            IndexMutation::DeleteType { .. } => self.type_index.has_room_after(n),
            IndexMutation::InsertProperty { .. } => self.property_index.has_room_after(n),
            IndexMutation::DeleteProperty { .. } => self.property_index.has_room_after(n),
            IndexMutation::InsertAdjacency { .. } => self.adjacency_index.has_room_after(n),
            IndexMutation::DeleteAdjacency { .. } => self.adjacency_index.has_room_after(n),
            IndexMutation::InsertRdf { .. } => self.rdf_store.has_room_after(n),
            IndexMutation::DeleteRdf { .. } => self.rdf_store.has_room_after(n),
        }
    }

    /// The mutation that brings back what the indexes now hold, once `m` has been
    /// applied: it stores the present entry again, or drops the entry where there is
    /// none.
    pub fn restoring(&self, m: &IndexMutation) -> (u: IndexMutation)
        requires
            self.wf(),
        ensures
            restores(self.state(), *m, u),
    {
        broadcast use crate::bytes::be_bytes_len;

        let u = match m {
            IndexMutation::InsertNode { node_id, .. } | IndexMutation::DeleteNode { node_id } => {
                match self.node_index.search(&node_id_key(*node_id as u128)) {
                    Some(slot) => IndexMutation::InsertNode { node_id: *node_id, slot },
                    None => IndexMutation::DeleteNode { node_id: *node_id },
                }
            },
            IndexMutation::InsertEdge { edge_id, .. } | IndexMutation::DeleteEdge { edge_id } => {
                match self.edge_index.search(&edge_id_key(*edge_id as u128)) {
                    Some(slot) => IndexMutation::InsertEdge { edge_id: *edge_id, slot },
                    None => IndexMutation::DeleteEdge { edge_id: *edge_id },
                }
            },
            IndexMutation::InsertLabel { label_id, node_id, .. }
            | IndexMutation::DeleteLabel { label_id, node_id } => {
                match self.label_index.lookup(*label_id, *node_id) {
                    Some(slot) => IndexMutation::InsertLabel {
                        label_id: *label_id,
                        node_id: *node_id,
                        slot,
                    },
                    None => IndexMutation::DeleteLabel { label_id: *label_id, node_id: *node_id },
                }
            },
            IndexMutation::InsertType { type_id, edge_id, .. }
            | IndexMutation::DeleteType { type_id, edge_id } => {
                match self.type_index.lookup(*type_id, *edge_id) {
                    Some(slot) => IndexMutation::InsertType {
                        type_id: *type_id,
                        edge_id: *edge_id,
                        slot,
                    },
                    None => IndexMutation::DeleteType { type_id: *type_id, edge_id: *edge_id },
                }
            },
            IndexMutation::InsertProperty { property_id, value_type, payload, entity_id, .. }
            | IndexMutation::DeleteProperty { property_id, value_type, payload, entity_id } => {
                match self.property_index.lookup(
                    *property_id,
                    *value_type,
                    payload.as_slice(),
                    *entity_id,
                ) {
                    Some(slot) => IndexMutation::InsertProperty {
                        property_id: *property_id,
                        value_type: *value_type,
                        payload: copy_payload(payload),
                        entity_id: *entity_id,
                        slot,
                    },
                    None => IndexMutation::DeleteProperty {
                        property_id: *property_id,
                        value_type: *value_type,
                        payload: copy_payload(payload),
                        entity_id: *entity_id,
                    },
                }
            },
            IndexMutation::InsertAdjacency { source_id, type_id, target_id, .. }
            | IndexMutation::DeleteAdjacency { source_id, type_id, target_id } => {
                match self.adjacency_index.lookup(*source_id, *type_id, *target_id) {
                    Some(slot) => IndexMutation::InsertAdjacency {
                        source_id: *source_id,
                        type_id: *type_id,
                        target_id: *target_id,
                        slot,
                    },
                    None => IndexMutation::DeleteAdjacency {
                        source_id: *source_id,
                        type_id: *type_id,
                        target_id: *target_id,
                    },
                }
            },
            IndexMutation::InsertRdf { triple, .. } | IndexMutation::DeleteRdf { triple } => {
                match self.rdf_store.lookup(triple) {
                    Some((slot, graph)) => IndexMutation::InsertRdf {
                        triple: *triple,
                        slot,
                        graph,
                    },
                    None => IndexMutation::DeleteRdf { triple: *triple },
                }
            },
        };
        assert(applied(applied(self.state(), *m), u) =~= self.state());
        u
    }

    /// The mutation that drops the entry which another one adds. For a mutation that
    /// drops an entry there is none: what the entry held is not known any more.
    pub fn inverse(m: &IndexMutation) -> (r: Option<IndexMutation>)
        ensures
            match r {
                Some(i) => is_insert(*m) && !is_insert(i) && kind_of(i) == kind_of(*m) && forall|
                    s: IndexState,
                | #[trigger]
                    applied(s, i) == without_added(s, *m),
                None => !is_insert(*m),
            },
    {
        match m {
            IndexMutation::InsertNode { node_id, .. } => Some(
                IndexMutation::DeleteNode { node_id: *node_id },
            ),
            IndexMutation::InsertEdge { edge_id, .. } => Some(
                IndexMutation::DeleteEdge { edge_id: *edge_id },
            ),
            IndexMutation::InsertLabel { label_id, node_id, .. } => Some(
                IndexMutation::DeleteLabel { label_id: *label_id, node_id: *node_id },
            ),
            IndexMutation::InsertType { type_id, edge_id, .. } => Some(
                IndexMutation::DeleteType { type_id: *type_id, edge_id: *edge_id },
            ),
            IndexMutation::InsertProperty { property_id, value_type, payload, entity_id, .. } => Some(
                IndexMutation::DeleteProperty { property_id: *property_id, value_type: *value_type, payload: copy_payload(payload), entity_id: *entity_id },
            ),
            IndexMutation::InsertAdjacency { source_id, type_id, target_id, .. } => Some(
                IndexMutation::DeleteAdjacency { source_id: *source_id, type_id: *type_id, target_id: *target_id },
            ),
            IndexMutation::InsertRdf { triple, .. } => Some(
                IndexMutation::DeleteRdf { triple: *triple },
            ),
            _ => None,
        }
    }

    /// Applies one mutation.
    pub fn apply_one(&mut self, m: &IndexMutation) -> (r: Result<(), BTreeError>)
        requires
            old(self).wf(),
        ensures
            final(self).wf(),
            insert_result(old(self).is_full_for(*m), r),
            final(self).state() == (if old(self).is_full_for(*m) {
                old(self).state()
            } else {
                applied(old(self).state(), *m)
            }),
            old(self).room_in(kind_of(*m)) > 0 ==> forall|kind: IndexKind| #[trigger]
                final(self).room_in(kind) >= old(self).room_in(kind) - if kind == kind_of(*m) {
                    1int
                } else {
                    0int
                },
            old(self).room() > 0 ==> final(self).room() >= old(self).room() - 1,
    {
        broadcast use crate::bytes::be_bytes_len;

        match m {
            IndexMutation::InsertNode { node_id, slot } => {
                self.node_index.insert(&node_id_key(*node_id as u128), *slot)
            },
            IndexMutation::DeleteNode { node_id } => {
                let _found = self.node_index.delete(&node_id_key(*node_id as u128));
                Ok(())
            },
            IndexMutation::InsertEdge { edge_id, slot } => {
                self.edge_index.insert(&edge_id_key(*edge_id as u128), *slot)
            },
            IndexMutation::DeleteEdge { edge_id } => {
                let _found = self.edge_index.delete(&edge_id_key(*edge_id as u128));
                Ok(())
            },
            IndexMutation::InsertLabel { label_id, node_id, slot } => {
                self.label_index.insert(*label_id, *node_id, *slot)
            },
            IndexMutation::DeleteLabel { label_id, node_id } => {
                let _found = self.label_index.delete(*label_id, *node_id);
                Ok(())
            },
            IndexMutation::InsertType { type_id, edge_id, slot } => {
                self.type_index.insert(*type_id, *edge_id, *slot)
            },
            IndexMutation::DeleteType { type_id, edge_id } => {
                let _found = self.type_index.delete(*type_id, *edge_id);
                Ok(())
            },
            IndexMutation::InsertProperty {
                property_id,
                value_type,
                payload,
                entity_id,
                slot,
            } => {
                self.property_index.insert(
                    *property_id,
                    *value_type,
                    payload.as_slice(),
                    *entity_id,
                    *slot,
                )
            },
            IndexMutation::DeleteProperty { property_id, value_type, payload, entity_id } => {
                let _found = self.property_index.delete(
                    *property_id,
                    *value_type,
                    payload.as_slice(),
                    *entity_id,
                );
                Ok(())
            },
            IndexMutation::InsertAdjacency { source_id, type_id, target_id, slot } => {
                self.adjacency_index.insert(*source_id, *type_id, *target_id, *slot)
            },
            IndexMutation::DeleteAdjacency { source_id, type_id, target_id } => {
                let _found = self.adjacency_index.delete(*source_id, *type_id, *target_id);
                Ok(())
            },
            IndexMutation::InsertRdf { triple, slot, graph } => {
                self.rdf_store.insert(triple, *slot, *graph)
            },
            IndexMutation::DeleteRdf { triple } => {
                let _found = self.rdf_store.delete(triple);
                Ok(())
            },
        }
    }

    /// Applies a single mutation.
    pub fn apply(&mut self, mutation: &IndexMutation) -> (r: Result<(), BTreeError>)
        requires
            old(self).wf(),
        ensures
            final(self).wf(),
            insert_result(old(self).is_full_for(*mutation), r),
            final(self).state() == (if old(self).is_full_for(*mutation) {
                old(self).state()
            } else {
                applied(old(self).state(), *mutation)
            }),
            old(self).room_in(kind_of(*mutation)) > 0 ==> forall|kind: IndexKind| #[trigger]
                final(self).room_in(kind) >= old(self).room_in(kind) - if kind == kind_of(*mutation) {
                    1int
                } else {
                    0int
                },
            old(self).room() > 0 ==> final(self).room() >= old(self).room() - 1,
    {
        self.apply_one(mutation)
    }
}

fn copy_payload(payload: &Vec<u8>) -> (r: Vec<u8>)
    ensures
        r@ == payload@,
{
    let r = copy_range(payload.as_slice(), 0, payload.len());
    assert(r@ =~= payload@);
    r
}

impl Default for IndexManager {
    fn default() -> (r: Self)
        ensures
            r.wf(),
            r.state() == (IndexState {
                nodes: Map::empty(),
                edges: Map::empty(),
                labels: Map::empty(),
                types: Map::empty(),
                properties: Map::empty(),
                links: Map::empty(),
                triples: Map::empty(),
            }),
            forall|m: IndexMutation| !#[trigger] r.is_full_for(m),
            r.room() == 0x4000_0000,
    {
        IndexManager::new()
    }
}

} // verus!
