//! Compressed sparse rows: an immutable adjacency snapshot for traversals.
//!
//! The edges stand in one array per field, sorted by source, target and edge
//! id. `row_ptr[v]` is the place of the first edge that leaves node `v`, and
//! `row_ptr[v + 1]` the place behind its last.

use std::sync::Arc;

use vstd::multiset::Multiset;
use vstd::prelude::*;

use crate::graph::record::edge_flags;
use crate::graph::record::NodeRecord;
use crate::graph::stored::StoredEdge;

verus! {

/// An edge as (source, target, edge id, type).
pub type EdgeRow = (u64, u64, u64, u32);

/// One edge of a node.
#[derive(Debug, Clone, Copy, PartialEq, Eq, Structural)]
pub struct CsrEdge {
    pub target_id: u64,
    pub edge_id: u64,
    pub edge_type: u32,
}

/// An adjacency snapshot.
#[derive(Debug)]
pub struct CsrAdjacency {
    pub row_ptr: Vec<u32>,
    pub col_idx: Vec<u64>,
    pub edge_ids: Vec<u64>,
    pub edge_types: Vec<u32>,
    pub max_node_id: u64,
}

impl Clone for CsrAdjacency {
    fn clone(&self) -> (r: Self)
        ensures
            r.row_ptr@ == self.row_ptr@,
            r.col_idx@ == self.col_idx@,
            r.edge_ids@ == self.edge_ids@,
            r.edge_types@ == self.edge_types@,
            r.max_node_id == self.max_node_id,
    {
        let r = CsrAdjacency {
            row_ptr: self.row_ptr.clone(),
            col_idx: self.col_idx.clone(),
            edge_ids: self.edge_ids.clone(),
            edge_types: self.edge_types.clone(),
            max_node_id: self.max_node_id,
        };
        assert(r.row_ptr@ =~= self.row_ptr@);
        assert(r.col_idx@ =~= self.col_idx@);
        assert(r.edge_ids@ =~= self.edge_ids@);
        assert(r.edge_types@ =~= self.edge_types@);
        r
    }
}

impl CsrAdjacency {
    /// Do the arrays fit together?
    pub open spec fn wf(self) -> bool {
        &&& self.row_ptr@.len() == self.max_node_id + 2
        &&& self.col_idx@.len() == self.edge_ids@.len()
        &&& self.edge_types@.len() == self.edge_ids@.len()
        &&& self.row_ptr@[0] == 0
        &&& self.row_ptr@.last() == self.edge_ids@.len()
        &&& forall|i: int, j: int|
            0 <= i <= j < self.row_ptr@.len() ==> self.row_ptr@[i] <= self.row_ptr@[j]
    }

    /// The edge at a place.
    pub open spec fn edge_at(self, i: int) -> CsrEdge {
        CsrEdge {
            target_id: self.col_idx@[i],
            edge_id: self.edge_ids@[i],
            edge_type: self.edge_types@[i],
        }
    }

    /// The edges that leave a node.
    pub open spec fn row(self, v: u64) -> Seq<CsrEdge> {
        if v > self.max_node_id {
            Seq::empty()
        } else {
            let lo = self.row_ptr@[v as int] as int;
            let hi = self.row_ptr@[v + 1] as int;
            Seq::new((hi - lo) as nat, |i: int| self.edge_at(lo + i))
        }
    }

    /// Does the snapshot hold these edges, and no others? The edges of a node
    /// come by target and edge id.
    pub open spec fn holds(self, edges: Seq<EdgeRow>) -> bool {
        &&& self.edge_ids@.len() == edges.len()
        &&& forall|v: u64, e: CsrEdge|
            #![trigger self.row(v).to_multiset().count(e)]
            self.row(v).to_multiset().count(e) == edges.to_multiset().count(row_of(v, e))
        &&& forall|v: u64| #[trigger] row_sorted(self.row(v))
    }

    /// The number of edges.
    pub fn edge_count(&self) -> (r: usize)
        ensures
            r == self.edge_ids@.len(),
    {
        self.edge_ids.len()
    }

    /// The largest node id of the snapshot.
    pub fn node_count(&self) -> (r: u64)
        ensures
            r == self.max_node_id,
    {
        self.max_node_id
    }

    /// The edges that leave a node, by target and edge id.
    pub fn outgoing_edges(&self, src_node_id: u64) -> (r: Vec<CsrEdge>)
        requires
            self.wf(),
        ensures
            r@ == self.row(src_node_id),
    {
        let mut edges: Vec<CsrEdge> = Vec::new();
        let rows: usize = self.row_ptr.len();
        if src_node_id > self.max_node_id {
            return edges;
        }
        let idx: usize = src_node_id as usize;
        let start: usize = self.row_ptr[idx] as usize;
        let end: usize = self.row_ptr[idx + 1] as usize;
        assert(self.row_ptr@[idx + 1] <= self.row_ptr@[rows - 1]);
        let mut i: usize = start;
        while i < end
            invariant
                self.wf(),
                start <= i <= end <= self.edge_ids@.len(),
                edges@.len() == i - start,
                forall|j: int| 0 <= j < edges@.len() ==> edges@[j] == self.edge_at(start + j),
            decreases end - i,
        {
            edges.push(
                CsrEdge {
                    target_id: self.col_idx[i],
                    edge_id: self.edge_ids[i],
                    edge_type: self.edge_types[i],
                },
            );
            i += 1;
        }
        assert(edges@ =~= self.row(src_node_id));
        edges
    }

    /// The number of edges that leave a node.
    pub fn out_degree(&self, src_node_id: u64) -> (r: u32)
        requires
            self.wf(),
        ensures
            r == self.row(src_node_id).len(),
    {
        let rows: usize = self.row_ptr.len();
        if src_node_id > self.max_node_id {
            return 0;
        }
        let idx: usize = src_node_id as usize;
        assert(idx + 1 < rows && self.row_ptr@[idx as int] <= self.row_ptr@[idx + 1]);
        self.row_ptr[idx + 1] - self.row_ptr[idx]
    }
}

/// The edge that leaves `v`, with its source.
pub open spec fn row_of(v: u64, e: CsrEdge) -> EdgeRow {
    (v, e.target_id, e.edge_id, e.edge_type)
}

/// The edge without its source.
pub open spec fn edge_of(e: EdgeRow) -> CsrEdge {
    CsrEdge { target_id: e.1, edge_id: e.2, edge_type: e.3 }
}

/// Do the edges come by target and edge id?
pub open spec fn row_sorted(row: Seq<CsrEdge>) -> bool {
    forall|i: int, j: int|
        0 <= i <= j < row.len() ==> (#[trigger] row[i]).target_id < (#[trigger] row[j]).target_id
            || (row[i].target_id == row[j].target_id && row[i].edge_id <= row[j].edge_id)
}

/// A snapshot of some edges has one place for each of them: the row of a node tells target,
/// id and type of each edge that leaves the node, as often as there is one, by rising target
/// and then by rising id.
pub proof fn law_rows_of_snapshot(csr: CsrAdjacency, edges: Seq<EdgeRow>, v: u64, e: CsrEdge)
    requires
        csr.holds(edges),
    ensures
        csr.edge_ids@.len() == edges.len(),
        csr.row(v).to_multiset().count(e) == edges.to_multiset().count(
            (v, e.target_id, e.edge_id, e.edge_type),
        ),
        forall|i: int, j: int|
            0 <= i <= j < csr.row(v).len() ==> (#[trigger] csr.row(v)[i]).target_id < (
            #[trigger] csr.row(v)[j]).target_id || (csr.row(v)[i].target_id
                == csr.row(v)[j].target_id && csr.row(v)[i].edge_id <= csr.row(v)[j].edge_id),
{
    assert(row_sorted(csr.row(v)));
}

/// The row of a node is a stretch of the arrays, between the bounds of the node; a node
/// beyond the last has none.
pub proof fn law_row_is_stretch(csr: CsrAdjacency, v: u64)
    ensures
        v > csr.max_node_id ==> csr.row(v).len() == 0,
        v <= csr.max_node_id && csr.row_ptr@[v as int] <= csr.row_ptr@[v + 1] ==> ({
            let lo = csr.row_ptr@[v as int] as int;
            &&& csr.row(v).len() == csr.row_ptr@[v + 1] - lo
            &&& forall|i: int| #![trigger csr.row(v)[i]]
                0 <= i < csr.row(v).len() ==> csr.row(v)[i].target_id == csr.col_idx@[lo + i]
                    && csr.row(v)[i].edge_id == csr.edge_ids@[lo + i] && csr.row(v)[i].edge_type
                    == csr.edge_types@[lo + i]
        }),
{
}

/// The order of edges: by source, then target, then edge id.
pub open spec fn row_le(a: EdgeRow, b: EdgeRow) -> bool {
    a.0 < b.0 || (a.0 == b.0 && (a.1 < b.1 || (a.1 == b.1 && a.2 <= b.2)))
}

/// Do the edges come in order?
pub open spec fn rows_sorted(s: Seq<EdgeRow>) -> bool {
    forall|i: int, j: int|
        0 <= i <= j < s.len() ==> row_le(#[trigger] s[i], #[trigger] s[j])
}

fn row_precedes(a: &EdgeRow, b: &EdgeRow) -> (r: bool)
    ensures
        r == row_le(*a, *b),
{
    a.0 < b.0 || (a.0 == b.0 && (a.1 < b.1 || (a.1 == b.1 && a.2 <= b.2)))
}

/// Merges two sorted lists.
fn merge_rows(a: &Vec<EdgeRow>, b: &Vec<EdgeRow>) -> (r: Vec<EdgeRow>)
    requires
        rows_sorted(a@),
        rows_sorted(b@),
    ensures
        rows_sorted(r@),
        r@.to_multiset() == a@.to_multiset().add(b@.to_multiset()),
        r@.len() == a@.len() + b@.len(),
{
    let mut out: Vec<EdgeRow> = Vec::new();
    let mut i: usize = 0;
    let mut j: usize = 0;
    proof {
        broadcast use vstd::seq_lib::group_to_multiset_ensures;

        assert(a@.take(0).to_multiset() =~= Multiset::empty());
        assert(b@.take(0).to_multiset() =~= Multiset::empty());
        assert(out@.to_multiset() =~= Multiset::empty());
    }
    while i < a.len() || j < b.len()
        invariant
            i <= a@.len(),
            j <= b@.len(),
            rows_sorted(a@),
            rows_sorted(b@),
            rows_sorted(out@),
            out@.len() == i + j,
            out@.to_multiset() == a@.take(i as int).to_multiset().add(
                b@.take(j as int).to_multiset(),
            ),
            forall|k: int|
                0 <= k < out@.len() && i < a@.len() ==> row_le(#[trigger] out@[k], a@[i as int]),
            forall|k: int|
                0 <= k < out@.len() && j < b@.len() ==> row_le(#[trigger] out@[k], b@[j as int]),
        decreases a@.len() - i + b@.len() - j,
    {
        let left: bool = if i >= a.len() {
            false
        } else if j >= b.len() {
            true
        } else {
            row_precedes(&a[i], &b[j])
        };
        let ghost before = out@;
        if left {
            let e = a[i];
            out.push(e);
            proof {
                broadcast use vstd::seq_lib::group_to_multiset_ensures;

                assert(a@.take(i + 1) =~= a@.take(i as int).push(e));
                assert(out@.to_multiset() =~= a@.take(i + 1).to_multiset().add(
                    b@.take(j as int).to_multiset(),
                ));
                if i + 1 < a@.len() {
                    assert(row_le(a@[i as int], a@[i + 1]));
                }
            }
            i += 1;
        } else {
            let e = b[j];
            out.push(e);
            proof {
                broadcast use vstd::seq_lib::group_to_multiset_ensures;

                assert(b@.take(j + 1) =~= b@.take(j as int).push(e));
                assert(out@.to_multiset() =~= a@.take(i as int).to_multiset().add(
                    b@.take(j + 1).to_multiset(),
                ));
                if j + 1 < b@.len() {
                    assert(row_le(b@[j as int], b@[j + 1]));
                }
                if i < a@.len() {
                    assert(row_le(e, a@[i as int]));
                }
            }
            j += 1;
        }
    }
    assert(a@.take(i as int) =~= a@);
    assert(b@.take(j as int) =~= b@);
    out
}

/// Sorts edges by source, target and edge id.
fn sort_rows(rows: &Vec<EdgeRow>, from: usize, to: usize) -> (r: Vec<EdgeRow>)
    requires
        from <= to <= rows@.len(),
    ensures
        rows_sorted(r@),
        r@.to_multiset() == rows@.subrange(from as int, to as int).to_multiset(),
        r@.len() == to - from,
    decreases to - from,
{
    if to - from <= 1 {
        let mut out: Vec<EdgeRow> = Vec::new();
        if from < to {
            out.push(rows[from]);
        }
        assert(out@ =~= rows@.subrange(from as int, to as int));
        return out;
    }
    let mid: usize = from + (to - from) / 2;
    let left = sort_rows(rows, from, mid);
    let right = sort_rows(rows, mid, to);
    proof {
        let x = rows@.subrange(from as int, mid as int);
        let y = rows@.subrange(mid as int, to as int);
        assert(rows@.subrange(from as int, to as int) =~= x + y);
        vstd::seq_lib::lemma_multiset_commutative(x, y);
    }
    merge_rows(&left, &right)
}

// ---------------------------------------------------------------------------
// Rows of sorted edges
// ---------------------------------------------------------------------------

/// Is `lo` the place of the first edge whose source is `v` or larger?
pub open spec fn is_row_start(s: Seq<EdgeRow>, v: int, lo: int) -> bool {
    &&& 0 <= lo <= s.len()
    &&& forall|i: int| 0 <= i < lo ==> (#[trigger] s[i]).0 < v
    &&& forall|i: int| lo <= i < s.len() ==> (#[trigger] s[i]).0 >= v
}

/// Among edges with one source, an edge occurs as often as it does without its
/// source.
proof fn lemma_count_same_source(s: Seq<EdgeRow>, v: u64, e: CsrEdge)
    requires
        forall|i: int| 0 <= i < s.len() ==> (#[trigger] s[i]).0 == v,
    ensures
        s.map_values(|x: EdgeRow| edge_of(x)).to_multiset().count(e) == s.to_multiset().count(
            row_of(v, e),
        ),
    decreases s.len(),
{
    broadcast use vstd::seq_lib::group_to_multiset_ensures;

    let f = |x: EdgeRow| edge_of(x);
    if s.len() == 0 {
        assert(s.map_values(f).len() == 0);
        assert(s.map_values(f).to_multiset() =~= Multiset::empty());
        assert(s.to_multiset() =~= Multiset::empty());
    } else {
        let t = s.drop_last();
        let last = s.last();
        lemma_count_same_source(t, v, e);
        assert(s =~= t.push(last));
        assert(s.map_values(f) =~= t.map_values(f).push(edge_of(last)));
        assert(last.0 == v);
        assert((edge_of(last) == e) == (last == row_of(v, e)));
    }
}

/// Edges with other sources do not count.
proof fn lemma_count_other_source(s: Seq<EdgeRow>, x: EdgeRow)
    requires
        forall|i: int| 0 <= i < s.len() ==> (#[trigger] s[i]).0 != x.0,
    ensures
        s.to_multiset().count(x) == 0,
{
    broadcast use vstd::seq_lib::group_to_multiset_ensures;

    if s.to_multiset().count(x) > 0 {
        assert(s.contains(x));
        let i = choose|i: int| 0 <= i < s.len() && s[i] == x;
        assert(s[i].0 == x.0);
    }
}

/// The edges between the starts of two rows are those with that source.
proof fn lemma_row_counts(s: Seq<EdgeRow>, v: u64, lo: int, hi: int, e: CsrEdge)
    requires
        is_row_start(s, v as int, lo),
        is_row_start(s, v + 1, hi),
    ensures
        lo <= hi,
        s.subrange(lo, hi).map_values(|x: EdgeRow| edge_of(x)).to_multiset().count(e)
            == s.to_multiset().count(row_of(v, e)),
{
    if hi < lo {
        assert(s[hi].0 < v);
    }
    let a = s.subrange(0, lo);
    let b = s.subrange(lo, hi);
    let c = s.subrange(hi, s.len() as int);
    assert(s =~= a + b + c);
    vstd::seq_lib::lemma_multiset_commutative(a, b);
    vstd::seq_lib::lemma_multiset_commutative(a + b, c);
    assert forall|i: int| 0 <= i < b.len() implies (#[trigger] b[i]).0 == v by {
        assert(s[lo + i].0 >= v && s[lo + i].0 < v + 1);
    }
    assert forall|i: int| 0 <= i < a.len() implies (#[trigger] a[i]).0 != v by {
        assert(s[i].0 < v);
    }
    assert forall|i: int| 0 <= i < c.len() implies (#[trigger] c[i]).0 != v by {
        assert(s[hi + i].0 >= v + 1);
    }
    lemma_count_same_source(b, v, e);
    lemma_count_other_source(a, row_of(v, e));
    lemma_count_other_source(c, row_of(v, e));
}

/// Collects edges for a snapshot.
pub struct CsrBuilder {
    edges: Vec<EdgeRow>,
    max_node_id: u64,
}

impl CsrBuilder {
    /// The edges collected so far.
    pub closed spec fn edges(&self) -> Seq<EdgeRow> {
        self.edges@
    }

    /// The largest node id seen so far.
    pub closed spec fn max_id(&self) -> u64 {
        self.max_node_id
    }

    /// Is every end of an edge covered by the largest node id?
    pub open spec fn wf(&self) -> bool {
        forall|i: int|
            0 <= i < self.edges().len() ==> (#[trigger] self.edges()[i]).0 <= self.max_id()
                && self.edges()[i].1 <= self.max_id()
    }

    /// A builder with no edges.
    pub fn new() -> (r: Self)
        ensures
            r.wf(),
            r.edges() == Seq::<EdgeRow>::empty(),
            r.max_id() == 0,
    {
        CsrBuilder { edges: Vec::new(), max_node_id: 0 }
    }

    /// Adds an edge, unless it is marked for deletion.
    pub fn add_edge(&mut self, rec: &StoredEdge)
        requires
            old(self).wf(),
        ensures
            final(self).wf(),
            rec.record.is_deleted() ==> *final(self) == *old(self),
            final(self).max_id() >= old(self).max_id(),
            !rec.record.is_deleted() ==> final(self).max_id() >= rec.source_id,
            !rec.record.is_deleted() ==> final(self).max_id() >= rec.target_id,
            final(self).max_id() != old(self).max_id() ==> !rec.record.is_deleted() && (
            final(self).max_id() == rec.source_id || final(self).max_id() == rec.target_id),
            !rec.record.is_deleted() ==> final(self).edges() == old(self).edges().push(
                (rec.source_id, rec.target_id, rec.record.edge_id, rec.record.type_id),
            ) && final(self).max_id() == max3(
                old(self).max_id(),
                rec.source_id,
                rec.target_id,
            ),
    {
        if rec.record.flags & edge_flags::DELETED != 0 {
            return;
        }
        if self.max_node_id < rec.source_id {
            self.max_node_id = rec.source_id;
        }
        if self.max_node_id < rec.target_id {
            self.max_node_id = rec.target_id;
        }
        self.edges.push(
            (rec.source_id, rec.target_id, rec.record.edge_id, rec.record.type_id),
        );
        assert forall|i: int| 0 <= i < self.edges().len() implies (#[trigger] self.edges()[i]).0
            <= self.max_id() && self.edges()[i].1 <= self.max_id() by {
            if i < old(self).edges().len() {
                assert(self.edges()[i] == old(self).edges()[i]);
            }
        }
    }

    /// Makes the snapshot cover a node, though it may have no edges.
    pub fn add_node(&mut self, rec: &NodeRecord)
        requires
            old(self).wf(),
        ensures
            final(self).wf(),
            final(self).edges() == old(self).edges(),
            final(self).max_id() >= old(self).max_id(),
            final(self).max_id() >= rec.node_id,
            final(self).max_id() == old(self).max_id() || final(self).max_id() == rec.node_id,
            final(self).max_id() == max3(old(self).max_id(), rec.node_id, 0),
    {
        if self.max_node_id < rec.node_id {
            self.max_node_id = rec.node_id;
        }
        assert forall|i: int| 0 <= i < self.edges().len() implies (#[trigger] self.edges()[i]).0
            <= self.max_id() && self.edges()[i].1 <= self.max_id() by {
            assert(self.edges()[i] == old(self).edges()[i]);
        }
    }

    /// The snapshot of the collected edges.
    pub fn build(self) -> (csr: CsrAdjacency)
        requires
            self.wf(),
            self.max_id() <= usize::MAX - 2,
            self.edges().len() <= u32::MAX,
        ensures
            csr.wf(),
            csr.max_node_id == self.max_id(),
            csr.holds(self.edges()),
    {
        let m: usize = self.edges.len();
        let rows = sort_rows(&self.edges, 0, m);
        proof {
            assert(self.edges@.subrange(0, m as int) =~= self.edges@);
            assert forall|i: int| 0 <= i < rows@.len() implies (#[trigger] rows@[i]).0
                <= self.max_id() by {
                broadcast use vstd::seq_lib::group_to_multiset_ensures;

                assert(rows@.to_multiset().contains(rows@[i]));
                assert(self.edges@.contains(rows@[i]));
                let k = choose|k: int| 0 <= k < self.edges@.len() && self.edges@[k] == rows@[i];
                assert(self.edges()[k].0 <= self.max_id());
            }
        }
        let n: usize = self.max_node_id as usize + 2;
        let mut row_ptr: Vec<u32> = Vec::new();
        let mut pos: usize = 0;
        let mut v: usize = 0;
        while v < n
            invariant
                v <= n,
                n == self.max_node_id + 2,
                row_ptr@.len() == v,
                pos <= rows@.len(),
                rows@.len() <= u32::MAX,
                rows_sorted(rows@),
                forall|i: int| 0 <= i < pos ==> (#[trigger] rows@[i]).0 < v,
                forall|u: int|
                    0 <= u < v ==> is_row_start(rows@, u, #[trigger] row_ptr@[u] as int),
                forall|u: int| 0 <= u < v ==> #[trigger] row_ptr@[u] <= pos,
                forall|i: int, j: int| 0 <= i <= j < v ==> row_ptr@[i] <= row_ptr@[j],
            decreases n - v,
        {
            while pos < rows.len() && (rows[pos].0 as u128) < v as u128
                invariant
                    pos <= rows@.len(),
                    forall|i: int| 0 <= i < pos ==> (#[trigger] rows@[i]).0 < v,
                    forall|u: int| 0 <= u < row_ptr@.len() ==> #[trigger] row_ptr@[u] <= pos,
                decreases rows@.len() - pos,
            {
                pos += 1;
            }
            assert forall|i: int| pos <= i < rows@.len() implies (#[trigger] rows@[i]).0 >= v by {
                assert(row_le(rows@[pos as int], rows@[i]));
            }
            row_ptr.push(pos as u32);
            v += 1;
        }
        assert(is_row_start(rows@, n - 1, row_ptr@[n - 1] as int));
        assert(is_row_start(rows@, 0, row_ptr@[0] as int));
        proof {
            if row_ptr@[n - 1] < rows@.len() {
                assert(rows@[row_ptr@[n - 1] as int].0 >= n - 1);
            }
            if row_ptr@[0] > 0 {
                assert(rows@[0].0 < 0);
            }
        }
        let mut col_idx: Vec<u64> = Vec::new();
        let mut edge_ids: Vec<u64> = Vec::new();
        let mut edge_types: Vec<u32> = Vec::new();
        let mut i: usize = 0;
        while i < rows.len()
            invariant
                i <= rows@.len(),
                col_idx@.len() == i,
                edge_ids@.len() == i,
                edge_types@.len() == i,
                forall|k: int|
                    0 <= k < i ==> #[trigger] col_idx@[k] == rows@[k].1 && edge_ids@[k]
                        == rows@[k].2 && edge_types@[k] == rows@[k].3,
            decreases rows@.len() - i,
        {
            col_idx.push(rows[i].1);
            edge_ids.push(rows[i].2);
            edge_types.push(rows[i].3);
            i += 1;
        }
        let csr = CsrAdjacency {
            row_ptr,
            col_idx,
            edge_ids,
            edge_types,
            max_node_id: self.max_node_id,
        };
        proof {
            let edges = self.edges();
            assert(rows@.to_multiset() == edges.to_multiset());
            assert forall|u: u64, e: CsrEdge|
                #![trigger csr.row(u).to_multiset().count(e)]
                csr.row(u).to_multiset().count(e) == edges.to_multiset().count(
                    row_of(u, e),
                ) by {
                lemma_built_row(csr, rows@, u, e);
            }
            assert forall|u: u64| #[trigger] row_sorted(csr.row(u)) by {
                lemma_built_row_sorted(csr, rows@, u);
            }
        }
        csr
    }
}

/// Are the arrays those of the sorted edges `s`?
spec fn built_of(csr: CsrAdjacency, s: Seq<EdgeRow>) -> bool {
    &&& csr.wf()
    &&& s.len() == csr.edge_ids@.len()
    &&& rows_sorted(s)
    &&& forall|i: int| 0 <= i < s.len() ==> (#[trigger] s[i]).0 <= csr.max_node_id
    &&& forall|i: int| 0 <= i < s.len() ==> #[trigger] csr.edge_at(i) == edge_of(s[i])
    &&& forall|u: int|
        0 <= u < csr.row_ptr@.len() ==> is_row_start(s, u, #[trigger] csr.row_ptr@[u] as int)
}

proof fn lemma_built_row(csr: CsrAdjacency, s: Seq<EdgeRow>, v: u64, e: CsrEdge)
    requires
        built_of(csr, s),
    ensures
        csr.row(v).to_multiset().count(e) == s.to_multiset().count(row_of(v, e)),
{
    broadcast use vstd::seq_lib::group_to_multiset_ensures;

    if v > csr.max_node_id {
        assert(csr.row(v).to_multiset() =~= Multiset::empty());
        lemma_count_other_source(s, row_of(v, e));
    } else {
        let lo = csr.row_ptr@[v as int] as int;
        let hi = csr.row_ptr@[v + 1] as int;
        lemma_row_counts(s, v, lo, hi, e);
        assert(csr.row(v) =~= s.subrange(lo, hi).map_values(|x: EdgeRow| edge_of(x)));
    }
}

proof fn lemma_built_row_sorted(csr: CsrAdjacency, s: Seq<EdgeRow>, v: u64)
    requires
        built_of(csr, s),
    ensures
        row_sorted(csr.row(v)),
{
    let row = csr.row(v);
    if v <= csr.max_node_id {
        let lo = csr.row_ptr@[v as int] as int;
        let hi = csr.row_ptr@[v + 1] as int;
        assert forall|i: int, j: int| 0 <= i <= j < row.len() implies (#[trigger] row[i]).target_id
            < (#[trigger] row[j]).target_id || (row[i].target_id == row[j].target_id
            && row[i].edge_id <= row[j].edge_id) by {
            assert(row[i] == csr.edge_at(lo + i) && row[j] == csr.edge_at(lo + j));
            assert(row_le(s[lo + i], s[lo + j]));
            assert(is_row_start(s, v as int, lo) && is_row_start(s, v + 1, hi));
            assert(s[lo + i].0 >= v && s[lo + j].0 < v + 1);
        }
    }
}

/// The largest of three numbers.
pub open spec fn max3(a: u64, b: u64, c: u64) -> u64 {
    if a >= b && a >= c {
        a
    } else if b >= c {
        b
    } else {
        c
    }
}

impl Default for CsrBuilder {
    fn default() -> (r: Self)
        ensures
            r.wf(),
            r.edges() == Seq::<EdgeRow>::empty(),
            r.max_id() == 0,
    {
        CsrBuilder::new()
    }
}

/// Holds the current snapshot, if there is one.
#[derive(Debug)]
pub struct CsrHolder {
    snapshot: Option<Arc<CsrAdjacency>>,
}

impl CsrHolder {
    /// The current snapshot.
    pub closed spec fn current(&self) -> Option<Arc<CsrAdjacency>> {
        self.snapshot
    }

    /// A holder with no snapshot.
    pub fn new() -> (r: Self)
        ensures
            r.current() is None,
    {
        CsrHolder { snapshot: None }
    }

    /// Makes `csr` the current snapshot. Who still holds an earlier one keeps it.
    pub fn freeze(&mut self, csr: CsrAdjacency)
        ensures
            final(self).current() is Some,
            *final(self).current()->0 == csr,
    {
        self.snapshot = Some(Arc::new(csr));
    }

    /// Makes a shared snapshot the current one.
    pub fn publish(&mut self, csr: Arc<CsrAdjacency>)
        ensures
            final(self).current() == Some(csr),
    {
        self.snapshot = Some(csr);
    }

    /// Drops the current snapshot.
    pub fn thaw(&mut self)
        ensures
            final(self).current() is None,
    {
        self.snapshot = None;
    }

    /// The current snapshot.
    pub fn snapshot(&self) -> (r: Option<Arc<CsrAdjacency>>)
        ensures
            r == self.current(),
    {
        match &self.snapshot {
            Some(csr) => Some(csr.clone()),
            None => None,
        }
    }

    /// Is there a snapshot?
    pub fn is_frozen(&self) -> (r: bool)
        ensures
            r == self.current() is Some,
    {
        self.snapshot.is_some()
    }
}

impl Default for CsrHolder {
    fn default() -> (r: Self)
        ensures
            r.current() is None,
    {
        CsrHolder::new()
    }
}

} // verus!
