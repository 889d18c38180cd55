//! The shape of a B+ tree: what the pages of a tree have to do with one
//! another, and how the steps of insertion and deletion keep it.
//!
//! A [`Shape`] gives each page of the tree its fence (the interval of keys it
//! is responsible for), its parent and its height, and lists the leaves in key
//! order. The invariant is local: a branch and its children agree on fences,
//! and the leaves tile the key space.

use vstd::prelude::*;

use crate::bytes::lex_le;
use crate::bytes::lex_lt;
use crate::index::entry::kv_key;
use crate::index::entry::kv_value;
use crate::index::entry::valid_kv;
use crate::index::page::branch_record_child;
use crate::index::page::branch_record_key;
use crate::index::page::PAGE_CAPACITY;
use crate::index::page::PageState;
use crate::storage::page::SLOT_SIZE;

verus! {

pub type Key = Seq<u8>;

/// What a page stands for in the tree.
#[verifier::ext_equal]
pub struct Node {
    /// Least key the page may be responsible for.
    pub lo: Key,
    /// First key beyond the page, if there is one.
    pub hi: Option<Key>,
    pub parent: Option<u64>,
    /// Distance to the leaves.
    pub height: nat,
}

/// The shape of a tree.
#[verifier::ext_equal]
pub struct Shape {
    pub nodes: Map<u64, Node>,
    /// The leaves in key order.
    pub leaves: Seq<u64>,
    /// The least key of each leaf.
    pub bounds: Seq<Key>,
    pub root: u64,
}

pub type Pages = Map<u64, PageState>;

/// Is `k` before the bound `hi`?
pub open spec fn below(k: Key, hi: Option<Key>) -> bool {
    match hi {
        Some(h) => lex_lt(k, h),
        None => true,
    }
}

pub open spec fn in_fence(k: Key, n: Node) -> bool {
    lex_le(n.lo, k) && below(k, n.hi)
}

/// Strictly increasing.
pub open spec fn sorted(ks: Seq<Key>) -> bool {
    forall|i: int, j: int| 0 <= i < j < ks.len() ==> lex_lt(#[trigger] ks[i], #[trigger] ks[j])
}

// ---------------------------------------------------------------------------
// Leaves
// ---------------------------------------------------------------------------

/// Is `k` short enough to stand in a branch as a separator?
pub open spec fn sep_fits(k: Key) -> bool {
    k.len() + 8 + SLOT_SIZE <= PAGE_CAPACITY
}

/// Well-formed leaf records: each holds a key and a value, in key order.
pub open spec fn leaf_records_ok(recs: Seq<Seq<u8>>) -> bool {
    &&& forall|i: int|
        0 <= i < recs.len() ==> valid_kv(#[trigger] recs[i]) && sep_fits(kv_key(recs[i]))
    &&& forall|i: int, j: int|
        0 <= i < j < recs.len() ==> lex_lt(kv_key(#[trigger] recs[i]), kv_key(#[trigger] recs[j]))
}

/// Every key lies in the fence.
pub open spec fn leaf_in_fence(recs: Seq<Seq<u8>>, n: Node) -> bool {
    forall|i: int| 0 <= i < recs.len() ==> in_fence(kv_key(#[trigger] recs[i]), n)
}

/// Do the records hold `k` with the value `v`?
pub open spec fn records_hold(recs: Seq<Seq<u8>>, k: Key, v: Seq<u8>) -> bool {
    exists|i: int| 0 <= i < recs.len() && kv_key(#[trigger] recs[i]) == k && kv_value(recs[i]) == v
}

// ---------------------------------------------------------------------------
// Branches
// ---------------------------------------------------------------------------

/// The separators of a branch.
pub open spec fn seps(p: PageState) -> Seq<Key> {
    Seq::new(p.records.len(), |i: int| branch_record_key(p.records[i]))
}

/// The children of a branch; there is one more than there are separators.
pub open spec fn children(p: PageState) -> Seq<u64> {
    Seq::new(
        p.records.len() + 1,
        |i: int|
            if i < p.records.len() {
                branch_record_child(p.records[i])
            } else {
                p.rightmost
            },
    )
}

/// The lower fence of child `i`.
pub open spec fn child_lo(n: Node, s: Seq<Key>, i: int) -> Key {
    if i == 0 {
        n.lo
    } else {
        s[i - 1]
    }
}

/// The upper fence of child `i`.
pub open spec fn child_hi(n: Node, s: Seq<Key>, i: int) -> Option<Key> {
    if i == s.len() {
        n.hi
    } else {
        Some(s[i])
    }
}

/// Separators in order and inside the fence.
pub open spec fn seps_ok(n: Node, s: Seq<Key>) -> bool {
    &&& sorted(s)
    &&& forall|i: int|
        0 <= i < s.len() ==> lex_lt(n.lo, #[trigger] s[i]) && below(s[i], n.hi)
}

/// Child `i` of branch `id` has the fence, the parent and the height that the
/// branch gives it.
pub open spec fn child_ok(
    nodes: Map<u64, Node>,
    id: u64,
    n: Node,
    s: Seq<Key>,
    c: Seq<u64>,
    i: int,
) -> bool {
    &&& nodes.contains_key(c[i])
    &&& nodes[c[i]].lo == child_lo(n, s, i)
    &&& nodes[c[i]].hi == child_hi(n, s, i)
    &&& nodes[c[i]].parent == Some(id)
    &&& nodes[c[i]].height + 1 == n.height
}

/// The separators and children of branch `id` agree with the other nodes.
pub open spec fn branch_ok(
    nodes: Map<u64, Node>,
    id: u64,
    n: Node,
    s: Seq<Key>,
    c: Seq<u64>,
) -> bool {
    &&& n.height > 0
    &&& c.len() == s.len() + 1
    &&& seps_ok(n, s)
    &&& forall|i: int| 0 <= i < c.len() ==> nodes.contains_key(#[trigger] c[i]) && child_ok(
        nodes,
        id,
        n,
        s,
        c,
        i,
    )
}

/// Page `p` is a branch page with these separators and children.
pub open spec fn is_branch_page(p: PageState, id: u64, s: Seq<Key>, c: Seq<u64>) -> bool {
    &&& p.page_id == id
    &&& !p.is_leaf()
    &&& forall|i: int| 0 <= i < p.records.len() ==> (#[trigger] p.records[i]).len() >= 8
    &&& seps(p) == s
    &&& children(p) == c
}

/// Page `p` is a leaf page that node `n` allows.
pub open spec fn is_leaf_page(p: PageState, id: u64, n: Node) -> bool {
    &&& p.page_id == id
    &&& p.is_leaf()
    &&& n.height == 0
    &&& leaf_records_ok(p.records)
    &&& leaf_in_fence(p.records, n)
}

/// Page `id` is what the shape says it is.
pub open spec fn node_ok(pages: Pages, nodes: Map<u64, Node>, id: u64) -> bool {
    let n = nodes[id];
    let p = pages[id];
    &&& pages.contains_key(id)
    &&& below(n.lo, n.hi)
    &&& if p.is_leaf() {
        is_leaf_page(p, id, n)
    } else {
        is_branch_page(p, id, seps(p), children(p)) && branch_ok(
            nodes,
            id,
            n,
            seps(p),
            children(p),
        )
    }
}

// ---------------------------------------------------------------------------
// The tree
// ---------------------------------------------------------------------------

/// The upper fence of leaf `j`.
pub open spec fn leaf_hi(sh: Shape, j: int) -> Option<Key> {
    if j + 1 < sh.bounds.len() {
        Some(sh.bounds[j + 1])
    } else {
        None
    }
}

/// The page that leaf `j` links to.
pub open spec fn leaf_next(sh: Shape, j: int) -> u64 {
    if j + 1 < sh.leaves.len() {
        sh.leaves[j + 1]
    } else {
        0
    }
}

/// Leaf `j` of the chain.
pub open spec fn chain_ok(pages: Pages, sh: Shape, j: int) -> bool {
    let id = sh.leaves[j];
    &&& id != 0
    &&& sh.nodes.contains_key(id)
    &&& pages.contains_key(id)
    &&& pages[id].is_leaf()
    &&& sh.nodes[id].height == 0
    &&& sh.nodes[id].lo == sh.bounds[j]
    &&& sh.nodes[id].hi == leaf_hi(sh, j)
    &&& pages[id].next == leaf_next(sh, j)
}

/// The leaves tile the key space and are linked in key order.
pub open spec fn leaves_ok(pages: Pages, sh: Shape) -> bool {
    &&& sh.leaves.len() == sh.bounds.len()
    &&& sh.leaves.len() > 0
    &&& sh.bounds[0] == Seq::<u8>::empty()
    &&& sorted(sh.bounds)
    &&& forall|j: int| 0 <= j < sh.leaves.len() ==> #[trigger] chain_ok(pages, sh, j)
    &&& forall|id: u64| #[trigger]
        sh.nodes.contains_key(id) && sh.nodes[id].height == 0 ==> sh.leaves.contains(id)
}

/// Every node but `except` is in order.
pub open spec fn nodes_ok(pages: Pages, nodes: Map<u64, Node>, except: Option<u64>) -> bool {
    forall|id: u64| #[trigger]
        nodes.contains_key(id) && except != Some(id) ==> node_ok(pages, nodes, id)
}

/// The root is responsible for every key.
pub open spec fn root_ok(sh: Shape) -> bool {
    &&& sh.nodes.contains_key(sh.root)
    &&& sh.nodes[sh.root].lo == Seq::<u8>::empty()
    &&& sh.nodes[sh.root].hi == None::<Key>
    &&& sh.nodes[sh.root].parent == None::<u64>
}

/// The pages form a tree of this shape.
pub open spec fn tree_ok(pages: Pages, sh: Shape) -> bool {
    &&& root_ok(sh)
    &&& nodes_ok(pages, sh.nodes, None)
    &&& leaves_ok(pages, sh)
}

/// As [`tree_ok`], but branch `id` is about to hold the given separators and
/// children.
pub open spec fn pending_at(
    pages: Pages,
    sh: Shape,
    id: u64,
    s: Seq<Key>,
    c: Seq<u64>,
) -> bool {
    &&& root_ok(sh)
    &&& nodes_ok(pages, sh.nodes, Some(id))
    &&& leaves_ok(pages, sh)
    &&& sh.nodes.contains_key(id)
    &&& pages.contains_key(id)
    &&& !pages[id].is_leaf()
    &&& below(sh.nodes[id].lo, sh.nodes[id].hi)
    &&& branch_ok(sh.nodes, id, sh.nodes[id], s, c)
}

/// As [`tree_ok`], but the root has been split in two and has no parent yet.
pub open spec fn pending_root(
    pages: Pages,
    sh: Shape,
    left: u64,
    right: u64,
    sep: Key,
) -> bool {
    &&& sh.root == left
    &&& left != right
    &&& nodes_ok(pages, sh.nodes, None)
    &&& leaves_ok(pages, sh)
    &&& sh.nodes.contains_key(left)
    &&& sh.nodes.contains_key(right)
    &&& sh.nodes[left].lo == Seq::<u8>::empty()
    &&& sh.nodes[left].hi == Some(sep)
    &&& sh.nodes[left].parent == None::<u64>
    &&& sh.nodes[right].lo == sep
    &&& sh.nodes[right].hi == None::<Key>
    &&& sh.nodes[right].parent == None::<u64>
    &&& sh.nodes[right].height == sh.nodes[left].height
}

/// Does the tree hold `k` with the value `v`?
pub open spec fn tree_holds(pages: Pages, nodes: Map<u64, Node>, k: Key, v: Seq<u8>) -> bool {
    exists|id: u64| #[trigger]
        nodes.contains_key(id) && nodes[id].height == 0 && records_hold(pages[id].records, k, v)
}

/// The key/value pairs of the tree.
pub open spec fn tree_map(pages: Pages, nodes: Map<u64, Node>) -> Map<Key, Seq<u8>> {
    Map::new(
        |k: Key| exists|v: Seq<u8>| tree_holds(pages, nodes, k, v),
        |k: Key| choose|v: Seq<u8>| tree_holds(pages, nodes, k, v),
    )
}

// ---------------------------------------------------------------------------
// What the invariant gives
// ---------------------------------------------------------------------------

/// Only one leaf is responsible for a key.
pub proof fn lemma_leaf_unique(pages: Pages, sh: Shape, a: int, b: int, k: Key)
    requires
        leaves_ok(pages, sh),
        0 <= a < sh.leaves.len(),
        0 <= b < sh.leaves.len(),
        in_fence(k, sh.nodes[sh.leaves[a]]),
        in_fence(k, sh.nodes[sh.leaves[b]]),
    ensures
        a == b,
{
    broadcast use crate::bytes::group_lex_order;

    assert(chain_ok(pages, sh, a));
    assert(chain_ok(pages, sh, b));
    if a < b {
        if a + 1 < b {
            assert(lex_lt(sh.bounds[a + 1], sh.bounds[b]));
        }
    } else if b < a {
        if b + 1 < a {
            assert(lex_lt(sh.bounds[b + 1], sh.bounds[a]));
        }
    }
}

/// Two leaves that are both responsible for a key are one leaf.
pub proof fn lemma_leaf_unique_id(pages: Pages, sh: Shape, a: u64, b: u64, k: Key)
    requires
        leaves_ok(pages, sh),
        sh.nodes.contains_key(a),
        sh.nodes.contains_key(b),
        sh.nodes[a].height == 0,
        sh.nodes[b].height == 0,
        in_fence(k, sh.nodes[a]),
        in_fence(k, sh.nodes[b]),
    ensures
        a == b,
{
    let i = choose|i: int| 0 <= i < sh.leaves.len() && sh.leaves[i] == a;
    let j = choose|j: int| 0 <= j < sh.leaves.len() && sh.leaves[j] == b;
    lemma_leaf_unique(pages, sh, i, j, k);
}

/// What a tree holds of `k` is what the leaf responsible for `k` holds of it.
pub proof fn lemma_holds_in_leaf(pages: Pages, sh: Shape, id: u64, k: Key, v: Seq<u8>)
    requires
        leaves_ok(pages, sh),
        nodes_ok(pages, sh.nodes, None),
        sh.nodes.contains_key(id),
        sh.nodes[id].height == 0,
        in_fence(k, sh.nodes[id]),
    ensures
        tree_holds(pages, sh.nodes, k, v) == records_hold(pages[id].records, k, v),
{
    if tree_holds(pages, sh.nodes, k, v) {
        let other = choose|o: u64| #[trigger]
            sh.nodes.contains_key(o) && sh.nodes[o].height == 0 && records_hold(
                pages[o].records,
                k,
                v,
            );
        assert(node_ok(pages, sh.nodes, other));
        lemma_leaf_unique_id(pages, sh, id, other, k);
    }
}

/// Well-formed leaf records hold one value for a key.
pub proof fn lemma_records_unique(recs: Seq<Seq<u8>>, i: int, j: int)
    requires
        leaf_records_ok(recs),
        0 <= i < recs.len(),
        0 <= j < recs.len(),
        kv_key(recs[i]) == kv_key(recs[j]),
    ensures
        i == j,
{
    broadcast use crate::bytes::group_lex_order;

    if i < j {
        assert(lex_lt(kv_key(recs[i]), kv_key(recs[j])));
    } else if j < i {
        assert(lex_lt(kv_key(recs[j]), kv_key(recs[i])));
    }
}

/// A tree holds one value for a key.
pub proof fn lemma_holds_unique(pages: Pages, sh: Shape, k: Key, v: Seq<u8>, w: Seq<u8>)
    requires
        leaves_ok(pages, sh),
        nodes_ok(pages, sh.nodes, None),
        tree_holds(pages, sh.nodes, k, v),
        tree_holds(pages, sh.nodes, k, w),
    ensures
        v == w,
{
    let a = choose|o: u64| #[trigger]
        sh.nodes.contains_key(o) && sh.nodes[o].height == 0 && records_hold(
            pages[o].records,
            k,
            v,
        );
    assert(node_ok(pages, sh.nodes, a));
    let recs = pages[a].records;
    let i = choose|i: int|
        0 <= i < recs.len() && kv_key(#[trigger] recs[i]) == k && kv_value(recs[i]) == v;
    assert(in_fence(kv_key(recs[i]), sh.nodes[a]));
    lemma_holds_in_leaf(pages, sh, a, k, w);
    let j = choose|j: int|
        0 <= j < recs.len() && kv_key(#[trigger] recs[j]) == k && kv_value(recs[j]) == w;
    lemma_records_unique(recs, i, j);
}

/// The map of a tree holds exactly the pairs that the tree holds.
pub proof fn lemma_map(pages: Pages, sh: Shape)
    requires
        leaves_ok(pages, sh),
        nodes_ok(pages, sh.nodes, None),
    ensures
        forall|k: Key, v: Seq<u8>| #[trigger]
            tree_holds(pages, sh.nodes, k, v) <==> tree_map(pages, sh.nodes).contains_key(k)
                && tree_map(pages, sh.nodes)[k] == v,
{
    assert forall|k: Key, v: Seq<u8>| #[trigger]
        tree_holds(pages, sh.nodes, k, v) implies tree_map(pages, sh.nodes).contains_key(k)
        && tree_map(pages, sh.nodes)[k] == v by {
        let w = tree_map(pages, sh.nodes)[k];
        assert(tree_holds(pages, sh.nodes, k, w));
        lemma_holds_unique(pages, sh, k, v, w);
    }
}

/// Trees that hold the same pairs have the same map.
pub proof fn lemma_same_map(pages: Pages, sh: Shape, pages2: Pages, sh2: Shape)
    requires
        leaves_ok(pages, sh),
        nodes_ok(pages, sh.nodes, None),
        leaves_ok(pages2, sh2),
        nodes_ok(pages2, sh2.nodes, None),
        forall|k: Key, v: Seq<u8>|
            tree_holds(pages2, sh2.nodes, k, v) == #[trigger] tree_holds(pages, sh.nodes, k, v),
    ensures
        tree_map(pages2, sh2.nodes) == tree_map(pages, sh.nodes),
{
    lemma_map(pages, sh);
    lemma_map(pages2, sh2);
    let a = tree_map(pages, sh.nodes);
    let b = tree_map(pages2, sh2.nodes);
    assert forall|k: Key| a.contains_key(k) == b.contains_key(k) by {
        if a.contains_key(k) {
            assert(tree_holds(pages, sh.nodes, k, a[k]));
        }
        if b.contains_key(k) {
            assert(tree_holds(pages, sh.nodes, k, b[k]));
        }
    }
    assert forall|k: Key| a.contains_key(k) implies a[k] == b[k] by {
        assert(tree_holds(pages, sh.nodes, k, a[k]));
    }
    assert(a =~= b);
}

} // verus!
