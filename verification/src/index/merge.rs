//! How a tree keeps its shape while siblings share records or are merged.

use vstd::prelude::*;

use crate::bytes::lex_lt;
use crate::index::page::PageState;
use crate::index::shape::below;
use crate::index::shape::branch_ok;
use crate::index::shape::chain_ok;
use crate::index::shape::child_hi;
use crate::index::shape::child_lo;
use crate::index::shape::child_ok;
use crate::index::shape::children;
use crate::index::shape::is_branch_page;
use crate::index::shape::is_leaf_page;
use crate::index::shape::leaves_ok;
use crate::index::shape::node_ok;
use crate::index::shape::records_hold;
use crate::index::shape::root_ok;
use crate::index::shape::seps;
use crate::index::shape::seps_ok;
use crate::index::shape::sorted;
use crate::index::shape::tree_holds;
use crate::index::shape::tree_ok;
use crate::index::shape::Key;
use crate::index::shape::Node;
use crate::index::shape::Pages;
use crate::index::shape::Shape;
use crate::index::split::lemma_chain_distinct;
use crate::index::split::lemma_children_distinct;
use crate::index::split::lemma_same_leaves;

verus! {

/// `c` are nodes of one height whose fences the separators `s` cut out of the
/// fence of `n`.
pub open spec fn fences_ok(nodes: Map<u64, Node>, n: Node, s: Seq<Key>, c: Seq<u64>) -> bool {
    &&& n.height > 0
    &&& c.len() == s.len() + 1
    &&& seps_ok(n, s)
    &&& forall|i: int|
        0 <= i < c.len() ==> {
            &&& nodes.contains_key(#[trigger] c[i])
            &&& nodes[c[i]].lo == child_lo(n, s, i)
            &&& nodes[c[i]].hi == child_hi(n, s, i)
            &&& nodes[c[i]].height + 1 == n.height
        }
}

/// Every node of `c` has the parent `id`.
pub open spec fn parent_is(nodes: Map<u64, Node>, c: Seq<u64>, id: u64) -> bool {
    forall|i: int| 0 <= i < c.len() ==> nodes[#[trigger] c[i]].parent == Some(id)
}

pub proof fn lemma_branch_fences(nodes: Map<u64, Node>, id: u64, n: Node, s: Seq<Key>, c: Seq<u64>)
    ensures
        branch_ok(nodes, id, n, s, c) == (fences_ok(nodes, n, s, c) && parent_is(nodes, c, id)),
{
    if branch_ok(nodes, id, n, s, c) {
        assert forall|i: int| 0 <= i < c.len() implies child_ok(nodes, id, n, s, c, i) by {
            assert(nodes.contains_key(c[i]));
        }
    }
}

/// The fences of adjacent siblings join.
pub proof fn lemma_fences_join(
    nodes: Map<u64, Node>,
    a: Node,
    b: Node,
    s: Seq<Key>,
    c: Seq<u64>,
    sep: Key,
    t: Seq<Key>,
    d: Seq<u64>,
)
    requires
        fences_ok(nodes, a, s, c),
        fences_ok(nodes, b, t, d),
        a.hi == Some(sep),
        b.lo == sep,
        a.height == b.height,
        below(a.lo, a.hi),
        below(b.lo, b.hi),
    ensures
        fences_ok(nodes, Node { hi: b.hi, ..a }, s + seq![sep] + t, c + d),
{
    broadcast use crate::bytes::group_lex_order;

    let n = Node { hi: b.hi, ..a };
    let u = s + seq![sep] + t;
    let e = c + d;
    assert forall|i: int, j: int| 0 <= i < j < u.len() implies lex_lt(
        #[trigger] u[i],
        #[trigger] u[j],
    ) by {
        if j < s.len() {
            assert(lex_lt(s[i], s[j]));
        } else if i < s.len() {
            assert(below(s[i], a.hi));
            if j > s.len() {
                assert(lex_lt(b.lo, t[j - s.len() - 1]));
            }
        } else if i == s.len() {
            assert(lex_lt(b.lo, t[j - s.len() - 1]));
        } else {
            assert(lex_lt(t[i - s.len() - 1], t[j - s.len() - 1]));
        }
    }
    assert forall|i: int| 0 <= i < u.len() implies lex_lt(n.lo, #[trigger] u[i]) && below(
        u[i],
        n.hi,
    ) by {
        if i < s.len() {
            assert(lex_lt(a.lo, s[i]) && below(s[i], a.hi));
        } else if i > s.len() {
            assert(lex_lt(b.lo, t[i - s.len() - 1]) && below(t[i - s.len() - 1], b.hi));
        }
    }
    assert forall|i: int| 0 <= i < e.len() implies {
        &&& nodes.contains_key(#[trigger] e[i])
        &&& nodes[e[i]].lo == child_lo(n, u, i)
        &&& nodes[e[i]].hi == child_hi(n, u, i)
        &&& nodes[e[i]].height + 1 == n.height
    } by {
        if i < c.len() {
            assert(e[i] == c[i]);
        } else {
            assert(e[i] == d[i - c.len()]);
        }
    }
}

/// The fences of a branch can be cut in two at any separator.
pub proof fn lemma_fences_cut(nodes: Map<u64, Node>, n: Node, u: Seq<Key>, e: Seq<u64>, m: int)
    requires
        fences_ok(nodes, n, u, e),
        0 <= m < u.len(),
        below(n.lo, n.hi),
    ensures
        fences_ok(nodes, Node { hi: Some(u[m]), ..n }, u.take(m), e.take(m + 1)),
        fences_ok(nodes, Node { lo: u[m], ..n }, u.skip(m + 1), e.skip(m + 1)),
        lex_lt(n.lo, u[m]),
        below(u[m], n.hi),
{
    broadcast use crate::bytes::group_lex_order;

    let a = Node { hi: Some(u[m]), ..n };
    let b = Node { lo: u[m], ..n };
    let s = u.take(m);
    let t = u.skip(m + 1);
    assert forall|i: int| 0 <= i < s.len() implies lex_lt(a.lo, #[trigger] s[i]) && below(
        s[i],
        a.hi,
    ) by {
        assert(s[i] == u[i]);
        assert(lex_lt(u[i], u[m]));
    }
    assert forall|i: int, j: int| 0 <= i < j < s.len() implies lex_lt(
        #[trigger] s[i],
        #[trigger] s[j],
    ) by {
        assert(lex_lt(u[i], u[j]));
    }
    assert forall|i: int| 0 <= i < t.len() implies lex_lt(b.lo, #[trigger] t[i]) && below(
        t[i],
        b.hi,
    ) by {
        assert(t[i] == u[i + m + 1]);
        assert(lex_lt(u[m], u[i + m + 1]));
    }
    assert forall|i: int, j: int| 0 <= i < j < t.len() implies lex_lt(
        #[trigger] t[i],
        #[trigger] t[j],
    ) by {
        assert(lex_lt(u[i + m + 1], u[j + m + 1]));
    }
    let c = e.take(m + 1);
    let d = e.skip(m + 1);
    assert forall|i: int| 0 <= i < c.len() implies {
        &&& nodes.contains_key(#[trigger] c[i])
        &&& nodes[c[i]].lo == child_lo(a, s, i)
        &&& nodes[c[i]].hi == child_hi(a, s, i)
        &&& nodes[c[i]].height + 1 == a.height
    } by {
        assert(c[i] == e[i]);
    }
    assert forall|i: int| 0 <= i < d.len() implies {
        &&& nodes.contains_key(#[trigger] d[i])
        &&& nodes[d[i]].lo == child_lo(b, t, i)
        &&& nodes[d[i]].hi == child_hi(b, t, i)
        &&& nodes[d[i]].height + 1 == b.height
    } by {
        assert(d[i] == e[i + m + 1]);
    }
}

/// Fences depend only on the nodes they speak of, and not on parents.
pub proof fn lemma_fences_frame(
    nodes: Map<u64, Node>,
    nodes2: Map<u64, Node>,
    n: Node,
    n2: Node,
    s: Seq<Key>,
    c: Seq<u64>,
)
    requires
        fences_ok(nodes, n, s, c),
        n2.lo == n.lo,
        n2.hi == n.hi,
        n2.height == n.height,
        forall|i: int|
            0 <= i < c.len() ==> nodes2.contains_key(#[trigger] c[i]) && nodes2[c[i]].lo
                == nodes[c[i]].lo && nodes2[c[i]].hi == nodes[c[i]].hi && nodes2[c[i]].height
                == nodes[c[i]].height,
    ensures
        fences_ok(nodes2, n2, s, c),
{
    assert forall|i: int| 0 <= i < c.len() implies {
        &&& nodes2.contains_key(#[trigger] c[i])
        &&& nodes2[c[i]].lo == child_lo(n2, s, i)
        &&& nodes2[c[i]].hi == child_hi(n2, s, i)
        &&& nodes2[c[i]].height + 1 == n2.height
    } by {
        assert(nodes.contains_key(c[i]));
    }
}

/// Siblings `c[i]` and `c[i + 1]` moved their common bound from `s[i]` to `sep`.
pub proof fn lemma_shift_child(
    nodes: Map<u64, Node>,
    nodes2: Map<u64, Node>,
    p: u64,
    s: Seq<Key>,
    c: Seq<u64>,
    i: int,
    sep: Key,
)
    requires
        nodes.contains_key(p),
        branch_ok(nodes, p, nodes[p], s, c),
        0 <= i < s.len(),
        nodes2.contains_key(p),
        nodes2[p] == nodes[p],
        nodes2.contains_key(c[i]),
        nodes2.contains_key(c[i + 1]),
        nodes2[c[i]] == (Node { hi: Some(sep), ..nodes[c[i]] }),
        nodes2[c[i + 1]] == (Node { lo: sep, ..nodes[c[i + 1]] }),
        lex_lt(nodes[c[i]].lo, sep),
        below(sep, nodes[c[i + 1]].hi),
        forall|t: int|
            0 <= t < c.len() && t != i && t != i + 1 ==> nodes2.contains_key(#[trigger] c[t])
                && nodes2[c[t]] == nodes[c[t]],
    ensures
        branch_ok(nodes2, p, nodes2[p], s.update(i, sep), c),
{
    broadcast use crate::bytes::group_lex_order;

    let n = nodes[p];
    let s2 = s.update(i, sep);
    assert(child_ok(nodes, p, n, s, c, i));
    assert(child_ok(nodes, p, n, s, c, i + 1));
    assert forall|a: int, b: int| 0 <= a < b < s2.len() implies lex_lt(
        #[trigger] s2[a],
        #[trigger] s2[b],
    ) by {
        if b == i {
            if a < i - 1 {
                assert(lex_lt(s[a], s[i - 1]));
            }
        } else if a == i {
            if b > i + 1 {
                assert(lex_lt(s[i + 1], s[b]));
            }
        } else {
            assert(lex_lt(s[a], s[b]));
        }
    }
    assert forall|a: int| 0 <= a < s2.len() implies lex_lt(n.lo, #[trigger] s2[a]) && below(
        s2[a],
        n.hi,
    ) by {
        if a != i {
            assert(lex_lt(n.lo, s[a]) && below(s[a], n.hi));
        } else {
            if i > 0 {
                assert(lex_lt(n.lo, s[i - 1]));
            }
            if i + 1 < s.len() {
                assert(below(s[i + 1], n.hi));
            }
        }
    }
    assert forall|t: int| 0 <= t < c.len() implies nodes2.contains_key(#[trigger] c[t])
        && child_ok(nodes2, p, n, s2, c, t) by {
        assert(child_ok(nodes, p, n, s, c, t));
    }
}

/// Sibling `c[i + 1]` was merged into `c[i]`.
pub proof fn lemma_merge_child(
    nodes: Map<u64, Node>,
    nodes2: Map<u64, Node>,
    p: u64,
    s: Seq<Key>,
    c: Seq<u64>,
    i: int,
)
    requires
        nodes.contains_key(p),
        branch_ok(nodes, p, nodes[p], s, c),
        0 <= i < s.len(),
        nodes2.contains_key(p),
        nodes2[p] == nodes[p],
        nodes2.contains_key(c[i]),
        nodes2[c[i]] == (Node { hi: nodes[c[i + 1]].hi, ..nodes[c[i]] }),
        forall|t: int|
            0 <= t < c.len() && t != i && t != i + 1 ==> nodes2.contains_key(#[trigger] c[t])
                && nodes2[c[t]] == nodes[c[t]],
    ensures
        branch_ok(nodes2, p, nodes2[p], s.remove(i), c.remove(i + 1)),
{
    let n = nodes[p];
    let s2 = s.remove(i);
    let c2 = c.remove(i + 1);
    assert(child_ok(nodes, p, n, s, c, i));
    assert(child_ok(nodes, p, n, s, c, i + 1));
    assert forall|a: int, b: int| 0 <= a < b < s2.len() implies lex_lt(
        #[trigger] s2[a],
        #[trigger] s2[b],
    ) by {
        let x = if a < i { a } else { a + 1 };
        let y = if b < i { b } else { b + 1 };
        assert(s2[a] == s[x] && s2[b] == s[y]);
        assert(lex_lt(s[x], s[y]));
    }
    assert forall|a: int| 0 <= a < s2.len() implies lex_lt(n.lo, #[trigger] s2[a]) && below(
        s2[a],
        n.hi,
    ) by {
        let x = if a < i { a } else { a + 1 };
        assert(s2[a] == s[x]);
    }
    assert forall|t: int| 0 <= t < c2.len() implies nodes2.contains_key(#[trigger] c2[t])
        && child_ok(nodes2, p, n, s2, c2, t) by {
        if t <= i {
            assert(c2[t] == c[t]);
            assert(child_ok(nodes, p, n, s, c, t));
        } else {
            assert(c2[t] == c[t + 1]);
            assert(child_ok(nodes, p, n, s, c, t + 1));
        }
    }
}

/// What holds of two adjacent children of a branch.
pub open spec fn siblings(pages: Pages, sh: Shape, p: u64, i: int) -> bool {
    &&& sh.nodes.contains_key(p)
    &&& !pages[p].is_leaf()
    &&& 0 <= i < seps(pages[p]).len()
}

/// Facts about adjacent siblings.
pub proof fn lemma_siblings(pages: Pages, sh: Shape, p: u64, i: int)
    requires
        tree_ok(pages, sh),
        siblings(pages, sh, p, i),
    ensures
        ({
            let s = seps(pages[p]);
            let c = children(pages[p]);
            let l = c[i];
            let r = c[i + 1];
            &&& node_ok(pages, sh.nodes, p)
            &&& branch_ok(sh.nodes, p, sh.nodes[p], s, c)
            &&& c.len() == s.len() + 1
            &&& sh.nodes.contains_key(l)
            &&& sh.nodes.contains_key(r)
            &&& node_ok(pages, sh.nodes, l)
            &&& node_ok(pages, sh.nodes, r)
            &&& l != r
            &&& l != p
            &&& r != p
            &&& sh.nodes[l].hi == Some(s[i])
            &&& sh.nodes[r].lo == s[i]
            &&& sh.nodes[l].height == sh.nodes[r].height
            &&& sh.nodes[l].height + 1 == sh.nodes[p].height
            &&& sh.nodes[l].parent == Some(p)
            &&& sh.nodes[r].parent == Some(p)
            &&& pages[l].is_leaf() == pages[r].is_leaf()
            &&& pages[l].is_leaf() == (sh.nodes[l].height == 0)
            &&& below(sh.nodes[l].lo, sh.nodes[l].hi)
            &&& below(sh.nodes[r].lo, sh.nodes[r].hi)
        }),
{
    let s = seps(pages[p]);
    let c = children(pages[p]);
    assert(node_ok(pages, sh.nodes, p));
    assert(child_ok(sh.nodes, p, sh.nodes[p], s, c, i));
    assert(child_ok(sh.nodes, p, sh.nodes[p], s, c, i + 1));
    assert(node_ok(pages, sh.nodes, c[i]));
    assert(node_ok(pages, sh.nodes, c[i + 1]));
    if c[i] == c[i + 1] {
        lemma_children_distinct(sh.nodes, p, sh.nodes[p], s, c, i, i + 1);
    }
}

/// Adjacent sibling leaves are adjacent in the chain.
pub proof fn lemma_leaf_neighbours(pages: Pages, sh: Shape, l: u64, r: u64) -> (j: int)
    requires
        leaves_ok(pages, sh),
        sh.nodes.contains_key(l),
        sh.nodes.contains_key(r),
        sh.nodes[l].height == 0,
        sh.nodes[r].height == 0,
        sh.nodes[l].hi == Some(sh.nodes[r].lo),
    ensures
        0 <= j,
        j + 1 < sh.leaves.len(),
        sh.leaves[j] == l,
        sh.leaves[j + 1] == r,
{
    broadcast use crate::bytes::group_lex_order;

    let j = choose|j: int| 0 <= j < sh.leaves.len() && sh.leaves[j] == l;
    let k = choose|k: int| 0 <= k < sh.leaves.len() && sh.leaves[k] == r;
    assert(chain_ok(pages, sh, j));
    assert(chain_ok(pages, sh, k));
    assert(sh.bounds[j + 1] == sh.bounds[k]);
    if k < j + 1 {
        assert(lex_lt(sh.bounds[k], sh.bounds[j + 1]));
    } else if j + 1 < k {
        assert(lex_lt(sh.bounds[j + 1], sh.bounds[k]));
    }
    j
}

/// The shape after leaves `j` and `j + 1` of the chain moved their bound.
pub open spec fn shift_leaves_shape(sh: Shape, j: int, sep: Key) -> Shape {
    let l = sh.leaves[j];
    let r = sh.leaves[j + 1];
    Shape {
        nodes: sh.nodes.insert(l, Node { hi: Some(sep), ..sh.nodes[l] }).insert(
            r,
            Node { lo: sep, ..sh.nodes[r] },
        ),
        bounds: sh.bounds.update(j + 1, sep),
        ..sh
    }
}

/// Adjacent sibling leaves may move records across their common bound.
#[verifier::rlimit(40)]
pub proof fn step_shift_leaves(
    pages: Pages,
    sh: Shape,
    p: u64,
    i: int,
    j: int,
    sep: Key,
    pl: PageState,
    pr: PageState,
    pp: PageState,
)
    requires
        tree_ok(pages, sh),
        siblings(pages, sh, p, i),
        0 <= j,
        j + 1 < sh.leaves.len(),
        sh.leaves[j] == children(pages[p])[i],
        sh.leaves[j + 1] == children(pages[p])[i + 1],
        lex_lt(sh.nodes[sh.leaves[j]].lo, sep),
        below(sep, sh.nodes[sh.leaves[j + 1]].hi),
        is_leaf_page(pl, sh.leaves[j], Node { hi: Some(sep), ..sh.nodes[sh.leaves[j]] }),
        is_leaf_page(pr, sh.leaves[j + 1], Node { lo: sep, ..sh.nodes[sh.leaves[j + 1]] }),
        pl.next == pages[sh.leaves[j]].next,
        pr.next == pages[sh.leaves[j + 1]].next,
        is_branch_page(pp, p, seps(pages[p]).update(i, sep), children(pages[p])),
        forall|k: Key, v: Seq<u8>|
            (#[trigger] records_hold(pl.records, k, v) || records_hold(pr.records, k, v)) == (
            records_hold(pages[sh.leaves[j]].records, k, v) || records_hold(
                pages[sh.leaves[j + 1]].records,
                k,
                v,
            )),
    ensures
        tree_ok(
            pages.insert(sh.leaves[j], pl).insert(sh.leaves[j + 1], pr).insert(p, pp),
            shift_leaves_shape(sh, j, sep),
        ),
        forall|k: Key, v: Seq<u8>| #[trigger]
            tree_holds(
                pages.insert(sh.leaves[j], pl).insert(sh.leaves[j + 1], pr).insert(p, pp),
                shift_leaves_shape(sh, j, sep).nodes,
                k,
                v,
            ) == tree_holds(pages, sh.nodes, k, v),
{
    let l = sh.leaves[j];
    let r = sh.leaves[j + 1];
    let s = seps(pages[p]);
    let c = children(pages[p]);
    let sh2 = shift_leaves_shape(sh, j, sep);
    let nodes2 = sh2.nodes;
    let pages2 = pages.insert(l, pl).insert(r, pr).insert(p, pp);
    lemma_siblings(pages, sh, p, i);
    assert forall|t: int| 0 <= t < c.len() && t != i && t != i + 1 implies nodes2.contains_key(
        #[trigger] c[t],
    ) && nodes2[c[t]] == sh.nodes[c[t]] by {
        assert(child_ok(sh.nodes, p, sh.nodes[p], s, c, t));
        if c[t] == l {
            lemma_children_distinct(sh.nodes, p, sh.nodes[p], s, c, t, i);
        }
        if c[t] == r {
            lemma_children_distinct(sh.nodes, p, sh.nodes[p], s, c, t, i + 1);
        }
    }
    lemma_shift_child(sh.nodes, nodes2, p, s, c, i, sep);
    assert forall|x: u64| #[trigger] nodes2.contains_key(x) implies node_ok(pages2, nodes2, x) by {
        if x != l && x != r && x != p {
            assert(sh.nodes.contains_key(x));
            assert(node_ok(pages, sh.nodes, x));
            let q = pages[x];
            if !q.is_leaf() {
                assert forall|t: int| 0 <= t < children(q).len() implies nodes2.contains_key(
                    #[trigger] children(q)[t],
                ) && child_ok(nodes2, x, nodes2[x], seps(q), children(q), t) by {
                    assert(child_ok(sh.nodes, x, sh.nodes[x], seps(q), children(q), t));
                }
            }
        }
    }
    // The chain.
    assert(sorted(sh2.bounds)) by {
        broadcast use crate::bytes::group_lex_order;

        let b = sh.bounds;
        let b2 = sh2.bounds;
        assert(chain_ok(pages, sh, j));
        assert(chain_ok(pages, sh, j + 1));
        assert forall|x: int, y: int| 0 <= x < y < b2.len() implies lex_lt(
            #[trigger] b2[x],
            #[trigger] b2[y],
        ) by {
            if y == j + 1 {
                if x < j {
                    assert(lex_lt(b[x], b[j]));
                }
            } else if x == j + 1 {
                if y > j + 2 {
                    assert(lex_lt(b[j + 2], b[y]));
                }
            } else {
                assert(lex_lt(b[x], b[y]));
            }
        }
    }
    assert forall|t: int| 0 <= t < sh2.leaves.len() implies #[trigger] chain_ok(
        pages2,
        sh2,
        t,
    ) by {
        assert(chain_ok(pages, sh, t));
        if sh.leaves[t] == l {
            lemma_chain_distinct(pages, sh, t, j);
        }
        if sh.leaves[t] == r {
            lemma_chain_distinct(pages, sh, t, j + 1);
        }
    }
    assert forall|x: u64| #[trigger]
        nodes2.contains_key(x) && nodes2[x].height == 0 implies sh2.leaves.contains(x) by {
        assert(sh.nodes.contains_key(x));
    }
    assert(tree_ok(pages2, sh2));
    assert forall|k: Key, v: Seq<u8>| #[trigger]
        tree_holds(pages2, nodes2, k, v) == tree_holds(pages, sh.nodes, k, v) by {
        assert((records_hold(pl.records, k, v) || records_hold(pr.records, k, v)) == (
        records_hold(pages[l].records, k, v) || records_hold(pages[r].records, k, v)));
        if tree_holds(pages, sh.nodes, k, v) {
            let o = choose|o: u64| #[trigger]
                sh.nodes.contains_key(o) && sh.nodes[o].height == 0 && records_hold(
                    pages[o].records,
                    k,
                    v,
                );
            assert(nodes2.contains_key(l) && nodes2.contains_key(r) && nodes2.contains_key(o));
        }
        if tree_holds(pages2, nodes2, k, v) {
            let o = choose|o: u64| #[trigger]
                nodes2.contains_key(o) && nodes2[o].height == 0 && records_hold(
                    pages2[o].records,
                    k,
                    v,
                );
            assert(sh.nodes.contains_key(l) && sh.nodes.contains_key(r) && sh.nodes.contains_key(
                o,
            ));
        }
    }
}

/// The nodes after branches `l` and `r` moved children across their bound.
pub open spec fn shift_branch_nodes(
    nodes: Map<u64, Node>,
    l: u64,
    r: u64,
    sep: Key,
    cl: Seq<u64>,
    cr: Seq<u64>,
) -> Map<u64, Node> {
    Map::new(
        |x: u64| nodes.contains_key(x),
        |x: u64|
            if x == l {
                Node { hi: Some(sep), ..nodes[x] }
            } else if x == r {
                Node { lo: sep, ..nodes[x] }
            } else if cl.contains(x) {
                Node { parent: Some(l), ..nodes[x] }
            } else if cr.contains(x) {
                Node { parent: Some(r), ..nodes[x] }
            } else {
                nodes[x]
            },
    )
}

/// Adjacent sibling branches may move children across their common bound.
#[verifier::rlimit(40)]
pub proof fn step_shift_branches(
    pages: Pages,
    sh: Shape,
    p: u64,
    i: int,
    u: Seq<Key>,
    e: Seq<u64>,
    m: int,
    pl: PageState,
    pr: PageState,
    pp: PageState,
)
    requires
        tree_ok(pages, sh),
        siblings(pages, sh, p, i),
        sh.nodes[children(pages[p])[i]].height > 0,
        u == seps(pages[children(pages[p])[i]]) + seq![seps(pages[p])[i]] + seps(
            pages[children(pages[p])[i + 1]],
        ),
        e == children(pages[children(pages[p])[i]]) + children(pages[children(pages[p])[i + 1]]),
        0 <= m < u.len(),
        is_branch_page(pl, children(pages[p])[i], u.take(m), e.take(m + 1)),
        is_branch_page(pr, children(pages[p])[i + 1], u.skip(m + 1), e.skip(m + 1)),
        is_branch_page(pp, p, seps(pages[p]).update(i, u[m]), children(pages[p])),
    ensures
        tree_ok(
            pages.insert(children(pages[p])[i], pl).insert(children(pages[p])[i + 1], pr).insert(
                p,
                pp,
            ),
            Shape {
                nodes: shift_branch_nodes(
                    sh.nodes,
                    children(pages[p])[i],
                    children(pages[p])[i + 1],
                    u[m],
                    e.take(m + 1),
                    e.skip(m + 1),
                ),
                ..sh
            },
        ),
        forall|k: Key, v: Seq<u8>| #[trigger]
            tree_holds(
                pages.insert(children(pages[p])[i], pl).insert(
                    children(pages[p])[i + 1],
                    pr,
                ).insert(p, pp),
                shift_branch_nodes(
                    sh.nodes,
                    children(pages[p])[i],
                    children(pages[p])[i + 1],
                    u[m],
                    e.take(m + 1),
                    e.skip(m + 1),
                ),
                k,
                v,
            ) == tree_holds(pages, sh.nodes, k, v),
{
    let s = seps(pages[p]);
    let c = children(pages[p]);
    let l = c[i];
    let r = c[i + 1];
    let nodes = sh.nodes;
    let cl = e.take(m + 1);
    let cr = e.skip(m + 1);
    let sep = u[m];
    let nodes2 = shift_branch_nodes(nodes, l, r, sep, cl, cr);
    let sh2 = Shape { nodes: nodes2, ..sh };
    let pages2 = pages.insert(l, pl).insert(r, pr).insert(p, pp);
    lemma_siblings(pages, sh, p, i);
    lemma_branch_fences(nodes, l, nodes[l], seps(pages[l]), children(pages[l]));
    lemma_branch_fences(nodes, r, nodes[r], seps(pages[r]), children(pages[r]));
    lemma_fences_join(
        nodes,
        nodes[l],
        nodes[r],
        seps(pages[l]),
        children(pages[l]),
        s[i],
        seps(pages[r]),
        children(pages[r]),
    );
    let n = Node { hi: nodes[r].hi, ..nodes[l] };
    assert(below(n.lo, n.hi)) by {
        broadcast use crate::bytes::group_lex_order;

    }
    lemma_fences_cut(nodes, n, u, e, m);
    // The grandchildren are neither the siblings nor the parent, and are distinct.
    assert forall|t: int| 0 <= t < e.len() implies nodes.contains_key(#[trigger] e[t])
        && nodes[e[t]].height + 2 == nodes[p].height && (nodes[e[t]].parent == Some(l)
        || nodes[e[t]].parent == Some(r)) by {
        if t < children(pages[l]).len() {
            assert(e[t] == children(pages[l])[t]);
        } else {
            assert(e[t] == children(pages[r])[t - children(pages[l]).len()]);
        }
    }
    assert forall|x: int, y: int| 0 <= x < e.len() && 0 <= y < e.len() && e[x] == e[y] implies x
        == y by {
        lemma_fences_distinct(nodes, n, u, e, x, y);
    }
    assert forall|t: int| 0 <= t < cl.len() implies #[trigger] cl[t] == e[t] && !cr.contains(
        cl[t],
    ) by {
        if cr.contains(cl[t]) {
            let w = choose|w: int| 0 <= w < cr.len() && cr[w] == cl[t];
            assert(cr[w] == e[w + m + 1]);
        }
    }
    assert forall|t: int| 0 <= t < cr.len() implies #[trigger] cr[t] == e[t + m + 1]
        && !cl.contains(cr[t]) by {
        if cl.contains(cr[t]) {
            let w = choose|w: int| 0 <= w < cl.len() && cl[w] == cr[t];
            assert(cl[w] == e[w]);
        }
    }
    assert(forall|t: int| 0 <= t < cl.len() ==> cl.contains(#[trigger] cl[t]));
    assert(forall|t: int| 0 <= t < cr.len() ==> cr.contains(#[trigger] cr[t]));
    lemma_fences_frame(nodes, nodes2, Node { hi: Some(sep), ..n }, nodes2[l], u.take(m), cl);
    lemma_fences_frame(nodes, nodes2, Node { lo: sep, ..n }, nodes2[r], u.skip(m + 1), cr);
    lemma_branch_fences(nodes2, l, nodes2[l], u.take(m), cl);
    lemma_branch_fences(nodes2, r, nodes2[r], u.skip(m + 1), cr);
    assert(nodes2[p] == nodes[p]) by {
        assert(!cl.contains(p)) by {
            if cl.contains(p) {
                let w = choose|w: int| 0 <= w < cl.len() && cl[w] == p;
                assert(cl[w] == e[w]);
            }
        }
        assert(!cr.contains(p)) by {
            if cr.contains(p) {
                let w = choose|w: int| 0 <= w < cr.len() && cr[w] == p;
                assert(cr[w] == e[w + m + 1]);
            }
        }
    }
    assert forall|t: int| 0 <= t < c.len() && t != i && t != i + 1 implies nodes2.contains_key(
        #[trigger] c[t],
    ) && nodes2[c[t]] == nodes[c[t]] by {
        assert(child_ok(nodes, p, nodes[p], s, c, t));
        if c[t] == l {
            lemma_children_distinct(nodes, p, nodes[p], s, c, t, i);
        }
        if c[t] == r {
            lemma_children_distinct(nodes, p, nodes[p], s, c, t, i + 1);
        }
        if cl.contains(c[t]) {
            let w = choose|w: int| 0 <= w < cl.len() && cl[w] == c[t];
            assert(cl[w] == e[w]);
        }
        if cr.contains(c[t]) {
            let w = choose|w: int| 0 <= w < cr.len() && cr[w] == c[t];
            assert(cr[w] == e[w + m + 1]);
        }
    }
    lemma_shift_child(nodes, nodes2, p, s, c, i, sep);
    assert forall|x: u64| #[trigger] nodes2.contains_key(x) implies node_ok(pages2, nodes2, x) by {
        if x != l && x != r && x != p {
            assert(node_ok(pages, nodes, x));
            let q = pages[x];
            if !q.is_leaf() {
                assert forall|t: int| 0 <= t < children(q).len() implies nodes2.contains_key(
                    #[trigger] children(q)[t],
                ) && child_ok(nodes2, x, nodes2[x], seps(q), children(q), t) by {
                    let y = children(q)[t];
                    assert(child_ok(nodes, x, nodes[x], seps(q), children(q), t));
                    if cl.contains(y) {
                        let w = choose|w: int| 0 <= w < cl.len() && cl[w] == y;
                        assert(cl[w] == e[w]);
                    }
                    if cr.contains(y) {
                        let w = choose|w: int| 0 <= w < cr.len() && cr[w] == y;
                        assert(cr[w] == e[w + m + 1]);
                    }
                }
            }
        }
    }
    assert forall|t: int| 0 <= t < sh2.leaves.len() implies #[trigger] chain_ok(
        pages2,
        sh2,
        t,
    ) by {
        assert(chain_ok(pages, sh, t));
    }
    assert forall|x: u64| #[trigger]
        nodes2.contains_key(x) && nodes2[x].height == 0 implies sh2.leaves.contains(x) by {
        assert(nodes.contains_key(x));
    }
    assert(root_ok(sh2)) by {
        if e.contains(sh.root) {
            let w = choose|w: int| 0 <= w < e.len() && e[w] == sh.root;
            assert(nodes[e[w]].parent is Some);
        }
        if cl.contains(sh.root) {
            let w = choose|w: int| 0 <= w < cl.len() && cl[w] == sh.root;
            assert(e[w] == sh.root);
            assert(e.contains(sh.root));
        }
        if cr.contains(sh.root) {
            let w = choose|w: int| 0 <= w < cr.len() && cr[w] == sh.root;
            assert(e[w + m + 1] == sh.root);
            assert(e.contains(sh.root));
        }
    }
    lemma_same_leaves(pages, nodes, pages2, nodes2);
}

/// The shape after leaf `j + 1` of the chain was merged into leaf `j`.
pub open spec fn merge_leaves_shape(sh: Shape, j: int) -> Shape {
    let l = sh.leaves[j];
    let r = sh.leaves[j + 1];
    Shape {
        nodes: sh.nodes.insert(l, Node { hi: sh.nodes[r].hi, ..sh.nodes[l] }).remove(r),
        leaves: sh.leaves.remove(j + 1),
        bounds: sh.bounds.remove(j + 1),
        root: sh.root,
    }
}

proof fn lemma_bounds_remove(b: Seq<Key>, i: int)
    requires
        sorted(b),
        0 <= i < b.len(),
    ensures
        sorted(b.remove(i)),
{
    let b2 = b.remove(i);
    assert forall|x: int, y: int| 0 <= x < y < b2.len() implies lex_lt(
        #[trigger] b2[x],
        #[trigger] b2[y],
    ) by {
        let x2 = if x < i { x } else { x + 1 };
        let y2 = if y < i { y } else { y + 1 };
        assert(b2[x] == b[x2] && b2[y] == b[y2]);
    }
}

proof fn lemma_merge_chain(pages: Pages, sh: Shape, p: u64, j: int, pl: PageState, pp: PageState)
    requires
        leaves_ok(pages, sh),
        0 <= j,
        j + 1 < sh.leaves.len(),
        sh.nodes.contains_key(p),
        sh.nodes[p].height > 0,
        pl.is_leaf(),
        pl.next == pages[sh.leaves[j + 1]].next,
    ensures
        leaves_ok(
            pages.insert(sh.leaves[j], pl).insert(p, pp).remove(sh.leaves[j + 1]),
            merge_leaves_shape(sh, j),
        ),
{
    let l = sh.leaves[j];
    let r = sh.leaves[j + 1];
    let sh2 = merge_leaves_shape(sh, j);
    let nodes2 = sh2.nodes;
    let pages2 = pages.insert(l, pl).insert(p, pp).remove(r);
    assert(chain_ok(pages, sh, j));
    assert(chain_ok(pages, sh, j + 1));
    if l == r {
        lemma_chain_distinct(pages, sh, j, j + 1);
    }
    lemma_bounds_remove(sh.bounds, j + 1);
    assert forall|t: int| 0 <= t < sh2.leaves.len() implies #[trigger] chain_ok(
        pages2,
        sh2,
        t,
    ) by {
        if t < j {
            assert(sh2.leaves[t] == sh.leaves[t]);
            assert(chain_ok(pages, sh, t));
            if sh.leaves[t] == l {
                lemma_chain_distinct(pages, sh, t, j);
            }
            if sh.leaves[t] == r {
                lemma_chain_distinct(pages, sh, t, j + 1);
            }
        } else if t == j {
            assert(sh2.leaves[t] == l);
        } else {
            assert(sh2.leaves[t] == sh.leaves[t + 1]);
            assert(chain_ok(pages, sh, t + 1));
            if sh.leaves[t + 1] == l {
                lemma_chain_distinct(pages, sh, t + 1, j);
            }
            if sh.leaves[t + 1] == r {
                lemma_chain_distinct(pages, sh, t + 1, j + 1);
            }
        }
    }
    assert forall|x: u64| #[trigger]
        nodes2.contains_key(x) && nodes2[x].height == 0 implies sh2.leaves.contains(x) by {
        assert(sh.nodes.contains_key(x));
        let t = choose|t: int| 0 <= t < sh.leaves.len() && sh.leaves[t] == x;
        let t2 = if t < j + 1 { t } else { t - 1 };
        assert(sh2.leaves[t2] == x);
    }
}

proof fn lemma_merge_contents(
    pages: Pages,
    sh: Shape,
    p: u64,
    i: int,
    j: int,
    pl: PageState,
    pp: PageState,
)
    requires
        tree_ok(pages, sh),
        siblings(pages, sh, p, i),
        0 <= j,
        j + 1 < sh.leaves.len(),
        sh.leaves[j] == children(pages[p])[i],
        sh.leaves[j + 1] == children(pages[p])[i + 1],
        is_leaf_page(
            pl,
            sh.leaves[j],
            Node { hi: sh.nodes[sh.leaves[j + 1]].hi, ..sh.nodes[sh.leaves[j]] },
        ),
        pl.next == pages[sh.leaves[j + 1]].next,
        is_branch_page(pp, p, seps(pages[p]).remove(i), children(pages[p]).remove(i + 1)),
        forall|k: Key, v: Seq<u8>| #[trigger]
            records_hold(pl.records, k, v) == (records_hold(pages[sh.leaves[j]].records, k, v)
                || records_hold(pages[sh.leaves[j + 1]].records, k, v)),
    ensures
        forall|k: Key, v: Seq<u8>| #[trigger]
            tree_holds(
                pages.insert(sh.leaves[j], pl).insert(p, pp).remove(sh.leaves[j + 1]),
                merge_leaves_shape(sh, j).nodes,
                k,
                v,
            ) == tree_holds(pages, sh.nodes, k, v),
{
    let l = sh.leaves[j];
    let r = sh.leaves[j + 1];
    let sh2 = merge_leaves_shape(sh, j);
    let nodes2 = sh2.nodes;
    let pages2 = pages.insert(l, pl).insert(p, pp).remove(r);
    lemma_siblings(pages, sh, p, i);
    assert forall|k: Key, v: Seq<u8>| #[trigger]
        tree_holds(pages2, nodes2, k, v) == tree_holds(pages, sh.nodes, k, v) by {
        assert(records_hold(pl.records, k, v) == (records_hold(pages[l].records, k, v)
            || records_hold(pages[r].records, k, v)));
        if tree_holds(pages, sh.nodes, k, v) {
            let o = choose|o: u64| #[trigger]
                sh.nodes.contains_key(o) && sh.nodes[o].height == 0 && records_hold(
                    pages[o].records,
                    k,
                    v,
                );
            assert(nodes2.contains_key(l));
            if o != r {
                assert(nodes2.contains_key(o));
            }
        }
        if tree_holds(pages2, nodes2, k, v) {
            let o = choose|o: u64| #[trigger]
                nodes2.contains_key(o) && nodes2[o].height == 0 && records_hold(
                    pages2[o].records,
                    k,
                    v,
                );
            assert(sh.nodes.contains_key(l) && sh.nodes.contains_key(r) && sh.nodes.contains_key(
                o,
            ));
        }
    }
}

/// Adjacent sibling leaves may be merged.
#[verifier::rlimit(40)]
pub proof fn step_merge_leaves(
    pages: Pages,
    sh: Shape,
    p: u64,
    i: int,
    j: int,
    pl: PageState,
    pp: PageState,
)
    requires
        tree_ok(pages, sh),
        siblings(pages, sh, p, i),
        0 <= j,
        j + 1 < sh.leaves.len(),
        sh.leaves[j] == children(pages[p])[i],
        sh.leaves[j + 1] == children(pages[p])[i + 1],
        is_leaf_page(
            pl,
            sh.leaves[j],
            Node { hi: sh.nodes[sh.leaves[j + 1]].hi, ..sh.nodes[sh.leaves[j]] },
        ),
        pl.next == pages[sh.leaves[j + 1]].next,
        is_branch_page(pp, p, seps(pages[p]).remove(i), children(pages[p]).remove(i + 1)),
        forall|k: Key, v: Seq<u8>| #[trigger]
            records_hold(pl.records, k, v) == (records_hold(pages[sh.leaves[j]].records, k, v)
                || records_hold(pages[sh.leaves[j + 1]].records, k, v)),
    ensures
        tree_ok(
            pages.insert(sh.leaves[j], pl).insert(p, pp).remove(sh.leaves[j + 1]),
            merge_leaves_shape(sh, j),
        ),
        forall|k: Key, v: Seq<u8>| #[trigger]
            tree_holds(
                pages.insert(sh.leaves[j], pl).insert(p, pp).remove(sh.leaves[j + 1]),
                merge_leaves_shape(sh, j).nodes,
                k,
                v,
            ) == tree_holds(pages, sh.nodes, k, v),
{
    let l = sh.leaves[j];
    let r = sh.leaves[j + 1];
    let s = seps(pages[p]);
    let c = children(pages[p]);
    let sh2 = merge_leaves_shape(sh, j);
    let nodes2 = sh2.nodes;
    let pages2 = pages.insert(l, pl).insert(p, pp).remove(r);
    lemma_siblings(pages, sh, p, i);
    assert forall|t: int| 0 <= t < c.len() && t != i && t != i + 1 implies nodes2.contains_key(
        #[trigger] c[t],
    ) && nodes2[c[t]] == sh.nodes[c[t]] by {
        assert(child_ok(sh.nodes, p, sh.nodes[p], s, c, t));
        if c[t] == l {
            lemma_children_distinct(sh.nodes, p, sh.nodes[p], s, c, t, i);
        }
        if c[t] == r {
            lemma_children_distinct(sh.nodes, p, sh.nodes[p], s, c, t, i + 1);
        }
    }
    lemma_merge_child(sh.nodes, nodes2, p, s, c, i);
    assert(below(nodes2[l].lo, nodes2[l].hi)) by {
        broadcast use crate::bytes::group_lex_order;

    }
    assert forall|x: u64| #[trigger] nodes2.contains_key(x) implies node_ok(pages2, nodes2, x) by {
        if x != l && x != p {
            assert(sh.nodes.contains_key(x));
            assert(node_ok(pages, sh.nodes, x));
            let q = pages[x];
            if !q.is_leaf() {
                assert forall|t: int| 0 <= t < children(q).len() implies nodes2.contains_key(
                    #[trigger] children(q)[t],
                ) && child_ok(nodes2, x, nodes2[x], seps(q), children(q), t) by {
                    assert(child_ok(sh.nodes, x, sh.nodes[x], seps(q), children(q), t));
                }
            }
        }
    }
    lemma_merge_chain(pages, sh, p, j, pl, pp);
    lemma_merge_contents(pages, sh, p, i, j, pl, pp);
}

/// The nodes after branch `r`, with the children `d`, was merged into `l`.
pub open spec fn merge_branch_nodes(nodes: Map<u64, Node>, l: u64, r: u64, d: Seq<u64>) -> Map<
    u64,
    Node,
> {
    Map::new(
        |x: u64| nodes.contains_key(x) && x != r,
        |x: u64|
            if x == l {
                Node { hi: nodes[r].hi, ..nodes[x] }
            } else if d.contains(x) {
                Node { parent: Some(l), ..nodes[x] }
            } else {
                nodes[x]
            },
    )
}

/// Adjacent sibling branches may be merged, pulling their separator down.
#[verifier::rlimit(40)]
pub proof fn step_merge_branches(
    pages: Pages,
    sh: Shape,
    p: u64,
    i: int,
    pl: PageState,
    pp: PageState,
)
    requires
        tree_ok(pages, sh),
        siblings(pages, sh, p, i),
        sh.nodes[children(pages[p])[i]].height > 0,
        is_branch_page(
            pl,
            children(pages[p])[i],
            seps(pages[children(pages[p])[i]]) + seq![seps(pages[p])[i]] + seps(
                pages[children(pages[p])[i + 1]],
            ),
            children(pages[children(pages[p])[i]]) + children(pages[children(pages[p])[i + 1]]),
        ),
        is_branch_page(pp, p, seps(pages[p]).remove(i), children(pages[p]).remove(i + 1)),
    ensures
        tree_ok(
            pages.insert(children(pages[p])[i], pl).insert(p, pp).remove(
                children(pages[p])[i + 1],
            ),
            Shape {
                nodes: merge_branch_nodes(
                    sh.nodes,
                    children(pages[p])[i],
                    children(pages[p])[i + 1],
                    children(pages[children(pages[p])[i + 1]]),
                ),
                ..sh
            },
        ),
        forall|k: Key, v: Seq<u8>| #[trigger]
            tree_holds(
                pages.insert(children(pages[p])[i], pl).insert(p, pp).remove(
                    children(pages[p])[i + 1],
                ),
                merge_branch_nodes(
                    sh.nodes,
                    children(pages[p])[i],
                    children(pages[p])[i + 1],
                    children(pages[children(pages[p])[i + 1]]),
                ),
                k,
                v,
            ) == tree_holds(pages, sh.nodes, k, v),
{
    let s = seps(pages[p]);
    let c = children(pages[p]);
    let l = c[i];
    let r = c[i + 1];
    let nodes = sh.nodes;
    let d = children(pages[r]);
    let u = seps(pages[l]) + seq![s[i]] + seps(pages[r]);
    let e = children(pages[l]) + d;
    let nodes2 = merge_branch_nodes(nodes, l, r, d);
    let sh2 = Shape { nodes: nodes2, ..sh };
    let pages2 = pages.insert(l, pl).insert(p, pp).remove(r);
    lemma_siblings(pages, sh, p, i);
    lemma_branch_fences(nodes, l, nodes[l], seps(pages[l]), children(pages[l]));
    lemma_branch_fences(nodes, r, nodes[r], seps(pages[r]), d);
    lemma_fences_join(
        nodes,
        nodes[l],
        nodes[r],
        seps(pages[l]),
        children(pages[l]),
        s[i],
        seps(pages[r]),
        d,
    );
    let n = Node { hi: nodes[r].hi, ..nodes[l] };
    assert(below(n.lo, n.hi)) by {
        broadcast use crate::bytes::group_lex_order;

    }
    assert forall|x: u64| #[trigger] d.contains(x) implies nodes.contains_key(x)
        && nodes[x].parent == Some(r) && nodes[x].height + 2 == nodes[p].height by {
        let w = choose|w: int| 0 <= w < d.len() && d[w] == x;
        assert(nodes.contains_key(d[w]));
    }
    assert forall|t: int| 0 <= t < e.len() implies nodes2.contains_key(#[trigger] e[t])
        && nodes2[e[t]] == (Node { parent: Some(l), ..nodes[e[t]] }) by {
        if t < children(pages[l]).len() {
            assert(e[t] == children(pages[l])[t]);
            assert(nodes[e[t]].parent == Some(l));
        } else {
            assert(e[t] == d[t - children(pages[l]).len()]);
            assert(d.contains(e[t]));
        }
    }
    lemma_fences_frame(nodes, nodes2, n, nodes2[l], u, e);
    lemma_branch_fences(nodes2, l, nodes2[l], u, e);
    assert forall|t: int| 0 <= t < c.len() && t != i && t != i + 1 implies nodes2.contains_key(
        #[trigger] c[t],
    ) && nodes2[c[t]] == nodes[c[t]] by {
        assert(child_ok(nodes, p, nodes[p], s, c, t));
        if c[t] == l {
            lemma_children_distinct(nodes, p, nodes[p], s, c, t, i);
        }
        if c[t] == r {
            lemma_children_distinct(nodes, p, nodes[p], s, c, t, i + 1);
        }
    }
    lemma_merge_child(nodes, nodes2, p, s, c, i);
    assert forall|x: u64| #[trigger] nodes2.contains_key(x) implies node_ok(pages2, nodes2, x) by {
        if x != l && x != p {
            assert(node_ok(pages, nodes, x));
            let q = pages[x];
            if !q.is_leaf() {
                assert forall|t: int| 0 <= t < children(q).len() implies nodes2.contains_key(
                    #[trigger] children(q)[t],
                ) && child_ok(nodes2, x, nodes2[x], seps(q), children(q), t) by {
                    assert(child_ok(nodes, x, nodes[x], seps(q), children(q), t));
                }
            }
        }
    }
    assert forall|t: int| 0 <= t < sh2.leaves.len() implies #[trigger] chain_ok(
        pages2,
        sh2,
        t,
    ) by {
        assert(chain_ok(pages, sh, t));
    }
    assert forall|x: u64| #[trigger]
        nodes2.contains_key(x) && nodes2[x].height == 0 implies sh2.leaves.contains(x) by {
        assert(nodes.contains_key(x));
    }
    lemma_same_leaves(pages, nodes, pages2, nodes2);
}

/// The shape after a root with a single child gave way to it.
pub open spec fn collapsed_shape(sh: Shape, child: u64) -> Shape {
    Shape {
        nodes: sh.nodes.insert(child, Node { parent: None, ..sh.nodes[child] }).remove(sh.root),
        root: child,
        ..sh
    }
}

/// A root branch without separators gives way to its only child.
pub proof fn step_collapse_root(pages: Pages, sh: Shape)
    requires
        tree_ok(pages, sh),
        !pages[sh.root].is_leaf(),
        seps(pages[sh.root]).len() == 0,
    ensures
        tree_ok(pages.remove(sh.root), collapsed_shape(sh, children(pages[sh.root])[0])),
        forall|k: Key, v: Seq<u8>| #[trigger]
            tree_holds(
                pages.remove(sh.root),
                collapsed_shape(sh, children(pages[sh.root])[0]).nodes,
                k,
                v,
            ) == tree_holds(pages, sh.nodes, k, v),
{
    let root = sh.root;
    let nodes = sh.nodes;
    let c = children(pages[root]);
    let child = c[0];
    let sh2 = collapsed_shape(sh, child);
    let nodes2 = sh2.nodes;
    let pages2 = pages.remove(root);
    assert(node_ok(pages, nodes, root));
    assert(child_ok(nodes, root, nodes[root], seps(pages[root]), c, 0));
    assert forall|x: u64| #[trigger] nodes2.contains_key(x) implies node_ok(pages2, nodes2, x) by {
        assert(nodes.contains_key(x));
        assert(node_ok(pages, nodes, x));
        let q = pages[x];
        if !q.is_leaf() {
            assert forall|t: int| 0 <= t < children(q).len() implies nodes2.contains_key(
                #[trigger] children(q)[t],
            ) && child_ok(nodes2, x, nodes2[x], seps(q), children(q), t) by {
                assert(child_ok(nodes, x, nodes[x], seps(q), children(q), t));
            }
        }
    }
    assert forall|t: int| 0 <= t < sh2.leaves.len() implies #[trigger] chain_ok(
        pages2,
        sh2,
        t,
    ) by {
        assert(chain_ok(pages, sh, t));
    }
    assert forall|x: u64| #[trigger]
        nodes2.contains_key(x) && nodes2[x].height == 0 implies sh2.leaves.contains(x) by {
        assert(nodes.contains_key(x));
    }
    lemma_same_leaves(pages, nodes, pages2, nodes2);
}

/// Nodes with the fences of one branch's children are distinct.
pub proof fn lemma_fences_distinct(
    nodes: Map<u64, Node>,
    n: Node,
    s: Seq<Key>,
    c: Seq<u64>,
    a: int,
    b: int,
)
    requires
        fences_ok(nodes, n, s, c),
        0 <= a < c.len(),
        0 <= b < c.len(),
        c[a] == c[b],
    ensures
        a == b,
{
    broadcast use crate::bytes::group_lex_order;

    assert(child_lo(n, s, a) == child_lo(n, s, b));
    if a < b {
        if a == 0 {
            assert(lex_lt(n.lo, s[b - 1]));
        } else {
            assert(lex_lt(s[a - 1], s[b - 1]));
        }
    } else if b < a {
        if b == 0 {
            assert(lex_lt(n.lo, s[a - 1]));
        } else {
            assert(lex_lt(s[b - 1], s[a - 1]));
        }
    }
}

} // verus!
