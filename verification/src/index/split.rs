//! How a tree keeps its shape while pages are rewritten and split.

use vstd::prelude::*;

use crate::bytes::lex_lt;
use crate::index::page::PageState;
use crate::index::shape::below;
use crate::index::shape::branch_ok;
use crate::index::shape::chain_ok;
use crate::index::shape::child_lo;
use crate::index::shape::child_ok;
use crate::index::shape::children;
use crate::index::shape::in_fence;
use crate::index::shape::is_branch_page;
use crate::index::shape::is_leaf_page;
use crate::index::shape::leaves_ok;
use crate::index::shape::lemma_leaf_unique_id;
use crate::index::shape::node_ok;
use crate::index::shape::pending_at;
use crate::index::shape::pending_root;
use crate::index::shape::records_hold;
use crate::index::shape::seps;
use crate::index::shape::seps_ok;
use crate::index::shape::sorted;
use crate::index::shape::tree_holds;
use crate::index::shape::tree_ok;
use crate::index::shape::Key;
use crate::index::shape::Node;
use crate::index::shape::Pages;
use crate::index::shape::Shape;

verus! {

/// Where a node hangs: under child slot `i` of a branch, or nowhere (the root).
pub open spec fn hangs_at(pages: Pages, sh: Shape, id: u64, par: Option<(u64, int)>) -> bool {
    match par {
        None => id == sh.root,
        Some((p, i)) => {
            &&& sh.nodes.contains_key(p)
            &&& !pages[p].is_leaf()
            &&& 0 <= i < children(pages[p]).len()
            &&& children(pages[p])[i] == id
        },
    }
}

/// The node that hung at `par` has been split into `left` and `right`.
pub open spec fn split_under(
    pages: Pages,
    sh: Shape,
    par: Option<(u64, int)>,
    left: u64,
    right: u64,
    sep: Key,
) -> bool {
    match par {
        None => pending_root(pages, sh, left, right, sep),
        Some((p, i)) => {
            &&& 0 <= i < children(pages[p]).len()
            &&& children(pages[p])[i] == left
            &&& is_branch_page(pages[p], p, seps(pages[p]), children(pages[p]))
            &&& pending_at(
                pages,
                sh,
                p,
                seps(pages[p]).insert(i, sep),
                children(pages[p]).insert(i + 1, right),
            )
        },
    }
}

/// Rewriting a leaf within its fence keeps the tree, and changes what it holds
/// inside that fence only.
pub proof fn step_leaf(pages: Pages, sh: Shape, id: u64, p: PageState)
    requires
        tree_ok(pages, sh),
        sh.nodes.contains_key(id),
        is_leaf_page(p, id, sh.nodes[id]),
        p.next == pages[id].next,
    ensures
        tree_ok(pages.insert(id, p), sh),
        forall|k: Key, v: Seq<u8>| #[trigger]
            tree_holds(pages.insert(id, p), sh.nodes, k, v) == (records_hold(p.records, k, v) || (
            tree_holds(pages, sh.nodes, k, v) && !in_fence(k, sh.nodes[id]))),
{
    let pages2 = pages.insert(id, p);
    assert(node_ok(pages, sh.nodes, id));
    assert forall|x: u64| #[trigger] sh.nodes.contains_key(x) implies node_ok(
        pages2,
        sh.nodes,
        x,
    ) by {
        assert(node_ok(pages, sh.nodes, x));
    }
    assert forall|j: int| 0 <= j < sh.leaves.len() implies #[trigger] chain_ok(
        pages2,
        sh,
        j,
    ) by {
        assert(chain_ok(pages, sh, j));
    }
    assert forall|k: Key, v: Seq<u8>| #[trigger]
        tree_holds(pages2, sh.nodes, k, v) == (records_hold(p.records, k, v) || (tree_holds(
        pages,
        sh.nodes,
        k,
        v,
    ) && !in_fence(k, sh.nodes[id]))) by {
        if records_hold(p.records, k, v) {
            assert(sh.nodes.contains_key(id));
            assert(tree_holds(pages2, sh.nodes, k, v));
        } else if tree_holds(pages, sh.nodes, k, v) && !in_fence(k, sh.nodes[id]) {
            let o = choose|o: u64| #[trigger]
                sh.nodes.contains_key(o) && sh.nodes[o].height == 0 && records_hold(
                    pages[o].records,
                    k,
                    v,
                );
            assert(o != id) by {
                assert(node_ok(pages, sh.nodes, o));
            }
            assert(sh.nodes.contains_key(o) && pages2[o] == pages[o]);
        } else if tree_holds(pages2, sh.nodes, k, v) {
            let o = choose|o: u64| #[trigger]
                sh.nodes.contains_key(o) && sh.nodes[o].height == 0 && records_hold(
                    pages2[o].records,
                    k,
                    v,
                );
            assert(o != id);
            assert(tree_holds(pages, sh.nodes, k, v));
            assert(in_fence(k, sh.nodes[id]));
            assert(node_ok(pages, sh.nodes, o));
            lemma_leaf_unique_id(pages, sh, id, o, k);
        }
    }
}

/// The parent of a node that has been split is in order once it takes the new
/// separator and the new child.
pub proof fn lemma_split_child(
    nodes: Map<u64, Node>,
    nodes2: Map<u64, Node>,
    p: u64,
    s: Seq<Key>,
    c: Seq<u64>,
    i: int,
    right: u64,
    sep: Key,
)
    requires
        nodes.contains_key(p),
        branch_ok(nodes, p, nodes[p], s, c),
        0 <= i < c.len(),
        nodes2.contains_key(p),
        nodes2[p] == nodes[p],
        nodes2.contains_key(c[i]),
        nodes2.contains_key(right),
        nodes2[c[i]] == (Node { hi: Some(sep), ..nodes[c[i]] }),
        nodes2[right] == (Node { lo: sep, ..nodes[c[i]] }),
        lex_lt(nodes[c[i]].lo, sep),
        below(sep, nodes[c[i]].hi),
        forall|t: int|
            0 <= t < c.len() && t != i ==> nodes2.contains_key(#[trigger] c[t]) && nodes2[c[t]]
                == nodes[c[t]],
    ensures
        branch_ok(nodes2, p, nodes2[p], s.insert(i, sep), c.insert(i + 1, right)),
{
    broadcast use crate::bytes::group_lex_order;

    let n = nodes[p];
    let s2 = s.insert(i, sep);
    let c2 = c.insert(i + 1, right);
    assert(child_ok(nodes, p, n, s, c, i));
    assert forall|a: int, b: int| 0 <= a < b < s2.len() implies lex_lt(
        #[trigger] s2[a],
        #[trigger] s2[b],
    ) by {
        if a < i && b == i {
            assert(s2[a] == s[a]);
            if a < i - 1 {
                assert(lex_lt(s[a], s[i - 1]));
            }
        } else if a == i {
            assert(s2[b] == s[b - 1]);
            if b - 1 > i {
                assert(lex_lt(s[i], s[b - 1]));
            }
        } else if b < i {
            assert(s2[a] == s[a] && s2[b] == s[b]);
        } else if a < i {
            assert(s2[a] == s[a] && s2[b] == s[b - 1]);
        } else {
            assert(s2[a] == s[a - 1] && s2[b] == s[b - 1]);
        }
    }
    assert forall|a: int| 0 <= a < s2.len() implies lex_lt(n.lo, #[trigger] s2[a]) && below(
        s2[a],
        n.hi,
    ) by {
        if a < i {
            assert(s2[a] == s[a]);
        } else if a > i {
            assert(s2[a] == s[a - 1]);
        } else {
            if i > 0 {
                assert(lex_lt(n.lo, s[i - 1]));
            }
            if i < s.len() {
                assert(below(s[i], n.hi));
            }
        }
    }
    assert forall|t: int| 0 <= t < c2.len() implies nodes2.contains_key(#[trigger] c2[t])
        && child_ok(nodes2, p, n, s2, c2, t) by {
        if t < i {
            assert(c2[t] == c[t]);
            assert(child_ok(nodes, p, n, s, c, t));
        } else if t == i {
            assert(c2[t] == c[t]);
        } else if t == i + 1 {
            assert(c2[t] == right);
        } else {
            assert(c2[t] == c[t - 1]);
            assert(child_ok(nodes, p, n, s, c, t - 1));
        }
    }
}

/// The nodes after `id` has been split at `sep` into itself and `right`.
pub open spec fn split_nodes(nodes: Map<u64, Node>, id: u64, right: u64, sep: Key) -> Map<
    u64,
    Node,
> {
    nodes.insert(id, Node { hi: Some(sep), ..nodes[id] }).insert(
        right,
        Node { lo: sep, ..nodes[id] },
    )
}

/// The shape after leaf `j` of the chain has been split at `sep`.
pub open spec fn split_leaf_shape(sh: Shape, j: int, right: u64, sep: Key) -> Shape {
    Shape {
        nodes: split_nodes(sh.nodes, sh.leaves[j], right, sep),
        leaves: sh.leaves.insert(j + 1, right),
        bounds: sh.bounds.insert(j + 1, sep),
        root: sh.root,
    }
}

proof fn lemma_bounds_insert(b: Seq<Key>, j: int, sep: Key)
    requires
        sorted(b),
        0 <= j < b.len(),
        lex_lt(b[j], sep),
        j + 1 < b.len() ==> lex_lt(sep, b[j + 1]),
    ensures
        sorted(b.insert(j + 1, sep)),
{
    broadcast use crate::bytes::group_lex_order;

    let b2 = b.insert(j + 1, sep);
    assert forall|x: int, y: int| 0 <= x < y < b2.len() implies lex_lt(
        #[trigger] b2[x],
        #[trigger] b2[y],
    ) by {
        if y <= j {
            assert(b2[x] == b[x] && b2[y] == b[y]);
        } else if y == j + 1 {
            assert(b2[x] == b[x]);
            if x < j {
                assert(lex_lt(b[x], b[j]));
            }
        } else if x <= j {
            assert(b2[x] == b[x] && b2[y] == b[y - 1]);
        } else if x == j + 1 {
            assert(b2[y] == b[y - 1]);
            if y - 1 > j + 1 {
                assert(lex_lt(b[j + 1], b[y - 1]));
            }
        } else {
            assert(b2[x] == b[x - 1] && b2[y] == b[y - 1]);
        }
    }
}

/// A leaf occurs once in the chain.
pub proof fn lemma_chain_distinct(pages: Pages, sh: Shape, a: int, b: int)
    requires
        leaves_ok(pages, sh),
        0 <= a < sh.leaves.len(),
        0 <= b < sh.leaves.len(),
        sh.leaves[a] == sh.leaves[b],
    ensures
        a == b,
{
    broadcast use crate::bytes::group_lex_order;

    assert(chain_ok(pages, sh, a));
    assert(chain_ok(pages, sh, b));
    if a < b {
        assert(lex_lt(sh.bounds[a], sh.bounds[b]));
    } else if b < a {
        assert(lex_lt(sh.bounds[b], sh.bounds[a]));
    }
}

proof fn lemma_split_chain(
    pages: Pages,
    sh: Shape,
    j: int,
    right: u64,
    sep: Key,
    pl: PageState,
    pr: PageState,
)
    requires
        tree_ok(pages, sh),
        0 <= j < sh.leaves.len(),
        right != 0,
        !sh.nodes.contains_key(right),
        !pages.contains_key(right),
        lex_lt(sh.nodes[sh.leaves[j]].lo, sep),
        below(sep, sh.nodes[sh.leaves[j]].hi),
        is_leaf_page(pl, sh.leaves[j], Node { hi: Some(sep), ..sh.nodes[sh.leaves[j]] }),
        is_leaf_page(pr, right, Node { lo: sep, ..sh.nodes[sh.leaves[j]] }),
        pl.next == right,
        pr.next == pages[sh.leaves[j]].next,
    ensures
        leaves_ok(
            pages.insert(sh.leaves[j], pl).insert(right, pr),
            split_leaf_shape(sh, j, right, sep),
        ),
{
    let id = sh.leaves[j];
    let n = sh.nodes[id];
    let pages2 = pages.insert(id, pl).insert(right, pr);
    let sh2 = split_leaf_shape(sh, j, right, sep);
    assert(chain_ok(pages, sh, j));
    assert(id != right);
    lemma_bounds_insert(sh.bounds, j, sep);
    assert forall|t: int| 0 <= t < sh2.leaves.len() implies #[trigger] chain_ok(
        pages2,
        sh2,
        t,
    ) by {
        if t < j {
            assert(sh2.leaves[t] == sh.leaves[t]);
            assert(chain_ok(pages, sh, t));
            if sh.leaves[t] == id {
                lemma_chain_distinct(pages, sh, t, j);
            }
        } else if t == j {
            assert(sh2.leaves[t] == id);
        } else if t == j + 1 {
            assert(sh2.leaves[t] == right);
        } else {
            assert(sh2.leaves[t] == sh.leaves[t - 1]);
            assert(chain_ok(pages, sh, t - 1));
            if sh.leaves[t - 1] == id {
                lemma_chain_distinct(pages, sh, t - 1, j);
            }
        }
    }
    assert forall|x: u64| #[trigger]
        sh2.nodes.contains_key(x) && sh2.nodes[x].height == 0 implies sh2.leaves.contains(x) by {
        if x == right {
            assert(sh2.leaves[j + 1] == right);
        } else {
            assert(sh.nodes.contains_key(x));
            let t = choose|t: int| 0 <= t < sh.leaves.len() && sh.leaves[t] == x;
            if t <= j {
                assert(sh2.leaves[t] == x);
            } else {
                assert(sh2.leaves[t + 1] == x);
            }
        }
    }
}

proof fn lemma_split_contents(
    pages: Pages,
    sh: Shape,
    j: int,
    right: u64,
    sep: Key,
    pl: PageState,
    pr: PageState,
)
    requires
        tree_ok(pages, sh),
        0 <= j < sh.leaves.len(),
        right != 0,
        !sh.nodes.contains_key(right),
        !pages.contains_key(right),
        lex_lt(sh.nodes[sh.leaves[j]].lo, sep),
        below(sep, sh.nodes[sh.leaves[j]].hi),
        is_leaf_page(pl, sh.leaves[j], Node { hi: Some(sep), ..sh.nodes[sh.leaves[j]] }),
        is_leaf_page(pr, right, Node { lo: sep, ..sh.nodes[sh.leaves[j]] }),
        pl.next == right,
        pr.next == pages[sh.leaves[j]].next,
    ensures
        forall|k: Key, v: Seq<u8>| #[trigger]
            tree_holds(
                pages.insert(sh.leaves[j], pl).insert(right, pr),
                split_leaf_shape(sh, j, right, sep).nodes,
                k,
                v,
            ) == (records_hold(pl.records, k, v) || records_hold(pr.records, k, v) || (tree_holds(
                pages,
                sh.nodes,
                k,
                v,
            ) && !in_fence(k, sh.nodes[sh.leaves[j]]))),
{
    let id = sh.leaves[j];
    let n = sh.nodes[id];
    let pages2 = pages.insert(id, pl).insert(right, pr);
    let sh2 = split_leaf_shape(sh, j, right, sep);
    assert(chain_ok(pages, sh, j));
    assert(id != right);
    assert forall|k: Key, v: Seq<u8>| #[trigger]
        tree_holds(pages2, sh2.nodes, k, v) == (records_hold(pl.records, k, v) || records_hold(
            pr.records,
            k,
            v,
        ) || (tree_holds(pages, sh.nodes, k, v) && !in_fence(k, n))) by {
        if records_hold(pl.records, k, v) {
            assert(sh2.nodes.contains_key(id));
        } else if records_hold(pr.records, k, v) {
            assert(sh2.nodes.contains_key(right));
        } else if tree_holds(pages, sh.nodes, k, v) && !in_fence(k, n) {
            let o = choose|o: u64| #[trigger]
                sh.nodes.contains_key(o) && sh.nodes[o].height == 0 && records_hold(
                    pages[o].records,
                    k,
                    v,
                );
            assert(node_ok(pages, sh.nodes, o));
            assert(sh2.nodes.contains_key(o) && pages2[o] == pages[o]);
        } else if tree_holds(pages2, sh2.nodes, k, v) {
            let o = choose|o: u64| #[trigger]
                sh2.nodes.contains_key(o) && sh2.nodes[o].height == 0 && records_hold(
                    pages2[o].records,
                    k,
                    v,
                );
            assert(sh.nodes.contains_key(o));
            assert(node_ok(pages, sh.nodes, o));
            lemma_leaf_unique_id(pages, sh, id, o, k);
        }
    }
}

/// Splitting a leaf page in two leaves one thing to do: its parent has to take
/// the separator and the new page.
#[verifier::rlimit(40)]
pub proof fn step_split_leaf(
    pages: Pages,
    sh: Shape,
    j: int,
    right: u64,
    sep: Key,
    pl: PageState,
    pr: PageState,
    par: Option<(u64, int)>,
)
    requires
        tree_ok(pages, sh),
        0 <= j < sh.leaves.len(),
        hangs_at(pages, sh, sh.leaves[j], par),
        right != 0,
        !sh.nodes.contains_key(right),
        !pages.contains_key(right),
        lex_lt(sh.nodes[sh.leaves[j]].lo, sep),
        below(sep, sh.nodes[sh.leaves[j]].hi),
        is_leaf_page(pl, sh.leaves[j], Node { hi: Some(sep), ..sh.nodes[sh.leaves[j]] }),
        is_leaf_page(pr, right, Node { lo: sep, ..sh.nodes[sh.leaves[j]] }),
        pl.next == right,
        pr.next == pages[sh.leaves[j]].next,
    ensures
        split_under(
            pages.insert(sh.leaves[j], pl).insert(right, pr),
            split_leaf_shape(sh, j, right, sep),
            par,
            sh.leaves[j],
            right,
            sep,
        ),
        forall|k: Key, v: Seq<u8>| #[trigger]
            tree_holds(
                pages.insert(sh.leaves[j], pl).insert(right, pr),
                split_leaf_shape(sh, j, right, sep).nodes,
                k,
                v,
            ) == (records_hold(pl.records, k, v) || records_hold(pr.records, k, v) || (tree_holds(
                pages,
                sh.nodes,
                k,
                v,
            ) && !in_fence(k, sh.nodes[sh.leaves[j]]))),
{
    let id = sh.leaves[j];
    let n = sh.nodes[id];
    let pages2 = pages.insert(id, pl).insert(right, pr);
    let sh2 = split_leaf_shape(sh, j, right, sep);
    assert(chain_ok(pages, sh, j));
    assert(node_ok(pages, sh.nodes, id));
    assert(id != right);
    let except = match par {
        None => None,
        Some((p, i)) => Some(p),
    };
    // The nodes other than the parent.
    assert forall|x: u64| #[trigger] sh2.nodes.contains_key(x) && except != Some(x) implies node_ok(
        pages2,
        sh2.nodes,
        x,
    ) by {
        if x != id && x != right {
            assert(sh.nodes.contains_key(x));
            assert(node_ok(pages, sh.nodes, x));
            let q = pages[x];
            if !q.is_leaf() {
                assert forall|t: int| 0 <= t < children(q).len() implies sh2.nodes.contains_key(
                    #[trigger] children(q)[t],
                ) && child_ok(sh2.nodes, x, sh.nodes[x], seps(q), children(q), t) by {
                    assert(child_ok(sh.nodes, x, sh.nodes[x], seps(q), children(q), t));
                    let y = children(q)[t];
                    if y == id {
                        assert(sh.nodes[id].parent == Some(x));
                        match par {
                            None => {},
                            Some((p, i)) => {
                                assert(node_ok(pages, sh.nodes, p));
                                assert(child_ok(
                                    sh.nodes,
                                    p,
                                    sh.nodes[p],
                                    seps(pages[p]),
                                    children(pages[p]),
                                    i,
                                ));
                            },
                        }
                        assert(false);
                    }
                }
            }
        }
    }
    lemma_split_chain(pages, sh, j, right, sep, pl, pr);
    assert(leaves_ok(pages2, sh2));
    match par {
        None => {},
        Some((p, i)) => {
            assert(node_ok(pages, sh.nodes, p));
            let s = seps(pages[p]);
            let c = children(pages[p]);
            assert(child_ok(sh.nodes, p, sh.nodes[p], s, c, i));
            assert(p != id && p != right);
            assert forall|t: int| 0 <= t < c.len() && t != i implies sh2.nodes.contains_key(
                #[trigger] c[t],
            ) && sh2.nodes[c[t]] == sh.nodes[c[t]] by {
                assert(child_ok(sh.nodes, p, sh.nodes[p], s, c, t));
                if c[t] == id {
                    lemma_children_distinct(sh.nodes, p, sh.nodes[p], s, c, t, i);
                }
            }
            lemma_split_child(sh.nodes, sh2.nodes, p, s, c, i, right, sep);
        },
    }
    lemma_split_contents(pages, sh, j, right, sep, pl, pr);
}

/// A branch that has been written as announced completes the tree.
pub proof fn step_write_branch(
    pages: Pages,
    sh: Shape,
    id: u64,
    s: Seq<Key>,
    c: Seq<u64>,
    p: PageState,
)
    requires
        pending_at(pages, sh, id, s, c),
        is_branch_page(p, id, s, c),
    ensures
        tree_ok(pages.insert(id, p), sh),
        forall|k: Key, v: Seq<u8>| #[trigger]
            tree_holds(pages.insert(id, p), sh.nodes, k, v) == tree_holds(pages, sh.nodes, k, v),
{
    let pages2 = pages.insert(id, p);
    assert forall|x: u64| #[trigger] sh.nodes.contains_key(x) implies node_ok(
        pages2,
        sh.nodes,
        x,
    ) by {
        if x != id {
            assert(node_ok(pages, sh.nodes, x));
        }
    }
    assert forall|j: int| 0 <= j < sh.leaves.len() implies #[trigger] chain_ok(
        pages2,
        sh,
        j,
    ) by {
        assert(chain_ok(pages, sh, j));
    }
    lemma_same_leaves(pages, sh.nodes, pages2, sh.nodes);
}

/// Where the leaf pages are the same, so is what they hold.
pub proof fn lemma_same_leaves(
    pages: Pages,
    nodes: Map<u64, Node>,
    pages2: Pages,
    nodes2: Map<u64, Node>,
)
    requires
        forall|x: u64| #[trigger]
            nodes.contains_key(x) && nodes[x].height == 0 ==> nodes2.contains_key(x)
                && nodes2[x].height == 0 && pages2[x] == pages[x],
        forall|x: u64| #[trigger]
            nodes2.contains_key(x) && nodes2[x].height == 0 ==> nodes.contains_key(x)
                && nodes[x].height == 0,
    ensures
        forall|k: Key, v: Seq<u8>| #[trigger]
            tree_holds(pages2, nodes2, k, v) == tree_holds(pages, nodes, k, v),
{
    assert forall|k: Key, v: Seq<u8>| #[trigger]
        tree_holds(pages2, nodes2, k, v) == tree_holds(pages, nodes, k, v) by {
        if tree_holds(pages, nodes, k, v) {
            let o = choose|o: u64| #[trigger]
                nodes.contains_key(o) && nodes[o].height == 0 && records_hold(
                    pages[o].records,
                    k,
                    v,
                );
            assert(nodes2.contains_key(o));
        }
        if tree_holds(pages2, nodes2, k, v) {
            let o = choose|o: u64| #[trigger]
                nodes2.contains_key(o) && nodes2[o].height == 0 && records_hold(
                    pages2[o].records,
                    k,
                    v,
                );
            assert(nodes.contains_key(o));
        }
    }
}

/// The nodes after branch `id`, about to hold `c`, has been split at slot `m`.
pub open spec fn split_branch_nodes(
    nodes: Map<u64, Node>,
    id: u64,
    right: u64,
    s: Seq<Key>,
    c: Seq<u64>,
    m: int,
) -> Map<u64, Node> {
    Map::new(
        |x: u64| nodes.contains_key(x) || x == right,
        |x: u64|
            if x == right {
                Node { lo: s[m], ..nodes[id] }
            } else if x == id {
                Node { hi: Some(s[m]), ..nodes[id] }
            } else if c.skip(m + 1).contains(x) {
                Node { parent: Some(right), ..nodes[x] }
            } else {
                nodes[x]
            },
    )
}

/// Splitting a branch leaves its own parent to be written.
#[verifier::rlimit(60)]
pub proof fn step_split_branch(
    pages: Pages,
    sh: Shape,
    id: u64,
    right: u64,
    s: Seq<Key>,
    c: Seq<u64>,
    m: int,
    pl: PageState,
    pr: PageState,
    par: Option<(u64, int)>,
)
    requires
        pending_at(pages, sh, id, s, c),
        hangs_at(pages, sh, id, par),
        forall|p: u64, i: int| par == Some((p, i)) ==> p != id,
        0 <= m < s.len(),
        !sh.nodes.contains_key(right),
        !pages.contains_key(right),
        is_branch_page(pl, id, s.take(m), c.take(m + 1)),
        is_branch_page(pr, right, s.skip(m + 1), c.skip(m + 1)),
    ensures
        split_under(
            pages.insert(id, pl).insert(right, pr),
            Shape { nodes: split_branch_nodes(sh.nodes, id, right, s, c, m), ..sh },
            par,
            id,
            right,
            s[m],
        ),
        forall|k: Key, v: Seq<u8>| #[trigger]
            tree_holds(
                pages.insert(id, pl).insert(right, pr),
                split_branch_nodes(sh.nodes, id, right, s, c, m),
                k,
                v,
            ) == tree_holds(pages, sh.nodes, k, v),
{
    broadcast use crate::bytes::group_lex_order;

    let nodes = sh.nodes;
    let n = nodes[id];
    let nodes2 = split_branch_nodes(nodes, id, right, s, c, m);
    let pages2 = pages.insert(id, pl).insert(right, pr);
    let sh2 = Shape { nodes: nodes2, ..sh };
    let cr = c.skip(m + 1);
    let sr = s.skip(m + 1);
    let cl = c.take(m + 1);
    let sl = s.take(m);
    assert forall|x: u64| #[trigger] cr.contains(x) implies nodes.contains_key(x)
        && nodes[x].parent == Some(id) && nodes[x].height + 1 == n.height && x != id && x != right by {
        let t = choose|t: int| 0 <= t < cr.len() && cr[t] == x;
        assert(cr[t] == c[t + m + 1]);
        assert(child_ok(nodes, id, n, s, c, t + m + 1));
    }
    let except = match par {
        None => None,
        Some((p, i)) => Some(p),
    };
    match par {
        None => {},
        Some((p, i)) => {
            assert(node_ok(pages, nodes, p));
            assert(child_ok(nodes, p, nodes[p], seps(pages[p]), children(pages[p]), i));
        },
    }
    assert forall|x: u64| #[trigger] nodes2.contains_key(x) && except != Some(x) implies node_ok(
        pages2,
        nodes2,
        x,
    ) by {
        if x == id {
            let n2 = nodes2[id];
            assert(seps_ok(n2, sl)) by {
                assert forall|a: int, b: int| 0 <= a < b < sl.len() implies lex_lt(
                    #[trigger] sl[a],
                    #[trigger] sl[b],
                ) by {
                    assert(lex_lt(s[a], s[b]));
                }
                assert forall|a: int| 0 <= a < sl.len() implies lex_lt(n2.lo, #[trigger] sl[a])
                    && below(sl[a], n2.hi) by {
                    assert(sl[a] == s[a]);
                    assert(lex_lt(s[a], s[m]));
                }
            }
            assert forall|t: int| 0 <= t < cl.len() implies nodes2.contains_key(#[trigger] cl[t])
                && child_ok(nodes2, id, n2, sl, cl, t) by {
                assert(cl[t] == c[t]);
                assert(child_ok(nodes, id, n, s, c, t));
                if cr.contains(c[t]) {
                    let u = choose|u: int| 0 <= u < cr.len() && cr[u] == c[t];
                    assert(cr[u] == c[u + m + 1]);
                    lemma_children_distinct(nodes, id, n, s, c, t, u + m + 1);
                }
                assert(c[t] != id && c[t] != right);
            }
            assert(below(n2.lo, n2.hi));
        } else if x == right {
            let n2 = nodes2[right];
            assert(seps_ok(n2, sr)) by {
                assert forall|a: int, b: int| 0 <= a < b < sr.len() implies lex_lt(
                    #[trigger] sr[a],
                    #[trigger] sr[b],
                ) by {
                    assert(lex_lt(s[a + m + 1], s[b + m + 1]));
                }
                assert forall|a: int| 0 <= a < sr.len() implies lex_lt(n2.lo, #[trigger] sr[a])
                    && below(sr[a], n2.hi) by {
                    assert(sr[a] == s[a + m + 1]);
                    assert(lex_lt(s[m], s[a + m + 1]));
                }
            }
            assert forall|t: int| 0 <= t < cr.len() implies nodes2.contains_key(#[trigger] cr[t])
                && child_ok(nodes2, right, n2, sr, cr, t) by {
                assert(cr[t] == c[t + m + 1]);
                assert(child_ok(nodes, id, n, s, c, t + m + 1));
                assert(cr.contains(cr[t]));
            }
            assert(below(s[m], n.hi));
        } else {
            assert(nodes.contains_key(x));
            assert(node_ok(pages, nodes, x));
            let q = pages[x];
            if !q.is_leaf() {
                assert forall|t: int| 0 <= t < children(q).len() implies nodes2.contains_key(
                    #[trigger] children(q)[t],
                ) && child_ok(nodes2, x, nodes2[x], seps(q), children(q), t) by {
                    let y = children(q)[t];
                    assert(child_ok(nodes, x, nodes[x], seps(q), children(q), t));
                    if y == id {
                        assert(n.parent == Some(x));
                        assert(false);
                    }
                    assert(!cr.contains(y));
                }
            }
        }
    }
    assert forall|j: int| 0 <= j < sh2.leaves.len() implies #[trigger] chain_ok(
        pages2,
        sh2,
        j,
    ) by {
        assert(chain_ok(pages, sh, j));
    }
    assert forall|x: u64| #[trigger]
        nodes2.contains_key(x) && nodes2[x].height == 0 implies sh2.leaves.contains(x) by {
        assert(nodes.contains_key(x));
    }
    assert(leaves_ok(pages2, sh2));
    match par {
        None => {},
        Some((p, i)) => {
            let ps = seps(pages[p]);
            let pc = children(pages[p]);
            assert(!cr.contains(p)) by {
                if cr.contains(p) {
                    assert(nodes[p].height + 1 == n.height);
                }
            }
            assert forall|t: int| 0 <= t < pc.len() && t != i implies nodes2.contains_key(
                #[trigger] pc[t],
            ) && nodes2[pc[t]] == nodes[pc[t]] by {
                assert(child_ok(nodes, p, nodes[p], ps, pc, t));
                if pc[t] == id {
                    lemma_children_distinct(nodes, p, nodes[p], ps, pc, t, i);
                }
                if cr.contains(pc[t]) {
                    assert(nodes[pc[t]].parent == Some(id));
                }
            }
            lemma_split_child(nodes, nodes2, p, ps, pc, i, right, s[m]);
        },
    }
    lemma_same_leaves(pages, nodes, pages2, nodes2);
}

/// The shape after the two halves of a split root got a new root above them.
pub open spec fn grown_shape(sh: Shape, left: u64, right: u64, root: u64) -> Shape {
    Shape {
        nodes: sh.nodes.insert(left, Node { parent: Some(root), ..sh.nodes[left] }).insert(
            right,
            Node { parent: Some(root), ..sh.nodes[right] },
        ).insert(
            root,
            Node {
                lo: Seq::empty(),
                hi: None,
                parent: None,
                height: sh.nodes[left].height + 1,
            },
        ),
        root,
        ..sh
    }
}

/// A new root above the two halves of the old one completes the tree.
pub proof fn step_grow_root(
    pages: Pages,
    sh: Shape,
    left: u64,
    right: u64,
    sep: Key,
    root: u64,
    p: PageState,
)
    requires
        pending_root(pages, sh, left, right, sep),
        !sh.nodes.contains_key(root),
        !pages.contains_key(root),
        is_branch_page(p, root, seq![sep], seq![left, right]),
    ensures
        tree_ok(pages.insert(root, p), grown_shape(sh, left, right, root)),
        forall|k: Key, v: Seq<u8>| #[trigger]
            tree_holds(
                pages.insert(root, p),
                grown_shape(sh, left, right, root).nodes,
                k,
                v,
            ) == tree_holds(pages, sh.nodes, k, v),
{
    broadcast use crate::bytes::group_lex_order;

    let sh2 = grown_shape(sh, left, right, root);
    let nodes2 = sh2.nodes;
    let pages2 = pages.insert(root, p);
    assert forall|x: u64| #[trigger] nodes2.contains_key(x) implies node_ok(pages2, nodes2, x) by {
        if x == root {
            let s = seq![sep];
            let c = seq![left, right];
            assert(node_ok(pages, sh.nodes, left));
            assert(node_ok(pages, sh.nodes, right));
            assert(child_ok(nodes2, root, nodes2[root], s, c, 0));
            assert(child_ok(nodes2, root, nodes2[root], s, c, 1));
            assert(branch_ok(nodes2, root, nodes2[root], s, c));
        } else {
            assert(sh.nodes.contains_key(x));
            assert(node_ok(pages, sh.nodes, x));
            let q = pages[x];
            if !q.is_leaf() {
                assert forall|t: int| 0 <= t < children(q).len() implies nodes2.contains_key(
                    #[trigger] children(q)[t],
                ) && child_ok(nodes2, x, nodes2[x], seps(q), children(q), t) by {
                    assert(child_ok(sh.nodes, x, sh.nodes[x], seps(q), children(q), t));
                }
            }
        }
    }
    assert forall|j: int| 0 <= j < sh2.leaves.len() implies #[trigger] chain_ok(
        pages2,
        sh2,
        j,
    ) by {
        assert(chain_ok(pages, sh, j));
    }
    assert forall|x: u64| #[trigger]
        nodes2.contains_key(x) && nodes2[x].height == 0 implies sh2.leaves.contains(x) by {
        assert(sh.nodes.contains_key(x));
    }
    lemma_same_leaves(pages, sh.nodes, pages2, nodes2);
}

/// The children of a branch are distinct: their fences are.
pub proof fn lemma_children_distinct(
    nodes: Map<u64, Node>,
    id: u64,
    n: Node,
    s: Seq<Key>,
    c: Seq<u64>,
    a: int,
    b: int,
)
    requires
        branch_ok(nodes, id, n, s, c),
        0 <= a < c.len(),
        0 <= b < c.len(),
        c[a] == c[b],
    ensures
        a == b,
{
    broadcast use crate::bytes::group_lex_order;

    assert(child_ok(nodes, id, n, s, c, a));
    assert(child_ok(nodes, id, n, s, c, b));
    assert(child_lo(n, s, a) == child_lo(n, s, b));
    if a < b {
        if a == 0 {
            assert(lex_lt(n.lo, s[b - 1]));
        } else {
            assert(lex_lt(s[a - 1], s[b - 1]));
        }
    } else if b < a {
        if b == 0 {
            assert(lex_lt(n.lo, s[a - 1]));
        } else {
            assert(lex_lt(s[b - 1], s[a - 1]));
        }
    }
}

} // verus!
