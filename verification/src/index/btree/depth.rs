//! The depth of a tree.

use vstd::prelude::*;

use crate::index::btree::BPlusTree;
use crate::index::shape::branch_ok;
use crate::index::shape::child_ok;
use crate::index::shape::children;
use crate::index::shape::node_ok;
use crate::index::shape::seps;
use crate::index::shape::tree_ok;
use crate::index::shape::Pages;
use crate::index::shape::Shape;
use crate::storage::page::PageId;

verus! {

/// Does the way lead from `root` down to a leaf, each page a child of the one before?
pub open spec fn is_way_down(pages: Pages, root: PageId, way: Seq<PageId>) -> bool {
    &&& way.len() > 0
    &&& way[0] == root
    &&& forall|i: int|
        0 <= i < way.len() - 1 ==> {
            &&& pages.contains_key(#[trigger] way[i])
            &&& !pages[way[i]].is_leaf()
            &&& children(pages[way[i]]).contains(way[i + 1])
        }
    &&& pages.contains_key(way.last())
    &&& pages[way.last()].is_leaf()
}

proof fn lemma_height_on_way(pages: Pages, sh: Shape, way: Seq<PageId>, n: int)
    requires
        tree_ok(pages, sh),
        is_way_down(pages, sh.root, way),
        0 <= n < way.len(),
    ensures
        sh.nodes.contains_key(way[n]),
        sh.nodes[way[n]].height + n == sh.nodes[sh.root].height,
    decreases n,
{
    if n > 0 {
        let id = way[n - 1];
        lemma_height_on_way(pages, sh, way, n - 1);
        assert(node_ok(pages, sh.nodes, id));
        assert(children(pages[id]).contains(way[n - 1 + 1]));
        let i = choose|i: int|
            0 <= i < children(pages[id]).len() && children(pages[id])[i] == way[n];
        assert(branch_ok(sh.nodes, id, sh.nodes[id], seps(pages[id]), children(pages[id])));
        assert(child_ok(sh.nodes, id, sh.nodes[id], seps(pages[id]), children(pages[id]), i));
    }
}

impl BPlusTree {
    /// A tree is balanced: all ways down to a leaf are equally long.
    pub proof fn law_leaves_share_depth(&self, p: Seq<PageId>, q: Seq<PageId>)
        requires
            self.wf(),
            is_way_down(self.store(), self.root(), p),
            is_way_down(self.store(), self.root(), q),
        ensures
            p.len() == q.len(),
    {
        let sh = self.shape@;
        lemma_height_on_way(self.store(), sh, p, p.len() - 1);
        lemma_height_on_way(self.store(), sh, q, q.len() - 1);
        assert(node_ok(self.store(), sh.nodes, p.last()));
        assert(node_ok(self.store(), sh.nodes, q.last()));
    }
}

} // verus!
