//! Page defragmentation.
//!
//! A defragmenter walks the chain of leaves of a tree and rewrites those with
//! too much free space as compact pages. What the tree holds does not change.

use vstd::prelude::*;

use crate::index::btree::is_sparse;
use crate::index::btree::lsn_after;
use crate::index::btree::rewritten_leaves;
use crate::index::btree::sparse_count;
use crate::index::btree::BPlusTree;
use crate::index::page::BTreePage;
use crate::index::page::PAGE_CAPACITY;

verus! {

/// Percentage of free space above which a page is rewritten.
pub const DEFRAG_THRESHOLD_PERCENT: u32 = 30;

/// Rewrites sparse leaves.
pub struct PageDefragmenter {
    percent: u32,
}

impl PageDefragmenter {
    /// The percentage of free space above which a leaf is rewritten.
    pub closed spec fn threshold(&self) -> u32 {
        self.percent
    }

    /// A defragmenter with the default threshold.
    pub fn new() -> (d: Self)
        ensures
            d.threshold() == DEFRAG_THRESHOLD_PERCENT,
    {
        PageDefragmenter { percent: DEFRAG_THRESHOLD_PERCENT }
    }

    /// Writes every leaf of `tree` that is too sparse back under a fresh log sequence
    /// number, and no other page. Returns how many there were.
    pub fn run(&self, tree: &mut BPlusTree) -> (rewritten: usize)
        requires
            old(tree).wf(),
        ensures
            final(tree).wf(),
            final(tree)@ == old(tree)@,
            final(tree).leaf_ids() == old(tree).leaf_ids(),
            rewritten as nat == sparse_count(
                old(tree).store(),
                old(tree).leaf_ids(),
                self.threshold(),
                old(tree).leaf_ids().len() as int,
            ),
            final(tree).store() == rewritten_leaves(
                old(tree).store(),
                old(tree).leaf_ids(),
                self.threshold(),
                old(tree).lsn(),
                old(tree).leaf_ids().len() as int,
            ),
            final(tree).lsn() == lsn_after(old(tree).lsn(), rewritten as nat),
            final(tree).root() == old(tree).root(),
    {
        tree.rewrite_sparse_leaves(self.percent)
    }

    /// Is the page too sparse?
    pub fn needs_defrag(&self, page: &BTreePage) -> (b: bool)
        requires
            page.wf(),
        ensures
            b == is_sparse(page@.records, self.threshold()),
    {
        assert(self.percent * PAGE_CAPACITY <= u64::MAX) by (nonlinear_arith)
            requires
                self.percent <= u32::MAX,
                PAGE_CAPACITY == 8096,
        ;
        (page.free_space() as u64) * 100 > (self.percent as u64) * (PAGE_CAPACITY as u64)
    }

    /// A page with the same records in the same order, laid out without dead
    /// space.
    pub fn compact_page(&self, page: &BTreePage) -> (r: BTreePage)
        requires
            page.wf(),
        ensures
            r.wf(),
            r@ == page@,
            r.spec_header() == page.spec_header(),
    {
        let mut copy = page.clone();
        copy.compact();
        copy
    }
}

} // verus!
