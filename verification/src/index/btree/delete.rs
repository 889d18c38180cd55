//! Deletion with borrows and merges.

use vstd::prelude::*;
use vstd::slice::slice_to_vec;

use crate::index::btree::insert::lemma_cut_records;
use crate::index::btree::insert::lemma_join_records;
use crate::index::btree::insert::lemma_without_key;
use crate::index::btree::layout::branches_can_shift;
use crate::index::btree::layout::branches_merged;
use crate::index::btree::layout::branches_shifted;
use crate::index::btree::layout::can_merge;
use crate::index::btree::layout::deleted;
use crate::index::btree::layout::finds;
use crate::index::btree::layout::joint_children;
use crate::index::btree::layout::joint_of;
use crate::index::btree::layout::joint_seps;
use crate::index::btree::layout::layout_of;
use crate::index::btree::layout::leaves_can_shift;
use crate::index::btree::layout::leaves_merged;
use crate::index::btree::layout::leaves_shifted;
use crate::index::btree::layout::lemma_bare;
use crate::index::btree::layout::lemma_layout_insert;
use crate::index::btree::layout::lemma_layout_remove;
use crate::index::btree::layout::lemma_without_fits;
use crate::index::btree::layout::prev_set;
use crate::index::btree::layout::rebalanced;
use crate::index::btree::layout::record_removed;
use crate::index::btree::layout::without_child;
use crate::index::btree::lemma_not_in_leaf;
use crate::index::btree::lemma_path_kept;
use crate::index::btree::lemma_path_prefix;
use crate::index::btree::path_ok;
use crate::index::btree::path_step_ok;
use crate::index::btree::BPlusTree;
use crate::index::btree::BPlusTreeConfig;
use crate::index::btree::BTreeError;
use crate::index::entry::decode_kv;
use crate::index::entry::kv_key;
use crate::index::entry::kv_value;
use crate::index::key::CompositeKey;
use crate::index::latch::next_version;
use crate::index::merge::collapsed_shape;
use crate::index::merge::lemma_leaf_neighbours;
use crate::index::merge::lemma_siblings;
use crate::index::merge::merge_branch_nodes;
use crate::index::merge::merge_leaves_shape;
use crate::index::merge::shift_branch_nodes;
use crate::index::merge::shift_leaves_shape;
use crate::index::merge::siblings;
use crate::index::merge::step_collapse_root;
use crate::index::merge::step_merge_branches;
use crate::index::merge::step_merge_leaves;
use crate::index::merge::step_shift_branches;
use crate::index::merge::step_shift_leaves;
use crate::index::node::build_branch;
use crate::index::node::build_leaf;
use crate::index::node::copy_records;
use crate::index::node::decode_branch;
use crate::index::node::leaf_has_key;
use crate::index::node::leaf_lower_bound;
use crate::index::node::lemma_fit_part;
use crate::index::node::lemma_hold_add;
use crate::index::node::views;
use crate::index::page::lemma_record_bytes_count;
use crate::index::page::record_bytes;
use crate::index::page::records_fit;
use crate::index::page::BTREE_HEADER_SIZE;
use crate::index::page::BTreePage;
use crate::index::page::PAGE_CAPACITY;
use crate::index::page::PageState;
use crate::index::shape::chain_ok;
use crate::index::shape::child_ok;
use crate::index::shape::children;
use crate::index::shape::in_fence;
use crate::index::shape::is_branch_page;
use crate::index::shape::lemma_holds_in_leaf;
use crate::index::shape::lemma_map;
use crate::index::shape::node_ok;
use crate::index::shape::records_hold;
use crate::index::shape::seps;
use crate::index::shape::tree_holds;
use crate::index::shape::tree_map;
use crate::index::shape::tree_ok;
use crate::index::shape::Key;
use crate::index::shape::Node;
use crate::index::shape::Pages;
use crate::index::shape::Shape;
use crate::index::split::lemma_same_leaves;
use crate::index::split::step_leaf;
use crate::storage::page::HEADER_SIZE;
use crate::storage::page::PageId;
use crate::storage::page::SLOT_SIZE;

verus! {

/// Bytes of the records on a page, without their slots.
pub open spec fn payload(recs: Seq<Seq<u8>>) -> int {
    record_bytes(recs) - recs.len() * SLOT_SIZE
}

/// Length of the longest record.
pub open spec fn longest(recs: Seq<Seq<u8>>) -> nat
    decreases recs.len(),
{
    if recs.len() == 0 {
        0
    } else {
        let m = longest(recs.drop_last());
        if recs.last().len() > m {
            recs.last().len()
        } else {
            m
        }
    }
}

/// Size of the record area that fill ratios refer to.
pub open spec fn usable_area(config: BPlusTreeConfig) -> int {
    if config.page_size > HEADER_SIZE + BTREE_HEADER_SIZE {
        config.page_size - HEADER_SIZE - BTREE_HEADER_SIZE
    } else {
        0
    }
}

/// Is a page with these records too empty?
pub open spec fn underfull(config: BPlusTreeConfig, recs: Seq<Seq<u8>>) -> bool {
    recs.len() == 0 || (usable_area(config) > 0 && payload(recs) * 100 < config.min_fill_percent
        * usable_area(config))
}

/// Can a page with these records give one away without becoming too empty?
pub open spec fn lends(config: BPlusTreeConfig, recs: Seq<Seq<u8>>) -> bool {
    recs.len() > 1 && usable_area(config) > 0 && (payload(recs) - longest(recs)) * 100
        >= config.min_fill_percent * usable_area(config)
}

/// Bytes of the records on a page and the length of the longest one.
fn measure(page: &BTreePage) -> (r: (usize, usize))
    requires
        page.wf(),
    ensures
        r.0 == payload(page@.records),
        r.1 == longest(page@.records),
        r.1 <= r.0 <= PAGE_CAPACITY,
{
    proof {
        page.lemma_wf();
    }
    let ghost recs = page@.records;
    let n: u16 = page.slot_count();
    let mut total: usize = 0;
    let mut max: usize = 0;
    let mut i: u16 = 0;
    assert(recs.take(0) =~= Seq::empty());
    while i < n
        invariant
            i <= n,
            n as nat == page@.records.len(),
            recs == page@.records,
            records_fit(recs),
            total == payload(recs.take(i as int)),
            max == longest(recs.take(i as int)),
            max <= total <= PAGE_CAPACITY,
        decreases n - i,
    {
        proof {
            assert(recs.take(i + 1).drop_last() =~= recs.take(i as int));
            assert(recs.subrange(0, i + 1) =~= recs.take(i + 1));
            lemma_fit_part(recs, 0, i + 1);
            lemma_record_bytes_count(recs.take(i as int));
        }
        match page.key(i) {
            Some(rec) => {
                total = total + rec.len();
                if rec.len() > max {
                    max = rec.len();
                }
            },
            None => {},
        }
        i += 1;
    }
    assert(recs.take(n as int) =~= recs);
    (total, max)
}

impl BPlusTree {
    fn usable(&self) -> (n: u128)
        ensures
            n == usable_area(self.config),
    {
        if self.config.page_size > HEADER_SIZE + BTREE_HEADER_SIZE {
            (self.config.page_size - HEADER_SIZE - BTREE_HEADER_SIZE) as u128
        } else {
            0
        }
    }

    /// Is `page` underfull, so that it should borrow or merge?
    fn is_underfull(&self, page: &BTreePage) -> (b: bool)
        requires
            page.wf(),
        ensures
            b == underfull(self.config, page@.records),
    {
        let usable: u128 = self.usable();
        let (total, _max) = measure(page);
        assert(0 <= self.config.min_fill_percent * usable <= u32::MAX * usize::MAX)
            by (nonlinear_arith)
            requires
                0 <= usable <= usize::MAX,
                0 <= self.config.min_fill_percent <= u32::MAX,
        ;
        page.slot_count() == 0 || (usable > 0 && (total as u128) * 100 < (
        self.config.min_fill_percent as u128) * usable)
    }

    /// Can `page` spare one record?
    fn can_lend(&self, page: &BTreePage) -> (b: bool)
        requires
            page.wf(),
        ensures
            b == lends(self.config, page@.records),
    {
        let usable: u128 = self.usable();
        let (total, max) = measure(page);
        assert(0 <= self.config.min_fill_percent * usable <= u32::MAX * usize::MAX)
            by (nonlinear_arith)
            requires
                0 <= usable <= usize::MAX,
                0 <= self.config.min_fill_percent <= u32::MAX,
        ;
        page.slot_count() > 1 && usable > 0 && ((total - max) as u128) * 100 >= (
        self.config.min_fill_percent as u128) * usable
    }

    /// Forgets a page that is no longer part of the tree.
    fn free_page(&mut self, page_id: PageId)
        requires
            old(self).pages_ok(),
            old(self).dirty is None,
        ensures
            final(self).pages_ok(),
            final(self).store() == old(self).store().remove(page_id),
            final(self).shape == old(self).shape,
            final(self).root_page_id == old(self).root_page_id,
            final(self).next_page_id == old(self).next_page_id,
            final(self).next_lsn == old(self).next_lsn,
            final(self).steps_from(old(self)),
    {
        broadcast use vstd::std_specs::hash::group_hash_axioms;

        let ghost before = self.store();
        self.pages.remove(&page_id);
        proof {
            assert(self.store() =~= before.remove(page_id));
        }
    }

    /// Moves the bound between the sibling leaves `c[i]` and `c[i + 1]` of a
    /// branch to record `m` of their joint records. Returns whether the pages
    /// had room for it.
    fn shift_leaves(
        &mut self,
        parent_id: PageId,
        i: usize,
        m: usize,
    ) -> (done: bool)
        requires
            old(self).pages_ok(),
            old(self).dirty is None,
            tree_ok(old(self).store(), old(self).shape@),
            siblings(old(self).store(), old(self).shape@, parent_id, i as int),
            old(self).shape@.nodes[children(old(self).store()[parent_id])[i as int]].height == 0,
        ensures
            final(self).pages_ok(),
            tree_ok(final(self).store(), final(self).shape@),
            final(self).steps_from(old(self)),
            final(self).next_page_id == old(self).next_page_id,
            final(self).height() <= old(self).height(),
            forall|k: Key, v: Seq<u8>| #[trigger]
                tree_holds(final(self).store(), final(self).shape@.nodes, k, v) == tree_holds(
                    old(self).store(),
                    old(self).shape@.nodes,
                    k,
                    v,
                ),
            done == leaves_can_shift(old(self).layout(), parent_id, i as int, m as int),
            done ==> final(self).layout() == leaves_shifted(
                old(self).layout(),
                parent_id,
                i as int,
                m as int,
            ),
            final(self).root_page_id == old(self).root_page_id,
            !done ==> *final(self) == *old(self),
    {
        let ghost st = self.store();
        let ghost sh = self.shape@;
        proof {
            lemma_siblings(st, sh, parent_id, i as int);
        }
        let (mut s, c, level) = self.branch_parts(parent_id);
        let len: usize = s.len();
        let left_id: PageId = c[i];
        let right_id: PageId = c[i + 1];
        let left = self.page_copy(left_id);
        let right = self.page_copy(right_id);
        let lh = left.btree_header();
        let rh = right.btree_header();
        let recs = joint_records(&left, &right);
        let n: usize = recs.len();
        let ghost lay = layout_of(st);
        proof {
            lemma_bare(st[parent_id]);
            assert(joint_of(lay, parent_id, i as int) == views(recs@));
            assert(views(recs@).subrange(0, m as int) =~= views(recs@).take(m as int));
            assert(views(recs@).subrange(m as int, n as int) =~= views(recs@).skip(m as int));
        }
        if m == 0 || m >= n {
            return false;
        }
        let lp = build_leaf(left_id, &recs, 0, m, lh.sibling_prev, lh.sibling_next);
        let rp = build_leaf(right_id, &recs, m, n, rh.sibling_prev, rh.sibling_next);
        let ghost all = views(recs@);
        let ghost na = sh.nodes[left_id];
        let ghost nb = sh.nodes[right_id];
        proof {
            lemma_join_records(st[left_id].records, st[right_id].records, na, nb);
            lemma_cut_records(all, Node { hi: nb.hi, ..na }, m as int);
            assert(all[m as int] == recs@[m as int]@);
        }
        let ghost s0 = views(s@);
        let sep: Vec<u8> = match decode_kv(recs[m].as_slice()) {
            Some((k, _v)) => slice_to_vec(k),
            None => Vec::new(),
        };
        s.set(i, sep);
        let ghost sepk = kv_key(all[m as int]);
        proof {
            assert(views(s@) =~= s0.update(i as int, sepk));
            assert(views(s@).subrange(0, len as int) =~= views(s@));
            assert(c@.subrange(0, len + 1) =~= c@);
        }
        let pp = build_branch(parent_id, level, &s, &c, 0, len);
        match (lp, rp, pp) {
            (Some(l), Some(r), Some(p)) => {
                let ghost pl = PageState { lsn: self.next_lsn, ..l@ };
                self.put_page_with_lsn(left_id, l);
                let ghost pr = PageState { lsn: self.next_lsn, ..r@ };
                self.put_page_with_lsn(right_id, r);
                let ghost pb = PageState { lsn: self.next_lsn, ..p@ };
                self.put_page_with_lsn(parent_id, p);
                proof {
                    assert(seps(pb) =~= seps(p@) && children(pb) =~= children(p@));
                    let j = lemma_leaf_neighbours(st, sh, left_id, right_id);
                    assert forall|k: Key, v: Seq<u8>|
                        (#[trigger] records_hold(pl.records, k, v) || records_hold(
                            pr.records,
                            k,
                            v,
                        )) == (records_hold(st[left_id].records, k, v) || records_hold(
                            st[right_id].records,
                            k,
                            v,
                        )) by {
                        assert(all =~= pl.records + pr.records);
                        lemma_hold_add(pl.records, pr.records, k, v);
                        lemma_hold_add(st[left_id].records, st[right_id].records, k, v);
                    }
                    step_shift_leaves(st, sh, parent_id, i as int, j, sepk, pl, pr, pb);
                    self.shape@ = shift_leaves_shape(sh, j, sepk);
                    lemma_layout_insert(st, left_id, pl);
                    lemma_layout_insert(st.insert(left_id, pl), right_id, pr);
                    lemma_layout_insert(
                        st.insert(left_id, pl).insert(right_id, pr),
                        parent_id,
                        pb,
                    );
                }
                true
            },
            _ => false,
        }
    }

    /// A copy of a page of the tree.
    pub(super) fn page_copy(&self, page_id: PageId) -> (p: BTreePage)
        requires
            self.pages_ok(),
            self.store().contains_key(page_id),
        ensures
            p.wf(),
            p.in_step(),
            p@ == self.store()[page_id],
    {
        match self.page_ref(page_id) {
            Some(p) => p.clone(),
            None => BTreePage::new_leaf(page_id),
        }
    }

    /// The separators, children and level of a branch of the tree.
    fn branch_parts(&self, page_id: PageId) -> (r: (Vec<Vec<u8>>, Vec<PageId>, u8))
        requires
            self.pages_ok(),
            self.store().contains_key(page_id),
            is_branch_page(
                self.store()[page_id],
                page_id,
                seps(self.store()[page_id]),
                children(self.store()[page_id]),
            ),
        ensures
            views(r.0@) == seps(self.store()[page_id]),
            r.1@ == children(self.store()[page_id]),
            r.1@.len() == r.0@.len() + 1,
            r.2 == self.store()[page_id].level,
    {
        let page = self.page_copy(page_id);
        let (s, c) = decode_branch(&page);
        proof {
            assert(views(s@).len() == s@.len());
        }
        let level: u8 = page.btree_header().level;
        (s, c, level)
    }
}

impl BPlusTree {
    /// Moves the bound between the sibling branches `c[i]` and `c[i + 1]` of a
    /// branch to separator `m` of their joint separators. Returns whether the
    /// pages had room for it.
    fn shift_branches(&mut self, parent_id: PageId, i: usize, m: usize) -> (done: bool)
        requires
            old(self).pages_ok(),
            old(self).dirty is None,
            tree_ok(old(self).store(), old(self).shape@),
            siblings(old(self).store(), old(self).shape@, parent_id, i as int),
            old(self).shape@.nodes[children(old(self).store()[parent_id])[i as int]].height > 0,
        ensures
            final(self).pages_ok(),
            tree_ok(final(self).store(), final(self).shape@),
            final(self).steps_from(old(self)),
            final(self).next_page_id == old(self).next_page_id,
            final(self).height() <= old(self).height(),
            forall|k: Key, v: Seq<u8>| #[trigger]
                tree_holds(final(self).store(), final(self).shape@.nodes, k, v) == tree_holds(
                    old(self).store(),
                    old(self).shape@.nodes,
                    k,
                    v,
                ),
            done == branches_can_shift(old(self).layout(), parent_id, i as int, m as int),
            done ==> final(self).layout() == branches_shifted(
                old(self).layout(),
                parent_id,
                i as int,
                m as int,
            ),
            final(self).root_page_id == old(self).root_page_id,
            !done ==> *final(self) == *old(self),
    {
        let ghost st = self.store();
        let ghost sh = self.shape@;
        proof {
            lemma_siblings(st, sh, parent_id, i as int);
        }
        let (mut s, c, level) = self.branch_parts(parent_id);
        let len: usize = s.len();
        let left_id: PageId = c[i];
        let right_id: PageId = c[i + 1];
        let (u, e, child_level) = self.joint_branch(left_id, right_id, s[i].as_slice());
        let n: usize = u.len();
        let ghost lay = layout_of(st);
        proof {
            lemma_bare(st[parent_id]);
            lemma_bare(st[left_id]);
            lemma_bare(st[right_id]);
            assert(views(s@)[i as int] == s@[i as int]@);
            assert(joint_seps(lay, parent_id, i as int) == views(u@));
            assert(joint_children(lay, parent_id, i as int) == e@);
        }
        if m >= n {
            return false;
        }
        let ghost vu = views(u@);
        let lp = build_branch(left_id, child_level, &u, &e, 0, m);
        let rp = build_branch(right_id, child_level, &u, &e, m + 1, n);
        let ghost s0 = views(s@);
        s.set(i, slice_to_vec(u[m].as_slice()));
        proof {
            assert(views(s@) =~= s0.update(i as int, vu[m as int]));
            assert(views(s@).subrange(0, len as int) =~= views(s@));
            assert(c@.subrange(0, len + 1) =~= c@);
            assert(vu.subrange(0, m as int) =~= vu.take(m as int));
            assert(vu.subrange(m + 1, n as int) =~= vu.skip(m + 1));
            assert(e@.subrange(0, m + 1) =~= e@.take(m + 1));
            assert(e@.subrange(m + 1, n + 1) =~= e@.skip(m + 1));
        }
        let pp = build_branch(parent_id, level, &s, &c, 0, len);
        match (lp, rp, pp) {
            (Some(l), Some(r), Some(p)) => {
                let ghost pl = PageState { lsn: self.next_lsn, ..l@ };
                self.put_page_with_lsn(left_id, l);
                let ghost pr = PageState { lsn: self.next_lsn, ..r@ };
                self.put_page_with_lsn(right_id, r);
                let ghost pb = PageState { lsn: self.next_lsn, ..p@ };
                self.put_page_with_lsn(parent_id, p);
                proof {
                    assert(seps(pl) =~= seps(l@) && children(pl) =~= children(l@));
                    assert(seps(pr) =~= seps(r@) && children(pr) =~= children(r@));
                    assert(seps(pb) =~= seps(p@) && children(pb) =~= children(p@));
                    step_shift_branches(st, sh, parent_id, i as int, vu, e@, m as int, pl, pr, pb);
                    self.shape@ = Shape {
                        nodes: shift_branch_nodes(
                            sh.nodes,
                            left_id,
                            right_id,
                            vu[m as int],
                            e@.take(m + 1),
                            e@.skip(m + 1),
                        ),
                        ..sh
                    };
                    lemma_layout_insert(st, left_id, pl);
                    lemma_layout_insert(st.insert(left_id, pl), right_id, pr);
                    lemma_layout_insert(
                        st.insert(left_id, pl).insert(right_id, pr),
                        parent_id,
                        pb,
                    );
                }
                true
            },
            _ => false,
        }
    }

    /// The separators and children of two branches with the separator between
    /// them, and their level.
    fn joint_branch(
        &self,
        left_id: PageId,
        right_id: PageId,
        separator: &[u8],
    ) -> (r: (Vec<Vec<u8>>, Vec<PageId>, u8))
        requires
            self.pages_ok(),
            self.store().contains_key(left_id),
            self.store().contains_key(right_id),
            is_branch_page(
                self.store()[left_id],
                left_id,
                seps(self.store()[left_id]),
                children(self.store()[left_id]),
            ),
            is_branch_page(
                self.store()[right_id],
                right_id,
                seps(self.store()[right_id]),
                children(self.store()[right_id]),
            ),
        ensures
            views(r.0@) == seps(self.store()[left_id]) + seq![separator@] + seps(
                self.store()[right_id],
            ),
            r.1@ == children(self.store()[left_id]) + children(self.store()[right_id]),
            r.1@.len() == r.0@.len() + 1,
            r.2 == self.store()[left_id].level,
    {
        let (mut u, mut e, level) = self.branch_parts(left_id);
        let (mut t, mut d, _level) = self.branch_parts(right_id);
        let ghost u0 = u@;
        let ghost t0 = t@;
        u.push(slice_to_vec(separator));
        u.append(&mut t);
        e.append(&mut d);
        proof {
            assert(views(u@) =~= views(u0) + seq![separator@] + views(t0));
            assert(views(u@).len() == u@.len());
        }
        (u, e, level)
    }

    /// The parent page without separator `i` and child `i + 1`.
    fn parent_without(&self, parent_id: PageId, i: usize) -> (r: Option<BTreePage>)
        requires
            self.pages_ok(),
            tree_ok(self.store(), self.shape@),
            siblings(self.store(), self.shape@, parent_id, i as int),
        ensures
            match r {
                Some(p) => {
                    &&& p.wf()
                    &&& p.in_step()
                    &&& is_branch_page(
                        p@,
                        parent_id,
                        seps(self.store()[parent_id]).remove(i as int),
                        children(self.store()[parent_id]).remove(i + 1),
                    )
                    &&& p@ == without_child(self.layout(), parent_id, i as int)
                },
                None => false,
            },
    {
        proof {
            lemma_siblings(self.store(), self.shape@, parent_id, i as int);
        }
        let (mut s, mut c, level) = self.branch_parts(parent_id);
        let ghost s0 = s@;
        let ghost c0 = c@;
        let len0: usize = s.len();
        let _sep = s.remove(i);
        let _child = c.remove(i + 1);
        let len: usize = s.len();
        proof {
            assert(views(s@) =~= views(s0).remove(i as int));
            assert(views(s@).subrange(0, len as int) =~= views(s@));
            assert(c@.subrange(0, len + 1) =~= c@);
            let page = self.store()[parent_id];
            lemma_bare(page);
            assert(self.pages@.contains_key(parent_id));
            self.pages@[parent_id].lemma_wf();
            lemma_without_fits(page, i as int, c@);
        }
        build_branch(parent_id, level, &s, &c, 0, len)
    }

    /// Merges the sibling leaf `c[i + 1]` of a branch into `c[i]`. Returns
    /// whether their records fit on one page.
    fn merge_leaves(&mut self, parent_id: PageId, i: usize) -> (done: bool)
        requires
            old(self).pages_ok(),
            old(self).dirty is None,
            tree_ok(old(self).store(), old(self).shape@),
            siblings(old(self).store(), old(self).shape@, parent_id, i as int),
            old(self).shape@.nodes[children(old(self).store()[parent_id])[i as int]].height == 0,
        ensures
            final(self).pages_ok(),
            tree_ok(final(self).store(), final(self).shape@),
            final(self).steps_from(old(self)),
            final(self).next_page_id == old(self).next_page_id,
            final(self).height() <= old(self).height(),
            forall|k: Key, v: Seq<u8>| #[trigger]
                tree_holds(final(self).store(), final(self).shape@.nodes, k, v) == tree_holds(
                    old(self).store(),
                    old(self).shape@.nodes,
                    k,
                    v,
                ),
            done ==> merged_at(
                old(self).store(),
                old(self).shape@,
                final(self).store(),
                final(self).shape@,
                parent_id,
                i as int,
            ),
            done == can_merge(old(self).layout(), parent_id, i as int),
            done ==> final(self).layout() == leaves_merged(old(self).layout(), parent_id, i as int),
            final(self).root_page_id == old(self).root_page_id,
            !done ==> *final(self) == *old(self),
    {
        let ghost st = self.store();
        let ghost sh = self.shape@;
        proof {
            lemma_siblings(st, sh, parent_id, i as int);
        }
        let pp = self.parent_without(parent_id, i);
        let (s, c, _level) = self.branch_parts(parent_id);
        let len: usize = s.len();
        let left_id: PageId = c[i];
        let right_id: PageId = c[i + 1];
        let left = self.page_copy(left_id);
        let right = self.page_copy(right_id);
        let next: PageId = right.btree_header().sibling_next;
        let recs = joint_records(&left, &right);
        let n: usize = recs.len();
        let ghost lay = layout_of(st);
        proof {
            lemma_bare(st[parent_id]);
            assert(joint_of(lay, parent_id, i as int) == views(recs@));
            assert(views(recs@).subrange(0, n as int) =~= views(recs@));
        }
        let lp = build_leaf(left_id, &recs, 0, n, left.btree_header().sibling_prev, next);
        match (lp, pp) {
            (Some(l), Some(p)) => {
                let ghost pl = PageState { lsn: self.next_lsn, ..l@ };
                self.put_page_with_lsn(left_id, l);
                let ghost pb = PageState { lsn: self.next_lsn, ..p@ };
                self.put_page_with_lsn(parent_id, p);
                self.free_page(right_id);
                proof {
                    assert(seps(pb) =~= seps(p@) && children(pb) =~= children(p@));
                    let na = sh.nodes[left_id];
                    let nb = sh.nodes[right_id];
                    let j = lemma_leaf_neighbours(st, sh, left_id, right_id);
                    lemma_join_records(st[left_id].records, st[right_id].records, na, nb);
                    assert(views(recs@).subrange(0, n as int) =~= views(recs@));
                    assert forall|k: Key, v: Seq<u8>| #[trigger]
                        records_hold(pl.records, k, v) == (records_hold(st[left_id].records, k, v)
                            || records_hold(st[right_id].records, k, v)) by {
                        lemma_hold_add(st[left_id].records, st[right_id].records, k, v);
                    }
                    step_merge_leaves(st, sh, parent_id, i as int, j, pl, pb);
                    self.shape@ = merge_leaves_shape(sh, j);
                    lemma_layout_insert(st, left_id, pl);
                    lemma_layout_insert(st.insert(left_id, pl), parent_id, pb);
                    lemma_layout_remove(
                        st.insert(left_id, pl).insert(parent_id, pb),
                        right_id,
                    );
                }
                if next != 0 {
                    self.set_prev(next, left_id);
                }
                true
            },
            _ => false,
        }
    }

    /// Sets the back link of a leaf of the tree.
    fn set_prev(&mut self, page_id: PageId, prev: PageId)
        requires
            old(self).pages_ok(),
            old(self).dirty is None,
            tree_ok(old(self).store(), old(self).shape@),
        ensures
            final(self).pages_ok(),
            tree_ok(final(self).store(), final(self).shape@),
            final(self).steps_from(old(self)),
            final(self).next_page_id == old(self).next_page_id,
            final(self).height() <= old(self).height(),
            forall|k: Key, v: Seq<u8>| #[trigger]
                tree_holds(final(self).store(), final(self).shape@.nodes, k, v) == tree_holds(
                    old(self).store(),
                    old(self).shape@.nodes,
                    k,
                    v,
                ),
            final(self).layout() == prev_set(old(self).layout(), page_id, prev),
            final(self).root_page_id == old(self).root_page_id,
            final(self).shape@ == old(self).shape@,
            forall|x: u64| #[trigger]
                final(self).store().contains_key(x) == old(self).store().contains_key(x),
            forall|x: u64|
                old(self).store().contains_key(x) && !old(self).store()[x].is_leaf() ==> (
                #[trigger] final(self).store()[x]) == old(self).store()[x],
            forall|x: u64|
                old(self).store().contains_key(x) ==> (#[trigger] final(self).store()[x]).is_leaf()
                    == old(self).store()[x].is_leaf(),
    {
        let ghost st = self.store();
        let ghost sh = self.shape@;
        match self.get_known(page_id) {
            Some(page) => {
                if page.is_leaf() {
                    let mut page = page;
                    let next: PageId = page.btree_header().sibling_next;
                    page.set_siblings(prev, next);
                    let ghost pg = PageState { lsn: self.next_lsn, ..page@ };
                    proof {
                        lemma_layout_insert(st, page_id, pg);
                        if sh.nodes.contains_key(page_id) {
                            assert(node_ok(st, sh.nodes, page_id));
                            step_leaf(st, sh, page_id, pg);
                            assert forall|k: Key, v: Seq<u8>| #[trigger]
                                tree_holds(st.insert(page_id, pg), sh.nodes, k, v) == tree_holds(
                                    st,
                                    sh.nodes,
                                    k,
                                    v,
                                ) by {
                                if records_hold(pg.records, k, v) {
                                    assert(sh.nodes.contains_key(page_id));
                                }
                                if in_fence(k, sh.nodes[page_id]) {
                                    lemma_holds_in_leaf(st, sh, page_id, k, v);
                                }
                            }
                        } else {
                            lemma_other_page(st, sh, page_id, pg);
                        }
                    }
                    self.put_page_with_lsn(page_id, page);
                }
            },
            None => {},
        }
    }

    fn get_known(&self, page_id: PageId) -> (r: Option<BTreePage>)
        requires
            self.pages_ok(),
        ensures
            match r {
                Some(p) => {
                    &&& self.store().contains_key(page_id)
                    &&& p.wf()
                    &&& p.in_step()
                    &&& p@ == self.store()[page_id]
                },
                None => !self.store().contains_key(page_id),
            },
    {
        match self.page_ref(page_id) {
            Some(p) => Some(p.clone()),
            None => None,
        }
    }

    /// Merges the sibling branch `c[i + 1]` of a branch into `c[i]`, pulling
    /// their separator down. Returns whether they fit on one page.
    fn merge_branches(&mut self, parent_id: PageId, i: usize) -> (done: bool)
        requires
            old(self).pages_ok(),
            old(self).dirty is None,
            tree_ok(old(self).store(), old(self).shape@),
            siblings(old(self).store(), old(self).shape@, parent_id, i as int),
            old(self).shape@.nodes[children(old(self).store()[parent_id])[i as int]].height > 0,
        ensures
            final(self).pages_ok(),
            tree_ok(final(self).store(), final(self).shape@),
            final(self).steps_from(old(self)),
            final(self).next_page_id == old(self).next_page_id,
            final(self).height() <= old(self).height(),
            forall|k: Key, v: Seq<u8>| #[trigger]
                tree_holds(final(self).store(), final(self).shape@.nodes, k, v) == tree_holds(
                    old(self).store(),
                    old(self).shape@.nodes,
                    k,
                    v,
                ),
            done ==> merged_at(
                old(self).store(),
                old(self).shape@,
                final(self).store(),
                final(self).shape@,
                parent_id,
                i as int,
            ),
            done == can_merge(old(self).layout(), parent_id, i as int),
            done ==> final(self).layout() == branches_merged(old(self).layout(), parent_id, i as int),
            final(self).root_page_id == old(self).root_page_id,
            !done ==> *final(self) == *old(self),
    {
        let ghost st = self.store();
        let ghost sh = self.shape@;
        proof {
            lemma_siblings(st, sh, parent_id, i as int);
        }
        let pp = self.parent_without(parent_id, i);
        let (s, c, _level) = self.branch_parts(parent_id);
        let len: usize = s.len();
        let left_id: PageId = c[i];
        let right_id: PageId = c[i + 1];
        let (u, e, level) = self.joint_branch(left_id, right_id, s[i].as_slice());
        let n: usize = u.len();
        let ghost lay = layout_of(st);
        proof {
            lemma_bare(st[parent_id]);
            lemma_bare(st[left_id]);
            lemma_bare(st[right_id]);
            assert(views(s@)[i as int] == s@[i as int]@);
            assert(joint_seps(lay, parent_id, i as int) == views(u@));
            assert(joint_children(lay, parent_id, i as int) == e@);
            assert(views(u@).subrange(0, n as int) =~= views(u@));
            assert(e@.subrange(0, n + 1) =~= e@);
        }
        let lp = build_branch(left_id, level, &u, &e, 0, n);
        match (lp, pp) {
            (Some(l), Some(p)) => {
                let ghost pl = PageState { lsn: self.next_lsn, ..l@ };
                self.put_page_with_lsn(left_id, l);
                let ghost pb = PageState { lsn: self.next_lsn, ..p@ };
                self.put_page_with_lsn(parent_id, p);
                self.free_page(right_id);
                proof {
                    assert(seps(pl) =~= seps(l@) && children(pl) =~= children(l@));
                    assert(seps(pb) =~= seps(p@) && children(pb) =~= children(p@));
                    step_merge_branches(st, sh, parent_id, i as int, pl, pb);
                    self.shape@ = Shape {
                        nodes: merge_branch_nodes(
                            sh.nodes,
                            left_id,
                            right_id,
                            children(st[right_id]),
                        ),
                        ..sh
                    };
                    lemma_layout_insert(st, left_id, pl);
                    lemma_layout_insert(st.insert(left_id, pl), parent_id, pb);
                    lemma_layout_remove(
                        st.insert(left_id, pl).insert(parent_id, pb),
                        right_id,
                    );
                }
                true
            },
            _ => false,
        }
    }
}

impl BPlusTree {
    /// Lets the node at the end of `path[..depth]` borrow from a sibling, or
    /// merges it with one, and goes on with its parent where that became
    /// underfull. A node that can do neither stays as it is.
    #[verifier::rlimit(50)]
    fn rebalance_node(&mut self, node_id: PageId, path: &Vec<(PageId, usize)>, depth: usize)
        requires
            old(self).pages_ok(),
            old(self).dirty is None,
            tree_ok(old(self).store(), old(self).shape@),
            path_ok(old(self).store(), old(self).shape@, path@, depth as int, node_id),
        ensures
            final(self).pages_ok(),
            tree_ok(final(self).store(), final(self).shape@),
            final(self).steps_from(old(self)),
            final(self).next_page_id == old(self).next_page_id,
            final(self).height() <= old(self).height(),
            forall|k: Key, v: Seq<u8>| #[trigger]
                tree_holds(final(self).store(), final(self).shape@.nodes, k, v) == tree_holds(
                    old(self).store(),
                    old(self).shape@.nodes,
                    k,
                    v,
                ),
            (final(self).layout(), final(self).root_page_id) == rebalanced(
                old(self).config,
                old(self).layout(),
                old(self).root_page_id,
                path@,
                depth as int,
            ),
        decreases depth,
    {
        if depth == 0 {
            return;
        }
        let ghost st = self.store();
        let ghost sh = self.shape@;
        let (parent_id, ci) = path[depth - 1];
        proof {
            assert(path_step_ok(st, sh, path@, depth as int, node_id, depth - 1));
            assert(node_ok(st, sh.nodes, parent_id));
            assert(child_ok(
                sh.nodes,
                parent_id,
                sh.nodes[parent_id],
                seps(st[parent_id]),
                children(st[parent_id]),
                ci as int,
            ));
            assert(node_ok(st, sh.nodes, node_id));
        }
        let (s, c, _level) = self.branch_parts(parent_id);
        let len: usize = s.len();
        let node = self.page_copy(node_id);
        let is_leaf: bool = node.is_leaf();
        if ci > 0 {
            proof {
                lemma_siblings(st, sh, parent_id, ci - 1);
            }
            let left = self.page_copy(c[ci - 1]);
            if self.can_lend(&left) {
                let count: usize = left.slot_count() as usize;
                let done: bool = if is_leaf {
                    self.shift_leaves(parent_id, ci - 1, count - 1)
                } else {
                    self.shift_branches(parent_id, ci - 1, count - 1)
                };
                if done {
                    return;
                }
            }
        }
        if ci < len {
            proof {
                lemma_siblings(st, sh, parent_id, ci as int);
            }
            let right = self.page_copy(c[ci + 1]);
            if self.can_lend(&right) {
                let count: usize = node.slot_count() as usize;
                let done: bool = if is_leaf {
                    self.shift_leaves(parent_id, ci, count + 1)
                } else {
                    self.shift_branches(parent_id, ci, count + 1)
                };
                if done {
                    return;
                }
            }
        }
        if len == 0 {
            return;
        }
        let i: usize = if ci > 0 {
            ci - 1
        } else {
            ci
        };
        proof {
            lemma_siblings(st, sh, parent_id, i as int);
        }
        let merged: bool = if is_leaf {
            self.merge_leaves(parent_id, i)
        } else {
            self.merge_branches(parent_id, i)
        };
        if !merged {
            return;
        }
        let ghost st1 = self.store();
        let ghost sh1 = self.shape@;
        proof {
            lemma_path_prefix(st, sh, path@, depth as int, node_id);
            lemma_path_after_merge(st, sh, st1, sh1, path@, depth - 1, parent_id, i as int);
            assert(node_ok(st1, sh1.nodes, parent_id));
        }
        if depth == 1 {
            if len == 1 {
                self.collapse_root();
            }
        } else {
            let parent = self.page_copy(parent_id);
            if self.is_underfull(&parent) {
                self.rebalance_node(parent_id, path, depth - 1);
            }
        }
    }

    /// Replaces a root branch without separators by its only child.
    fn collapse_root(&mut self)
        requires
            old(self).pages_ok(),
            old(self).dirty is None,
            tree_ok(old(self).store(), old(self).shape@),
            !old(self).store()[old(self).shape@.root].is_leaf(),
            seps(old(self).store()[old(self).shape@.root]).len() == 0,
        ensures
            final(self).pages_ok(),
            tree_ok(final(self).store(), final(self).shape@),
            final(self).steps_from(old(self)),
            final(self).next_page_id == old(self).next_page_id,
            final(self).height() <= old(self).height(),
            forall|k: Key, v: Seq<u8>| #[trigger]
                tree_holds(final(self).store(), final(self).shape@.nodes, k, v) == tree_holds(
                    old(self).store(),
                    old(self).shape@.nodes,
                    k,
                    v,
                ),
            final(self).layout() == old(self).layout().remove(old(self).root_page_id),
            final(self).root_page_id == children(
                old(self).store()[old(self).root_page_id],
            )[0],
    {
        let ghost st = self.store();
        let ghost sh = self.shape@;
        let root_id: PageId = self.root_page_id;
        proof {
            assert(node_ok(st, sh.nodes, root_id));
        }
        let (_s, c, _level) = self.branch_parts(root_id);
        let only_child: PageId = c[0];
        self.free_page(root_id);
        self.root_page_id = only_child;
        proof {
            step_collapse_root(st, sh);
            lemma_layout_remove(st, root_id);
            self.shape@ = collapsed_shape(sh, only_child);
        }
    }

    /// Deletes `key`. Returns whether it was there.
    ///
    /// A leaf that becomes too empty borrows from a sibling or is merged with one.
    /// Pages that can do neither, because no sibling can spare an entry and two of
    /// them do not fit on one page, stay as they are; the deletion is none the less
    /// done.
    pub fn delete(&mut self, key: &CompositeKey) -> (r: Result<bool, BTreeError>)
        requires
            old(self).wf(),
        ensures
            final(self).wf(),
            final(self).latch_entry().version == next_version(old(self).latch_entry().version),
            final(self).spec_config() == old(self).spec_config(),
            final(self).next_id() == old(self).next_id(),
            r == Ok::<bool, BTreeError>(old(self)@.contains_key(key@)),
            final(self)@ == old(self)@.remove(key@),
            final(self).room() >= old(self).room(),
            old(self)@.contains_key(key@) ==> exists|path: Seq<(PageId, usize)>, leaf: PageId, slot: int| #[trigger]
                finds(old(self).layout(), old(self).root(), key@, path, leaf, slot) && (
                final(self).layout(), final(self).root()) == deleted(
                    old(self).spec_config(),
                    old(self).layout(),
                    old(self).root(),
                    path,
                    leaf,
                    slot,
                ),
            !old(self)@.contains_key(key@) ==> final(self).layout() == old(self).layout() && final(self).root() == old(
                self,
            ).root(),
    {
        let guard = self.begin_write();
        assert(self.layout() == old(self).layout());
        let ghost before = *self;
        let found: bool = self.delete_locked(key.as_slice());
        let ghost after = *self;
        self.end_write(guard);
        proof {
            assert(self.layout() == after.layout());
            if found {
                let (path, leaf, slot) = choose|
                    path: Seq<(PageId, usize)>,
                    leaf: PageId,
                    slot: int,
                | #[trigger]
                    finds(before.layout(), before.root(), key@, path, leaf, slot) && (
                    after.layout(), after.root()) == deleted(
                        before.spec_config(),
                        before.layout(),
                        before.root(),
                        path,
                        leaf,
                        slot,
                    );
                assert(finds(old(self).layout(), old(self).root(), key@, path, leaf, slot));
            }
        }
        Ok(found)
    }

    fn delete_locked(&mut self, key: &[u8]) -> (found: bool)
        requires
            old(self).pages_ok(),
            old(self).dirty is None,
            tree_ok(old(self).store(), old(self).shape@),
        ensures
            final(self).pages_ok(),
            tree_ok(final(self).store(), final(self).shape@),
            final(self).steps_from(old(self)),
            final(self).next_page_id == old(self).next_page_id,
            final(self).height() <= old(self).height(),
            found == old(self)@.contains_key(key@),
            final(self)@ == old(self)@.remove(key@),
            found ==> exists|path: Seq<(PageId, usize)>, leaf: PageId, slot: int| #[trigger]
                finds(old(self).layout(), old(self).root(), key@, path, leaf, slot) && (
                final(self).layout(), final(self).root()) == deleted(
                    old(self).spec_config(),
                    old(self).layout(),
                    old(self).root(),
                    path,
                    leaf,
                    slot,
                ),
            !found ==> final(self).layout() == old(self).layout() && final(self).root() == old(
                self,
            ).root(),
    {
        let ghost st = self.store();
        let ghost sh = self.shape@;
        let (leaf_id, path) = self.descend(key);
        let ghost n = sh.nodes[leaf_id];
        proof {
            assert(node_ok(st, sh.nodes, leaf_id));
            lemma_map(st, sh);
        }
        let mut page = self.page_copy(leaf_id);
        let slot: u16 = leaf_lower_bound(&page, key);
        let found: bool = leaf_has_key(&page, slot, key);
        let ghost recs = st[leaf_id].records;
        if found {
            page.delete(slot);
        }
        let ghost recs0 = page@.records;
        proof {
            lemma_without_key(recs, recs0, n, key@, slot as int, found);
            assert(found == self@.contains_key(key@)) by {
                if found {
                    let v = kv_value(recs[slot as int]);
                    assert(records_hold(recs, key@, v));
                    lemma_holds_in_leaf(st, sh, leaf_id, key@, v);
                    assert(tree_holds(st, sh.nodes, key@, v));
                } else if self@.contains_key(key@) {
                    let v = self@[key@];
                    assert(tree_holds(st, sh.nodes, key@, v));
                    lemma_holds_in_leaf(st, sh, leaf_id, key@, v);
                    lemma_not_in_leaf(recs, key@, slot as int, v);
                }
            }
        }
        if !found {
            assert(self@.remove(key@) =~= self@);
            return false;
        }
        let ghost pg = PageState { lsn: self.next_lsn, ..page@ };
        proof {
            step_leaf(st, sh, leaf_id, pg);
            assert forall|k: Key, v: Seq<u8>| #[trigger]
                tree_holds(st.insert(leaf_id, pg), sh.nodes, k, v) == (k != key@ && tree_holds(
                    st,
                    sh.nodes,
                    k,
                    v,
                )) by {
                assert(records_hold(recs0, k, v) == (k != key@ && records_hold(recs, k, v)));
                if in_fence(k, n) {
                    lemma_holds_in_leaf(st, sh, leaf_id, k, v);
                } else if records_hold(recs0, k, v) {
                    let i = choose|i: int|
                        0 <= i < recs0.len() && kv_key(#[trigger] recs0[i]) == k && kv_value(
                            recs0[i],
                        ) == v;
                    assert(in_fence(kv_key(recs0[i]), n));
                }
                assert(in_fence(key@, n));
            }
        }
        let underfull: bool = self.is_underfull(&page);
        self.put_page_with_lsn(leaf_id, page);
        let ghost st1 = self.store();
        proof {
            lemma_layout_insert(st, leaf_id, pg);
            assert(layout_of(st1) == record_removed(layout_of(st), leaf_id, slot as int));
            assert(finds(
                layout_of(st),
                old(self).root(),
                key@,
                path@,
                leaf_id,
                slot as int,
            ));
        }
        if underfull {
            proof {
                lemma_path_kept(st, sh, st1, sh, path@, path@.len() as int, leaf_id);
            }
            self.rebalance_node(leaf_id, &path, path.len());
        }
        proof {
            assert forall|k: Key, v: Seq<u8>| #[trigger]
                tree_holds(self.store(), self.shape@.nodes, k, v) == (k != key@ && tree_holds(
                    st,
                    sh.nodes,
                    k,
                    v,
                )) by {
                assert(tree_holds(st1, sh.nodes, k, v) == (k != key@ && tree_holds(
                    st,
                    sh.nodes,
                    k,
                    v,
                )));
            }
            lemma_map_remove(st, sh, self.store(), self.shape@, key@);
        }
        true
    }
}

/// The map of a tree that holds what another holds of every key but one.
proof fn lemma_map_remove(st: Pages, sh: Shape, st2: Pages, sh2: Shape, key: Key)
    requires
        tree_ok(st, sh),
        tree_ok(st2, sh2),
        forall|k: Key, v: Seq<u8>| #[trigger]
            tree_holds(st2, sh2.nodes, k, v) == (k != key && tree_holds(st, sh.nodes, k, v)),
    ensures
        tree_map(st2, sh2.nodes) == tree_map(st, sh.nodes).remove(key),
{
    lemma_map(st, sh);
    lemma_map(st2, sh2);
    let a = tree_map(st, sh.nodes).remove(key);
    let b = tree_map(st2, sh2.nodes);
    assert forall|k: Key| a.contains_key(k) == b.contains_key(k) by {
        if a.contains_key(k) {
            assert(tree_holds(st, sh.nodes, k, a[k]));
            assert(tree_holds(st2, sh2.nodes, k, a[k]));
        }
        if b.contains_key(k) {
            assert(tree_holds(st2, sh2.nodes, k, b[k]));
            assert(tree_holds(st, sh.nodes, k, b[k]));
        }
    }
    assert forall|k: Key| a.contains_key(k) implies a[k] == b[k] by {
        assert(tree_holds(st, sh.nodes, k, a[k]));
        assert(tree_holds(st2, sh2.nodes, k, a[k]));
    }
    assert(a =~= b);
}

/// A path stays good above a branch whose children were merged.
proof fn lemma_path_after_merge(
    st: Pages,
    sh: Shape,
    st2: Pages,
    sh2: Shape,
    path: Seq<(PageId, usize)>,
    depth: int,
    p: u64,
    i: int,
)
    requires
        path_ok(st, sh, path, depth, p),
        merged_at(st, sh, st2, sh2, p, i),
    ensures
        path_ok(st2, sh2, path, depth, p),
{
    assert(sh.nodes.contains_key(p));
    assert forall|t: int| 0 <= t < depth implies #[trigger] path_step_ok(
        st2,
        sh2,
        path,
        depth,
        p,
        t,
    ) by {
        assert(path_step_ok(st, sh, path, depth, p, t));
        assert(sh.nodes.contains_key(path[t].0));
    }
}

/// Child `i + 1` of a branch was merged into child `i`: nodes above keep their
/// pages, and the branch lost a separator and a child.
spec fn merged_at(st: Pages, sh: Shape, st2: Pages, sh2: Shape, p: u64, i: int) -> bool {
    let r = children(st[p])[i + 1];
    &&& sh2.root == sh.root
    &&& !st2[p].is_leaf()
    &&& seps(st2[p]) == seps(st[p]).remove(i)
    &&& forall|x: u64| #[trigger]
        sh.nodes.contains_key(x) && sh.nodes[x].height >= sh.nodes[p].height
            ==> sh2.nodes.contains_key(x) && sh2.nodes[x].height == sh.nodes[x].height && (x != p
            ==> st2[x] == st[x])
}

/// A page outside the tree does not matter to it.
proof fn lemma_other_page(st: Pages, sh: Shape, id: u64, p: PageState)
    requires
        tree_ok(st, sh),
        !sh.nodes.contains_key(id),
    ensures
        tree_ok(st.insert(id, p), sh),
        forall|k: Key, v: Seq<u8>| #[trigger]
            tree_holds(st.insert(id, p), sh.nodes, k, v) == tree_holds(st, sh.nodes, k, v),
{
    let st2 = st.insert(id, p);
    assert forall|x: u64| #[trigger] sh.nodes.contains_key(x) implies node_ok(
        st2,
        sh.nodes,
        x,
    ) by {
        assert(node_ok(st, sh.nodes, x));
    }
    assert forall|j: int| 0 <= j < sh.leaves.len() implies #[trigger] chain_ok(st2, sh, j) by {
        assert(chain_ok(st, sh, j));
    }
    lemma_same_leaves(st, sh.nodes, st2, sh.nodes);
}

/// The records of two pages, one after the other.
fn joint_records(a: &BTreePage, b: &BTreePage) -> (r: Vec<Vec<u8>>)
    requires
        a.wf(),
        b.wf(),
    ensures
        views(r@) == a@.records + b@.records,
{
    let mut r = copy_records(a);
    let mut t = copy_records(b);
    let ghost ra = r@;
    let ghost tb = t@;
    r.append(&mut t);
    proof {
        assert(views(r@) =~= views(ra) + views(tb));
    }
    r
}

} // verus!
