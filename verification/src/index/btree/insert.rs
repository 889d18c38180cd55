//! Insertion with splits.

use vstd::prelude::*;
use vstd::slice::slice_to_vec;

use crate::bytes::lex_le;
use crate::bytes::lex_lt;
use crate::index::btree::entry_fits;
use crate::index::btree::key_is_last;
use crate::index::btree::layout::branch_halved;
use crate::index::btree::layout::branch_stays_whole;
use crate::index::btree::layout::cannot_split;
use crate::index::btree::layout::cuts_at;
use crate::index::btree::layout::first_cut;
use crate::index::btree::layout::is_placed;
use crate::index::btree::layout::is_stored;
use crate::index::btree::layout::lands;
use crate::index::btree::layout::layout_of;
use crate::index::btree::layout::leaf_cut;
use crate::index::btree::layout::leaf_split;
use crate::index::btree::layout::lemma_bare;
use crate::index::btree::layout::lemma_layout_insert;
use crate::index::btree::layout::parent_told;
use crate::index::btree::layout::placed;
use crate::index::btree::layout::promoted;
use crate::index::btree::layout::with_pair;
use crate::index::btree::layout::Outline;
use crate::index::btree::leaves_kept;
use crate::index::btree::lemma_not_in_leaf;
use crate::index::btree::lemma_path_kept;
use crate::index::btree::lemma_path_prefix;
use crate::index::btree::path_end;
use crate::index::btree::path_ok;
use crate::index::btree::path_step_ok;
use crate::index::btree::BPlusTree;
use crate::index::btree::BPlusTreeConfig;
use crate::index::btree::BTreeError;
use crate::index::entry::decode_kv;
use crate::index::entry::encode_kv;
use crate::index::entry::kv_key;
use crate::index::entry::kv_record;
use crate::index::entry::kv_value;
use crate::index::entry::law_kv_roundtrip;
use crate::index::entry::valid_kv;
use crate::index::key::CompositeKey;
use crate::index::latch::next_version;
use crate::index::node::branch_page;
use crate::index::node::build_branch;
use crate::index::node::build_leaf;
use crate::index::node::copy_records;
use crate::index::node::decode_branch;
use crate::index::node::is_lower_bound;
use crate::index::node::leaf_has_key;
use crate::index::node::leaf_lower_bound;
use crate::index::node::lemma_branch_page_fits;
use crate::index::node::lemma_fit_part;
use crate::index::node::lemma_hold_add;
use crate::index::node::lemma_hold_insert;
use crate::index::node::lemma_hold_remove;
use crate::index::node::lemma_records_insert;
use crate::index::node::lemma_records_part;
use crate::index::node::lemma_records_remove;
use crate::index::node::lemma_single_branch_fits;
use crate::index::node::views;
use crate::index::page::lemma_record_bytes_insert;
use crate::index::page::lemma_record_bytes_push;
use crate::index::page::record_bytes;
use crate::index::page::records_fit;
use crate::index::page::BTreePage;
use crate::index::page::PAGE_CAPACITY;
use crate::index::page::PageState;
use crate::index::shape::below;
use crate::index::shape::chain_ok;
use crate::index::shape::children;
use crate::index::shape::in_fence;
use crate::index::shape::is_branch_page;
use crate::index::shape::leaf_in_fence;
use crate::index::shape::leaf_records_ok;
use crate::index::shape::lemma_holds_in_leaf;
use crate::index::shape::lemma_leaf_unique_id;
use crate::index::shape::lemma_map;
use crate::index::shape::node_ok;
use crate::index::shape::pending_at;
use crate::index::shape::records_hold;
use crate::index::shape::sep_fits;
use crate::index::shape::seps;
use crate::index::shape::tree_holds;
use crate::index::shape::tree_map;
use crate::index::shape::tree_ok;
use crate::index::shape::Key;
use crate::index::shape::Node;
use crate::index::shape::Pages;
use crate::index::shape::Shape;
use crate::index::split::grown_shape;
use crate::index::split::split_branch_nodes;
use crate::index::split::split_leaf_shape;
use crate::index::split::split_under;
use crate::index::split::step_grow_root;
use crate::index::split::step_leaf;
use crate::index::split::step_split_branch;
use crate::index::split::step_split_leaf;
use crate::index::split::step_write_branch;
use crate::storage::page::PageId;
use crate::storage::page::SLOT_SIZE;

verus! {

impl BPlusTree {
    /// Are `used` bytes of records more than a page may hold before it is split?
    fn exceeds(&self, used: usize) -> (b: bool)
        requires
            used <= 2 * PAGE_CAPACITY,
        ensures
            b == (used * 100 > self.config.split_percent * PAGE_CAPACITY),
    {
        (used as u64) * 100 > (self.config.split_percent as u64) * (PAGE_CAPACITY as u64)
    }

    /// Gives the parent of a node that was split the new separator and the new
    /// child. `path[..depth]` leads to the left half; at depth 0 the root was
    /// split, and the tree grows by one level.
    fn insert_into_parent(
        &mut self,
        left: PageId,
        right: PageId,
        separator: &[u8],
        path: &Vec<(PageId, usize)>,
        depth: usize,
    )
        requires
            old(self).pages_ok(),
            depth <= path@.len(),
            sep_fits(separator@),
            path_ok(old(self).store(), old(self).shape@, path@, depth as int, left),
            split_under(
                old(self).store(),
                old(self).shape@,
                path_end(path@, depth as int),
                left,
                right,
                separator@,
            ),
            old(self).next_page_id + depth + 1 <= u64::MAX,
            left < old(self).next_page_id,
            right < old(self).next_page_id,
        ensures
            final(self).pages_ok(),
            tree_ok(final(self).store(), final(self).shape@),
            final(self).steps_from(old(self)),
            final(self).next_page_id <= old(self).next_page_id + depth + 1,
            final(self).height() <= old(self).shape@.nodes[old(self).shape@.root].height + 1,
            final(self).shape@.leaves == old(self).shape@.leaves,
            leaves_kept(
                old(self).store(),
                old(self).shape@.nodes,
                final(self).store(),
                final(self).shape@.nodes,
            ),
            forall|k: Key, v: Seq<u8>| #[trigger]
                tree_holds(final(self).store(), final(self).shape@.nodes, k, v) == tree_holds(
                    old(self).store(),
                    old(self).shape@.nodes,
                    k,
                    v,
                ),
            final(self).outline() == parent_told(
                old(self).config,
                old(self).outline(),
                path@,
                depth as int,
                left,
                right,
                separator@,
            ),
        decreases depth, 0int,
    {
        let ghost st = self.store();
        let ghost sh = self.shape@;
        let ghost o = self.outline();
        if depth == 0 {
            let level: u8 = match self.page_ref(left) {
                Some(p) => p.btree_header().level,
                None => 0,
            };
            let root_level: u8 = if level == u8::MAX {
                u8::MAX
            } else {
                level + 1
            };
            let root_id: PageId = self.alloc_page();
            let mut s: Vec<Vec<u8>> = Vec::new();
            s.push(slice_to_vec(separator));
            let mut c: Vec<PageId> = Vec::new();
            c.push(left);
            c.push(right);
            proof {
                assert(views(s@).subrange(0, 1) =~= seq![separator@]);
                assert(c@.subrange(0, 2) =~= seq![left, right]);
                lemma_single_branch_fits(separator@, seq![left, right]);
            }
            match build_branch(root_id, root_level, &s, &c, 0, 1) {
                Some(page) => {
                    let ghost p = PageState { lsn: self.next_lsn, ..page@ };
                    proof {
                        assert(!st.contains_key(root_id));
                        if sh.nodes.contains_key(root_id) {
                            assert(node_ok(st, sh.nodes, root_id));
                        }
                        assert(seps(p) =~= seps(page@));
                        assert(children(p) =~= children(page@));
                        step_grow_root(st, sh, left, right, separator@, root_id, p);
                    }
                    self.put_page_with_lsn(root_id, page);
                    self.root_page_id = root_id;
                    self.shape = Ghost(grown_shape(sh, left, right, root_id));
                    proof {
                        lemma_layout_insert(st, root_id, p);
                    }
                },
                None => {},
            }
            return;
        }
        let (parent_id, child_index) = path[depth - 1];
        proof {
            assert(path_step_ok(st, sh, path@, depth as int, left, depth - 1));
        }
        match self.page_ref(parent_id) {
            Some(parent) => {
                let level: u8 = parent.btree_header().level;
                let (mut s, mut c) = decode_branch(parent);
                let ghost ps = st[parent_id];
                proof {
                    parent.lemma_wf();
                    lemma_bare(ps);
                }
                let ghost s0 = views(s@);
                let ghost c0 = c@;
                s.insert(child_index, slice_to_vec(separator));
                c.insert(child_index + 1, right);
                let n: usize = s.len();
                proof {
                    assert(views(s@) =~= s0.insert(child_index as int, separator@));
                    assert(views(s@).subrange(0, n as int) =~= views(s@));
                    assert(c@.subrange(0, n + 1) =~= c@);
                }
                let written = match build_branch(parent_id, level, &s, &c, 0, n) {
                    Some(page) => if n > 2 && self.exceeds(PAGE_CAPACITY - page.free_space()) {
                        None
                    } else {
                        Some(page)
                    },
                    None => None,
                };
                match written {
                    Some(page) => {
                        let ghost p = PageState { lsn: self.next_lsn, ..page@ };
                        proof {
                            assert(seps(p) =~= seps(page@));
                            assert(children(p) =~= children(page@));
                            step_write_branch(st, sh, parent_id, views(s@), c@, p);
                            lemma_layout_insert(st, parent_id, p);
                            assert(branch_stays_whole(self.config, views(s@), c@));
                        }
                        self.put_page_with_lsn(parent_id, page);
                    },
                    None => {
                        proof {
                            lemma_path_prefix(st, sh, path@, depth as int, left);
                            assert(!branch_stays_whole(self.config, views(s@), c@));
                        }
                        self.split_branch(
                            parent_id,
                            level,
                            s,
                            c,
                            child_index,
                            path,
                            depth - 1,
                            Ghost(ps),
                        );
                    },
                }
            },
            None => {},
        }
    }

    /// Splits a branch that is about to hold separators `s` and children `c`, which
    /// are too many for one page. One separator moves up to its parent.
    #[verifier::rlimit(40)]
    fn split_branch(
        &mut self,
        branch_id: PageId,
        level: u8,
        s: Vec<Vec<u8>>,
        c: Vec<PageId>,
        child_index: usize,
        path: &Vec<(PageId, usize)>,
        depth: usize,
        Ghost(ps): Ghost<PageState>,
    )
        requires
            old(self).pages_ok(),
            depth <= path@.len(),
            path_ok(old(self).store(), old(self).shape@, path@, depth as int, branch_id),
            pending_at(old(self).store(), old(self).shape@, branch_id, views(s@), c@),
            c@.len() == s@.len() + 1,
            child_index < s@.len(),
            sep_fits(views(s@)[child_index as int]),
            records_fit(ps.records),
            is_branch_page(ps, branch_id, seps(ps), children(ps)),
            views(s@) == seps(ps).insert(child_index as int, views(s@)[child_index as int]),
            c@.len() == children(ps).len() + 1,
            old(self).next_page_id + depth + 2 <= u64::MAX,
            branch_id < old(self).next_page_id,
        ensures
            final(self).pages_ok(),
            tree_ok(final(self).store(), final(self).shape@),
            final(self).steps_from(old(self)),
            final(self).next_page_id <= old(self).next_page_id + depth + 2,
            final(self).height() <= old(self).shape@.nodes[old(self).shape@.root].height + 1,
            final(self).shape@.leaves == old(self).shape@.leaves,
            leaves_kept(
                old(self).store(),
                old(self).shape@.nodes,
                final(self).store(),
                final(self).shape@.nodes,
            ),
            forall|k: Key, v: Seq<u8>| #[trigger]
                tree_holds(final(self).store(), final(self).shape@.nodes, k, v) == tree_holds(
                    old(self).store(),
                    old(self).shape@.nodes,
                    k,
                    v,
                ),
            ({
                let vs = views(s@);
                let m = promoted(vs, c@, child_index as int);
                final(self).outline() == parent_told(
                    old(self).config,
                    branch_halved(old(self).outline(), branch_id, level, vs, c@, m),
                    path@,
                    depth as int,
                    branch_id,
                    old(self).next_id(),
                    vs[m],
                )
            }),
        decreases depth, 1int,
    {
        let ghost st = self.store();
        let ghost sh = self.shape@;
        let ghost vs = views(s@);
        let right_id: PageId = self.alloc_page();
        let halves = halve_branch(branch_id, right_id, level, &s, &c, child_index, Ghost(ps));
        match halves {
            Some((mid, lp, rp)) => {
                let ghost pl = PageState { lsn: self.next_lsn, ..lp@ };
                self.put_page_with_lsn(branch_id, lp);
                let ghost pr = PageState { lsn: self.next_lsn, ..rp@ };
                self.put_page_with_lsn(right_id, rp);
                let ghost sh2 = Shape {
                    nodes: split_branch_nodes(sh.nodes, branch_id, right_id, vs, c@, mid as int),
                    ..sh
                };
                proof {
                    assert(!st.contains_key(right_id));
                    lemma_split_branch(
                        st,
                        sh,
                        branch_id,
                        right_id,
                        vs,
                        c@,
                        mid as int,
                        pl,
                        pr,
                        path@,
                        depth as int,
                    );
                    lemma_layout_insert(st, branch_id, pl);
                    lemma_layout_insert(st.insert(branch_id, pl), right_id, pr);
                    assert(self.outline() == branch_halved(
                        old(self).outline(),
                        branch_id,
                        level,
                        vs,
                        c@,
                        mid as int,
                    ));
                }
                self.shape = Ghost(sh2);
                let promoted = slice_to_vec(s[mid].as_slice());
                assert(promoted@ == vs[mid as int]);
                self.insert_into_parent(branch_id, right_id, promoted.as_slice(), path, depth);
            },
            None => {},
        }
    }
}

/// Cuts an overfull branch in two pages, around the separator that moves up:
/// the middle one, or else the one that came in last.
fn halve_branch(
    left_id: PageId,
    right_id: PageId,
    level: u8,
    s: &Vec<Vec<u8>>,
    c: &Vec<PageId>,
    child_index: usize,
    Ghost(ps): Ghost<PageState>,
) -> (r: Option<(usize, BTreePage, BTreePage)>)
    requires
        c@.len() == s@.len() + 1,
        child_index < s@.len(),
        sep_fits(views(s@)[child_index as int]),
        records_fit(ps.records),
        is_branch_page(ps, left_id, seps(ps), children(ps)),
        s@.len() == ps.records.len() + 1,
        views(s@) == seps(ps).insert(child_index as int, views(s@)[child_index as int]),
    ensures
        r is Some,
        match r {
            Some((m, lp, rp)) => {
                &&& m < s@.len()
                &&& sep_fits(views(s@)[m as int])
                &&& lp.wf()
                &&& rp.wf()
                &&& lp.in_step()
                &&& rp.in_step()
                &&& is_branch_page(lp@, left_id, views(s@).take(m as int), c@.take(m + 1))
                &&& is_branch_page(rp@, right_id, views(s@).skip(m + 1), c@.skip(m + 1))
                &&& m == promoted(views(s@), c@, child_index as int)
                &&& lp@ == branch_page(left_id, level, views(s@).take(m as int), c@.take(m + 1))
                &&& rp@ == branch_page(right_id, level, views(s@).skip(m + 1), c@.skip(m + 1))
            },
            None => true,
        },
{
    let ghost vs = views(s@);
    let n: usize = s.len();
    let mut mid: usize = n / 2;
    proof {
        let m = mid as int;
        assert(vs.subrange(0, m) =~= vs.take(m));
        assert(vs.subrange(m + 1, n as int) =~= vs.skip(m + 1));
        assert(c@.subrange(0, m + 1) =~= c@.take(m + 1));
        assert(c@.subrange(m + 1, n + 1) =~= c@.skip(m + 1));
    }
    let mut left_page = build_branch(left_id, level, s, c, 0, mid);
    let mut right_page = build_branch(right_id, level, s, c, mid + 1, n);
    if left_page.is_none() || right_page.is_none() {
        mid = child_index;
        left_page = build_branch(left_id, level, s, c, 0, mid);
        right_page = build_branch(right_id, level, s, c, mid + 1, n);
        proof {
            let i = child_index as int;
            assert(vs.subrange(0, i) =~= seps(ps).subrange(0, i));
            assert(vs.subrange(i + 1, n as int) =~= seps(ps).subrange(
                i,
                ps.records.len() as int,
            ));
            lemma_branch_page_fits(ps, 0, i, c@.subrange(0, i + 1));
            lemma_branch_page_fits(ps, i, ps.records.len() as int, c@.subrange(i + 1, n + 1));
        }
    }
    proof {
        let m = mid as int;
        assert(vs.subrange(0, m) =~= vs.take(m));
        assert(vs.subrange(m + 1, n as int) =~= vs.skip(m + 1));
        assert(c@.subrange(0, m + 1) =~= c@.take(m + 1));
        assert(c@.subrange(m + 1, n + 1) =~= c@.skip(m + 1));
        lemma_branch_page_fits(ps, 0, 0, seq![0u64]);
        if m < child_index {
            assert(vs[m] == seps(ps)[m]);
        } else if m > child_index {
            assert(vs[m] == seps(ps)[m - 1]);
        }
    }
    match (left_page, right_page) {
        (Some(lp), Some(rp)) => Some((mid, lp, rp)),
        _ => None,
    }
}

/// Splitting the branch at the end of a path leaves the parent to be written.
proof fn lemma_split_branch(
    st: Pages,
    sh: Shape,
    id: u64,
    right: u64,
    vs: Seq<Key>,
    c: Seq<u64>,
    m: int,
    pl: PageState,
    pr: PageState,
    path: Seq<(PageId, usize)>,
    depth: int,
)
    requires
        pending_at(st, sh, id, vs, c),
        path_ok(st, sh, path, depth, id),
        0 <= m < vs.len(),
        !st.contains_key(right),
        is_branch_page(pl, id, vs.take(m), c.take(m + 1)),
        is_branch_page(pr, right, vs.skip(m + 1), c.skip(m + 1)),
    ensures
        ({
            let st2 = st.insert(id, pl).insert(right, pr);
            let sh2 = Shape { nodes: split_branch_nodes(sh.nodes, id, right, vs, c, m), ..sh };
            &&& split_under(st2, sh2, path_end(path, depth), id, right, vs[m])
            &&& path_ok(st2, sh2, path, depth, id)
            &&& leaves_kept(st, sh.nodes, st2, sh2.nodes)
            &&& sh2.nodes[sh2.root].height == sh.nodes[sh.root].height
            &&& forall|k: Key, v: Seq<u8>| #[trigger]
                tree_holds(st2, sh2.nodes, k, v) == tree_holds(st, sh.nodes, k, v)
        }),
{
    let st2 = st.insert(id, pl).insert(right, pr);
    let sh2 = Shape { nodes: split_branch_nodes(sh.nodes, id, right, vs, c, m), ..sh };
    if sh.nodes.contains_key(right) {
        assert(node_ok(st, sh.nodes, right));
    }
    let par = path_end(path, depth);
    if depth > 0 {
        assert(path_step_ok(st, sh, path, depth, id, depth - 1));
    }
    step_split_branch(st, sh, id, right, vs, c, m, pl, pr, par);
    lemma_path_kept(st, sh, st2, sh2, path, depth, id);
}

impl BPlusTree {
    /// Splits leaf `leaf_id` into records `..m`, which stay, and records `m..`,
    /// which go to a new leaf.
    fn split_leaf_at(
        &mut self,
        leaf_id: PageId,
        recs: &Vec<Vec<u8>>,
        m: usize,
        path: &Vec<(PageId, usize)>,
    )
        requires
            old(self).pages_ok(),
            tree_ok(old(self).store(), old(self).shape@),
            path_ok(old(self).store(), old(self).shape@, path@, path@.len() as int, leaf_id),
            old(self).shape@.nodes[leaf_id].height == 0,
            leaf_records_ok(views(recs@)),
            leaf_in_fence(views(recs@), old(self).shape@.nodes[leaf_id]),
            0 < m < recs@.len(),
            records_fit(views(recs@).subrange(0, m as int)),
            records_fit(views(recs@).subrange(m as int, recs@.len() as int)),
            old(self).next_page_id + path@.len() + 2 <= u64::MAX,
        ensures
            final(self).pages_ok(),
            tree_ok(final(self).store(), final(self).shape@),
            final(self).steps_from(old(self)),
            final(self).next_page_id <= old(self).next_page_id + path@.len() + 2,
            final(self).height() <= old(self).height() + 1,
            final(self).shape@.nodes.contains_key(leaf_id),
            final(self).shape@.nodes[leaf_id].height == 0,
            final(self).shape@.nodes[leaf_id].lo == old(self).shape@.nodes[leaf_id].lo,
            final(self).shape@.nodes[leaf_id].hi == Some(kv_key(views(recs@)[m as int])),
            final(self).shape@.leaves.len() == old(self).shape@.leaves.len() + 1,
            final(self).store()[leaf_id].records == views(recs@).subrange(0, m as int),
            forall|k: Key, v: Seq<u8>| #[trigger]
                tree_holds(final(self).store(), final(self).shape@.nodes, k, v) == (records_hold(
                    views(recs@),
                    k,
                    v,
                ) || (tree_holds(old(self).store(), old(self).shape@.nodes, k, v) && !in_fence(
                    k,
                    old(self).shape@.nodes[leaf_id],
                ))),
            final(self).outline() == leaf_split(
                old(self).config,
                old(self).outline(),
                path@,
                leaf_id,
                views(recs@),
                m as int,
            ),
    {
        let ghost st = self.store();
        let ghost sh = self.shape@;
        let ghost all = views(recs@);
        let n: usize = recs.len();
        proof {
            assert(node_ok(st, sh.nodes, leaf_id));
        }
        let (prev, next) = match self.page_ref(leaf_id) {
            Some(page) => {
                let h = page.btree_header();
                (h.sibling_prev, h.sibling_next)
            },
            None => (0, 0),
        };
        let right_id: PageId = self.alloc_page();
        let left_page = build_leaf(leaf_id, recs, 0, m, prev, right_id);
        let right_page = build_leaf(right_id, recs, m, n, leaf_id, next);
        match (left_page, right_page) {
            (Some(lp), Some(rp)) => {
                let ghost pl = PageState { lsn: self.next_lsn, ..lp@ };
                self.put_page_with_lsn(leaf_id, lp);
                let ghost pr = PageState { lsn: self.next_lsn, ..rp@ };
                self.put_page_with_lsn(right_id, rp);
                let ghost sep = kv_key(all[m as int]);
                let ghost j = choose|j: int| 0 <= j < sh.leaves.len() && sh.leaves[j] == leaf_id;
                let ghost sh2 = split_leaf_shape(sh, j, right_id, sep);
                proof {
                    assert(sh.leaves.contains(leaf_id));
                    assert(!st.contains_key(right_id));
                    lemma_split_leaf(
                        st,
                        sh,
                        j,
                        right_id,
                        all,
                        m as int,
                        pl,
                        pr,
                        path@,
                    );
                    assert(all.subrange(0, m as int) =~= all.take(m as int));
                    assert(all.subrange(m as int, n as int) =~= all.skip(m as int));
                    lemma_layout_insert(st, leaf_id, pl);
                    lemma_layout_insert(st.insert(leaf_id, pl), right_id, pr);
                }
                self.shape = Ghost(sh2);
                match decode_kv(recs[m].as_slice()) {
                    Some((key, _v)) => {
                        let separator = slice_to_vec(key);
                        let ghost mid = *self;
                        proof {
                            assert(all[m as int] == recs@[m as int]@);
                            assert(mid.shape@.nodes.contains_key(leaf_id));
                        }
                        self.insert_into_parent(
                            leaf_id,
                            right_id,
                            separator.as_slice(),
                            path,
                            path.len(),
                        );
                    },
                    None => {
                        proof {
                            assert(all[m as int] == recs@[m as int]@);
                        }
                    },
                }
            },
            _ => {},
        }
    }
}

/// Leaf records cut at `m` are the records of two leaves, whose common bound is
/// the key of record `m`.
pub(super) proof fn lemma_cut_records(all: Seq<Seq<u8>>, n: Node, m: int)
    requires
        leaf_records_ok(all),
        leaf_in_fence(all, n),
        0 < m < all.len(),
    ensures
        lex_lt(n.lo, kv_key(all[m])),
        below(kv_key(all[m]), n.hi),
        leaf_records_ok(all.subrange(0, m)),
        leaf_records_ok(all.subrange(m, all.len() as int)),
        leaf_in_fence(all.subrange(0, m), Node { hi: Some(kv_key(all[m])), ..n }),
        leaf_in_fence(all.subrange(m, all.len() as int), Node { lo: kv_key(all[m]), ..n }),
{
    broadcast use crate::bytes::group_lex_order;

    let sep = kv_key(all[m]);
    let nl = Node { hi: Some(sep), ..n };
    let nr = Node { lo: sep, ..n };
    let a = all.subrange(0, m);
    let b = all.subrange(m, all.len() as int);
    assert(in_fence(kv_key(all[m]), n));
    assert(in_fence(kv_key(all[0]), n));
    assert(lex_lt(kv_key(all[0]), kv_key(all[m])));
    lemma_records_part(all, 0, m);
    lemma_records_part(all, m, all.len() as int);
    assert forall|i: int| 0 <= i < a.len() implies in_fence(kv_key(#[trigger] a[i]), nl) by {
        assert(a[i] == all[i]);
        assert(in_fence(kv_key(all[i]), n));
        assert(lex_lt(kv_key(all[i]), kv_key(all[m])));
    }
    assert forall|i: int| 0 <= i < b.len() implies in_fence(kv_key(#[trigger] b[i]), nr) by {
        assert(b[i] == all[i + m]);
        assert(in_fence(kv_key(all[i + m]), n));
        if i > 0 {
            assert(lex_lt(kv_key(all[m]), kv_key(all[i + m])));
        }
    }
}

/// The records of adjacent leaves are the records of one leaf.
pub(super) proof fn lemma_join_records(a: Seq<Seq<u8>>, b: Seq<Seq<u8>>, na: Node, nb: Node)
    requires
        leaf_records_ok(a),
        leaf_records_ok(b),
        leaf_in_fence(a, na),
        leaf_in_fence(b, nb),
        na.hi == Some(nb.lo),
        below(na.lo, na.hi),
        below(nb.lo, nb.hi),
    ensures
        leaf_records_ok(a + b),
        leaf_in_fence(a + b, Node { hi: nb.hi, ..na }),
{
    broadcast use crate::bytes::group_lex_order;

    let c = a + b;
    let n = Node { hi: nb.hi, ..na };
    assert forall|i: int| 0 <= i < c.len() implies valid_kv(#[trigger] c[i]) && sep_fits(
        kv_key(c[i]),
    ) && in_fence(kv_key(c[i]), n) by {
        if i < a.len() {
            assert(c[i] == a[i]);
            assert(in_fence(kv_key(a[i]), na));
        } else {
            assert(c[i] == b[i - a.len()]);
            assert(in_fence(kv_key(b[i - a.len()]), nb));
        }
    }
    assert forall|i: int, j: int| 0 <= i < j < c.len() implies lex_lt(
        kv_key(#[trigger] c[i]),
        kv_key(#[trigger] c[j]),
    ) by {
        if j < a.len() {
            assert(c[i] == a[i] && c[j] == a[j]);
        } else if i >= a.len() {
            assert(c[i] == b[i - a.len()] && c[j] == b[j - a.len()]);
        } else {
            assert(c[i] == a[i] && c[j] == b[j - a.len()]);
            assert(in_fence(kv_key(a[i]), na));
            assert(in_fence(kv_key(b[j - a.len()]), nb));
        }
    }
}

/// Splitting the leaf at the end of a path leaves the parent to be written.
proof fn lemma_split_leaf(
    st: Pages,
    sh: Shape,
    j: int,
    right: u64,
    all: Seq<Seq<u8>>,
    m: int,
    pl: PageState,
    pr: PageState,
    path: Seq<(PageId, usize)>,
)
    requires
        tree_ok(st, sh),
        0 <= j < sh.leaves.len(),
        path_ok(st, sh, path, path.len() as int, sh.leaves[j]),
        right != 0,
        !st.contains_key(right),
        leaf_records_ok(all),
        leaf_in_fence(all, sh.nodes[sh.leaves[j]]),
        0 < m < all.len(),
        pl.page_id == sh.leaves[j],
        pl.is_leaf(),
        pl.next == right,
        pl.records == all.subrange(0, m),
        pr.page_id == right,
        pr.is_leaf(),
        pr.next == st[sh.leaves[j]].next,
        pr.records == all.subrange(m, all.len() as int),
    ensures
        ({
            let id = sh.leaves[j];
            let sep = kv_key(all[m]);
            let st2 = st.insert(id, pl).insert(right, pr);
            let sh2 = split_leaf_shape(sh, j, right, sep);
            &&& split_under(st2, sh2, path_end(path, path.len() as int), id, right, sep)
            &&& path_ok(st2, sh2, path, path.len() as int, id)
            &&& sh2.nodes[sh2.root].height == sh.nodes[sh.root].height
            &&& forall|k: Key, v: Seq<u8>| #[trigger]
                tree_holds(st2, sh2.nodes, k, v) == (records_hold(all, k, v) || (tree_holds(
                    st,
                    sh.nodes,
                    k,
                    v,
                ) && !in_fence(k, sh.nodes[id])))
        }),
{
    let id = sh.leaves[j];
    let n = sh.nodes[id];
    let sep = kv_key(all[m]);
    let d = path.len() as int;
    let st2 = st.insert(id, pl).insert(right, pr);
    let sh2 = split_leaf_shape(sh, j, right, sep);
    assert(chain_ok(st, sh, j));
    if sh.nodes.contains_key(right) {
        assert(node_ok(st, sh.nodes, right));
    }
    lemma_cut_records(all, n, m);
    if d > 0 {
        assert(path_step_ok(st, sh, path, d, id, d - 1));
    }
    step_split_leaf(st, sh, j, right, sep, pl, pr, path_end(path, d));
    lemma_path_kept(st, sh, st2, sh2, path, d, id);
    assert forall|k: Key, v: Seq<u8>| #[trigger]
        tree_holds(st2, sh2.nodes, k, v) == (records_hold(all, k, v) || (tree_holds(
            st,
            sh.nodes,
            k,
            v,
        ) && !in_fence(k, n))) by {
        assert(all =~= all.subrange(0, m) + all.subrange(m, all.len() as int));
        lemma_hold_add(all.subrange(0, m), all.subrange(m, all.len() as int), k, v);
    }
}

/// Do records `from..to` fit on one page?
fn fits_range(recs: &Vec<Vec<u8>>, from: usize, to: usize) -> (b: bool)
    requires
        from <= to <= recs@.len(),
    ensures
        b == records_fit(views(recs@).subrange(from as int, to as int)),
{
    let ghost all = views(recs@);
    let mut used: usize = 0;
    let mut i: usize = from;
    assert(all.subrange(from as int, from as int) =~= Seq::empty());
    while i < to
        invariant
            from <= i <= to <= recs@.len(),
            all == views(recs@),
            used == record_bytes(all.subrange(from as int, i as int)),
            used <= PAGE_CAPACITY,
        decreases to - i,
    {
        let len: usize = recs[i].len();
        proof {
            let part = all.subrange(from as int, i as int);
            assert(all[i as int] == recs@[i as int]@);
            assert(all.subrange(from as int, i + 1) =~= part.push(all[i as int]));
            lemma_record_bytes_push(part, all[i as int]);
        }
        if len > PAGE_CAPACITY || used + len + SLOT_SIZE > PAGE_CAPACITY {
            proof {
                let whole = all.subrange(from as int, to as int);
                assert(whole.subrange(0, i + 1 - from) =~= all.subrange(from as int, i + 1));
                if records_fit(whole) {
                    lemma_fit_part(whole, 0, i + 1 - from);
                }
            }
            return false;
        }
        used = used + len + SLOT_SIZE;
        i += 1;
    }
    true
}

/// Where to cut records that fill more than one page: in the middle, or else at
/// the first place where both parts fit.
fn find_split(recs: &Vec<Vec<u8>>) -> (r: Option<usize>)
    ensures
        match r {
            Some(m) => m == leaf_cut(views(recs@)) && cuts_at(views(recs@), m as int),
            None => leaf_cut(views(recs@)) == 0 && forall|m: int| !cuts_at(views(recs@), m),
        },
{
    let ghost all = views(recs@);
    let n: usize = recs.len();
    let mid: usize = n / 2;
    proof {
        assert(all.subrange(0, mid as int) =~= all.take(mid as int));
        assert(all.subrange(mid as int, n as int) =~= all.skip(mid as int));
    }
    if mid > 0 && fits_range(recs, 0, mid) && fits_range(recs, mid, n) {
        return Some(mid);
    }
    let mut m: usize = 1;
    while m < n
        invariant
            1 <= m,
            m <= n || n == 0,
            n == recs@.len(),
            all == views(recs@),
            first_cut(all, m as int) == first_cut(all, 1),
            !cuts_at(all, n as int / 2),
            forall|x: int| 0 < x < m ==> !cuts_at(all, x),
        decreases n - m,
    {
        proof {
            assert(all.subrange(0, m as int) =~= all.take(m as int));
            assert(all.subrange(m as int, n as int) =~= all.skip(m as int));
        }
        if fits_range(recs, 0, m) && fits_range(recs, m, n) {
            return Some(m);
        }
        m += 1;
    }
    None
}

impl BPlusTree {
    /// Stores `value` under `key`, which does not occur in the leaf any more
    /// than `page` says: splits the leaf around the new record, or, where the
    /// record is too large for either half, cuts the leaf where the record
    /// belongs and leaves the record out. Returns whether it was stored.
    fn split_leaf(
        &mut self,
        leaf_id: PageId,
        page: &BTreePage,
        slot: u16,
        key: &[u8],
        value: &[u8],
        path: &Vec<(PageId, usize)>,
    ) -> (done: bool)
        requires
            old(self).pages_ok(),
            tree_ok(old(self).store(), old(self).shape@),
            path_ok(old(self).store(), old(self).shape@, path@, path@.len() as int, leaf_id),
            old(self).shape@.nodes[leaf_id].height == 0,
            in_fence(key@, old(self).shape@.nodes[leaf_id]),
            entry_fits(key@, value@),
            page.wf(),
            leaf_records_ok(page@.records),
            leaf_in_fence(page@.records, old(self).shape@.nodes[leaf_id]),
            slot <= page@.records.len(),
            forall|i: int| 0 <= i < slot ==> lex_lt(kv_key(#[trigger] page@.records[i]), key@),
            forall|i: int|
                slot <= i < page@.records.len() ==> lex_lt(
                    key@,
                    kv_key(#[trigger] page@.records[i]),
                ),
            page@.records.len() > 0,
            old(self).next_page_id + path@.len() + 2 <= u64::MAX,
        ensures
            final(self).pages_ok(),
            tree_ok(final(self).store(), final(self).shape@),
            final(self).steps_from(old(self)),
            final(self).next_page_id <= old(self).next_page_id + path@.len() + 2,
            final(self).height() <= old(self).height() + 1,
            forall|k: Key, v: Seq<u8>| #[trigger]
                tree_holds(final(self).store(), final(self).shape@.nodes, k, v) == ((done && k
                    == key@ && v == value@) || records_hold(page@.records, k, v) || (tree_holds(
                    old(self).store(),
                    old(self).shape@.nodes,
                    k,
                    v,
                ) && !in_fence(k, old(self).shape@.nodes[leaf_id]))),
            slot == page@.records.len() ==> done,
            !done ==> key_is_last(final(self).store(), final(self).shape@.nodes, key@),
            ({
                let recs = page@.records.insert(slot as int, kv_record(key@, value@));
                &&& done == (leaf_cut(recs) != 0)
                &&& final(self).outline() == if done {
                    leaf_split(
                        old(self).config,
                        old(self).outline(),
                        path@,
                        leaf_id,
                        recs,
                        leaf_cut(recs),
                    )
                } else {
                    leaf_split(
                        old(self).config,
                        old(self).outline(),
                        path@,
                        leaf_id,
                        page@.records,
                        slot as int,
                    )
                }
            }),
    {
        let ghost n = self.shape@.nodes[leaf_id];
        let ghost st = self.store();
        let ghost sh = self.shape@;
        let ghost recs0 = page@.records;
        let ghost p = slot as int;
        let rec = encode_kv(key, value);
        proof {
            page.lemma_wf();
            law_kv_roundtrip(key@, value@);
        }
        let mut recs = copy_records(page);
        let ghost rec_v = rec@;
        recs.insert(slot as usize, rec);
        let ghost recs1 = recs0.insert(p, rec_v);
        proof {
            assert(views(recs@) =~= recs1);
            lemma_records_insert(recs0, p, rec_v);
            assert forall|i: int| 0 <= i < recs1.len() implies in_fence(
                kv_key(#[trigger] recs1[i]),
                n,
            ) by {
                if i < p {
                    assert(recs1[i] == recs0[i]);
                } else if i > p {
                    assert(recs1[i] == recs0[i - 1]);
                }
            }
        }
        match find_split(&recs) {
            Some(m) => {
                proof {
                    assert(recs1.subrange(0, m as int) =~= recs1.take(m as int));
                    assert(recs1.subrange(m as int, recs1.len() as int) =~= recs1.skip(m as int));
                }
                self.split_leaf_at(leaf_id, &recs, m, path);
                proof {
                    assert forall|k: Key, v: Seq<u8>| #[trigger]
                        tree_holds(self.store(), self.shape@.nodes, k, v) == ((k == key@ && v
                            == value@) || records_hold(recs0, k, v) || (tree_holds(
                            st,
                            sh.nodes,
                            k,
                            v,
                        ) && !in_fence(k, n))) by {
                        lemma_hold_insert(recs0, p, rec_v, k, v);
                    }
                }
                true
            },
            None => {
                proof {
                    lemma_no_cut(recs0, p, rec_v);
                }
                let _dropped = recs.remove(slot as usize);
                proof {
                    assert(recs1.remove(p) =~= recs0);
                    assert(views(recs@) =~= recs0);
                    lemma_fit_part(recs0, 0, p);
                    lemma_fit_part(recs0, p, recs0.len() as int);
                }
                self.split_leaf_at(leaf_id, &recs, slot as usize, path);
                proof {
                    let st2 = self.store();
                    let sh2 = self.shape@;
                    assert(in_fence(key@, sh2.nodes[leaf_id])) by {
                        assert(lex_lt(key@, kv_key(recs0[p])));
                    }
                    assert forall|x: u64, i: int|
                        sh2.nodes.contains_key(x) && sh2.nodes[x].height == 0 && in_fence(
                            key@,
                            sh2.nodes[x],
                        ) && 0 <= i < st2[x].records.len() implies lex_lt(
                        kv_key(#[trigger] st2[x].records[i]),
                        key@,
                    ) by {
                        lemma_leaf_unique_id(st2, sh2, x, leaf_id, key@);
                        assert(st2[x].records[i] == recs0[i]);
                    }
                }
                false
            },
        }
    }
}

/// Records that fit together with one more that does not can be cut, unless the
/// new record stands between others.
proof fn lemma_no_cut(recs: Seq<Seq<u8>>, p: int, rec: Seq<u8>)
    requires
        records_fit(recs),
        recs.len() > 0,
        0 <= p <= recs.len(),
        rec.len() + SLOT_SIZE <= PAGE_CAPACITY,
        forall|m: int| !cuts_at(recs.insert(p, rec), m),
    ensures
        0 < p < recs.len(),
{
    let all = recs.insert(p, rec);
    let n = recs.len() as int;
    lemma_record_bytes_push(Seq::empty(), rec);
    let one = Seq::<Seq<u8>>::empty().push(rec);
    if p == 0 {
        assert(all.take(1) =~= one);
        assert(all.skip(1) =~= recs);
        assert(cuts_at(all, 1));
    }
    if p == n {
        assert(all.take(n) =~= recs);
        assert(all.skip(n) =~= one);
        assert(cuts_at(all, n));
    }
}

impl BPlusTree {
    /// Stores `value` under `key` in the leaf responsible for it, splitting the
    /// leaf if need be. Where the leaf could only be cut, the record is left out
    /// and `false` is returned.
    fn place(&mut self, key: &[u8], value: &[u8]) -> (done: bool)
        requires
            old(self).pages_ok(),
            tree_ok(old(self).store(), old(self).shape@),
            entry_fits(key@, value@),
            old(self).next_page_id + old(self).height() + 2 <= u64::MAX,
        ensures
            final(self).pages_ok(),
            tree_ok(final(self).store(), final(self).shape@),
            final(self).steps_from(old(self)),
            final(self).next_page_id <= old(self).next_page_id + old(self).height() + 2,
            final(self).height() <= old(self).height() + 1,
            forall|k: Key, v: Seq<u8>| #[trigger]
                tree_holds(final(self).store(), final(self).shape@.nodes, k, v) == ((done && k
                    == key@ && v == value@) || (k != key@ && tree_holds(
                    old(self).store(),
                    old(self).shape@.nodes,
                    k,
                    v,
                ))),
            key_is_last(old(self).store(), old(self).shape@.nodes, key@) ==> done,
            !done ==> key_is_last(final(self).store(), final(self).shape@.nodes, key@),
            is_placed(
                old(self).config,
                old(self).outline(),
                final(self).outline(),
                key@,
                value@,
                done,
            ),
    {
        let ghost st = self.store();
        let ghost sh = self.shape@;
        let (leaf_id, path) = self.descend(key);
        let ghost n = sh.nodes[leaf_id];
        proof {
            assert(node_ok(st, sh.nodes, leaf_id));
        }
        let mut page = match self.page_ref(leaf_id) {
            Some(p) => p.clone(),
            None => BTreePage::new_leaf(leaf_id),
        };
        let slot: u16 = leaf_lower_bound(&page, key);
        let found: bool = leaf_has_key(&page, slot, key);
        let ghost recs = st[leaf_id].records;
        let ghost p = slot as int;
        if found {
            page.delete(slot);
        }
        let ghost recs0 = page@.records;
        proof {
            lemma_without_key(recs, recs0, n, key@, p, found);
            page.lemma_wf();
            law_kv_roundtrip(key@, value@);
            // What the leaf holds of other keys is what the tree holds there.
            assert forall|k: Key, v: Seq<u8>|
                (#[trigger] records_hold(recs0, k, v) || (tree_holds(st, sh.nodes, k, v)
                    && !in_fence(k, n))) == (k != key@ && tree_holds(st, sh.nodes, k, v)) by {
                if in_fence(k, n) {
                    lemma_holds_in_leaf(st, sh, leaf_id, k, v);
                } else if records_hold(recs0, k, v) {
                    let i = choose|i: int|
                        0 <= i < recs0.len() && kv_key(#[trigger] recs0[i]) == k && kv_value(
                            recs0[i],
                        ) == v;
                    assert(in_fence(kv_key(recs0[i]), n));
                }
                assert(in_fence(key@, n));
            }
        }
        let rec = encode_kv(key, value);
        proof {
            lemma_record_bytes_insert(recs0, p, rec@);
            assert(recs0.insert(p, rec@) == with_pair(recs, key@, value@, p));
            assert(lands(layout_of(st), old(self).root(), key@, path@, leaf_id, p));
        }
        if page.has_room_for(rec.len()) && (page.slot_count() == 0 || !self.exceeds(
            PAGE_CAPACITY - page.free_space() + rec.len() + SLOT_SIZE,
        )) {
            let _slot = page.insert_raw_at(slot, rec.as_slice());
            proof {
                let recs1 = recs0.insert(p, rec@);
                lemma_records_insert(recs0, p, rec@);
                assert forall|i: int| 0 <= i < recs1.len() implies in_fence(
                    kv_key(#[trigger] recs1[i]),
                    n,
                ) by {
                    if i < p {
                        assert(recs1[i] == recs0[i]);
                    } else if i > p {
                        assert(recs1[i] == recs0[i - 1]);
                    }
                }
                let pg = PageState { lsn: self.next_lsn, ..page@ };
                step_leaf(st, sh, leaf_id, pg);
                assert forall|k: Key, v: Seq<u8>| #[trigger]
                    tree_holds(st.insert(leaf_id, pg), sh.nodes, k, v) == ((k == key@ && v
                        == value@) || (k != key@ && tree_holds(st, sh.nodes, k, v))) by {
                    lemma_hold_insert(recs0, p, rec@, k, v);
                    assert((records_hold(recs0, k, v) || (tree_holds(st, sh.nodes, k, v)
                        && !in_fence(k, n))) == (k != key@ && tree_holds(st, sh.nodes, k, v)));
                }
            }
            self.put_page_with_lsn(leaf_id, page);
            proof {
                lemma_layout_insert(st, leaf_id, self.store()[leaf_id]);
                assert(self.outline() == placed(
                    self.config,
                    old(self).outline(),
                    key@,
                    value@,
                    path@,
                    leaf_id,
                    p,
                ));
            }
            return true;
        }
        proof {
            if recs0.len() == 0 {
                assert(record_bytes(recs0) == 0);
            }
        }
        let done: bool = self.split_leaf(leaf_id, &page, slot, key, value, &path);
        proof {
            assert forall|k: Key, v: Seq<u8>| #[trigger]
                tree_holds(self.store(), self.shape@.nodes, k, v) == ((done && k == key@ && v
                    == value@) || (k != key@ && tree_holds(st, sh.nodes, k, v))) by {
                assert((records_hold(recs0, k, v) || (tree_holds(st, sh.nodes, k, v) && !in_fence(
                    k,
                    n,
                ))) == (k != key@ && tree_holds(st, sh.nodes, k, v)));
            }
            if key_is_last(st, sh.nodes, key@) {
                lemma_last_slot(st, sh.nodes, leaf_id, recs0, key@, p, found);
            }
            assert(with_pair(recs, key@, value@, p).remove(p) =~= recs0);
            assert(cannot_split(self.config, with_pair(recs, key@, value@, p)) == !done);
        }
        done
    }
}

/// Taking a key out of a leaf leaves the records around its place.
pub(super) proof fn lemma_without_key(
    recs: Seq<Seq<u8>>,
    recs0: Seq<Seq<u8>>,
    n: Node,
    key: Key,
    p: int,
    found: bool,
)
    requires
        leaf_records_ok(recs),
        leaf_in_fence(recs, n),
        is_lower_bound(recs, key, p),
        found == (p < recs.len() && kv_key(recs[p]) == key),
        recs0 == (if found {
            recs.remove(p)
        } else {
            recs
        }),
    ensures
        leaf_records_ok(recs0),
        leaf_in_fence(recs0, n),
        p <= recs0.len(),
        forall|i: int| 0 <= i < p ==> lex_lt(kv_key(#[trigger] recs0[i]), key),
        forall|i: int| p <= i < recs0.len() ==> lex_lt(key, kv_key(#[trigger] recs0[i])),
        forall|k: Key, v: Seq<u8>| #[trigger]
            records_hold(recs0, k, v) == (k != key && records_hold(recs, k, v)),
{
    broadcast use crate::bytes::group_lex_order;

    if found {
        lemma_records_remove(recs, p);
        assert forall|i: int| 0 <= i < recs0.len() implies in_fence(
            kv_key(#[trigger] recs0[i]),
            n,
        ) by {
            let i2 = if i < p { i } else { i + 1 };
            assert(recs0[i] == recs[i2]);
        }
        assert forall|i: int| 0 <= i < p implies lex_lt(kv_key(#[trigger] recs0[i]), key) by {
            assert(recs0[i] == recs[i]);
        }
        assert forall|i: int| p <= i < recs0.len() implies lex_lt(
            key,
            kv_key(#[trigger] recs0[i]),
        ) by {
            assert(recs0[i] == recs[i + 1]);
            assert(lex_lt(kv_key(recs[p]), kv_key(recs[i + 1])));
        }
        assert forall|k: Key, v: Seq<u8>| #[trigger]
            records_hold(recs0, k, v) == (k != key && records_hold(recs, k, v)) by {
            lemma_hold_remove(recs, p, k, v);
        }
    } else {
        assert forall|i: int| p <= i < recs0.len() implies lex_lt(
            key,
            kv_key(#[trigger] recs0[i]),
        ) by {
            assert(lex_le(key, kv_key(recs[i])));
            if i > p {
                assert(lex_lt(kv_key(recs[p]), kv_key(recs[i])));
            }
        }
        assert forall|k: Key, v: Seq<u8>| #[trigger]
            records_hold(recs0, k, v) == (k != key && records_hold(recs, k, v)) by {
            lemma_not_in_leaf(recs, key, p, v);
        }
    }
}

/// Where every key of the leaf is below `key`, its place is the last one.
proof fn lemma_last_slot(
    st: Pages,
    nodes: Map<u64, Node>,
    id: u64,
    recs0: Seq<Seq<u8>>,
    key: Key,
    p: int,
    found: bool,
)
    requires
        nodes.contains_key(id),
        nodes[id].height == 0,
        in_fence(key, nodes[id]),
        key_is_last(st, nodes, key),
        0 <= p <= recs0.len(),
        recs0 == (if found {
            st[id].records.remove(p)
        } else {
            st[id].records
        }),
        found ==> p < st[id].records.len(),
        p < recs0.len() ==> lex_lt(key, kv_key(recs0[p])),
    ensures
        p == recs0.len(),
{
    broadcast use crate::bytes::group_lex_order;

    if p < recs0.len() {
        let recs = st[id].records;
        let i = if found { p + 1 } else { p };
        assert(recs0[p] == recs[i]);
        assert(lex_lt(kv_key(recs[i]), key));
    }
}

/// The map after the first `n` entries were stored in order.
pub open spec fn with_entries(
    m: Map<Seq<u8>, Seq<u8>>,
    entries: Seq<(CompositeKey, Vec<u8>)>,
    n: int,
) -> Map<Seq<u8>, Seq<u8>>
    decreases n,
{
    if n <= 0 {
        m
    } else {
        with_entries(m, entries, n - 1).insert(entries[n - 1].0@, entries[n - 1].1@)
    }
}

/// Of the entries of a batch with one key the last counts, and a key that no entry has keeps
/// its value.
pub proof fn law_batch_last_wins(
    m: Map<Seq<u8>, Seq<u8>>,
    entries: Seq<(CompositeKey, Vec<u8>)>,
    n: int,
    key: Seq<u8>,
)
    requires
        0 <= n <= entries.len(),
    ensures
        forall|i: int|
            0 <= i < n && (#[trigger] entries[i]).0@ == key && (forall|j: int|
                i < j < n ==> (#[trigger] entries[j]).0@ != key) ==> with_entries(
                m,
                entries,
                n,
            ).contains_key(key) && with_entries(m, entries, n)[key] == entries[i].1@,
        (forall|i: int| 0 <= i < n ==> (#[trigger] entries[i]).0@ != key) ==> with_entries(
            m,
            entries,
            n,
        ).contains_key(key) == m.contains_key(key) && with_entries(m, entries, n)[key] == m[key],
    decreases n,
{
    if n > 0 {
        law_batch_last_wins(m, entries, n - 1, key);
        assert forall|i: int|
            0 <= i < n && (#[trigger] entries[i]).0@ == key && (forall|j: int|
                i < j < n ==> (#[trigger] entries[j]).0@ != key) implies with_entries(
            m,
            entries,
            n,
        ).contains_key(key) && with_entries(m, entries, n)[key] == entries[i].1@ by {
            if i < n - 1 {
                assert(entries[n - 1].0@ != key);
            }
        }
        if forall|i: int| 0 <= i < n ==> (#[trigger] entries[i]).0@ != key {
            assert(entries[n - 1].0@ != key);
        }
    }
}

/// What a batch of insertions did: all of it, or all up to the first entry that
/// cannot be stored.
pub open spec fn batch_result(
    old_map: Map<Seq<u8>, Seq<u8>>,
    new_map: Map<Seq<u8>, Seq<u8>>,
    entries: Seq<(CompositeKey, Vec<u8>)>,
    exhausted: bool,
    r: Result<(), BTreeError>,
) -> bool {
    match r {
        Ok(_) => {
            &&& forall|i: int|
                0 <= i < entries.len() ==> entry_fits((#[trigger] entries[i]).0@, entries[i].1@)
            &&& new_map == with_entries(old_map, entries, entries.len() as int)
        },
        Err(e) => {
            &&& e == BTreeError::SplitFailed
            &&& exists|n: int|
                {
                    &&& 0 <= n < entries.len()
                    &&& #[trigger] with_entries(old_map, entries, n) == new_map
                    &&& (exhausted || !entry_fits(entries[n].0@, entries[n].1@))
                    &&& forall|i: int|
                        0 <= i < n ==> entry_fits((#[trigger] entries[i]).0@, entries[i].1@)
                }
        },
    }
}

/// A batch is stored whole where all its entries fit and page ids are left. Otherwise the
/// entries up to the first that could not be stored are.
pub proof fn law_batch_is_stored(
    old_map: Map<Seq<u8>, Seq<u8>>,
    new_map: Map<Seq<u8>, Seq<u8>>,
    entries: Seq<(CompositeKey, Vec<u8>)>,
    exhausted: bool,
    r: Result<(), BTreeError>,
)
    requires
        batch_result(old_map, new_map, entries, exhausted, r),
    ensures
        !exhausted && (forall|i: int|
            0 <= i < entries.len() ==> entry_fits((#[trigger] entries[i]).0@, entries[i].1@))
            ==> r is Ok,
        r is Ok ==> new_map == with_entries(old_map, entries, entries.len() as int),
        r is Ok ==> forall|i: int|
            0 <= i < entries.len() ==> entry_fits((#[trigger] entries[i]).0@, entries[i].1@),
        r matches Err(e) ==> e == BTreeError::SplitFailed && exists|n: int|
            0 <= n < entries.len() && #[trigger] with_entries(old_map, entries, n) == new_map && (
            exhausted || !entry_fits(entries[n].0@, entries[n].1@)),
{
}

/// Do the outlines follow one another by the entries?
pub open spec fn is_storing(
    config: BPlusTreeConfig,
    trace: Seq<Outline>,
    entries: Seq<(CompositeKey, Vec<u8>)>,
) -> bool {
    &&& 0 < trace.len() <= entries.len() + 1
    &&& forall|i: int|
        0 <= i < trace.len() - 1 ==> is_stored(
            config,
            #[trigger] trace[i],
            trace[i + 1],
            entries[i].0@,
            entries[i].1@,
        )
}

/// Is this what storing a batch, one entry after the other, makes of a tree? `whole`
/// tells whether it is the whole batch.
pub open spec fn batch_stored(
    config: BPlusTreeConfig,
    before: Outline,
    after: Outline,
    entries: Seq<(CompositeKey, Vec<u8>)>,
    whole: bool,
) -> bool {
    exists|trace: Seq<Outline>| #[trigger]
        is_storing(config, trace, entries) && trace[0] == before && trace.last() == after && whole
            == (trace.len() == entries.len() + 1)
}

impl BPlusTree {
    /// Stores `value` under `key`; the caller holds the latch.
    fn insert_locked(&mut self, key: &[u8], value: &[u8]) -> (r: Result<(), BTreeError>)
        requires
            old(self).pages_ok(),
            tree_ok(old(self).store(), old(self).shape@),
        ensures
            final(self).pages_ok(),
            tree_ok(final(self).store(), final(self).shape@),
            final(self).steps_from(old(self)),
            match r {
                Ok(_) => {
                    &&& entry_fits(key@, value@)
                    &&& !old(self).ids_exhausted()
                    &&& final(self)@ == old(self)@.insert(key@, value@)
                    &&& is_stored(
                        old(self).spec_config(),
                        old(self).outline(),
                        final(self).outline(),
                        key@,
                        value@,
                    )
                },
                Err(e) => {
                    &&& e == BTreeError::SplitFailed
                    &&& (!entry_fits(key@, value@) || old(self).ids_exhausted())
                    &&& *final(self) == *old(self)
                },
            },
            old(self).room() > 0 ==> final(self).room() >= old(self).room() - 1,
    {
        if key.len() > PAGE_CAPACITY || value.len() > PAGE_CAPACITY || 2 + key.len() + value.len()
            + SLOT_SIZE > PAGE_CAPACITY || key.len() + 8 + SLOT_SIZE > PAGE_CAPACITY {
            return Err(BTreeError::SplitFailed);
        }
        let (_leaf, path) = self.descend(key);
        if self.next_page_id as u128 + 2 * (path.len() as u128) + 6 > u64::MAX as u128 {
            return Err(BTreeError::SplitFailed);
        }
        let ghost st = self.store();
        let ghost sh = self.shape@;
        if !self.place(key, value) {
            let ghost st1 = self.store();
            let ghost sh1 = self.shape@;
            let _done: bool = self.place(key, value);
            proof {
                assert forall|k: Key, v: Seq<u8>| #[trigger]
                    tree_holds(self.store(), self.shape@.nodes, k, v) == ((k == key@ && v
                        == value@) || (k != key@ && tree_holds(st, sh.nodes, k, v))) by {
                    assert(tree_holds(st1, sh1.nodes, k, v) == (k != key@ && tree_holds(
                        st,
                        sh.nodes,
                        k,
                        v,
                    )));
                }
            }
        }
        proof {
            lemma_map_insert(st, sh, self.store(), self.shape@, key@, value@);
            assert(is_stored(
                old(self).config,
                old(self).outline(),
                self.outline(),
                key@,
                value@,
            ));
        }
        Ok(())
    }

    /// Stores `value` under `key`, replacing what was stored there.
    ///
    /// It fails, and changes nothing, where the entry is too large for a page
    /// or the page ids are used up.
    pub fn insert(&mut self, key: &CompositeKey, value: &[u8]) -> (r: Result<(), BTreeError>)
        requires
            old(self).wf(),
        ensures
            final(self).wf(),
            final(self).latch_entry().version == next_version(old(self).latch_entry().version),
            final(self).spec_config() == old(self).spec_config(),
            match r {
                Ok(_) => {
                    &&& entry_fits(key@, value@)
                    &&& !old(self).ids_exhausted()
                    &&& final(self)@ == old(self)@.insert(key@, value@)
                    &&& is_stored(
                        old(self).spec_config(),
                        old(self).outline(),
                        final(self).outline(),
                        key@,
                        value@,
                    )
                },
                Err(e) => {
                    &&& e == BTreeError::SplitFailed
                    &&& (!entry_fits(key@, value@) || old(self).ids_exhausted())
                    &&& final(self)@ == old(self)@
                    &&& final(self).outline() == old(self).outline()
                },
            },
            old(self).room() > 0 ==> final(self).room() >= old(self).room() - 1,
    {
        let guard = self.begin_write();
        assert(self.outline() == old(self).outline());
        let result = self.insert_locked(key.as_slice(), value);
        let ghost after = *self;
        self.end_write(guard);
        assert(self.outline() == after.outline());
        result
    }

    /// Stores a batch of entries under one latch. At the first entry that cannot
    /// be stored it stops; the entries before it stay.
    pub fn insert_batch(
        &mut self,
        entries: &Vec<(CompositeKey, Vec<u8>)>,
    ) -> (r: Result<(), BTreeError>)
        requires
            old(self).wf(),
        ensures
            final(self).wf(),
            final(self).latch_entry().version == next_version(old(self).latch_entry().version),
            final(self).spec_config() == old(self).spec_config(),
            batch_result(old(self)@, final(self)@, entries@, final(self).ids_exhausted(), r),
            batch_stored(
                old(self).spec_config(),
                old(self).outline(),
                final(self).outline(),
                entries@,
                r is Ok,
            ),
            old(self).room() > entries@.len() ==> final(self).room() >= old(self).room()
                - entries@.len(),
    {
        let guard = self.begin_write();
        assert(self.outline() == old(self).outline());
        let result = self.insert_entries(entries);
        let ghost after = *self;
        self.end_write(guard);
        assert(self.outline() == after.outline());
        result
    }

    pub(super) fn insert_entries(
        &mut self,
        entries: &Vec<(CompositeKey, Vec<u8>)>,
    ) -> (r: Result<(), BTreeError>)
        requires
            old(self).pages_ok(),
            tree_ok(old(self).store(), old(self).shape@),
        ensures
            final(self).pages_ok(),
            tree_ok(final(self).store(), final(self).shape@),
            final(self).steps_from(old(self)),
            batch_result(old(self)@, final(self)@, entries@, final(self).ids_exhausted(), r),
            batch_stored(
                old(self).spec_config(),
                old(self).outline(),
                final(self).outline(),
                entries@,
                r is Ok,
            ),
            old(self).room() > entries@.len() ==> final(self).room() >= old(self).room()
                - entries@.len(),
    {
        let ghost m = self@;
        let ghost start = *self;
        let ghost mut trace: Seq<Outline> = seq![self.outline()];
        let n: usize = entries.len();
        let mut i: usize = 0;
        while i < n
            invariant
                i <= n,
                trace.len() == i + 1,
                trace[0] == start.outline(),
                trace.last() == self.outline(),
                is_storing(start.config, trace, entries@),
                n == entries@.len(),
                self.pages_ok(),
                tree_ok(self.store(), self.shape@),
                self.steps_from(&start),
                start == *old(self),
                m == old(self)@,
                self@ == with_entries(m, entries@, i as int),
                start.room() > n ==> self.room() >= start.room() - i,
                forall|j: int|
                    0 <= j < i ==> entry_fits((#[trigger] entries@[j]).0@, entries@[j].1@),
            decreases n - i,
        {
            let entry = &entries[i];
            match self.insert_locked(entry.0.as_slice(), entry.1.as_slice()) {
                Ok(_) => {},
                Err(e) => {
                    assert(with_entries(m, entries@, i as int) == self@);
                    return Err(e);
                },
            }
            proof {
                let longer = trace.push(self.outline());
                assert forall|j: int| 0 <= j < longer.len() - 1 implies is_stored(
                    start.config,
                    #[trigger] longer[j],
                    longer[j + 1],
                    entries@[j].0@,
                    entries@[j].1@,
                ) by {
                    if j < i {
                        assert(longer[j] == trace[j] && longer[j + 1] == trace[j + 1]);
                    }
                }
                trace = longer;
            }
            i += 1;
        }
        Ok(())
    }
}

/// The map of a tree that holds one pair more, or instead.
proof fn lemma_map_insert(st: Pages, sh: Shape, st2: Pages, sh2: Shape, key: Key, value: Seq<u8>)
    requires
        tree_ok(st, sh),
        tree_ok(st2, sh2),
        forall|k: Key, v: Seq<u8>| #[trigger]
            tree_holds(st2, sh2.nodes, k, v) == ((k == key && v == value) || (k != key
                && tree_holds(st, sh.nodes, k, v))),
    ensures
        tree_map(st2, sh2.nodes) == tree_map(st, sh.nodes).insert(key, value),
{
    lemma_map(st, sh);
    lemma_map(st2, sh2);
    let a = tree_map(st, sh.nodes).insert(key, value);
    let b = tree_map(st2, sh2.nodes);
    assert(tree_holds(st2, sh2.nodes, key, value));
    assert forall|k: Key| a.contains_key(k) == b.contains_key(k) by {
        if a.contains_key(k) && k != key {
            assert(tree_holds(st, sh.nodes, k, a[k]));
            assert(tree_holds(st2, sh2.nodes, k, a[k]));
        }
        if b.contains_key(k) && k != key {
            assert(tree_holds(st2, sh2.nodes, k, b[k]));
            assert(tree_holds(st, sh.nodes, k, b[k]));
        }
    }
    assert forall|k: Key| a.contains_key(k) implies a[k] == b[k] by {
        if k != key {
            assert(tree_holds(st, sh.nodes, k, a[k]));
            assert(tree_holds(st2, sh2.nodes, k, a[k]));
        }
    }
    assert(a =~= b);
}

} // verus!
