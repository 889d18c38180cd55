//! Whole pages: building a tree of them, and rewriting sparse ones.

use vstd::prelude::*;

use crate::bytes::lex_le;
use crate::index::btree::next_lsn;
use crate::index::btree::BPlusTree;
use crate::index::bulk::list_ok;
use crate::index::bulk::list_pages;
use crate::index::page::record_bytes;
use crate::index::page::BTreePage;
use crate::index::page::PAGE_CAPACITY;
use crate::index::page::PageState;
use crate::index::shape::chain_ok;
use crate::index::shape::children;
use crate::index::shape::in_fence;
use crate::index::shape::lemma_leaf_unique_id;
use crate::index::shape::lemma_same_map;
use crate::index::shape::node_ok;
use crate::index::shape::records_hold;
use crate::index::shape::seps;
use crate::index::shape::tree_holds;
use crate::index::shape::tree_map;
use crate::index::shape::tree_ok;
use crate::index::shape::Key;
use crate::index::shape::Pages;
use crate::index::shape::Shape;
use crate::index::split::lemma_chain_distinct;
use crate::storage::page::PageId;

verus! {

/// The same page but for its log sequence number.
pub open spec fn same_page(a: PageState, b: PageState) -> bool {
    a == (PageState { lsn: a.lsn, ..b })
}

/// Pages that agree but for their log sequence numbers form the same tree.
proof fn lemma_tree_transfer(st: Pages, st2: Pages, sh: Shape)
    requires
        tree_ok(st, sh),
        forall|x: u64| #[trigger]
            sh.nodes.contains_key(x) ==> st2.contains_key(x) && same_page(st2[x], st[x]),
    ensures
        tree_ok(st2, sh),
        tree_map(st2, sh.nodes) == tree_map(st, sh.nodes),
{
    assert forall|x: u64| #[trigger] sh.nodes.contains_key(x) implies node_ok(
        st2,
        sh.nodes,
        x,
    ) by {
        assert(node_ok(st, sh.nodes, x));
        assert(seps(st2[x]) =~= seps(st[x]));
        assert(children(st2[x]) =~= children(st[x]));
    }
    assert forall|j: int| 0 <= j < sh.leaves.len() implies #[trigger] chain_ok(st2, sh, j) by {
        assert(chain_ok(st, sh, j));
    }
    assert forall|k: Key, v: Seq<u8>| tree_holds(st2, sh.nodes, k, v) == #[trigger] tree_holds(
        st,
        sh.nodes,
        k,
        v,
    ) by {
        if tree_holds(st, sh.nodes, k, v) {
            let o = choose|o: u64| #[trigger]
                sh.nodes.contains_key(o) && sh.nodes[o].height == 0 && records_hold(
                    st[o].records,
                    k,
                    v,
                );
            assert(sh.nodes.contains_key(o) && st2[o].records == st[o].records);
        }
        if tree_holds(st2, sh.nodes, k, v) {
            let o = choose|o: u64| #[trigger]
                sh.nodes.contains_key(o) && sh.nodes[o].height == 0 && records_hold(
                    st2[o].records,
                    k,
                    v,
                );
            assert(sh.nodes.contains_key(o) && st2[o].records == st[o].records);
        }
    }
    lemma_same_map(st, sh, st2, sh);
}

impl BPlusTree {
    /// The ids of every page that the tree keeps.
    pub fn all_page_ids(&self) -> (r: Vec<PageId>)
        requires
            self.wf(),
        ensures
            r@.no_duplicates(),
            forall|id: PageId| #[trigger] r@.contains(id) == self.store().contains_key(id),
    {
        broadcast use vstd::std_specs::hash::group_hash_axioms;

        let mut out: Vec<PageId> = Vec::new();
        let mut id: PageId = 0;
        let end: PageId = self.next_page_id;
        while id < end
            invariant
                self.wf(),
                end == self.next_page_id,
                id <= end,
                out@.no_duplicates(),
                forall|x: PageId| #[trigger]
                    out@.contains(x) == (x < id && self.store().contains_key(x)),
            decreases end - id,
        {
            let ghost before = out@;
            if self.pages.contains_key(&id) {
                out.push(id);
                proof {
                    assert forall|x: PageId| #[trigger] out@.contains(x) == (x < id + 1
                        && self.store().contains_key(x)) by {
                        if before.contains(x) {
                            let i = choose|i: int| 0 <= i < before.len() && before[i] == x;
                            assert(out@[i] == x);
                        }
                        if x == id {
                            assert(out@[before.len() as int] == x);
                        }
                    }
                    assert(!before.contains(id));
                }
            }
            id += 1;
        }
        out
    }

    /// Takes over a list of new pages, which form a tree of their own, and makes
    /// that tree this one. The pages of the old tree stay where they are.
    pub(crate) fn install_pages(
        &mut self,
        pages: Vec<BTreePage>,
        root: PageId,
        Ghost(sh): Ghost<Shape>,
    )
        requires
            old(self).wf(),
            list_ok(old(self).next_id(), pages@),
            tree_ok(list_pages(old(self).next_id(), pages@), sh),
            sh.root == root,
        ensures
            final(self).wf(),
            final(self)@ == tree_map(list_pages(old(self).next_id(), pages@), sh.nodes),
            final(self).root() == root,
            final(self).next_id() == old(self).next_id() + pages@.len(),
            final(self).leaf_ids() == sh.leaves,
            forall|x: PageId|
                old(self).next_id() <= x < final(self).next_id() ==> same_page(
                    #[trigger] final(self).store()[x],
                    pages@[x - old(self).next_id()]@,
                ),
            final(self).spec_config() == old(self).spec_config(),
            final(self).latch_entry() == old(self).latch_entry(),
    {
        let base: PageId = self.next_page_id;
        let ghost all = pages@;
        let mut pages = pages;
        self.next_page_id = base + pages.len() as u64;
        let ghost limit = self.next_page_id;
        while pages.len() > 0
            invariant
                list_ok(base, all),
                pages@ == all.take(pages@.len() as int),
                pages@.len() <= all.len(),
                limit == base + all.len(),
                self.pages_ok(),
                self.next_page_id == limit,
                self.root_page_id == old(self).root_page_id,
                self.config == old(self).config,
                self.latch_mgr == old(self).latch_mgr,
                self.dirty is None,
                forall|x: u64|
                    base + pages@.len() <= x < base + all.len() ==> {
                        &&& #[trigger] self.store().contains_key(x)
                        &&& same_page(self.store()[x], all[x - base]@)
                    },
            decreases pages@.len(),
        {
            let ghost n = pages@.len();
            let id: PageId = base + (pages.len() - 1) as u64;
            let ghost list = pages@;
            let last: usize = pages.len() - 1;
            let page = pages.remove(last);
            let ghost before = self.store();
            let ghost stamped = PageState { lsn: self.next_lsn, ..page@ };
            proof {
                assert(page == all[n - 1]);
                assert(list.remove(last as int) =~= all.take(n - 1));
            }
            self.put_page_with_lsn(id, page);
            proof {
                assert(self.store() == before.insert(id, stamped));
                assert forall|x: u64| base + pages@.len() <= x < base + all.len() implies {
                    &&& #[trigger] self.store().contains_key(x)
                    &&& same_page(self.store()[x], all[x - base]@)
                } by {
                    if x != id {
                        assert(before.contains_key(x));
                    }
                }
            }
        }
        let ghost loaded = self.store();
        self.root_page_id = root;
        self.shape = Ghost(sh);
        proof {
            let st = list_pages(base, all);
            assert forall|x: u64| #[trigger] sh.nodes.contains_key(x) implies self.store().contains_key(
                x,
            ) && same_page(self.store()[x], st[x]) by {
                assert(node_ok(st, sh.nodes, x));
                assert(loaded.contains_key(x));
                assert(self.store() == loaded);
            }
            lemma_tree_transfer(st, self.store(), sh);
            assert forall|x: PageId| base <= x < self.next_id() implies same_page(
                #[trigger] self.store()[x],
                all[x - base]@,
            ) by {
                assert(self.store() == loaded);
                assert(loaded.contains_key(x));
            }
        }
    }
}

// ---------------------------------------------------------------------------
// Defragmentation
// ---------------------------------------------------------------------------

/// Is more than `percent` of the page's capacity free?
pub open spec fn is_sparse(recs: Seq<Seq<u8>>, percent: u32) -> bool {
    (PAGE_CAPACITY - record_bytes(recs)) * 100 > percent * PAGE_CAPACITY
}

/// How many of the first `n` pages are sparse?
pub open spec fn sparse_count(st: Pages, ids: Seq<PageId>, percent: u32, n: int) -> nat
    decreases n,
{
    if n <= 0 {
        0
    } else {
        sparse_count(st, ids, percent, n - 1) + (if is_sparse(st[ids[n - 1]].records, percent) {
            1nat
        } else {
            0nat
        })
    }
}

/// The log sequence number after `n` writes.
pub open spec fn lsn_after(lsn: u64, n: nat) -> u64
    decreases n,
{
    if n == 0 {
        lsn
    } else {
        next_lsn(lsn_after(lsn, (n - 1) as nat))
    }
}

/// The pages after those of the first `n` leaves that are sparse were written back,
/// each under a log sequence number of its own, counted from `lsn`.
pub open spec fn rewritten_leaves(
    st: Pages,
    ids: Seq<PageId>,
    percent: u32,
    lsn: u64,
    n: int,
) -> Pages
    decreases n,
{
    if n <= 0 {
        st
    } else {
        let before = rewritten_leaves(st, ids, percent, lsn, n - 1);
        let id = ids[n - 1];
        if is_sparse(st[id].records, percent) {
            before.insert(
                id,
                PageState {
                    lsn: lsn_after(lsn, sparse_count(st, ids, percent, n - 1)),
                    ..st[id]
                },
            )
        } else {
            before
        }
    }
}

/// A page is sparse if more than the given part of its 8096 bytes is free.
pub proof fn law_sparse(recs: Seq<Seq<u8>>, percent: u32)
    ensures
        is_sparse(recs, percent) <==> (8096 - record_bytes(recs)) * 100 > percent * 8096,
{
}

/// The number of sparse pages is that of the places in the list with such a page.
pub proof fn law_defrag_counts(st: Pages, ids: Seq<PageId>, percent: u32)
    ensures
        sparse_count(st, ids, percent, ids.len() as int) == ids.filter(
            |id: PageId| (8096 - record_bytes(st[id].records)) * 100 > percent * 8096,
        ).len(),
    decreases ids.len(),
{
    let sparse = |id: PageId| (8096 - record_bytes(st[id].records)) * 100 > percent * 8096;
    reveal(Seq::filter);
    if ids.len() > 0 {
        let rest = ids.drop_last();
        law_defrag_counts(st, rest, percent);
        lemma_count_front(st, rest, ids, percent, rest.len() as int);
        assert(ids.filter(sparse).len() == rest.filter(sparse).len() + (if sparse(ids.last()) {
            1nat
        } else {
            0nat
        }));
    }
}

proof fn lemma_count_front(st: Pages, a: Seq<PageId>, b: Seq<PageId>, percent: u32, n: int)
    requires
        n <= a.len() <= b.len(),
        forall|i: int| 0 <= i < a.len() ==> #[trigger] a[i] == b[i],
    ensures
        sparse_count(st, a, percent, n) == sparse_count(st, b, percent, n),
    decreases n,
{
    if n > 0 {
        lemma_count_front(st, a, b, percent, n - 1);
        assert(a[n - 1] == b[n - 1]);
    }
}

/// Writing sparse leaves back changes their log sequence numbers, and nothing else: what is
/// on a page stays, and a page that is no sparse leaf of the list stays as it is.
pub proof fn law_defrag_pages(st: Pages, ids: Seq<PageId>, percent: u32, lsn: u64, n: int, id: PageId)
    requires
        0 <= n <= ids.len(),
        forall|i: int| 0 <= i < ids.len() ==> st.contains_key(#[trigger] ids[i]),
    ensures
        ({
            let after = rewritten_leaves(st, ids, percent, lsn, n);
            &&& after.contains_key(id) == st.contains_key(id)
            &&& st.contains_key(id) ==> after[id] == (PageState { lsn: after[id].lsn, ..st[id] })
            &&& !(exists|i: int|
                0 <= i < n && #[trigger] ids[i] == id && (8096 - record_bytes(st[id].records)) * 100
                    > percent * 8096) ==> after[id] == st[id]
        }),
    decreases n,
{
    if n > 0 {
        law_defrag_pages(st, ids, percent, lsn, n - 1, id);
        assert(st.contains_key(ids[n - 1]));
        if exists|i: int|
            0 <= i < n - 1 && #[trigger] ids[i] == id && (8096 - record_bytes(st[id].records)) * 100
                > percent * 8096 {
            let i = choose|i: int|
                0 <= i < n - 1 && #[trigger] ids[i] == id && (8096 - record_bytes(st[id].records))
                    * 100 > percent * 8096;
            assert(0 <= i < n && ids[i] == id);
        }
    }
}

impl BPlusTree {
    /// Rewrites, without dead space, every leaf of which more than `percent` is
    /// free. Returns how many leaves were rewritten.
    pub(crate) fn rewrite_sparse_leaves(&mut self, percent: u32) -> (rewritten: usize)
        requires
            old(self).wf(),
        ensures
            final(self).wf(),
            final(self)@ == old(self)@,
            final(self).leaf_ids() == old(self).leaf_ids(),
            rewritten as nat == sparse_count(
                old(self).store(),
                old(self).leaf_ids(),
                percent,
                old(self).leaf_ids().len() as int,
            ),
            final(self).store() == rewritten_leaves(
                old(self).store(),
                old(self).leaf_ids(),
                percent,
                old(self).lsn(),
                old(self).leaf_ids().len() as int,
            ),
            final(self).lsn() == lsn_after(old(self).lsn(), rewritten as nat),
            final(self).root() == old(self).root(),
    {
        broadcast use vstd::std_specs::hash::group_hash_axioms;

        let ghost st0 = self.store();
        let ghost sh = self.shape@;
        let empty: Vec<u8> = Vec::new();
        let mut id: PageId = self.find_leaf(empty.as_slice());
        let mut rewritten: usize = 0;
        let total: usize = self.pages.len();
        let ghost mut j: int = 0;
        proof {
            assert(chain_ok(st0, sh, 0));
            assert(in_fence(empty@, sh.nodes[sh.leaves[0]])) by {
                assert(lex_le(Seq::<u8>::empty(), empty@));
                assert(node_ok(st0, sh.nodes, sh.leaves[0]));
                assert(empty@ =~= sh.nodes[sh.leaves[0]].lo);
            }
            lemma_leaf_unique_id(st0, sh, id, sh.leaves[0], empty@);
            self.lemma_leaf_count();
        }
        while id != 0
            invariant
                self.pages_ok(),
                self.dirty is None,
                self.latch_entry().free(),
                sh == self.shape@,
                sh == old(self).shape@,
                st0 == old(self).store(),
                tree_ok(st0, sh),
                tree_ok(self.store(), sh),
                0 <= j <= sh.leaves.len(),
                id == (if j < sh.leaves.len() {
                    sh.leaves[j]
                } else {
                    0
                }),
                sh.leaves.len() <= usize::MAX,
                rewritten as nat == sparse_count(st0, sh.leaves, percent, j),
                rewritten <= j,
                self.store() == rewritten_leaves(st0, sh.leaves, percent, old(self).next_lsn, j),
                self.next_lsn == lsn_after(old(self).next_lsn, rewritten as nat),
                self.root_page_id == old(self).root_page_id,
                forall|x: u64| #[trigger]
                    sh.nodes.contains_key(x) ==> self.store().contains_key(x) && same_page(
                        self.store()[x],
                        st0[x],
                    ),
            decreases sh.leaves.len() - j,
        {
            let ghost st = self.store();
            proof {
                assert(chain_ok(st, sh, j));
                assert(chain_ok(st0, sh, j));
                assert(node_ok(st, sh.nodes, id));
                if j + 1 < sh.leaves.len() {
                    assert(chain_ok(st, sh, j + 1));
                }
            }
            let mut page = self.page_copy(id);
            let next: PageId = page.btree_header().sibling_next;
            if (page.free_space() as u128) * 100 > (percent as u128) * (PAGE_CAPACITY as u128) {
                page.compact();
                self.put_page_with_lsn(id, page);
                proof {
                    lemma_tree_transfer(st0, self.store(), sh);
                }
                rewritten += 1;
            }
            proof {
                j = j + 1;
            }
            id = next;
        }
        proof {
            if j < sh.leaves.len() {
                assert(chain_ok(st0, sh, j));
            }
            lemma_tree_transfer(st0, self.store(), sh);
        }
        rewritten
    }

    /// The leaves are distinct pages of the store.
    proof fn lemma_leaf_count(&self)
        requires
            self.wf(),
            self.pages@.dom().finite(),
        ensures
            self.shape@.leaves.len() <= self.pages@.dom().len(),
    {
        let sh = self.shape@;
        let leaves = sh.leaves;
        assert(leaves.no_duplicates()) by {
            assert forall|a: int, b: int|
                0 <= a < leaves.len() && 0 <= b < leaves.len() && a != b implies leaves[a]
                != leaves[b] by {
                if leaves[a] == leaves[b] {
                    lemma_chain_distinct(self.store(), sh, a, b);
                }
            }
        }
        leaves.unique_seq_to_set();
        assert forall|x: u64| leaves.to_set().contains(x) implies self.pages@.dom().contains(x) by {
            let j = choose|j: int| 0 <= j < leaves.len() && leaves[j] == x;
            assert(chain_ok(self.store(), sh, j));
        }
        vstd::set_lib::lemma_len_subset(leaves.to_set(), self.pages@.dom());
    }
}

} // verus!
