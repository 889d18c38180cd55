//! What insertions, borrows and merges do to the pages of a tree.
//!
//! Everything here speaks of the layout of a tree: its pages, leaving aside the
//! log sequence numbers, which every write changes.

use vstd::prelude::*;

use crate::index::btree::delete::lends;
use crate::index::btree::delete::underfull;
use crate::index::btree::overfull;
use crate::index::btree::path_target;
use crate::index::btree::BPlusTree;
use crate::index::btree::BPlusTreeConfig;
use crate::index::entry::kv_key;
use crate::index::entry::kv_record;
use crate::index::entry::law_branch_roundtrip;
use crate::index::node::branch_fits;
use crate::index::node::branch_page;
use crate::index::node::branch_records;
use crate::index::node::is_child_slot;
use crate::index::node::is_lower_bound;
use crate::index::node::leaf_page;
use crate::index::node::lemma_record_bytes_lens;
use crate::index::page::lemma_record_bytes_remove;
use crate::index::page::record_bytes;
use crate::index::page::records_fit;
use crate::index::page::PageState;
use crate::index::page::PAGE_CAPACITY;
use crate::index::shape::children;
use crate::index::shape::seps;
use crate::index::shape::Key;
use crate::index::shape::Pages;
use crate::storage::page::PageId;

verus! {

/// A page without its log sequence number.
pub open spec fn bare(p: PageState) -> PageState {
    PageState { lsn: 0, ..p }
}

/// Pages without their log sequence numbers.
pub open spec fn layout_of(st: Pages) -> Pages {
    Map::new(|x: u64| st.contains_key(x), |x: u64| bare(st[x]))
}

impl BPlusTree {
    /// The pages, leaving aside their log sequence numbers.
    pub open spec fn layout(&self) -> Pages {
        layout_of(self.store())
    }
}

/// The pages of a tree, leaving aside their log sequence numbers, its root and the id
/// of its next new page.
#[verifier::ext_equal]
pub struct Outline {
    pub pages: Pages,
    pub root: PageId,
    pub next: PageId,
}

impl BPlusTree {
    /// The pages, leaving aside their log sequence numbers, the root and the id of the
    /// next new page.
    pub open spec fn outline(&self) -> Outline {
        Outline { pages: self.layout(), root: self.root(), next: self.next_id() }
    }
}

/// The log sequence number says nothing of separators and children.
pub proof fn lemma_bare(p: PageState)
    ensures
        seps(bare(p)) == seps(p),
        children(bare(p)) == children(p),
{
    assert(seps(bare(p)) =~= seps(p));
    assert(children(bare(p)) =~= children(p));
}

/// The layout after a page was written.
pub proof fn lemma_layout_insert(st: Pages, id: u64, p: PageState)
    ensures
        layout_of(st.insert(id, p)) == layout_of(st).insert(id, bare(p)),
{
    assert(layout_of(st.insert(id, p)) =~= layout_of(st).insert(id, bare(p)));
}

/// The layout after a page was dropped.
pub proof fn lemma_layout_remove(st: Pages, id: u64)
    ensures
        layout_of(st.remove(id)) == layout_of(st).remove(id),
{
    assert(layout_of(st.remove(id)) =~= layout_of(st).remove(id));
}

// ---------------------------------------------------------------------------
// Borrows
// ---------------------------------------------------------------------------

/// The records of children `i` and `i + 1` of branch `p`.
pub open spec fn joint_of(lay: Pages, p: PageId, i: int) -> Seq<Seq<u8>> {
    lay[children(lay[p])[i]].records + lay[children(lay[p])[i + 1]].records
}

/// The separators of the branches `i` and `i + 1` below branch `p`, with the one
/// between them.
pub open spec fn joint_seps(lay: Pages, p: PageId, i: int) -> Seq<Key> {
    seps(lay[children(lay[p])[i]]) + seq![seps(lay[p])[i]] + seps(lay[children(lay[p])[i + 1]])
}

/// The children of the branches `i` and `i + 1` below branch `p`.
pub open spec fn joint_children(lay: Pages, p: PageId, i: int) -> Seq<u64> {
    children(lay[children(lay[p])[i]]) + children(lay[children(lay[p])[i + 1]])
}

/// Branch `p` with another separator `i`.
pub open spec fn with_separator(lay: Pages, p: PageId, i: int, sep: Key) -> PageState {
    branch_page(p, lay[p].level, seps(lay[p]).update(i, sep), children(lay[p]))
}

/// Can leaves `i` and `i + 1` of branch `p` be cut anew, at record `m` of both?
pub open spec fn leaves_can_shift(lay: Pages, p: PageId, i: int, m: int) -> bool {
    let all = joint_of(lay, p, i);
    &&& 0 < m < all.len()
    &&& records_fit(all.take(m))
    &&& records_fit(all.skip(m))
    &&& branch_fits(seps(lay[p]).update(i, kv_key(all[m])), children(lay[p]))
}

/// The layout after leaves `i` and `i + 1` of branch `p` were cut anew: the first
/// `m` records are on the left, the others on the right, and the key of the first
/// of these is the separator.
pub open spec fn leaves_shifted(lay: Pages, p: PageId, i: int, m: int) -> Pages {
    let all = joint_of(lay, p, i);
    let l = children(lay[p])[i];
    let r = children(lay[p])[i + 1];
    lay.insert(l, leaf_page(l, all.take(m), lay[l].prev, lay[l].next)).insert(
        r,
        leaf_page(r, all.skip(m), lay[r].prev, lay[r].next),
    ).insert(p, with_separator(lay, p, i, kv_key(all[m])))
}

/// Can branches `i` and `i + 1` below branch `p` be cut anew, at separator `m` of
/// both?
pub open spec fn branches_can_shift(lay: Pages, p: PageId, i: int, m: int) -> bool {
    let u = joint_seps(lay, p, i);
    let e = joint_children(lay, p, i);
    &&& 0 <= m < u.len()
    &&& branch_fits(u.take(m), e.take(m + 1))
    &&& branch_fits(u.skip(m + 1), e.skip(m + 1))
    &&& branch_fits(seps(lay[p]).update(i, u[m]), children(lay[p]))
}

/// The layout after branches `i` and `i + 1` below branch `p` were cut anew:
/// separator `m` goes up, and what stands before it and behind it goes to the left
/// and to the right.
pub open spec fn branches_shifted(lay: Pages, p: PageId, i: int, m: int) -> Pages {
    let u = joint_seps(lay, p, i);
    let e = joint_children(lay, p, i);
    let l = children(lay[p])[i];
    let r = children(lay[p])[i + 1];
    lay.insert(l, branch_page(l, lay[l].level, u.take(m), e.take(m + 1))).insert(
        r,
        branch_page(r, lay[l].level, u.skip(m + 1), e.skip(m + 1)),
    ).insert(p, with_separator(lay, p, i, u[m]))
}

/// Can children `i` and `i + 1` of branch `p` be cut anew at `m`?
pub open spec fn can_shift(lay: Pages, p: PageId, i: int, m: int) -> bool {
    if lay[children(lay[p])[i]].is_leaf() {
        leaves_can_shift(lay, p, i, m)
    } else {
        branches_can_shift(lay, p, i, m)
    }
}

/// The layout after children `i` and `i + 1` of branch `p` were cut anew at `m`.
pub open spec fn shifted(lay: Pages, p: PageId, i: int, m: int) -> Pages {
    if lay[children(lay[p])[i]].is_leaf() {
        leaves_shifted(lay, p, i, m)
    } else {
        branches_shifted(lay, p, i, m)
    }
}

// ---------------------------------------------------------------------------
// Merges
// ---------------------------------------------------------------------------

/// Branch `p` without separator `i` and child `i + 1`.
pub open spec fn without_child(lay: Pages, p: PageId, i: int) -> PageState {
    branch_page(p, lay[p].level, seps(lay[p]).remove(i), children(lay[p]).remove(i + 1))
}

/// The layout after the back link of a page was set, if it is a leaf.
pub open spec fn prev_set(lay: Pages, id: PageId, prev: PageId) -> Pages {
    if lay.contains_key(id) && lay[id].is_leaf() {
        lay.insert(id, PageState { prev, ..lay[id] })
    } else {
        lay
    }
}

/// The layout after leaf `i + 1` of branch `p` was merged into leaf `i`.
pub open spec fn leaves_merged(lay: Pages, p: PageId, i: int) -> Pages {
    let l = children(lay[p])[i];
    let r = children(lay[p])[i + 1];
    let next = lay[r].next;
    let m = lay.insert(l, leaf_page(l, joint_of(lay, p, i), lay[l].prev, next)).insert(
        p,
        without_child(lay, p, i),
    ).remove(r);
    if next != 0 {
        prev_set(m, next, l)
    } else {
        m
    }
}

/// The layout after branch `i + 1` below branch `p` was merged into branch `i`.
pub open spec fn branches_merged(lay: Pages, p: PageId, i: int) -> Pages {
    let l = children(lay[p])[i];
    let r = children(lay[p])[i + 1];
    lay.insert(
        l,
        branch_page(l, lay[l].level, joint_seps(lay, p, i), joint_children(lay, p, i)),
    ).insert(p, without_child(lay, p, i)).remove(r)
}

/// Does what children `i` and `i + 1` of branch `p` hold fit on one page?
pub open spec fn can_merge(lay: Pages, p: PageId, i: int) -> bool {
    if lay[children(lay[p])[i]].is_leaf() {
        records_fit(joint_of(lay, p, i))
    } else {
        branch_fits(joint_seps(lay, p, i), joint_children(lay, p, i))
    }
}

/// The layout after child `i + 1` of branch `p` was merged into child `i`.
pub open spec fn merged(lay: Pages, p: PageId, i: int) -> Pages {
    if lay[children(lay[p])[i]].is_leaf() {
        leaves_merged(lay, p, i)
    } else {
        branches_merged(lay, p, i)
    }
}

/// A branch that fits on a page still does without one of its separators.
pub proof fn lemma_without_fits(p: PageState, i: int, c: Seq<u64>)
    requires
        records_fit(p.records),
        forall|t: int| 0 <= t < p.records.len() ==> (#[trigger] p.records[t]).len() >= 8,
        0 <= i < p.records.len(),
        c.len() == p.records.len(),
    ensures
        branch_fits(seps(p).remove(i), c),
{
    let s = seps(p).remove(i);
    let q = p.records.remove(i);
    lemma_record_bytes_remove(p.records, i);
    assert forall|t: int| 0 <= t < s.len() implies (#[trigger] branch_records(s, c)[t]).len()
        == q[t].len() by {
        law_branch_roundtrip(s[t], c[t]);
        assert(q[t] == p.records[if t < i { t } else { t + 1 }]);
    }
    lemma_record_bytes_lens(branch_records(s, c), q);
}

// ---------------------------------------------------------------------------
// Rebalancing
// ---------------------------------------------------------------------------

/// The layout and the root after the node at the end of `path[..depth]`, which is
/// too empty, was seen to.
///
/// It borrows an entry from its left sibling or else from its right one, if that
/// one can spare it. Otherwise it is merged with its left sibling, or, as the first
/// child, with its right one. After a merge a root with one child gives way to that
/// child, and a parent that became too empty is seen to in turn. A node that can do
/// none of this stays as it is.
pub open spec fn rebalanced(
    config: BPlusTreeConfig,
    lay: Pages,
    root: PageId,
    path: Seq<(PageId, usize)>,
    depth: int,
) -> (Pages, PageId)
    decreases depth,
{
    if depth <= 0 {
        (lay, root)
    } else {
        let p = path[depth - 1].0;
        let at = path[depth - 1].1 as int;
        let c = children(lay[p]);
        let last = c.len() - 1;
        let left_end = lay[c[at - 1]].records.len() - 1;
        let right_end = lay[c[at]].records.len() as int + 1;
        let i = if at > 0 {
            at - 1
        } else {
            at
        };
        if at > 0 && lends(config, lay[c[at - 1]].records) && can_shift(lay, p, at - 1, left_end) {
            (shifted(lay, p, at - 1, left_end), root)
        } else if at < last && lends(config, lay[c[at + 1]].records) && can_shift(
            lay,
            p,
            at,
            right_end,
        ) {
            (shifted(lay, p, at, right_end), root)
        } else if last == 0 || !can_merge(lay, p, i) {
            (lay, root)
        } else {
            let after = merged(lay, p, i);
            if depth == 1 {
                if last == 1 {
                    (after.remove(p), children(after[p])[0])
                } else {
                    (after, root)
                }
            } else if underfull(config, after[p].records) {
                rebalanced(config, after, root, path, depth - 1)
            } else {
                (after, root)
            }
        }
    }
}

// ---------------------------------------------------------------------------
// Ways
// ---------------------------------------------------------------------------

/// Does step `t` of a path go on with the child that is responsible for `key`?
pub open spec fn leads_on(
    lay: Pages,
    key: Key,
    path: Seq<(PageId, usize)>,
    leaf: PageId,
    t: int,
) -> bool {
    let id = path[t].0;
    &&& lay.contains_key(id)
    &&& !lay[id].is_leaf()
    &&& is_child_slot(seps(lay[id]), key, path[t].1 as int)
    &&& children(lay[id])[path[t].1 as int] == path_target(path, path.len() as int, leaf, t + 1)
}

/// Is `path` the way of `key` from the root to `leaf`?
pub open spec fn leads_to(
    lay: Pages,
    root: PageId,
    key: Key,
    path: Seq<(PageId, usize)>,
    leaf: PageId,
) -> bool {
    &&& lay.contains_key(leaf)
    &&& lay[leaf].is_leaf()
    &&& path_target(path, path.len() as int, leaf, 0) == root
    &&& forall|t: int| 0 <= t < path.len() ==> #[trigger] leads_on(lay, key, path, leaf, t)
}

// ---------------------------------------------------------------------------
// Insertion
// ---------------------------------------------------------------------------

/// Does the way of `key` lead to slot `slot` of `leaf`, and is that its place?
pub open spec fn lands(
    lay: Pages,
    root: PageId,
    key: Key,
    path: Seq<(PageId, usize)>,
    leaf: PageId,
    slot: int,
) -> bool {
    &&& leads_to(lay, root, key, path, leaf)
    &&& is_lower_bound(lay[leaf].records, key, slot)
}

/// The records of a leaf with a pair at its place `slot`, instead of the record with
/// its key, if there is one.
pub open spec fn with_pair(recs: Seq<Seq<u8>>, key: Key, value: Seq<u8>, slot: int) -> Seq<Seq<u8>> {
    let others = if slot < recs.len() && kv_key(recs[slot]) == key {
        recs.remove(slot)
    } else {
        recs
    };
    others.insert(slot, kv_record(key, value))
}

/// Does a leaf with these records stay one leaf?
pub open spec fn stays_whole(config: BPlusTreeConfig, recs: Seq<Seq<u8>>) -> bool {
    records_fit(recs) && !overfull(config, recs)
}

/// Can the records be cut at `m` into two pages?
pub open spec fn cuts_at(all: Seq<Seq<u8>>, m: int) -> bool {
    &&& 0 < m < all.len()
    &&& records_fit(all.take(m))
    &&& records_fit(all.skip(m))
}

/// The first place from `m` on where the records can be cut, or 0.
pub open spec fn first_cut(all: Seq<Seq<u8>>, m: int) -> int
    decreases all.len() - m,
{
    if m >= all.len() {
        0
    } else if cuts_at(all, m) {
        m
    } else {
        first_cut(all, m + 1)
    }
}

/// Where the records of a leaf are cut: in the middle, or else at the first place where
/// both parts fit on a page. It is 0 where there is none.
pub open spec fn leaf_cut(all: Seq<Seq<u8>>) -> int {
    let mid = all.len() as int / 2;
    if cuts_at(all, mid) {
        mid
    } else {
        first_cut(all, 1)
    }
}

/// Does a branch stay one branch with these separators and children?
pub open spec fn branch_stays_whole(config: BPlusTreeConfig, s: Seq<Key>, c: Seq<u64>) -> bool {
    &&& branch_fits(s, c)
    &&& s.len() > 2 ==> record_bytes(branch_records(s, c)) * 100 <= config.split_percent
        * PAGE_CAPACITY
}

/// The separator of a branch that moves up when the branch is split: the middle one,
/// or, where a part would not fit on a page, the one that came in last.
pub open spec fn promoted(s: Seq<Key>, c: Seq<u64>, at: int) -> int {
    let mid = s.len() as int / 2;
    if branch_fits(s.take(mid), c.take(mid + 1)) && branch_fits(s.skip(mid + 1), c.skip(mid + 1)) {
        mid
    } else {
        at
    }
}

/// The outline after branch `p` was cut around separator `m`: what stands behind it
/// goes to a new page.
pub open spec fn branch_halved(
    o: Outline,
    p: PageId,
    level: u8,
    s: Seq<Key>,
    c: Seq<u64>,
    m: int,
) -> Outline {
    Outline {
        pages: o.pages.insert(p, branch_page(p, level, s.take(m), c.take(m + 1))).insert(
            o.next,
            branch_page(o.next, level, s.skip(m + 1), c.skip(m + 1)),
        ),
        next: (o.next + 1) as u64,
        ..o
    }
}

/// The outline after the parent of a node that was split learned of it. `path[..depth]`
/// leads to `left`, the node, and `right` is the new one behind it.
///
/// The parent gets the separator and the new child. If it does not stay whole, it is
/// split in turn. Above the root a new root is made.
pub open spec fn parent_told(
    config: BPlusTreeConfig,
    o: Outline,
    path: Seq<(PageId, usize)>,
    depth: int,
    left: PageId,
    right: PageId,
    sep: Key,
) -> Outline
    decreases depth,
{
    if depth <= 0 {
        let level = if o.pages[left].level == u8::MAX {
            u8::MAX
        } else {
            (o.pages[left].level + 1) as u8
        };
        Outline {
            pages: o.pages.insert(
                o.next,
                branch_page(o.next, level, seq![sep], seq![left, right]),
            ),
            root: o.next,
            next: (o.next + 1) as u64,
        }
    } else {
        let p = path[depth - 1].0;
        let at = path[depth - 1].1 as int;
        let level = o.pages[p].level;
        let s = seps(o.pages[p]).insert(at, sep);
        let c = children(o.pages[p]).insert(at + 1, right);
        if branch_stays_whole(config, s, c) {
            Outline { pages: o.pages.insert(p, branch_page(p, level, s, c)), ..o }
        } else {
            let m = promoted(s, c, at);
            parent_told(
                config,
                branch_halved(o, p, level, s, c, m),
                path,
                depth - 1,
                p,
                o.next,
                s[m],
            )
        }
    }
}

/// The outline after a leaf at the end of a path was split: records `..m` stay, the
/// others go to a new leaf behind it.
pub open spec fn leaf_split(
    config: BPlusTreeConfig,
    o: Outline,
    path: Seq<(PageId, usize)>,
    leaf: PageId,
    recs: Seq<Seq<u8>>,
    m: int,
) -> Outline {
    let halved = Outline {
        pages: o.pages.insert(
            leaf,
            leaf_page(leaf, recs.take(m), o.pages[leaf].prev, o.next),
        ).insert(o.next, leaf_page(o.next, recs.skip(m), leaf, o.pages[leaf].next)),
        next: (o.next + 1) as u64,
        ..o
    };
    parent_told(config, halved, path, path.len() as int, leaf, o.next, kv_key(recs[m]))
}

/// Is there no way to split a leaf with these records, one more than it holds, in two?
/// That one is too large to stand between others.
pub open spec fn cannot_split(config: BPlusTreeConfig, recs: Seq<Seq<u8>>) -> bool {
    !stays_whole(config, recs) && leaf_cut(recs) == 0
}

/// The outline after a pair came to its place: a leaf that stays whole with it takes it
/// in, and nothing else changes. Another one is split, around the pair if need be,
/// which is then left out.
pub open spec fn placed(
    config: BPlusTreeConfig,
    o: Outline,
    key: Key,
    value: Seq<u8>,
    path: Seq<(PageId, usize)>,
    leaf: PageId,
    slot: int,
) -> Outline {
    let recs = with_pair(o.pages[leaf].records, key, value, slot);
    if stays_whole(config, recs) {
        Outline {
            pages: o.pages.insert(leaf, PageState { records: recs, ..o.pages[leaf] }),
            ..o
        }
    } else if cannot_split(config, recs) {
        leaf_split(config, o, path, leaf, recs.remove(slot), slot)
    } else {
        leaf_split(config, o, path, leaf, recs, leaf_cut(recs))
    }
}

/// Is this what a pair's coming to its place makes of a tree? `done` tells whether it
/// was stored there.
pub open spec fn is_placed(
    config: BPlusTreeConfig,
    before: Outline,
    after: Outline,
    key: Key,
    value: Seq<u8>,
    done: bool,
) -> bool {
    exists|path: Seq<(PageId, usize)>, leaf: PageId, slot: int| #[trigger]
        lands(before.pages, before.root, key, path, leaf, slot) && after == placed(
            config,
            before,
            key,
            value,
            path,
            leaf,
            slot,
        ) && done == !cannot_split(
            config,
            with_pair(before.pages[leaf].records, key, value, slot),
        )
}

/// Is this what storing a pair makes of a tree? A pair that was left out at first comes
/// to its place once more.
pub open spec fn is_stored(
    config: BPlusTreeConfig,
    before: Outline,
    after: Outline,
    key: Key,
    value: Seq<u8>,
) -> bool {
    ||| is_placed(config, before, after, key, value, true)
    ||| exists|mid: Outline| #[trigger]
        is_placed(config, before, mid, key, value, false) && is_placed(
            config,
            mid,
            after,
            key,
            value,
            true,
        )
}

// ---------------------------------------------------------------------------
// Deletion
// ---------------------------------------------------------------------------

/// Does the way of `key` lead to record `slot` of `leaf`, and does that hold it?
pub open spec fn finds(
    lay: Pages,
    root: PageId,
    key: Key,
    path: Seq<(PageId, usize)>,
    leaf: PageId,
    slot: int,
) -> bool {
    &&& leads_to(lay, root, key, path, leaf)
    &&& 0 <= slot < lay[leaf].records.len()
    &&& kv_key(lay[leaf].records[slot]) == key
}

/// The layout without record `slot` of a leaf.
pub open spec fn record_removed(lay: Pages, leaf: PageId, slot: int) -> Pages {
    lay.insert(leaf, PageState { records: lay[leaf].records.remove(slot), ..lay[leaf] })
}

/// The layout and the root after a record at the end of a path was deleted: a leaf
/// that became too empty is seen to.
pub open spec fn deleted(
    config: BPlusTreeConfig,
    lay: Pages,
    root: PageId,
    path: Seq<(PageId, usize)>,
    leaf: PageId,
    slot: int,
) -> (Pages, PageId) {
    let after = record_removed(lay, leaf, slot);
    if underfull(config, after[leaf].records) {
        rebalanced(config, after, root, path, path.len() as int)
    } else {
        (after, root)
    }
}

} // verus!
