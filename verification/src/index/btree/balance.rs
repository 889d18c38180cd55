//! When a page of a tree is split, lends to a neighbour or is merged with one, and what
//! each of these does.

use vstd::prelude::*;

use crate::bytes::lex_le;
use crate::bytes::lex_lt;
use crate::index::btree::delete::lends;
use crate::index::btree::delete::longest;
use crate::index::btree::delete::payload;
use crate::index::btree::delete::underfull;
use crate::index::btree::delete::usable_area;
use crate::index::btree::entry_fits;
use crate::index::btree::layout::branch_stays_whole;
use crate::index::btree::layout::can_merge;
use crate::index::btree::layout::can_shift;
use crate::index::btree::layout::cannot_split;
use crate::index::btree::layout::deleted;
use crate::index::btree::layout::first_cut;
use crate::index::btree::layout::is_placed;
use crate::index::btree::layout::is_stored;
use crate::index::btree::layout::joint_children;
use crate::index::btree::layout::joint_seps;
use crate::index::btree::layout::lands;
use crate::index::btree::layout::leads_on;
use crate::index::btree::layout::leaf_cut;
use crate::index::btree::layout::placed;
use crate::index::btree::layout::promoted;
use crate::index::btree::layout::rebalanced;
use crate::index::btree::layout::stays_whole;
use crate::index::btree::layout::with_pair;
use crate::index::btree::layout::Outline;
use crate::index::btree::overfull;
use crate::index::btree::BPlusTreeConfig;
use crate::index::entry::kv_key;
use crate::index::entry::kv_record;
use crate::index::entry::law_branch_roundtrip;
use crate::index::node::branch_page;
use crate::index::node::branch_records;
use crate::index::page::lemma_record_bytes_push;
use crate::index::page::record_bytes;
use crate::index::shape::children;
use crate::index::shape::seps;
use crate::index::shape::Key;
use crate::index::shape::Pages;
use crate::storage::page::PageId;

verus! {

/// The space that records take: each its bytes and four for its slot.
pub proof fn law_record_space(recs: Seq<Seq<u8>>, rec: Seq<u8>)
    ensures
        record_bytes(Seq::empty()) == 0,
        record_bytes(recs.push(rec)) == record_bytes(recs) + rec.len() + 4,
        payload(Seq::empty()) == 0,
        payload(recs.push(rec)) == payload(recs) + rec.len(),
{
    lemma_record_bytes_push(recs, rec);
}

/// A leaf is split once its records take more than the given part of the 8096 bytes of a
/// page, unless there is one record only; and so is a branch with more than two separators.
pub proof fn law_split_threshold(
    config: BPlusTreeConfig,
    recs: Seq<Seq<u8>>,
    s: Seq<Key>,
    c: Seq<u64>,
)
    ensures
        stays_whole(config, recs) <==> record_bytes(recs) <= 8096 && (recs.len() <= 1
            || record_bytes(recs) * 100 <= config.split_percent * 8096),
        branch_stays_whole(config, s, c) <==> record_bytes(branch_records(s, c)) <= 8096 && (s.len()
            <= 2 || record_bytes(branch_records(s, c)) * 100 <= config.split_percent * 8096),
        overfull(config, recs) <==> recs.len() > 1 && record_bytes(recs) * 100
            > config.split_percent * 8096,
{
}

/// What can be stored: a pair that takes no more than a page as a record of a leaf, and
/// whose key takes no more than a page as a record of a branch.
pub proof fn law_entry_limit(key: Seq<u8>, value: Seq<u8>)
    ensures
        entry_fits(key, value) <==> key.len() + value.len() <= 8090 && key.len() <= 8084,
{
}

/// The longest record is as long as each, and as one of them.
pub proof fn law_longest(recs: Seq<Seq<u8>>)
    ensures
        forall|i: int| 0 <= i < recs.len() ==> (#[trigger] recs[i]).len() <= longest(recs),
        recs.len() > 0 ==> exists|i: int|
            0 <= i < recs.len() && (#[trigger] recs[i]).len() == longest(recs),
        recs.len() == 0 ==> longest(recs) == 0,
    decreases recs.len(),
{
    if recs.len() > 0 {
        let rest = recs.drop_last();
        law_longest(rest);
        assert forall|i: int| 0 <= i < recs.len() implies (#[trigger] recs[i]).len() <= longest(
            recs,
        ) by {
            if i < rest.len() {
                assert(rest[i] == recs[i]);
            }
        }
        if longest(recs) == recs.last().len() {
            assert(recs[recs.len() - 1].len() == longest(recs));
        } else {
            let i = choose|i: int| 0 <= i < rest.len() && (#[trigger] rest[i]).len() == longest(rest);
            assert(recs[i] == rest[i]);
        }
    }
}

/// A page is too empty if there is nothing on it, or if its records fill less than the given
/// part of the area behind its headers. It can lend if it holds more than one record and is
/// not too empty without its longest.
pub proof fn law_fill_thresholds(config: BPlusTreeConfig, recs: Seq<Seq<u8>>)
    requires
        config.page_size > 96,
    ensures
        underfull(config, recs) <==> recs.len() == 0 || payload(recs) * 100
            < config.min_fill_percent * (config.page_size - 96),
        lends(config, recs) <==> recs.len() > 1 && (payload(recs) - longest(recs)) * 100
            >= config.min_fill_percent * (config.page_size - 96),
{
    assert(usable_area(config) == config.page_size - 96);
}

/// A leaf is cut in the middle, if both halves fit on a page, and else at the first place
/// where both parts do. There is none only if it cannot be cut at all.
pub proof fn law_leaf_cut(all: Seq<Seq<u8>>, m: int)
    ensures
        ({
            let mid = all.len() as int / 2;
            let cut = leaf_cut(all);
            &&& all.len() >= 2 && record_bytes(all.take(mid)) <= 8096 && record_bytes(all.skip(mid))
                <= 8096 ==> cut == mid
            &&& cut != 0 ==> 0 < cut < all.len() && record_bytes(all.take(cut)) <= 8096
                && record_bytes(all.skip(cut)) <= 8096
            &&& cut == 0 && 0 < m < all.len() ==> !(record_bytes(all.take(m)) <= 8096
                && record_bytes(all.skip(m)) <= 8096)
            &&& cut != mid && 0 < m < cut ==> !(record_bytes(all.take(m)) <= 8096 && record_bytes(
                all.skip(m),
            ) <= 8096)
        }),
{
    lemma_first_cut(all, 1, m);
}

proof fn lemma_first_cut(all: Seq<Seq<u8>>, from: int, m: int)
    requires
        1 <= from,
    ensures
        ({
            let cut = first_cut(all, from);
            &&& cut != 0 ==> from <= cut < all.len() && record_bytes(all.take(cut)) <= 8096
                && record_bytes(all.skip(cut)) <= 8096
            &&& from <= m < all.len() && (cut == 0 || m < cut) ==> !(record_bytes(all.take(m))
                <= 8096 && record_bytes(all.skip(m)) <= 8096)
        }),
    decreases all.len() - from,
{
    if from < all.len() {
        lemma_first_cut(all, from + 1, m);
    }
}

/// A branch is cut at its middle separator, if both parts fit on a page.
pub proof fn law_branch_cut(s: Seq<Key>, c: Seq<u64>, at: int)
    ensures
        ({
            let mid = s.len() as int / 2;
            record_bytes(branch_records(s.take(mid), c.take(mid + 1))) <= 8096 && record_bytes(
                branch_records(s.skip(mid + 1), c.skip(mid + 1)),
            ) <= 8096 ==> promoted(s, c, at) == mid
        }),
        promoted(s, c, at) == s.len() as int / 2 || promoted(s, c, at) == at,
{
}

/// A pair takes the place of the record with its key, or comes in between.
pub proof fn law_pair_in_leaf(recs: Seq<Seq<u8>>, key: Key, value: Seq<u8>, slot: int)
    requires
        0 <= slot <= recs.len(),
    ensures
        ({
            let with = with_pair(recs, key, value, slot);
            let replaced = slot < recs.len() && kv_key(recs[slot]) == key;
            &&& with[slot] == kv_record(key, value)
            &&& with.len() == recs.len() + (if replaced {
                0int
            } else {
                1
            })
            &&& forall|i: int| 0 <= i < slot ==> #[trigger] with[i] == recs[i]
            &&& forall|i: int|
                slot < i < with.len() ==> #[trigger] with[i] == recs[if replaced {
                    i
                } else {
                    i - 1
                }]
        }),
{
}

/// A leaf that stays whole with a pair takes it in, and no other page changes.
pub proof fn law_placed_in_leaf(
    config: BPlusTreeConfig,
    o: Outline,
    key: Key,
    value: Seq<u8>,
    path: Seq<(PageId, usize)>,
    leaf: PageId,
    slot: int,
)
    requires
        stays_whole(config, with_pair(o.pages[leaf].records, key, value, slot)),
        o.pages.contains_key(leaf),
    ensures
        ({
            let after = placed(config, o, key, value, path, leaf, slot);
            &&& after.root == o.root
            &&& after.next == o.next
            &&& after.pages.dom() == o.pages.dom()
            &&& after.pages[leaf].records == with_pair(o.pages[leaf].records, key, value, slot)
            &&& forall|id: PageId| #[trigger]
                o.pages.contains_key(id) && id != leaf ==> after.pages[id] == o.pages[id]
        }),
{
    assert(placed(config, o, key, value, path, leaf, slot).pages.dom() =~= o.pages.dom());
}

/// A leaf that is not too empty without a record just loses it, and no other page changes.
pub proof fn law_deleted_from_leaf(
    config: BPlusTreeConfig,
    lay: Pages,
    root: PageId,
    path: Seq<(PageId, usize)>,
    leaf: PageId,
    slot: int,
)
    requires
        lay.contains_key(leaf),
        0 <= slot < lay[leaf].records.len(),
        !underfull(config, lay[leaf].records.remove(slot)),
    ensures
        ({
            let (after, top) = deleted(config, lay, root, path, leaf, slot);
            &&& top == root
            &&& after.dom() == lay.dom()
            &&& after[leaf].records == lay[leaf].records.remove(slot)
            &&& forall|id: PageId| #[trigger]
                lay.contains_key(id) && id != leaf ==> after[id] == lay[id]
        }),
{
    assert(deleted(config, lay, root, path, leaf, slot).0.dom() =~= lay.dom());
}

/// A leaf that is too empty takes over the last record of its left neighbour, if that one
/// can lend it: the record comes to its front, and its key is the separator between the two.
pub proof fn law_borrow_from_left(
    config: BPlusTreeConfig,
    lay: Pages,
    root: PageId,
    path: Seq<(PageId, usize)>,
    depth: int,
)
    requires
        depth > 0,
        ({
            let (p, at) = path[depth - 1];
            let c = children(lay[p]);
            let l = c[at - 1];
            &&& 0 < at < c.len()
            &&& lay[l].is_leaf()
            &&& lends(config, lay[l].records)
            &&& can_shift(lay, p, at - 1, lay[l].records.len() - 1)
            &&& l != c[at as int]
            &&& l != p
            &&& c[at as int] != p
        }),
    ensures
        ({
            let (after, top) = rebalanced(config, lay, root, path, depth);
            let (p, at) = path[depth - 1];
            let l = children(lay[p])[at - 1];
            let n = children(lay[p])[at as int];
            &&& top == root
            &&& after[l].records == lay[l].records.drop_last()
            &&& after[n].records == seq![lay[l].records.last()] + lay[n].records
            &&& after[l].next == lay[l].next && after[l].prev == lay[l].prev
            &&& after[n].next == lay[n].next && after[n].prev == lay[n].prev
            &&& forall|id: PageId| #[trigger]
                lay.contains_key(id) && id != l && id != n && id != p ==> after.contains_key(id)
                    && after[id] == lay[id]
        }),
{
    let (p, at) = path[depth - 1];
    let l = children(lay[p])[at - 1];
    let n = children(lay[p])[at as int];
    let all = lay[l].records + lay[n].records;
    let m = lay[l].records.len() - 1;
    assert(all.take(m) =~= lay[l].records.drop_last());
    assert(all.skip(m) =~= seq![lay[l].records.last()] + lay[n].records);
}

/// A leaf whose left neighbour cannot lend takes over the first record of its right one, if
/// that one can: the record comes to its end.
pub proof fn law_borrow_from_right(
    config: BPlusTreeConfig,
    lay: Pages,
    root: PageId,
    path: Seq<(PageId, usize)>,
    depth: int,
)
    requires
        depth > 0,
        ({
            let (p, at) = path[depth - 1];
            let c = children(lay[p]);
            let n = c[at as int];
            let r = c[at + 1];
            &&& at + 1 < c.len()
            &&& at > 0 ==> !lends(config, lay[c[at - 1]].records)
            &&& lay[n].is_leaf()
            &&& lends(config, lay[r].records)
            &&& can_shift(lay, p, at as int, lay[n].records.len() as int + 1)
            &&& n != r
            &&& n != p
            &&& r != p
        }),
    ensures
        ({
            let (after, top) = rebalanced(config, lay, root, path, depth);
            let (p, at) = path[depth - 1];
            let n = children(lay[p])[at as int];
            let r = children(lay[p])[at + 1];
            &&& top == root
            &&& after[n].records == lay[n].records.push(lay[r].records[0])
            &&& after[r].records == lay[r].records.skip(1)
            &&& forall|id: PageId| #[trigger]
                lay.contains_key(id) && id != n && id != r && id != p ==> after.contains_key(id)
                    && after[id] == lay[id]
        }),
{
    let (p, at) = path[depth - 1];
    let n = children(lay[p])[at as int];
    let r = children(lay[p])[at + 1];
    let all = lay[n].records + lay[r].records;
    let m = lay[n].records.len() as int + 1;
    assert(all.take(m) =~= lay[n].records.push(lay[r].records[0]));
    assert(all.skip(m) =~= lay[r].records.skip(1));
}

/// A leaf of which no neighbour can lend is merged with one, the left one if there is one,
/// if what both hold fits on a page: the left of the two holds the records of both, in
/// order, the right one is gone, and the leaf behind it follows the left one.
pub proof fn law_merge_with_neighbour(
    config: BPlusTreeConfig,
    lay: Pages,
    root: PageId,
    path: Seq<(PageId, usize)>,
)
    requires
        path.len() > 0,
        ({
            let (p, at) = path[0];
            let c = children(lay[p]);
            let i = if at > 0 {
                at - 1
            } else {
                0
            };
            &&& at < c.len()
            &&& c.len() > 2
            &&& at > 0 ==> !lends(config, lay[c[at - 1]].records)
            &&& at + 1 < c.len() ==> !lends(config, lay[c[at + 1]].records)
            &&& lay[c[i]].is_leaf()
            &&& can_merge(lay, p, i)
            &&& c[i] != c[i + 1]
            &&& c[i] != p
            &&& c[i + 1] != p
            &&& lay[c[i + 1]].next != c[i]
            &&& lay[c[i + 1]].next != p
            &&& lay[c[i + 1]].next != c[i + 1]
        }),
    ensures
        ({
            let (after, top) = rebalanced(config, lay, root, path, 1);
            let (p, at) = path[0];
            let i = if at > 0 {
                at - 1
            } else {
                0
            };
            let l = children(lay[p])[i];
            let r = children(lay[p])[i + 1];
            let next = lay[r].next;
            &&& top == root
            &&& after[l].records == lay[l].records + lay[r].records
            &&& after[l].next == next
            &&& after[l].prev == lay[l].prev
            &&& !after.contains_key(r)
            &&& next != 0 && lay.contains_key(next) && lay[next].is_leaf() ==> after[next].prev == l
                && after[next].records == lay[next].records
        }),
{
}

/// A branch page has the separators and the children that it was made of.
pub proof fn law_branch_page(id: PageId, level: u8, s: Seq<Key>, c: Seq<u64>)
    requires
        c.len() == s.len() + 1,
    ensures
        ({
            let page = branch_page(id, level, s, c);
            &&& seps(page) == s
            &&& children(page) == c
            &&& page.page_id == id
            &&& page.level == level
            &&& !page.is_leaf()
        }),
{
    let page = branch_page(id, level, s, c);
    assert forall|i: int| 0 <= i < s.len() implies #[trigger] seps(page)[i] == s[i] by {
        law_branch_roundtrip(s[i], c[i]);
    }
    assert forall|i: int| 0 <= i < c.len() implies #[trigger] children(page)[i] == c[i] by {
        if i < s.len() {
            law_branch_roundtrip(s[i], c[i]);
        }
    }
    assert(seps(page) =~= s);
    assert(children(page) =~= c);
}

/// A leaf that does not stay whole with a pair is cut: the records up to the cut stay, the
/// others go to a new leaf behind it. If it is the root, a new root leads to both.
pub proof fn law_root_leaf_split(
    config: BPlusTreeConfig,
    o: Outline,
    key: Key,
    value: Seq<u8>,
    leaf: PageId,
    slot: int,
)
    requires
        ({
            let with = with_pair(o.pages[leaf].records, key, value, slot);
            &&& !stays_whole(config, with)
            &&& leaf_cut(with) != 0
        }),
        leaf < o.next,
        o.next < u64::MAX - 1,
    ensures
        ({
            let with = with_pair(o.pages[leaf].records, key, value, slot);
            let cut = leaf_cut(with);
            let after = placed(config, o, key, value, Seq::empty(), leaf, slot);
            let right = o.next;
            let root = (o.next + 1) as u64;
            &&& after.root == root
            &&& after.next == o.next + 2
            &&& after.pages[leaf].records == with.take(cut)
            &&& after.pages[leaf].prev == o.pages[leaf].prev
            &&& after.pages[leaf].next == right
            &&& after.pages[right].records == with.skip(cut)
            &&& after.pages[right].prev == leaf
            &&& after.pages[right].next == o.pages[leaf].next
            &&& seps(after.pages[root]) == seq![kv_key(with[cut])]
            &&& children(after.pages[root]) == seq![leaf, right]
            &&& after.pages[root].level == 1
            &&& forall|id: PageId| #[trigger]
                o.pages.contains_key(id) && id != leaf && id < o.next ==> after.pages.contains_key(
                    id,
                ) && after.pages[id] == o.pages[id]
        }),
{
    let with = with_pair(o.pages[leaf].records, key, value, slot);
    let cut = leaf_cut(with);
    law_branch_page((o.next + 1) as u64, 1, seq![kv_key(with[cut])], seq![leaf, o.next]);
}

/// Below a branch that stays whole, the branch gets the key of the first record of the new
/// leaf as a separator, and the new leaf as a child behind the one that was split.
pub proof fn law_leaf_split_below(
    config: BPlusTreeConfig,
    o: Outline,
    key: Key,
    value: Seq<u8>,
    path: Seq<(PageId, usize)>,
    leaf: PageId,
    slot: int,
)
    requires
        path.len() > 0,
        ({
            let with = with_pair(o.pages[leaf].records, key, value, slot);
            let (p, at) = path.last();
            &&& !stays_whole(config, with)
            &&& leaf_cut(with) != 0
            &&& at <= seps(o.pages[p]).len()
            &&& branch_stays_whole(
                config,
                seps(o.pages[p]).insert(at as int, kv_key(with[leaf_cut(with)])),
                children(o.pages[p]).insert(at + 1, o.next),
            )
            &&& p != leaf
            &&& p < o.next
        }),
        leaf < o.next,
        o.next < u64::MAX,
    ensures
        ({
            let with = with_pair(o.pages[leaf].records, key, value, slot);
            let cut = leaf_cut(with);
            let after = placed(config, o, key, value, path, leaf, slot);
            let (p, at) = path.last();
            &&& after.root == o.root
            &&& after.next == o.next + 1
            &&& after.pages[leaf].records == with.take(cut)
            &&& after.pages[leaf].prev == o.pages[leaf].prev
            &&& after.pages[leaf].next == o.next
            &&& after.pages[o.next].records == with.skip(cut)
            &&& after.pages[o.next].prev == leaf
            &&& after.pages[o.next].next == o.pages[leaf].next
            &&& seps(after.pages[p]) == seps(o.pages[p]).insert(at as int, kv_key(with[cut]))
            &&& children(after.pages[p]) == children(o.pages[p]).insert(at + 1, o.next)
            &&& forall|id: PageId| #[trigger]
                o.pages.contains_key(id) && id != leaf && id != p && id < o.next
                    ==> after.pages.contains_key(id) && after.pages[id] == o.pages[id]
        }),
{
    let with = with_pair(o.pages[leaf].records, key, value, slot);
    let (p, at) = path.last();
    law_branch_page(
        p,
        o.pages[p].level,
        seps(o.pages[p]).insert(at as int, kv_key(with[leaf_cut(with)])),
        children(o.pages[p]).insert(at + 1, o.next),
    );
}

/// A branch that is too empty takes over the last child of its left neighbour, if that one
/// can lend it: the separator between the two comes down in front of its own, and the last
/// separator of the neighbour goes up in its place.
pub proof fn law_branch_borrows_from_left(
    config: BPlusTreeConfig,
    lay: Pages,
    root: PageId,
    path: Seq<(PageId, usize)>,
    depth: int,
)
    requires
        depth > 0,
        ({
            let (p, at) = path[depth - 1];
            let c = children(lay[p]);
            let l = c[at - 1];
            &&& 0 < at < c.len()
            &&& !lay[l].is_leaf()
            &&& lends(config, lay[l].records)
            &&& can_shift(lay, p, at - 1, lay[l].records.len() - 1)
            &&& l != c[at as int]
            &&& l != p
            &&& c[at as int] != p
        }),
    ensures
        ({
            let (after, top) = rebalanced(config, lay, root, path, depth);
            let (p, at) = path[depth - 1];
            let l = children(lay[p])[at - 1];
            let n = children(lay[p])[at as int];
            &&& top == root
            &&& seps(after[l]) == seps(lay[l]).drop_last()
            &&& children(after[l]) == children(lay[l]).drop_last()
            &&& seps(after[n]) == seq![seps(lay[p])[at - 1]] + seps(lay[n])
            &&& children(after[n]) == seq![children(lay[l]).last()] + children(lay[n])
            &&& seps(after[p]) == seps(lay[p]).update(at - 1, seps(lay[l]).last())
            &&& children(after[p]) == children(lay[p])
            &&& forall|id: PageId| #[trigger]
                lay.contains_key(id) && id != l && id != n && id != p ==> after.contains_key(id)
                    && after[id] == lay[id]
        }),
{
    let (p, at) = path[depth - 1];
    let l = children(lay[p])[at - 1];
    let n = children(lay[p])[at as int];
    let u = joint_seps(lay, p, at - 1);
    let e = joint_children(lay, p, at - 1);
    let m = lay[l].records.len() - 1;
    assert(u.take(m) =~= seps(lay[l]).drop_last());
    assert(e.take(m + 1) =~= children(lay[l]).drop_last());
    assert(u.skip(m + 1) =~= seq![seps(lay[p])[at - 1]] + seps(lay[n]));
    assert(e.skip(m + 1) =~= seq![children(lay[l]).last()] + children(lay[n]));
    assert(u[m] == seps(lay[l]).last());
    law_branch_page(l, lay[l].level, u.take(m), e.take(m + 1));
    law_branch_page(n, lay[l].level, u.skip(m + 1), e.skip(m + 1));
    law_branch_page(p, lay[p].level, seps(lay[p]).update(at - 1, u[m]), children(lay[p]));
}

/// A branch whose left neighbour cannot lend takes over the first child of its right one, if
/// that one can: the separator between the two comes down behind its own, and the first
/// separator of the neighbour goes up in its place.
pub proof fn law_branch_borrows_from_right(
    config: BPlusTreeConfig,
    lay: Pages,
    root: PageId,
    path: Seq<(PageId, usize)>,
    depth: int,
)
    requires
        depth > 0,
        ({
            let (p, at) = path[depth - 1];
            let c = children(lay[p]);
            let n = c[at as int];
            let r = c[at + 1];
            &&& at + 1 < c.len()
            &&& at > 0 ==> !lends(config, lay[c[at - 1]].records)
            &&& !lay[n].is_leaf()
            &&& lay[r].records.len() > 0
            &&& lends(config, lay[r].records)
            &&& can_shift(lay, p, at as int, lay[n].records.len() as int + 1)
            &&& n != r
            &&& n != p
            &&& r != p
        }),
    ensures
        ({
            let (after, top) = rebalanced(config, lay, root, path, depth);
            let (p, at) = path[depth - 1];
            let n = children(lay[p])[at as int];
            let r = children(lay[p])[at + 1];
            &&& top == root
            &&& seps(after[n]) == seps(lay[n]).push(seps(lay[p])[at as int])
            &&& children(after[n]) == children(lay[n]).push(children(lay[r])[0])
            &&& seps(after[r]) == seps(lay[r]).skip(1)
            &&& children(after[r]) == children(lay[r]).skip(1)
            &&& seps(after[p]) == seps(lay[p]).update(at as int, seps(lay[r])[0])
            &&& children(after[p]) == children(lay[p])
        }),
{
    let (p, at) = path[depth - 1];
    let n = children(lay[p])[at as int];
    let r = children(lay[p])[at + 1];
    let u = joint_seps(lay, p, at as int);
    let e = joint_children(lay, p, at as int);
    let m = lay[n].records.len() as int + 1;
    assert(u.take(m) =~= seps(lay[n]).push(seps(lay[p])[at as int]));
    assert(e.take(m + 1) =~= children(lay[n]).push(children(lay[r])[0]));
    assert(u.skip(m + 1) =~= seps(lay[r]).skip(1));
    assert(e.skip(m + 1) =~= children(lay[r]).skip(1));
    assert(u[m] == seps(lay[r])[0]);
    law_branch_page(n, lay[n].level, u.take(m), e.take(m + 1));
    law_branch_page(r, lay[n].level, u.skip(m + 1), e.skip(m + 1));
    law_branch_page(p, lay[p].level, seps(lay[p]).update(at as int, u[m]), children(lay[p]));
}

/// Branches of which none can lend are merged: the left of the two has the separators and
/// the children of both, with the separator between them, and the right one is gone.
pub proof fn law_branches_merge(
    config: BPlusTreeConfig,
    lay: Pages,
    root: PageId,
    path: Seq<(PageId, usize)>,
)
    requires
        path.len() > 0,
        ({
            let (p, at) = path[0];
            let c = children(lay[p]);
            let i = if at > 0 {
                at - 1
            } else {
                0
            };
            &&& at < c.len()
            &&& c.len() > 2
            &&& at > 0 ==> !lends(config, lay[c[at - 1]].records)
            &&& at + 1 < c.len() ==> !lends(config, lay[c[at + 1]].records)
            &&& !lay[c[i]].is_leaf()
            &&& can_merge(lay, p, i)
            &&& c[i] != c[i + 1]
            &&& c[i] != p
            &&& c[i + 1] != p
        }),
    ensures
        ({
            let (after, top) = rebalanced(config, lay, root, path, 1);
            let (p, at) = path[0];
            let i = if at > 0 {
                at - 1
            } else {
                0
            };
            let l = children(lay[p])[i];
            let r = children(lay[p])[i + 1];
            &&& top == root
            &&& seps(after[l]) == seps(lay[l]) + seq![seps(lay[p])[i]] + seps(lay[r])
            &&& children(after[l]) == children(lay[l]) + children(lay[r])
            &&& !after.contains_key(r)
            &&& seps(after[p]) == seps(lay[p]).remove(i)
            &&& children(after[p]) == children(lay[p]).remove(i + 1)
        }),
{
    let (p, at) = path[0];
    let i = if at > 0 {
        at - 1
    } else {
        0
    };
    let l = children(lay[p])[i];
    law_branch_page(l, lay[l].level, joint_seps(lay, p, i), joint_children(lay, p, i));
    law_branch_page(
        p,
        lay[p].level,
        seps(lay[p]).remove(i),
        children(lay[p]).remove(i + 1),
    );
}

/// The way of a key starts at the root, ends at a leaf, and goes on at each branch with the
/// child before the first separator above the key. Its place in the leaf is behind all
/// smaller keys and before all others.
pub proof fn law_way(
    lay: Pages,
    root: PageId,
    key: Key,
    path: Seq<(PageId, usize)>,
    leaf: PageId,
    slot: int,
    t: int,
)
    requires
        lands(lay, root, key, path, leaf, slot),
    ensures
        lay.contains_key(leaf) && lay[leaf].is_leaf(),
        path.len() == 0 ==> leaf == root,
        path.len() > 0 ==> path[0].0 == root,
        0 <= t < path.len() ==> ({
            let s = seps(lay[path[t].0]);
            let at = path[t].1 as int;
            &&& !lay[path[t].0].is_leaf()
            &&& 0 <= at <= s.len()
            &&& at > 0 ==> lex_le(s[at - 1], key)
            &&& at < s.len() ==> lex_lt(key, s[at])
            &&& children(lay[path[t].0])[at] == (if t + 1 < path.len() {
                path[t + 1].0
            } else {
                leaf
            })
        }),
        0 <= slot <= lay[leaf].records.len(),
        forall|i: int| 0 <= i < slot ==> lex_lt(kv_key(#[trigger] lay[leaf].records[i]), key),
        forall|i: int|
            slot <= i < lay[leaf].records.len() ==> lex_le(
                key,
                kv_key(#[trigger] lay[leaf].records[i]),
            ),
{
    if 0 <= t < path.len() {
        assert(leads_on(lay, key, path, leaf, t));
    }
}

/// What storing a pair makes of a tree is what its coming to its place makes of it, once or,
/// where it was left out at first, twice.
pub proof fn law_stored(
    config: BPlusTreeConfig,
    before: Outline,
    after: Outline,
    key: Key,
    value: Seq<u8>,
)
    requires
        is_stored(config, before, after, key, value),
    ensures
        exists|from: Outline, path: Seq<(PageId, usize)>, leaf: PageId, slot: int|
            #![trigger placed(config, from, key, value, path, leaf, slot)]
            {
                &&& lands(from.pages, from.root, key, path, leaf, slot)
                &&& after == placed(config, from, key, value, path, leaf, slot)
                &&& stays_whole(config, with_pair(from.pages[leaf].records, key, value, slot))
                    || leaf_cut(with_pair(from.pages[leaf].records, key, value, slot)) != 0
                &&& from == before || exists|
                    path0: Seq<(PageId, usize)>,
                    leaf0: PageId,
                    slot0: int,
                |
                    #![trigger placed(config, before, key, value, path0, leaf0, slot0)]
                    lands(before.pages, before.root, key, path0, leaf0, slot0) && from == placed(
                        config,
                        before,
                        key,
                        value,
                        path0,
                        leaf0,
                        slot0,
                    )
            },
{
    let from = if is_placed(config, before, after, key, value, true) {
        before
    } else {
        choose|mid: Outline| #[trigger]
            is_placed(config, before, mid, key, value, false) && is_placed(
                config,
                mid,
                after,
                key,
                value,
                true,
            )
    };
    let (path, leaf, slot) = choose|path: Seq<(PageId, usize)>, leaf: PageId, slot: int| #[trigger]
        lands(from.pages, from.root, key, path, leaf, slot) && after == placed(
            config,
            from,
            key,
            value,
            path,
            leaf,
            slot,
        ) && !cannot_split(config, with_pair(from.pages[leaf].records, key, value, slot));
    assert(after == placed(config, from, key, value, path, leaf, slot));
}

} // verus!
