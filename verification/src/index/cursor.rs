//! Cursors: over the records of one leaf, and over a key range of a tree.

use vstd::prelude::*;
use vstd::slice::slice_to_vec;

use crate::bytes::bytes_le;
use crate::bytes::lemma_lex_successor;
use crate::bytes::lex_le;
use crate::bytes::lex_lt;
use crate::index::btree::is_first;
use crate::index::btree::is_range;
use crate::index::btree::none_from;
use crate::index::btree::pair_views;
use crate::index::btree::BPlusTree;
use crate::index::entry::decode_kv;
use crate::index::entry::kv_key;
use crate::index::entry::kv_record;
use crate::index::entry::kv_value;
use crate::index::entry::law_kv_record_of_parts;
use crate::index::entry::law_kv_roundtrip;
use crate::index::entry::valid_kv;
use crate::index::key::CompositeKey;
use crate::index::latch::LatchCoupling;
use crate::index::node::is_lower_bound;
use crate::index::node::is_turning;
use crate::index::node::leaf_lower_bound;
use crate::index::page::BTreePage;
use crate::index::shape::below;
use crate::index::shape::leaf_records_ok;
use crate::storage::page::PageId;

verus! {

/// Cursor over the records of one leaf page.
pub struct BTreeCursor<'a> {
    latch_mgr: &'a LatchCoupling,
    current_page_id: PageId,
    current_slot: u16,
    current_page: BTreePage,
}

/// The key and value of record `slot`, where there is a well-formed one.
pub open spec fn pair_at(recs: Seq<Seq<u8>>, slot: int) -> Option<(Seq<u8>, Seq<u8>)> {
    if 0 <= slot < recs.len() && valid_kv(recs[slot]) {
        Some((kv_key(recs[slot]), kv_value(recs[slot])))
    } else {
        None
    }
}

/// At a slot stands the pair that its record was made of, and none where there is no record.
pub proof fn law_pair_at(recs: Seq<Seq<u8>>, slot: int, key: Seq<u8>, value: Seq<u8>)
    requires
        key.len() <= u16::MAX,
    ensures
        0 <= slot < recs.len() && recs[slot] == kv_record(key, value) ==> pair_at(recs, slot)
            == Some((key, value)),
        pair_at(recs, slot) == Some((key, value)) ==> 0 <= slot < recs.len() && recs[slot]
            == kv_record(key, value),
{
    law_kv_roundtrip(key, value);
    if 0 <= slot < recs.len() && valid_kv(recs[slot]) {
        law_kv_record_of_parts(recs[slot]);
    }
}

impl<'a> BTreeCursor<'a> {
    /// The slot the cursor stands on.
    pub closed spec fn slot(&self) -> u16 {
        self.current_slot
    }

    /// The page the cursor stands on.
    pub closed spec fn page_id(&self) -> PageId {
        self.current_page_id
    }

    /// The page under the cursor.
    pub closed spec fn page(&self) -> BTreePage {
        self.current_page
    }

    /// The records of the page.
    pub open spec fn records(&self) -> Seq<Seq<u8>> {
        self.page()@.records
    }

    /// Positions at the first key of the leaf that is not below `key`. On a page
    /// whose records are not in key order it is one of the places where keys below
    /// `key` end.
    pub fn seek(latch_mgr: &'a LatchCoupling, page: BTreePage, key: &CompositeKey) -> (c: Self)
        ensures
            c.page() == page,
            c.page_id() == page@.page_id,
            is_turning(page@.records, page.spec_key_count() as int, key@, c.slot() as int),
            leaf_records_ok(page@.records) ==> is_lower_bound(
                page.counted(),
                key@,
                c.slot() as int,
            ),
    {
        let slot: u16 = leaf_lower_bound(&page, key.as_slice());
        BTreeCursor {
            latch_mgr,
            current_page_id: page.page_id(),
            current_slot: slot,
            current_page: page,
        }
    }

    /// Positions at the first record of the leaf.
    pub fn seek_first(latch_mgr: &'a LatchCoupling, page: BTreePage) -> (c: Self)
        ensures
            c.page() == page,
            c.page_id() == page@.page_id,
            c.slot() == 0,
    {
        BTreeCursor {
            latch_mgr,
            current_page_id: page.page_id(),
            current_slot: 0,
            current_page: page,
        }
    }

    /// Positions at the last record that the header of the leaf counts.
    pub fn seek_last(latch_mgr: &'a LatchCoupling, page: BTreePage) -> (c: Self)
        ensures
            c.page() == page,
            c.page_id() == page@.page_id,
            c.slot() == (if page.spec_key_count() > 0 {
                page.spec_key_count() - 1
            } else {
                0
            }),
    {
        let count: u16 = page.key_count();
        let slot: u16 = if count > 0 {
            count - 1
        } else {
            0
        };
        BTreeCursor {
            latch_mgr,
            current_page_id: page.page_id(),
            current_slot: slot,
            current_page: page,
        }
    }

    /// The key and value at the cursor.
    pub fn current(&self) -> (r: Option<(&[u8], &[u8])>)
        ensures
            match r {
                Some((k, v)) => pair_at(self.records(), self.slot() as int) == Some((k@, v@)),
                None => pair_at(self.records(), self.slot() as int) is None,
            },
    {
        match self.current_page.key(self.current_slot) {
            Some(kv) => decode_kv(kv),
            None => None,
        }
    }

    /// Moves to the next record; `false`, and no move, at the last one that the
    /// header of the leaf counts.
    pub fn next(&mut self) -> (b: bool)
        ensures
            final(self).page() == old(self).page(),
            final(self).page_id() == old(self).page_id(),
            b == (old(self).slot() + 1 < old(self).page().spec_key_count()),
            final(self).slot() == (if b {
                old(self).slot() + 1
            } else {
                old(self).slot() as int
            }),
    {
        let count: u16 = self.current_page.key_count();
        if (self.current_slot as usize) + 1 < count as usize {
            self.current_slot = self.current_slot + 1;
            true
        } else {
            false
        }
    }

    /// Moves to the previous record; `false`, and no move, at the first one.
    pub fn prev(&mut self) -> (b: bool)
        ensures
            final(self).page() == old(self).page(),
            final(self).page_id() == old(self).page_id(),
            b == (old(self).slot() > 0),
            final(self).slot() == (if b {
                old(self).slot() - 1
            } else {
                0
            }),
    {
        if self.current_slot > 0 {
            self.current_slot = self.current_slot - 1;
            true
        } else {
            false
        }
    }
}

/// Scan over the records of one leaf up to an end key.
pub struct BTreeRangeScan<'a> {
    cursor: BTreeCursor<'a>,
    end_key: Option<CompositeKey>,
    done: bool,
}

impl<'a> BTreeRangeScan<'a> {
    pub closed spec fn spec_cursor(&self) -> BTreeCursor<'a> {
        self.cursor
    }

    /// The exclusive upper bound.
    pub closed spec fn end(&self) -> Option<Seq<u8>> {
        match self.end_key {
            Some(k) => Some(k@),
            None => None,
        }
    }

    /// Has the scan ended?
    pub closed spec fn ended(&self) -> bool {
        self.done
    }

    /// The pair that the next call returns.
    pub open spec fn upcoming(&self) -> Option<(Seq<u8>, Seq<u8>)> {
        let p = pair_at(self.spec_cursor().records(), self.spec_cursor().slot() as int);
        match p {
            Some((k, v)) => if !self.ended() && below(k, self.end()) {
                p
            } else {
                None
            },
            None => None,
        }
    }

    pub fn new(cursor: BTreeCursor<'a>, end_key: Option<CompositeKey>) -> (s: Self)
        ensures
            s.spec_cursor() == cursor,
            s.end() == (match end_key {
                Some(k) => Some(k@),
                None => None,
            }),
            !s.ended(),
    {
        BTreeRangeScan { cursor, end_key, done: false }
    }

    /// The next pair before the end key. At the last record of the leaf, and at
    /// the end key, the scan ends.
    pub fn next(&mut self) -> (r: Option<(Vec<u8>, Vec<u8>)>)
        ensures
            final(self).end() == old(self).end(),
            final(self).spec_cursor().page() == old(self).spec_cursor().page(),
            match r {
                Some((k, v)) => {
                    &&& old(self).upcoming() == Some((k@, v@))
                    &&& final(self).ended() == (old(self).spec_cursor().slot() + 1
                        >= old(self).spec_cursor().page().spec_key_count())
                    &&& !final(self).ended() ==> final(self).spec_cursor().slot() == old(self).spec_cursor().slot() + 1
                },
                None => {
                    &&& old(self).upcoming() is None
                    &&& final(self).upcoming() is None
                    &&& final(self).spec_cursor().slot() == old(self).spec_cursor().slot()
                },
            },
    {
        if self.done {
            return None;
        }
        let (key, val) = match self.cursor.current() {
            Some((k, v)) => (slice_to_vec(k), slice_to_vec(v)),
            None => {
                return None;
            },
        };
        let past: bool = match &self.end_key {
            Some(end) => bytes_le(end.as_slice(), key.as_slice()),
            None => false,
        };
        if past {
            self.done = true;
            return None;
        }
        let has_next: bool = self.cursor.next();
        if !has_next {
            self.done = true;
        }
        Some((key, val))
    }
}

/// Forward cursor over a key range of a tree; it follows the chain of leaves.
pub struct BTreeRangeCursor<'a> {
    tree: &'a BPlusTree,
    current_leaf_id: PageId,
    position: Option<(PageId, u16)>,
    end_key: Option<CompositeKey>,
    from: Ghost<Seq<u8>>,
}

impl<'a> BTreeRangeCursor<'a> {
    /// The tree under the cursor.
    pub closed spec fn spec_tree(&self) -> BPlusTree {
        *self.tree
    }

    /// What is left to visit starts here.
    pub closed spec fn from(&self) -> Seq<u8> {
        self.from@
    }

    /// The exclusive upper bound.
    pub closed spec fn end(&self) -> Option<Seq<u8>> {
        match self.end_key {
            Some(k) => Some(k@),
            None => None,
        }
    }

    /// The cursor stands on the first key from [`Self::from`] on.
    pub closed spec fn wf(&self) -> bool {
        &&& self.tree.wf()
        &&& self.tree.leaf_ids().contains(self.current_leaf_id)
        &&& match self.position {
            Some((id, slot)) => {
                &&& self.tree.is_position(id, slot)
                &&& is_first(self.tree@, self.from@, self.tree.key_at(id, slot))
                &&& self.current_leaf_id == id
            },
            None => {
                &&& none_from(self.tree@, self.from@)
                &&& self.tree.is_leaf_for(self.from@, self.current_leaf_id)
            },
        }
    }

    /// Is there a key left before the upper bound?
    pub open spec fn has_current(&self) -> bool {
        exists|k: Seq<u8>| #[trigger]
            is_first(self.spec_tree()@, self.from(), k) && below(k, self.end())
    }

    /// A cursor at the first key from `from` on.
    pub(crate) fn new(
        tree: &'a BPlusTree,
        from: &CompositeKey,
        end_key: Option<CompositeKey>,
    ) -> (c: Self)
        requires
            tree.wf(),
        ensures
            c.wf(),
            c.spec_tree() == *tree,
            c.from() == from@,
            c.end() == (match end_key {
                Some(k) => Some(k@),
                None => None,
            }),
    {
        let position = tree.first_from(from.as_slice());
        let current_leaf_id: PageId = match position {
            Some((id, _slot)) => id,
            None => tree.leaf_for(from.as_slice()),
        };
        proof {
            match position {
                Some((id, slot)) => tree.lemma_position_stored(id, slot),
                None => {},
            }
        }
        BTreeRangeCursor { tree, current_leaf_id, position, end_key, from: Ghost(from@) }
    }

    /// Moves to the first key from `key` on. Returns whether there is one before
    /// the upper bound.
    pub fn advance_to(&mut self, key: &CompositeKey) -> (b: bool)
        requires
            old(self).wf(),
        ensures
            final(self).wf(),
            final(self).spec_tree() == old(self).spec_tree(),
            final(self).end() == old(self).end(),
            final(self).from() == key@,
            b == final(self).has_current(),
    {
        self.position = self.tree.first_from(key.as_slice());
        match self.position {
            Some((id, slot)) => {
                proof {
                    self.tree.lemma_position_stored(id, slot);
                }
                self.current_leaf_id = id;
            },
            None => {
                self.current_leaf_id = self.tree.leaf_for(key.as_slice());
            },
        }
        self.from = Ghost(key@);
        self.current_within_bound()
    }

    /// The key and value at the cursor, unless the range is used up.
    pub fn current(&self) -> (r: Option<(Vec<u8>, Vec<u8>)>)
        requires
            self.wf(),
        ensures
            match r {
                Some((k, v)) => {
                    &&& is_first(self.spec_tree()@, self.from(), k@)
                    &&& below(k@, self.end())
                    &&& self.spec_tree()@[k@] == v@
                },
                None => !self.has_current(),
            },
    {
        if !self.current_within_bound() {
            return None;
        }
        match self.position {
            Some((id, slot)) => {
                let pair = self.tree.entry_at(id, slot);
                proof {
                    broadcast use crate::bytes::group_lex_order;

                    let k = choose|k: Seq<u8>| #[trigger]
                        is_first(self.spec_tree()@, self.from(), k) && below(k, self.end());
                    assert(self.tree@.contains_key(k) && self.tree@.contains_key(pair.0@));
                    assert(k == pair.0@);
                }
                Some(pair)
            },
            None => None,
        }
    }

    /// Moves to the next key. Returns whether there is one before the upper
    /// bound.
    pub fn next(&mut self) -> (b: bool)
        requires
            old(self).wf(),
        ensures
            final(self).wf(),
            final(self).spec_tree() == old(self).spec_tree(),
            final(self).end() == old(self).end(),
            b == final(self).has_current(),
            forall|k: Seq<u8>| #[trigger]
                is_first(old(self).spec_tree()@, old(self).from(), k) ==> final(self).from()
                    == k.push(0),
            none_from(old(self).spec_tree()@, old(self).from()) ==> final(self).from() == old(self).from(),
    {
        match self.position {
            Some((id, slot)) => {
                let ghost k0 = self.tree.key_at(id, slot);
                proof {
                    broadcast use crate::bytes::group_lex_order;

                    assert forall|k: Seq<u8>| #[trigger] is_first(
                        self.tree@,
                        self.from@,
                        k,
                    ) implies k == k0 by {
                        assert(self.tree@.contains_key(k0));
                    }
                    assert(self.tree@.contains_key(k0) && lex_le(self.from@, k0));
                }
                self.position = self.tree.next_position(id, slot);
                match self.position {
                    Some((next_id, s)) => {
                        proof {
                            self.tree.lemma_position_stored(next_id, s);
                        }
                        self.current_leaf_id = next_id;
                    },
                    None => {
                        let (mut key, _value) = self.tree.entry_at(id, slot);
                        key.push(0);
                        self.current_leaf_id = self.tree.leaf_for(key.as_slice());
                    },
                }
                self.from = Ghost(k0.push(0));
                self.current_within_bound()
            },
            None => {
                proof {
                    assert forall|k: Seq<u8>| !(#[trigger] is_first(self.tree@, self.from@, k)) by {
                        if is_first(self.tree@, self.from@, k) {
                            assert(self.tree@.contains_key(k));
                        }
                    }
                }
                false
            },
        }
    }

    /// The rest of the range, in key order.
    pub fn collect_range(self) -> (r: Vec<(Vec<u8>, Vec<u8>)>)
        requires
            self.wf(),
        ensures
            is_range(self.spec_tree()@, self.from(), self.end(), pair_views(r@)),
    {
        match self.position {
            Some((id, slot)) => {
                let (key, _value) = self.tree.entry_at(id, slot);
                let r = match &self.end_key {
                    Some(end) => self.tree.scan(key.as_slice(), Some(end.as_slice())),
                    None => self.tree.scan(key.as_slice(), None),
                };
                proof {
                    broadcast use crate::bytes::group_lex_order;

                    let rv = pair_views(r@);
                    assert forall|i: int| 0 <= i < rv.len() implies lex_le(
                        self.from(),
                        (#[trigger] rv[i]).0,
                    ) by {
                        assert(lex_le(key@, rv[i].0));
                    }
                }
                r
            },
            None => {
                let r: Vec<(Vec<u8>, Vec<u8>)> = Vec::new();
                assert(pair_views(r@) =~= Seq::empty());
                r
            },
        }
    }

    /// Is the cursor on a key before the upper bound?
    fn current_within_bound(&self) -> (b: bool)
        requires
            self.wf(),
        ensures
            b == self.has_current(),
    {
        match self.position {
            Some((id, slot)) => {
                let (key, _value) = self.tree.entry_at(id, slot);
                let inside: bool = match &self.end_key {
                    Some(end) => !bytes_le(end.as_slice(), key.as_slice()),
                    None => true,
                };
                proof {
                    broadcast use crate::bytes::group_lex_order;

                    assert(is_first(self.spec_tree()@, self.from(), key@));
                    assert(inside == below(key@, self.end()));
                    if self.has_current() {
                        let k = choose|k: Seq<u8>| #[trigger]
                            is_first(self.spec_tree()@, self.from(), k) && below(k, self.end());
                        assert(self.tree@.contains_key(k) && self.tree@.contains_key(key@));
                        assert(k == key@);
                    }
                }
                inside
            },
            None => {
                proof {
                    if self.has_current() {
                        let k = choose|k: Seq<u8>| #[trigger]
                            is_first(self.spec_tree()@, self.from(), k) && below(k, self.end());
                        assert(self.tree@.contains_key(k));
                    }
                }
                false
            },
        }
    }

    /// The leaf page the cursor stands on: that of the first key left, also where it
    /// is beyond the upper bound. Where no key is left, it is the leaf that a key at
    /// the cursor's position would be looked for on.
    pub fn current_leaf_id(&self) -> (id: PageId)
        requires
            self.wf(),
        ensures
            self.spec_tree().leaf_ids().contains(id),
            self.has_current() || !none_from(self.spec_tree()@, self.from()) ==> exists|slot: u16|
                #[trigger] self.spec_tree().is_position(id, slot) && is_first(
                    self.spec_tree()@,
                    self.from(),
                    self.spec_tree().key_at(id, slot),
                ),
            none_from(self.spec_tree()@, self.from()) ==> self.spec_tree().is_leaf_for(
                self.from(),
                id,
            ),
    {
        proof {
            if self.has_current() {
                let k = choose|k: Seq<u8>| #[trigger]
                    is_first(self.spec_tree()@, self.from(), k) && below(k, self.end());
                assert(self.tree@.contains_key(k));
            }
            if let Some((id, slot)) = self.position {
                assert(self.spec_tree().is_position(id, slot));
            }
        }
        self.current_leaf_id
    }
}

impl BPlusTree {
    /// A cursor at the first key from `from` on, bounded above by `to`.
    pub fn cursor_from<'a>(
        &'a self,
        from: &CompositeKey,
        to: Option<CompositeKey>,
    ) -> (c: Option<BTreeRangeCursor<'a>>)
        requires
            self.wf(),
        ensures
            match c {
                Some(cursor) => {
                    &&& cursor.wf()
                    &&& cursor.spec_tree() == *self
                    &&& cursor.from() == from@
                    &&& cursor.end() == (match to {
                        Some(k) => Some(k@),
                        None => None,
                    })
                },
                None => false,
            },
    {
        Some(BTreeRangeCursor::new(self, from, to))
    }

    /// The pairs with keys in `[from, to)`, in key order, by way of a cursor.
    pub fn into_range(
        &self,
        from: &CompositeKey,
        to: &CompositeKey,
    ) -> (r: Vec<(Vec<u8>, Vec<u8>)>)
        requires
            self.wf(),
        ensures
            is_range(self@, from@, Some(to@), pair_views(r@)),
    {
        match self.cursor_from(from, Some(to.clone())) {
            Some(cursor) => cursor.collect_range(),
            None => Vec::new(),
        }
    }
}

/// A cursor that was moved on from its first key stands behind that key: what it
/// visits next comes after it.
pub proof fn law_cursor_moves_forward(m: Map<Seq<u8>, Seq<u8>>, from: Seq<u8>, k: Seq<u8>, n: Seq<u8>)
    requires
        is_first(m, from, k),
        is_first(m, k.push(0), n),
    ensures
        lex_lt(k, n),
        forall|x: Seq<u8>| #[trigger] m.contains_key(x) && lex_lt(k, x) ==> lex_le(n, x),
{
    lemma_lex_successor(k, n);
    assert forall|x: Seq<u8>| #[trigger] m.contains_key(x) && lex_lt(k, x) implies lex_le(n, x) by {
        lemma_lex_successor(k, x);
    }
}

} // verus!
