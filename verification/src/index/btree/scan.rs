//! Range scans and positions.

use vstd::prelude::*;
use vstd::slice::slice_to_vec;

use crate::bytes::bytes_le;
use crate::bytes::has_prefix;
use crate::bytes::lemma_lex_successor;
use crate::bytes::lemma_prefix_range;
use crate::bytes::lex_le;
use crate::bytes::lex_lt;
use crate::bytes::prefix_end;
use crate::bytes::prefix_upper_bound;
use crate::index::btree::layout::leads_to;
use crate::index::btree::BPlusTree;
use crate::index::entry::decode_kv;
use crate::index::entry::kv_key;
use crate::index::entry::kv_value;
use crate::index::key::CompositeKey;
use crate::index::node::leaf_lower_bound;
use crate::index::node::views;
use crate::index::shape::below;
use crate::index::shape::chain_ok;
use crate::index::shape::in_fence;
use crate::index::shape::lemma_holds_in_leaf;
use crate::index::shape::lemma_holds_unique;
use crate::index::shape::lemma_map;
use crate::index::shape::node_ok;
use crate::index::shape::records_hold;
use crate::index::shape::tree_holds;
use crate::index::shape::tree_map;
use crate::index::shape::tree_ok;
use crate::index::shape::Key;
use crate::index::shape::Node;
use crate::index::shape::Pages;
use crate::index::shape::Shape;
use crate::storage::page::PageId;

verus! {

/// `r` lists, in key order, the pairs of `m` whose keys are in `[from, to)`.
pub open spec fn is_range(
    m: Map<Seq<u8>, Seq<u8>>,
    from: Seq<u8>,
    to: Option<Seq<u8>>,
    r: Seq<(Seq<u8>, Seq<u8>)>,
) -> bool {
    &&& forall|i: int, j: int|
        0 <= i < j < r.len() ==> lex_lt((#[trigger] r[i]).0, (#[trigger] r[j]).0)
    &&& forall|i: int|
        0 <= i < r.len() ==> {
            &&& m.contains_key((#[trigger] r[i]).0)
            &&& m[r[i].0] == r[i].1
            &&& lex_le(from, r[i].0)
            &&& below(r[i].0, to)
        }
    &&& forall|k: Seq<u8>| #[trigger]
        m.contains_key(k) && lex_le(from, k) && below(k, to) ==> r.contains((k, m[k]))
}

/// The views of a list of pairs.
pub open spec fn pair_views(r: Seq<(Vec<u8>, Vec<u8>)>) -> Seq<(Seq<u8>, Seq<u8>)> {
    r.map_values(|e: (Vec<u8>, Vec<u8>)| (e.0@, e.1@))
}

/// The views of a list of keys with values.
pub open spec fn key_views(r: Seq<(CompositeKey, Vec<u8>)>) -> Seq<(Seq<u8>, Seq<u8>)> {
    r.map_values(|e: (CompositeKey, Vec<u8>)| (e.0@, e.1@))
}

/// What a scan has found before it reads slot `slot` of leaf `id`.
spec fn scanned(
    st: Pages,
    nodes: Map<u64, Node>,
    from: Key,
    to: Option<Key>,
    id: u64,
    slot: int,
    r: Seq<(Seq<u8>, Seq<u8>)>,
) -> bool {
    let recs = st[id].records;
    &&& forall|i: int, j: int|
        0 <= i < j < r.len() ==> lex_lt((#[trigger] r[i]).0, (#[trigger] r[j]).0)
    &&& forall|i: int|
        0 <= i < r.len() ==> {
            &&& tree_holds(st, nodes, (#[trigger] r[i]).0, r[i].1)
            &&& lex_le(from, r[i].0)
            &&& below(r[i].0, to)
            &&& (lex_lt(r[i].0, nodes[id].lo) || exists|s: int|
                0 <= s < slot && kv_key(#[trigger] recs[s]) == r[i].0)
        }
    &&& forall|k: Key, v: Seq<u8>| #[trigger]
        tree_holds(st, nodes, k, v) && lex_le(from, k) && below(k, to) && (lex_lt(k, nodes[id].lo)
            || exists|s: int| 0 <= s < slot && kv_key(#[trigger] recs[s]) == k) ==> r.contains(
            (k, v),
        )
}

impl BPlusTree {
    /// The pairs with keys in `[from, to)`, in key order; without `to`, all from
    /// `from` on.
    pub fn scan(&self, from: &[u8], to: Option<&[u8]>) -> (r: Vec<(Vec<u8>, Vec<u8>)>)
        requires
            self.wf(),
        ensures
            is_range(
                self@,
                from@,
                match to {
                    Some(t) => Some(t@),
                    None => None,
                },
                pair_views(r@),
            ),
    {
        let ghost st = self.store();
        let ghost sh = self.shape@;
        let ghost nodes = sh.nodes;
        let ghost to_v: Option<Seq<u8>> = match to {
            Some(t) => Some(t@),
            None => None,
        };
        let mut out: Vec<(Vec<u8>, Vec<u8>)> = Vec::new();
        let mut id: PageId = self.find_leaf(from);
        let ghost mut j: int = choose|j: int| 0 <= j < sh.leaves.len() && sh.leaves[j] == id;
        proof {
            lemma_map(st, sh);
            assert(sh.leaves.contains(id));
            lemma_scan_start(st, nodes, from@, to_v, id);
            assert(pair_views(out@) =~= Seq::empty());
        }
        loop
            invariant
                self.wf(),
                st == self.store(),
                sh == self.shape@,
                nodes == sh.nodes,
                tree_ok(st, sh),
                to_v == (match to {
                    Some(t) => Some(t@),
                    None => None::<Seq<u8>>,
                }),
                0 <= j < sh.leaves.len(),
                sh.leaves[j] == id,
                scanned(st, nodes, from@, to_v, id, 0, pair_views(out@)),
            decreases sh.leaves.len() - j,
        {
            proof {
                assert(chain_ok(st, sh, j));
                assert(node_ok(st, nodes, id));
            }
            let page = match self.page_ref(id) {
                Some(p) => p,
                None => {
                    return out;
                },
            };
            let count: u16 = page.slot_count();
            let mut slot: u16 = 0;
            while slot < count
                invariant
                    slot <= count,
                    count as nat == st[id].records.len(),
                    page@ == st[id],
                    tree_ok(st, sh),
                    nodes == sh.nodes,
                    self@ == tree_map(st, nodes),
                    nodes.contains_key(id),
                    nodes[id].height == 0,
                    node_ok(st, nodes, id),
                    st[id].is_leaf(),
                    to_v == (match to {
                        Some(t) => Some(t@),
                        None => None::<Seq<u8>>,
                    }),
                    scanned(st, nodes, from@, to_v, id, slot as int, pair_views(out@)),
                decreases count - slot,
            {
                let ghost before = pair_views(out@);
                match page.key(slot) {
                    Some(rec) => match decode_kv(rec) {
                        Some((k, v)) => {
                            let past: bool = match to {
                                Some(t) => bytes_le(t, k),
                                None => false,
                            };
                            if past {
                                proof {
                                    lemma_scan_stop(st, sh, from@, to_v, id, slot as int, before);
                                }
                                return out;
                            }
                            let take: bool = bytes_le(from, k);
                            if take {
                                out.push((slice_to_vec(k), slice_to_vec(v)));
                                assert(pair_views(out@) =~= before.push((k@, v@)));
                            }
                            proof {
                                lemma_scan_slot(
                                    st,
                                    sh,
                                    from@,
                                    to_v,
                                    id,
                                    slot as int,
                                    before,
                                    pair_views(out@),
                                );
                            }
                        },
                        None => {},
                    },
                    None => {},
                }
                slot += 1;
            }
            let next: PageId = page.btree_header().sibling_next;
            if next == 0 {
                proof {
                    if j + 1 < sh.leaves.len() {
                        assert(chain_ok(st, sh, j + 1));
                    }
                    lemma_scan_end(st, sh, from@, to_v, id, pair_views(out@));
                }
                return out;
            }
            proof {
                assert(j + 1 < sh.leaves.len());
                assert(chain_ok(st, sh, j + 1));
                lemma_scan_next(st, sh, from@, to_v, id, next, pair_views(out@));
                j = j + 1;
            }
            id = next;
        }
    }

    /// The pairs with keys in `[start, end)`, in key order.
    pub fn range_search(
        &self,
        start: &CompositeKey,
        end: &CompositeKey,
    ) -> (r: Vec<(CompositeKey, Vec<u8>)>)
        requires
            self.wf(),
        ensures
            is_range(self@, start@, Some(end@), key_views(r@)),
    {
        let pairs = self.scan(start.as_slice(), Some(end.as_slice()));
        let mut out: Vec<(CompositeKey, Vec<u8>)> = Vec::new();
        let n: usize = pairs.len();
        let mut i: usize = 0;
        while i < n
            invariant
                i <= n,
                n == pairs@.len(),
                out@.len() == i,
                forall|x: int|
                    0 <= x < i ==> (#[trigger] out@[x]).0@ == pairs@[x].0@ && out@[x].1@
                        == pairs@[x].1@,
            decreases n - i,
        {
            let pair = &pairs[i];
            out.push((
                CompositeKey::from_slice(pair.0.as_slice()),
                slice_to_vec(pair.1.as_slice()),
            ));
            i += 1;
        }
        assert(key_views(out@) =~= pair_views(pairs@));
        out
    }

    /// The pairs whose keys start with `prefix`, in key order.
    pub fn scan_prefix(&self, prefix: &[u8]) -> (r: Vec<(Vec<u8>, Vec<u8>)>)
        requires
            self.wf(),
        ensures
            is_prefix_scan(self@, prefix@, pair_views(r@)),
    {
        let end = prefix_upper_bound(prefix);
        let r = match &end {
            Some(e) => self.scan(prefix, Some(e.as_slice())),
            None => self.scan(prefix, None),
        };
        proof {
            assert forall|k: Key| #[trigger] has_prefix(k, prefix@) == (lex_le(prefix@, k)
                && below(k, prefix_end(prefix@))) by {
                lemma_prefix_range(prefix@, k);
            }
            let rv = pair_views(r@);
            assert forall|i: int| 0 <= i < rv.len() implies has_prefix(
                (#[trigger] rv[i]).0,
                prefix@,
            ) by {
                assert(lex_le(prefix@, rv[i].0));
            }
        }
        r
    }
}

// ---------------------------------------------------------------------------
// Positions
// ---------------------------------------------------------------------------

/// `k` is the first key of `m` from `from` on.
pub open spec fn is_first(m: Map<Seq<u8>, Seq<u8>>, from: Seq<u8>, k: Seq<u8>) -> bool {
    &&& m.contains_key(k)
    &&& lex_le(from, k)
    &&& forall|x: Seq<u8>| #[trigger] m.contains_key(x) && lex_le(from, x) ==> lex_le(k, x)
}

/// `m` has no key from `from` on.
pub open spec fn none_from(m: Map<Seq<u8>, Seq<u8>>, from: Seq<u8>) -> bool {
    forall|x: Seq<u8>| #[trigger] m.contains_key(x) ==> !lex_le(from, x)
}

/// A range lists each key of the map that is not below its start and is below its end, if
/// there is one, once and with its value, in key order.
pub proof fn law_range(
    m: Map<Seq<u8>, Seq<u8>>,
    from: Seq<u8>,
    to: Option<Seq<u8>>,
    r: Seq<(Seq<u8>, Seq<u8>)>,
    k: Seq<u8>,
)
    requires
        is_range(m, from, to, r),
    ensures
        (exists|i: int| 0 <= i < r.len() && (#[trigger] r[i]).0 == k) <==> m.contains_key(k)
            && lex_le(from, k) && (to matches Some(end) ==> lex_lt(k, end)),
        forall|i: int| 0 <= i < r.len() && (#[trigger] r[i]).0 == k ==> r[i].1 == m[k],
        forall|i: int, j: int|
            0 <= i < j < r.len() ==> lex_lt((#[trigger] r[i]).0, (#[trigger] r[j]).0),
{
    if m.contains_key(k) && lex_le(from, k) && below(k, to) {
        assert(r.contains((k, m[k])));
        let i = choose|i: int| 0 <= i < r.len() && r[i] == (k, m[k]);
        assert(r[i].0 == k);
    }
}

/// A scan of a prefix lists each key that starts with it, once and with its value, in key
/// order.
pub proof fn law_prefix_scan(
    m: Map<Seq<u8>, Seq<u8>>,
    prefix: Seq<u8>,
    r: Seq<(Seq<u8>, Seq<u8>)>,
    k: Seq<u8>,
)
    requires
        is_prefix_scan(m, prefix, r),
    ensures
        (exists|i: int| 0 <= i < r.len() && (#[trigger] r[i]).0 == k) <==> m.contains_key(k)
            && has_prefix(k, prefix),
        forall|i: int| 0 <= i < r.len() && (#[trigger] r[i]).0 == k ==> r[i].1 == m[k],
        forall|i: int, j: int|
            0 <= i < j < r.len() ==> lex_lt((#[trigger] r[i]).0, (#[trigger] r[j]).0),
{
    if m.contains_key(k) && has_prefix(k, prefix) {
        assert(r.contains((k, m[k])));
        let i = choose|i: int| 0 <= i < r.len() && r[i] == (k, m[k]);
        assert(r[i].0 == k);
    }
}

/// The first key from a place on is in the map, not below the place, and before every other
/// such key.
pub proof fn law_first_key(m: Map<Seq<u8>, Seq<u8>>, from: Seq<u8>, k: Seq<u8>, x: Seq<u8>)
    ensures
        is_first(m, from, k) ==> m.contains_key(k) && lex_le(from, k) && (m.contains_key(x)
            && lex_le(from, x) ==> lex_le(k, x)),
        none_from(m, from) && m.contains_key(x) ==> lex_lt(x, from),
{
}

impl BPlusTree {
    /// Slot `slot` of page `page_id` is a record of a leaf of the tree.
    pub closed spec fn is_position(&self, page_id: PageId, slot: u16) -> bool {
        &&& self.shape@.nodes.contains_key(page_id)
        &&& self.shape@.nodes[page_id].height == 0
        &&& slot < self.store()[page_id].records.len()
    }

    /// The key at a position.
    pub closed spec fn key_at(&self, page_id: PageId, slot: u16) -> Seq<u8> {
        kv_key(self.store()[page_id].records[slot as int])
    }

    /// The position of the first key from `key` on.
    pub fn first_from(&self, key: &[u8]) -> (r: Option<(PageId, u16)>)
        requires
            self.wf(),
        ensures
            match r {
                Some((id, slot)) => self.is_position(id, slot) && is_first(
                    self@,
                    key@,
                    self.key_at(id, slot),
                ),
                None => none_from(self@, key@),
            },
    {
        let id: PageId = self.find_leaf(key);
        let ghost st = self.store();
        let ghost nodes = self.shape@.nodes;
        proof {
            assert(node_ok(st, nodes, id));
            lemma_scan_start(st, nodes, key@, None, id);
        }
        let slot: u16 = match self.page_ref(id) {
            Some(page) => leaf_lower_bound(page, key),
            None => 0,
        };
        proof {
            let recs = st[id].records;
            assert forall|k: Key, v: Seq<u8>| #[trigger]
                tree_holds(st, nodes, k, v) && lex_le(key@, k) && (lex_lt(k, nodes[id].lo)
                    || exists|s: int|
                    0 <= s < slot && kv_key(#[trigger] recs[s]) == k) implies Seq::<
                (Seq<u8>, Seq<u8>),
            >::empty().contains((k, v)) by {
                if !lex_lt(k, nodes[id].lo) {
                    let s = choose|s: int| 0 <= s < slot && kv_key(#[trigger] recs[s]) == k;
                    assert(lex_lt(kv_key(recs[s]), key@));
                }
            }
        }
        proof {
            broadcast use crate::bytes::group_lex_order;

            assert forall|h: Key| nodes[id].hi == Some(h) implies lex_le(key@, h) by {}
        }
        self.settle(id, slot, Ghost(key@))
    }

    /// The position of the key after the one at a position.
    pub fn next_position(&self, page_id: PageId, slot: u16) -> (r: Option<(PageId, u16)>)
        requires
            self.wf(),
            self.is_position(page_id, slot),
        ensures
            match r {
                Some((id, s)) => self.is_position(id, s) && is_first(
                    self@,
                    self.key_at(page_id, slot).push(0),
                    self.key_at(id, s),
                ),
                None => none_from(self@, self.key_at(page_id, slot).push(0)),
            },
    {
        let ghost st = self.store();
        let ghost nodes = self.shape@.nodes;
        let ghost recs = st[page_id].records;
        let ghost k0 = self.key_at(page_id, slot);
        let ghost from = k0.push(0);
        proof {
            assert(node_ok(st, nodes, page_id));
            self.lemma_slot_bound(page_id);
            assert forall|k: Key, v: Seq<u8>| #[trigger]
                tree_holds(st, nodes, k, v) && lex_le(from, k) && (lex_lt(k, nodes[page_id].lo)
                    || exists|s: int|
                    0 <= s < slot + 1 && kv_key(#[trigger] recs[s]) == k) implies Seq::<
                (Seq<u8>, Seq<u8>),
            >::empty().contains((k, v)) by {
                broadcast use crate::bytes::group_lex_order;

                lemma_lex_successor(k0, k);
                assert(in_fence(k0, nodes[page_id]));
                if !lex_lt(k, nodes[page_id].lo) {
                    let s = choose|s: int| 0 <= s < slot + 1 && kv_key(#[trigger] recs[s]) == k;
                    if s < slot {
                        assert(lex_lt(kv_key(recs[s]), kv_key(recs[slot as int])));
                    }
                }
            }
        }
        proof {
            assert forall|s: int| slot + 1 <= s < recs.len() implies lex_le(
                from,
                kv_key(#[trigger] recs[s]),
            ) by {
                lemma_lex_successor(k0, kv_key(recs[s]));
                assert(lex_lt(kv_key(recs[slot as int]), kv_key(recs[s])));
            }
            assert forall|h: Key| nodes[page_id].hi == Some(h) implies lex_le(from, h) by {
                assert(in_fence(k0, nodes[page_id]));
                lemma_lex_successor(k0, h);
            }
        }
        self.settle(page_id, slot + 1, Ghost(from))
    }

    /// The key and value at a position.
    pub fn entry_at(&self, page_id: PageId, slot: u16) -> (r: (Vec<u8>, Vec<u8>))
        requires
            self.wf(),
            self.is_position(page_id, slot),
        ensures
            r.0@ == self.key_at(page_id, slot),
            self@.contains_key(r.0@),
            self@[r.0@] == r.1@,
    {
        let ghost st = self.store();
        let ghost sh = self.shape@;
        proof {
            assert(node_ok(st, sh.nodes, page_id));
            lemma_map(st, sh);
            let rec = st[page_id].records[slot as int];
            assert(records_hold(st[page_id].records, kv_key(rec), kv_value(rec)));
            assert(tree_holds(st, sh.nodes, kv_key(rec), kv_value(rec)));
        }
        match self.page_ref(page_id) {
            Some(page) => match page.key(slot) {
                Some(rec) => match decode_kv(rec) {
                    Some((k, v)) => (slice_to_vec(k), slice_to_vec(v)),
                    None => (Vec::new(), Vec::new()),
                },
                None => (Vec::new(), Vec::new()),
            },
            None => (Vec::new(), Vec::new()),
        }
    }

    /// Is leaf `id` the one that a descent from the root by `key` ends on?
    pub open spec fn is_leaf_for(&self, key: Seq<u8>, id: PageId) -> bool {
        exists|path: Seq<(PageId, usize)>| #[trigger]
            leads_to(self.layout(), self.root(), key, path, id)
    }

    /// The leaf that is responsible for `key`.
    pub(crate) fn leaf_for(&self, key: &[u8]) -> (id: PageId)
        requires
            self.wf(),
        ensures
            self.leaf_ids().contains(id),
            self.is_leaf_for(key@, id),
    {
        let (id, path) = self.descend(key);
        assert(leads_to(self.layout(), self.root(), key@, path@, id));
        id
    }

    /// A position lies on a leaf.
    pub proof fn lemma_position_stored(&self, page_id: PageId, slot: u16)
        requires
            self.wf(),
            self.is_position(page_id, slot),
        ensures
            self.store().contains_key(page_id),
            self.leaf_ids().contains(page_id),
    {
        assert(node_ok(self.store(), self.shape@.nodes, page_id));
    }

    proof fn lemma_slot_bound(&self, page_id: PageId)
        requires
            self.wf(),
            self.shape@.nodes.contains_key(page_id),
        ensures
            self.store()[page_id].records.len() <= 2024,
    {
        assert(node_ok(self.store(), self.shape@.nodes, page_id));
        assert(self.pages@.contains_key(page_id));
        self.pages@[page_id].lemma_wf();
    }

    /// The first position at or after slot `slot` of leaf `page_id`, which may
    /// be past its end.
    fn settle(
        &self,
        page_id: PageId,
        slot: u16,
        Ghost(from): Ghost<Seq<u8>>,
    ) -> (r: Option<(PageId, u16)>)
        requires
            self.wf(),
            self.shape@.nodes.contains_key(page_id),
            self.shape@.nodes[page_id].height == 0,
            slot <= self.store()[page_id].records.len(),
            scanned(
                self.store(),
                self.shape@.nodes,
                from,
                None,
                page_id,
                slot as int,
                Seq::empty(),
            ),
            forall|s: int|
                slot <= s < self.store()[page_id].records.len() ==> lex_le(
                    from,
                    kv_key(#[trigger] self.store()[page_id].records[s]),
                ),
            forall|h: Key| self.shape@.nodes[page_id].hi == Some(h) ==> lex_le(from, h),
        ensures
            match r {
                Some((id, s)) => self.is_position(id, s) && is_first(
                    self@,
                    from,
                    self.key_at(id, s),
                ),
                None => none_from(self@, from),
            },
    {
        let ghost st = self.store();
        let ghost sh = self.shape@;
        let ghost nodes = sh.nodes;
        let ghost none: Seq<(Seq<u8>, Seq<u8>)> = Seq::empty();
        let mut id: PageId = page_id;
        let mut slot: u16 = slot;
        let ghost mut j: int = choose|j: int| 0 <= j < sh.leaves.len() && sh.leaves[j] == id;
        proof {
            assert(sh.leaves.contains(id));
        }
        loop
            invariant
                self.wf(),
                st == self.store(),
                sh == self.shape@,
                nodes == sh.nodes,
                tree_ok(st, sh),
                0 <= j < sh.leaves.len(),
                sh.leaves[j] == id,
                none == Seq::<(Seq<u8>, Seq<u8>)>::empty(),
                slot <= st[id].records.len(),
                scanned(st, nodes, from, None, id, slot as int, none),
                forall|s: int|
                    slot <= s < st[id].records.len() ==> lex_le(
                        from,
                        kv_key(#[trigger] st[id].records[s]),
                    ),
                forall|h: Key| nodes[id].hi == Some(h) ==> lex_le(from, h),
            decreases sh.leaves.len() - j,
        {
            proof {
                assert(chain_ok(st, sh, j));
                assert(node_ok(st, nodes, id));
            }
            let page = match self.page_ref(id) {
                Some(p) => p,
                None => {
                    return None;
                },
            };
            if slot < page.slot_count() {
                proof {
                    lemma_first_at(st, sh, from, id, slot as int);
                }
                return Some((id, slot));
            }
            let next: PageId = page.btree_header().sibling_next;
            if next == 0 {
                proof {
                    if j + 1 < sh.leaves.len() {
                        assert(chain_ok(st, sh, j + 1));
                    }
                    lemma_scan_end(st, sh, from, None, id, none);
                    assert forall|x: Seq<u8>| #[trigger] self@.contains_key(x) implies !lex_le(
                        from,
                        x,
                    ) by {
                        if lex_le(from, x) {
                            assert(none.contains((x, self@[x])));
                        }
                    }
                }
                return None;
            }
            proof {
                assert(j + 1 < sh.leaves.len());
                assert(chain_ok(st, sh, j + 1));
                assert(node_ok(st, nodes, next));
                lemma_scan_next(st, sh, from, None, id, next, none);
                assert forall|s: int| 0 <= s < st[next].records.len() implies lex_le(
                    from,
                    kv_key(#[trigger] st[next].records[s]),
                ) by {
                    broadcast use crate::bytes::group_lex_order;

                    assert(in_fence(kv_key(st[next].records[s]), nodes[next]));
                }
                assert forall|h: Key| nodes[next].hi == Some(h) implies lex_le(from, h) by {
                    broadcast use crate::bytes::group_lex_order;

                    assert(below(nodes[next].lo, nodes[next].hi));
                }
                j = j + 1;
            }
            id = next;
            slot = 0;
        }
    }
}

/// The record that a scan has come to without finding anything is the first.
proof fn lemma_first_at(st: Pages, sh: Shape, from: Key, id: u64, slot: int)
    requires
        tree_ok(st, sh),
        sh.nodes.contains_key(id),
        sh.nodes[id].height == 0,
        0 <= slot < st[id].records.len(),
        scanned(st, sh.nodes, from, None, id, slot, Seq::empty()),
        lex_le(from, kv_key(st[id].records[slot])),
    ensures
        is_first(tree_map(st, sh.nodes), from, kv_key(st[id].records[slot])),
{
    broadcast use crate::bytes::group_lex_order;

    let nodes = sh.nodes;
    let recs = st[id].records;
    let k = kv_key(recs[slot]);
    let m = tree_map(st, nodes);
    lemma_map(st, sh);
    assert(node_ok(st, nodes, id));
    assert(in_fence(k, nodes[id]));
    assert(records_hold(recs, k, kv_value(recs[slot])));
    lemma_holds_in_leaf(st, sh, id, k, kv_value(recs[slot]));
    assert(tree_holds(st, nodes, k, kv_value(recs[slot])));
    assert forall|x: Seq<u8>| #[trigger] m.contains_key(x) && lex_le(from, x) implies lex_le(
        k,
        x,
    ) by {
        if lex_lt(x, k) {
            assert(tree_holds(st, nodes, x, m[x]));
            lemma_scan_leaf_done(st, sh, from, None, id, slot, Seq::empty(), x, m[x]);
        }
    }
}

/// `r` lists, in key order, the pairs of `m` whose keys start with `prefix`.
pub open spec fn is_prefix_scan(
    m: Map<Seq<u8>, Seq<u8>>,
    prefix: Seq<u8>,
    r: Seq<(Seq<u8>, Seq<u8>)>,
) -> bool {
    &&& forall|i: int, j: int|
        0 <= i < j < r.len() ==> lex_lt((#[trigger] r[i]).0, (#[trigger] r[j]).0)
    &&& forall|i: int|
        0 <= i < r.len() ==> {
            &&& m.contains_key((#[trigger] r[i]).0)
            &&& m[r[i].0] == r[i].1
            &&& has_prefix(r[i].0, prefix)
        }
    &&& forall|k: Seq<u8>| #[trigger]
        m.contains_key(k) && has_prefix(k, prefix) ==> r.contains((k, m[k]))
}

/// Nothing below the leaf responsible for `from` is in the range.
proof fn lemma_scan_start(st: Pages, nodes: Map<u64, Node>, from: Key, to: Option<Key>, id: u64)
    requires
        nodes.contains_key(id),
        in_fence(from, nodes[id]),
    ensures
        scanned(st, nodes, from, to, id, 0, Seq::empty()),
{
    broadcast use crate::bytes::group_lex_order;

}

/// One more slot was read.
proof fn lemma_scan_slot(
    st: Pages,
    sh: Shape,
    from: Key,
    to: Option<Key>,
    id: u64,
    slot: int,
    before: Seq<(Seq<u8>, Seq<u8>)>,
    after: Seq<(Seq<u8>, Seq<u8>)>,
)
    requires
        tree_ok(st, sh),
        sh.nodes.contains_key(id),
        sh.nodes[id].height == 0,
        node_ok(st, sh.nodes, id),
        0 <= slot < st[id].records.len(),
        scanned(st, sh.nodes, from, to, id, slot, before),
        below(kv_key(st[id].records[slot]), to),
        after == (if lex_le(from, kv_key(st[id].records[slot])) {
            before.push((kv_key(st[id].records[slot]), kv_value(st[id].records[slot])))
        } else {
            before
        }),
    ensures
        scanned(st, sh.nodes, from, to, id, slot + 1, after),
{
    broadcast use crate::bytes::group_lex_order;

    let nodes = sh.nodes;
    let recs = st[id].records;
    let key = kv_key(recs[slot]);
    let val = kv_value(recs[slot]);
    assert(records_hold(recs, key, val));
    assert(in_fence(key, nodes[id]));
    lemma_holds_in_leaf(st, sh, id, key, val);
    assert(tree_holds(st, nodes, key, val));
    assert forall|i: int| 0 <= i < before.len() implies lex_lt((#[trigger] before[i]).0, key) by {
        if !lex_lt(before[i].0, nodes[id].lo) {
            let s = choose|s: int| 0 <= s < slot && kv_key(#[trigger] recs[s]) == before[i].0;
            assert(lex_lt(kv_key(recs[s]), kv_key(recs[slot])));
        }
    }
    assert forall|i: int| 0 <= i < after.len() implies {
        &&& tree_holds(st, nodes, (#[trigger] after[i]).0, after[i].1)
        &&& lex_le(from, after[i].0)
        &&& below(after[i].0, to)
        &&& (lex_lt(after[i].0, nodes[id].lo) || exists|s: int|
            0 <= s < slot + 1 && kv_key(#[trigger] recs[s]) == after[i].0)
    } by {
        if i < before.len() {
            assert(after[i] == before[i]);
            if !lex_lt(before[i].0, nodes[id].lo) {
                let s = choose|s: int| 0 <= s < slot && kv_key(#[trigger] recs[s]) == before[i].0;
                assert(kv_key(recs[s]) == after[i].0);
            }
        } else {
            assert(kv_key(recs[slot]) == after[i].0);
        }
    }
    assert forall|k: Key, v: Seq<u8>| #[trigger]
        tree_holds(st, nodes, k, v) && lex_le(from, k) && below(k, to) && (lex_lt(
            k,
            nodes[id].lo,
        ) || exists|s: int| 0 <= s < slot + 1 && kv_key(#[trigger] recs[s]) == k) implies after.contains(
        (k, v),
    ) by {
        if k == key {
            lemma_holds_unique(st, sh, k, v, val);
            assert(after[before.len() as int] == (k, v));
        } else {
            if !lex_lt(k, nodes[id].lo) {
                let s = choose|s: int| 0 <= s < slot + 1 && kv_key(#[trigger] recs[s]) == k;
                assert(0 <= s < slot && kv_key(recs[s]) == k);
            }
            assert(before.contains((k, v)));
            let i = choose|i: int| 0 <= i < before.len() && before[i] == (k, v);
            assert(after[i] == (k, v));
        }
    }
}

/// The scan of a leaf is complete: what is left lies beyond its fence.
proof fn lemma_scan_leaf_done(
    st: Pages,
    sh: Shape,
    from: Key,
    to: Option<Key>,
    id: u64,
    slot: int,
    r: Seq<(Seq<u8>, Seq<u8>)>,
    k: Key,
    v: Seq<u8>,
)
    requires
        tree_ok(st, sh),
        sh.nodes.contains_key(id),
        sh.nodes[id].height == 0,
        node_ok(st, sh.nodes, id),
        0 <= slot <= st[id].records.len(),
        scanned(st, sh.nodes, from, to, id, slot, r),
        tree_holds(st, sh.nodes, k, v),
        lex_le(from, k),
        below(k, to),
        below(k, sh.nodes[id].hi),
        slot < st[id].records.len() ==> lex_lt(k, kv_key(st[id].records[slot])),
    ensures
        r.contains((k, v)),
{
    broadcast use crate::bytes::group_lex_order;

    let recs = st[id].records;
    if !lex_lt(k, sh.nodes[id].lo) {
        lemma_holds_in_leaf(st, sh, id, k, v);
        let s = choose|s: int|
            0 <= s < recs.len() && kv_key(#[trigger] recs[s]) == k && kv_value(recs[s]) == v;
        if s >= slot {
            if s > slot {
                assert(lex_lt(kv_key(recs[slot]), kv_key(recs[s])));
            }
        }
        assert(0 <= s < slot && kv_key(recs[s]) == k);
    }
}

/// A key at or beyond the end of the range ends the scan.
proof fn lemma_scan_stop(
    st: Pages,
    sh: Shape,
    from: Key,
    to: Option<Key>,
    id: u64,
    slot: int,
    r: Seq<(Seq<u8>, Seq<u8>)>,
)
    requires
        tree_ok(st, sh),
        sh.nodes.contains_key(id),
        sh.nodes[id].height == 0,
        node_ok(st, sh.nodes, id),
        0 <= slot < st[id].records.len(),
        scanned(st, sh.nodes, from, to, id, slot, r),
        !below(kv_key(st[id].records[slot]), to),
    ensures
        is_range(tree_map(st, sh.nodes), from, to, r),
{
    broadcast use crate::bytes::group_lex_order;

    lemma_map(st, sh);
    let m = tree_map(st, sh.nodes);
    let recs = st[id].records;
    assert(in_fence(kv_key(recs[slot]), sh.nodes[id]));
    assert forall|k: Seq<u8>| #[trigger]
        m.contains_key(k) && lex_le(from, k) && below(k, to) implies r.contains((k, m[k])) by {
        assert(tree_holds(st, sh.nodes, k, m[k]));
        lemma_scan_leaf_done(st, sh, from, to, id, slot, r, k, m[k]);
    }
}

/// The last leaf ends the scan.
proof fn lemma_scan_end(
    st: Pages,
    sh: Shape,
    from: Key,
    to: Option<Key>,
    id: u64,
    r: Seq<(Seq<u8>, Seq<u8>)>,
)
    requires
        tree_ok(st, sh),
        sh.nodes.contains_key(id),
        sh.nodes[id].height == 0,
        node_ok(st, sh.nodes, id),
        sh.nodes[id].hi == None::<Key>,
        scanned(st, sh.nodes, from, to, id, st[id].records.len() as int, r),
    ensures
        is_range(tree_map(st, sh.nodes), from, to, r),
{
    lemma_map(st, sh);
    let m = tree_map(st, sh.nodes);
    assert forall|k: Seq<u8>| #[trigger]
        m.contains_key(k) && lex_le(from, k) && below(k, to) implies r.contains((k, m[k])) by {
        assert(tree_holds(st, sh.nodes, k, m[k]));
        lemma_scan_leaf_done(
            st,
            sh,
            from,
            to,
            id,
            st[id].records.len() as int,
            r,
            k,
            m[k],
        );
    }
}

/// The scan goes on with the next leaf.
proof fn lemma_scan_next(
    st: Pages,
    sh: Shape,
    from: Key,
    to: Option<Key>,
    id: u64,
    next: u64,
    r: Seq<(Seq<u8>, Seq<u8>)>,
)
    requires
        tree_ok(st, sh),
        sh.nodes.contains_key(id),
        sh.nodes[id].height == 0,
        node_ok(st, sh.nodes, id),
        sh.nodes.contains_key(next),
        sh.nodes[id].hi == Some(sh.nodes[next].lo),
        scanned(st, sh.nodes, from, to, id, st[id].records.len() as int, r),
    ensures
        scanned(st, sh.nodes, from, to, next, 0, r),
{
    broadcast use crate::bytes::group_lex_order;

    let nodes = sh.nodes;
    let recs = st[id].records;
    assert forall|i: int| 0 <= i < r.len() implies lex_lt((#[trigger] r[i]).0, nodes[next].lo) by {
        if !lex_lt(r[i].0, nodes[id].lo) {
            let s = choose|s: int|
                0 <= s < recs.len() && kv_key(#[trigger] recs[s]) == r[i].0;
            assert(in_fence(kv_key(recs[s]), nodes[id]));
        }
    }
    assert forall|k: Key, v: Seq<u8>| #[trigger]
        tree_holds(st, nodes, k, v) && lex_le(from, k) && below(k, to) && lex_lt(
            k,
            nodes[next].lo,
        ) implies r.contains((k, v)) by {
        lemma_scan_leaf_done(st, sh, from, to, id, recs.len() as int, r, k, v);
    }
}

} // verus!
