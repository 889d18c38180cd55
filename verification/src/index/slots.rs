//! A B+ tree of slot references.
//!
//! Every secondary index maps keys to the slots of records. A slot is stored as
//! its 4 big-endian bytes.

use vstd::prelude::*;
use vstd::slice::slice_subrange;

use crate::bytes::be_bytes;
use crate::bytes::be_bytes_len;
use crate::bytes::be_value;
use crate::bytes::copy_range;
use crate::bytes::has_prefix;
use crate::bytes::lemma_be_order;
use crate::bytes::lemma_be_roundtrip;
use crate::bytes::lemma_be_value_roundtrip;
use crate::bytes::lemma_lex_prefix;
use crate::bytes::lemma_lex_total;
use crate::bytes::lemma_lex_trans;
use crate::bytes::lemma_pow256_sizes;
use crate::bytes::lex_le;
use crate::bytes::lex_lt;
use crate::bytes::push_be;
use crate::bytes::read_be;
use crate::graph::record::SlotRef;
use crate::index::btree::is_prefix_scan;
use crate::index::btree::pair_views;
use crate::index::btree::BPlusTree;
use crate::index::btree::BPlusTreeConfig;
use crate::index::btree::BTreeError;
use crate::index::key::be_u128;
use crate::index::key::CompositeKey;
use crate::index::page::PAGE_CAPACITY;
use crate::storage::page::SLOT_SIZE;

verus! {

/// The bytes of a slot.
pub open spec fn slot_bytes(slot: SlotRef) -> Seq<u8> {
    be_bytes(slot.raw as nat, 4)
}

/// The slot in the first 4 of these bytes.
pub open spec fn slot_of(bytes: Seq<u8>) -> SlotRef {
    SlotRef { raw: be_value(bytes.take(4)) as u32 }
}

/// A slot is read back from its bytes.
pub proof fn law_slot_roundtrip(slot: SlotRef)
    ensures
        slot_bytes(slot).len() == 4,
        slot_of(slot_bytes(slot)) == slot,
{
    broadcast use be_bytes_len;

    lemma_pow256_sizes();
    lemma_be_roundtrip(slot.raw as nat, 4);
    assert(slot_bytes(slot).take(4) =~= slot_bytes(slot));
}

/// The bytes of a slot.
pub fn encode_slot_ref(slot: SlotRef) -> (r: Vec<u8>)
    ensures
        r@ == slot_bytes(slot),
{
    let mut out: Vec<u8> = Vec::new();
    push_be(&mut out, slot.raw as u128, 4);
    assert(out@ =~= slot_bytes(slot));
    out
}

/// The slot in the first 4 bytes; `None` where there are fewer.
pub fn decode_slot_ref(bytes: &[u8]) -> (r: Option<SlotRef>)
    ensures
        match r {
            Some(slot) => bytes@.len() >= 4 && slot == slot_of(bytes@),
            None => bytes@.len() < 4,
        },
{
    if bytes.len() < 4 {
        return None;
    }
    proof {
        lemma_pow256_sizes();
    }
    let head = slice_subrange(bytes, 0, 4);
    assert(head@ =~= bytes@.take(4));
    Some(SlotRef { raw: read_be(head) as u32 })
}

/// What an insertion returns: it fails where the page ids are used up.
pub open spec fn insert_result(full: bool, r: Result<(), BTreeError>) -> bool {
    if full {
        r == Err::<(), BTreeError>(BTreeError::SplitFailed)
    } else {
        r is Ok
    }
}

/// An insertion fails where an index is full, and only there.
pub proof fn law_insert_result(full: bool, r: Result<(), BTreeError>)
    ensures
        insert_result(full, r) <==> (full && r == Err::<(), BTreeError>(BTreeError::SplitFailed))
            || (!full && r is Ok),
{
}

/// The entries whose keys are `prefix` and an id of 16 bytes, by that id.
pub open spec fn tails(m: Map<Seq<u8>, SlotRef>, prefix: Seq<u8>) -> Map<u128, SlotRef> {
    Map::new(
        |id: u128| m.contains_key(prefix + be_u128(id)),
        |id: u128| m[prefix + be_u128(id)],
    )
}

/// Does `r` list `m` by rising id?
pub open spec fn lists_ids(m: Map<u128, SlotRef>, r: Seq<(u128, SlotRef)>) -> bool {
    &&& forall|i: int, j: int| 0 <= i < j < r.len() ==> (#[trigger] r[i]).0 < (#[trigger] r[j]).0
    &&& forall|i: int|
        0 <= i < r.len() ==> m.contains_key((#[trigger] r[i]).0) && m[r[i].0] == r[i].1
    &&& forall|id: u128| #[trigger] m.contains_key(id) ==> r.contains((id, m[id]))
}

/// Does `r` list the slots of `m` by rising id?
pub open spec fn lists_slots(m: Map<u128, SlotRef>, r: Seq<SlotRef>) -> bool {
    exists|p: Seq<(u128, SlotRef)>| #[trigger] lists_ids(m, p) && r == slots_in(p)
}

/// What a list of ids with slots is: each id of the map once, with its slot, by rising id.
pub proof fn law_listed_ids(m: Map<u128, SlotRef>, r: Seq<(u128, SlotRef)>, id: u128)
    requires
        lists_ids(m, r),
    ensures
        m.contains_key(id) <==> exists|i: int| 0 <= i < r.len() && (#[trigger] r[i]).0 == id,
        forall|i: int| 0 <= i < r.len() && (#[trigger] r[i]).0 == id ==> r[i].1 == m[id],
        forall|i: int, j: int|
            0 <= i < j < r.len() ==> (#[trigger] r[i]).0 < (#[trigger] r[j]).0,
        r.no_duplicates(),
{
    if m.contains_key(id) {
        assert(r.contains((id, m[id])));
        let i = choose|i: int| 0 <= i < r.len() && r[i] == (id, m[id]);
        assert(r[i].0 == id);
    }
    if exists|i: int| 0 <= i < r.len() && (#[trigger] r[i]).0 == id {
        let i = choose|i: int| 0 <= i < r.len() && (#[trigger] r[i]).0 == id;
        assert(m.contains_key(r[i].0));
    }
}

/// The slots of a map by rising id: one for each entry.
pub proof fn law_listed_slots(m: Map<u128, SlotRef>, r: Seq<SlotRef>)
    requires
        lists_slots(m, r),
    ensures
        exists|p: Seq<(u128, SlotRef)>| #[trigger]
            lists_ids(m, p) && p.len() == r.len() && forall|i: int|
                0 <= i < r.len() ==> #[trigger] r[i] == p[i].1,
{
    let p = choose|p: Seq<(u128, SlotRef)>| #[trigger] lists_ids(m, p) && r == slots_in(p);
    assert(lists_ids(m, p));
}

/// The entries behind a prefix are those whose keys are the prefix and sixteen bytes with
/// the id, the highest first.
pub proof fn law_entries_behind(m: Map<Seq<u8>, SlotRef>, prefix: Seq<u8>, id: u128)
    ensures
        tails(m, prefix).contains_key(id) <==> m.contains_key(prefix + be_u128(id)),
        tails(m, prefix).contains_key(id) ==> tails(m, prefix)[id] == m[prefix + be_u128(id)],
        be_u128(id).len() == 16,
        be_value(be_u128(id)) == id,
{
    broadcast use be_bytes_len;

    lemma_pow256_sizes();
    lemma_be_roundtrip(id as nat, 16);
}

/// Does a list hold, in key order, all entries whose keys start with a prefix, each once?
pub proof fn law_listed_keys(
    m: Map<Seq<u8>, SlotRef>,
    prefix: Seq<u8>,
    r: Seq<(Seq<u8>, SlotRef)>,
    k: Seq<u8>,
)
    requires
        lists_keys(m, prefix, r),
    ensures
        m.contains_key(k) && has_prefix(k, prefix) <==> exists|i: int|
            0 <= i < r.len() && (#[trigger] r[i]).0 == k,
        forall|i: int| 0 <= i < r.len() && (#[trigger] r[i]).0 == k ==> r[i].1 == m[k],
        forall|i: int, j: int|
            0 <= i < j < r.len() ==> lex_lt((#[trigger] r[i]).0, (#[trigger] r[j]).0),
{
    if m.contains_key(k) && has_prefix(k, prefix) {
        assert(r.contains((k, m[k])));
        let i = choose|i: int| 0 <= i < r.len() && r[i] == (k, m[k]);
        assert(r[i].0 == k);
    }
}

/// The slots of a list of ids with slots.
pub open spec fn slots_in(p: Seq<(u128, SlotRef)>) -> Seq<SlotRef> {
    p.map_values(|e: (u128, SlotRef)| e.1)
}

/// Does `r` list, in key order, the entries of `m` whose keys start with
/// `prefix`?
pub open spec fn lists_keys(
    m: Map<Seq<u8>, SlotRef>,
    prefix: Seq<u8>,
    r: Seq<(Seq<u8>, SlotRef)>,
) -> bool {
    &&& forall|i: int, j: int|
        0 <= i < j < r.len() ==> lex_lt((#[trigger] r[i]).0, (#[trigger] r[j]).0)
    &&& forall|i: int|
        0 <= i < r.len() ==> {
            &&& m.contains_key((#[trigger] r[i]).0)
            &&& m[r[i].0] == r[i].1
            &&& has_prefix(r[i].0, prefix)
        }
    &&& forall|k: Seq<u8>| #[trigger]
        m.contains_key(k) && has_prefix(k, prefix) ==> r.contains((k, m[k]))
}

/// The views of a list of keys with slots.
pub open spec fn slot_views(r: Seq<(Vec<u8>, SlotRef)>) -> Seq<(Seq<u8>, SlotRef)> {
    r.map_values(|e: (Vec<u8>, SlotRef)| (e.0@, e.1))
}

/// A B+ tree of slot references.
pub struct SlotIndex {
    tree: BPlusTree,
}

impl View for SlotIndex {
    type V = Map<Seq<u8>, SlotRef>;

    closed spec fn view(&self) -> Map<Seq<u8>, SlotRef> {
        Map::new(
            |k: Seq<u8>| self.tree@.contains_key(k),
            |k: Seq<u8>| slot_of(self.tree@[k]),
        )
    }
}

impl SlotIndex {
    /// Is the tree well-formed, with a slot under every key?
    pub closed spec fn wf(&self) -> bool {
        &&& self.tree.wf()
        &&& forall|k: Seq<u8>| #[trigger] self.tree@.contains_key(k) ==> self.tree@[k].len() == 4
    }

    /// Are the page ids of the tree used up?
    pub closed spec fn is_full(&self) -> bool {
        self.tree.ids_exhausted()
    }

    /// For how many insertions are there page ids left at least?
    pub closed spec fn room(&self) -> int {
        self.tree.room()
    }

    /// An index with room is not full.
    pub proof fn lemma_room(&self)
        requires
            self.room() > 0,
        ensures
            !self.is_full(),
    {
    }

    /// An empty index.
    pub fn new() -> (r: Self)
        ensures
            r.wf(),
            r@ == Map::<Seq<u8>, SlotRef>::empty(),
            !r.is_full(),
            r.room() == 0x4000_0000,
    {
        let r = SlotIndex { tree: BPlusTree::new(BPlusTreeConfig::default()) };
        assert(r@ =~= Map::<Seq<u8>, SlotRef>::empty());
        r
    }

    /// The tree that holds the entries.
    pub fn tree(&self) -> (r: &BPlusTree)
        requires
            self.wf(),
        ensures
            r.wf(),
            r@.dom() == self@.dom(),
            forall|k: Seq<u8>| #[trigger]
                self@.contains_key(k) ==> r@[k] == slot_bytes(self@[k]),
    {
        proof {
            assert(self.tree@.dom() =~= self@.dom());
            assert forall|k: Seq<u8>| #[trigger] self@.contains_key(k) implies self.tree@[k]
                == slot_bytes(self@[k]) by {
                assert(self.tree@.contains_key(k));
                let v = self.tree@[k];
                assert(v.take(4) =~= v);
                lemma_pow256_sizes();
                lemma_be_value_roundtrip(v);
            }
        }
        &self.tree
    }

    /// Stores a slot under `key`, replacing what was stored there. It fails, and
    /// changes nothing, where the key is too long for a page or the page ids are
    /// used up.
    pub fn insert(&mut self, key: &CompositeKey, slot: SlotRef) -> (r: Result<(), BTreeError>)
        requires
            old(self).wf(),
        ensures
            final(self).wf(),
            match r {
                Ok(_) => {
                    &&& !old(self).is_full()
                    &&& key@.len() + 8 + SLOT_SIZE <= PAGE_CAPACITY
                    &&& final(self)@ == old(self)@.insert(key@, slot)
                },
                Err(e) => {
                    &&& e == BTreeError::SplitFailed
                    &&& (old(self).is_full() || key@.len() + 8 + SLOT_SIZE > PAGE_CAPACITY)
                    &&& final(self)@ == old(self)@
                },
            },
            old(self).room() > 0 ==> final(self).room() >= old(self).room() - 1,
    {
        let value = encode_slot_ref(slot);
        proof {
            law_slot_roundtrip(slot);
        }
        let ghost before = self.tree@;
        let r = self.tree.insert(key, value.as_slice());
        assert(self.tree@ == before.insert(key@, value@) || self.tree@ == before);
        assert(r is Ok ==> self@ =~= old(self)@.insert(key@, slot));
        assert(r is Err ==> self@ =~= old(self)@);
        r
    }

    /// Deletes the entry of `key`. Returns whether there was one.
    pub fn delete(&mut self, key: &CompositeKey) -> (r: Result<bool, BTreeError>)
        requires
            old(self).wf(),
        ensures
            final(self).wf(),
            final(self)@ == old(self)@.remove(key@),
            r == Ok::<bool, BTreeError>(old(self)@.contains_key(key@)),
            final(self).room() >= old(self).room(),
    {
        let r = self.tree.delete(key);
        assert(self@ =~= old(self)@.remove(key@));
        r
    }

    /// The slot under `key`.
    pub fn search(&self, key: &CompositeKey) -> (r: Option<SlotRef>)
        requires
            self.wf(),
        ensures
            match r {
                Some(slot) => self@.contains_key(key@) && slot == self@[key@],
                None => !self@.contains_key(key@),
            },
    {
        match self.tree.get(key) {
            Some(value) => decode_slot_ref(value.as_slice()),
            None => None,
        }
    }

    /// Are page ids certainly left for one more insertion after `n` others?
    pub fn has_room_after(&self, n: u64) -> (r: bool)
        requires
            self.wf(),
        ensures
            r == (self.room() > n),
    {
        self.tree.has_room_after(n)
    }

    /// Has the tree page ids left for another insertion?
    pub fn has_room(&self) -> (r: bool)
        requires
            self.wf(),
        ensures
            r == !self.is_full(),
    {
        self.tree.has_room()
    }

    /// The entries whose keys start with `prefix`, in key order.
    pub fn entries(&self, prefix: &[u8]) -> (r: Vec<(Vec<u8>, SlotRef)>)
        requires
            self.wf(),
        ensures
            lists_keys(self@, prefix@, slot_views(r@)),
    {
        let found = self.tree.scan_prefix(prefix);
        let ghost pairs = pair_views(found@);
        let mut out: Vec<(Vec<u8>, SlotRef)> = Vec::new();
        let mut i: usize = 0;
        while i < found.len()
            invariant
                self.wf(),
                i <= found@.len(),
                pairs == pair_views(found@),
                is_prefix_scan(self.tree@, prefix@, pairs),
                out@.len() == i,
                forall|j: int|
                    0 <= j < i ==> (#[trigger] out@[j]).0@ == pairs[j].0 && out@[j].1 == slot_of(
                        pairs[j].1,
                    ),
            decreases found@.len() - i,
        {
            assert(pairs[i as int] == (found@[i as int].0@, found@[i as int].1@));
            assert(self.tree@.contains_key(pairs[i as int].0));
            let key = copy_range(found[i].0.as_slice(), 0, found[i].0.len());
            assert(key@ =~= found@[i as int].0@);
            match decode_slot_ref(found[i].1.as_slice()) {
                Some(slot) => {
                    out.push((key, slot));
                },
                None => {},
            }
            i += 1;
        }
        proof {
            let r = slot_views(out@);
            assert forall|k: int| 0 <= k < r.len() implies #[trigger] r[k] == (
                pairs[k].0,
                slot_of(pairs[k].1),
            ) by {
                assert(r[k] == (out@[k].0@, out@[k].1));
            }
            assert forall|k: Seq<u8>| #[trigger]
                self@.contains_key(k) && has_prefix(k, prefix@) implies r.contains(
                (k, self@[k]),
            ) by {
                assert(self.tree@.contains_key(k));
                assert(pairs.contains((k, self.tree@[k])));
                let n = choose|n: int|
                    0 <= n < pairs.len() && pairs[n] == (k, self.tree@[k]);
                assert(r[n] == (k, self@[k]));
            }
        }
        out
    }

    /// The entries whose keys are `prefix` and an id of 16 bytes, by rising id.
    pub fn scan_ids(&self, prefix: &[u8]) -> (r: Vec<(u128, SlotRef)>)
        requires
            self.wf(),
        ensures
            lists_ids(tails(self@, prefix@), r@),
    {
        let found = self.entries(prefix);
        let ghost keys = slot_views(found@);
        let n: usize = prefix.len();
        let ghost m = tails(self@, prefix@);
        let mut out: Vec<(u128, SlotRef)> = Vec::new();
        let mut i: usize = 0;
        while i < found.len()
            invariant
                self.wf(),
                n == prefix@.len(),
                m == tails(self@, prefix@),
                i <= found@.len(),
                keys == slot_views(found@),
                lists_keys(self@, prefix@, keys),
                forall|j: int|
                    0 <= j < out@.len() ==> m.contains_key((#[trigger] out@[j]).0)
                        && m[out@[j].0] == out@[j].1,
                forall|j: int, k: int|
                    0 <= j < k < out@.len() ==> (#[trigger] out@[j]).0 < (#[trigger] out@[k]).0,
                forall|j: int|
                    0 <= j < out@.len() && i < keys.len() ==> lex_lt(
                        prefix@ + be_u128((#[trigger] out@[j]).0),
                        keys[i as int].0,
                    ),
                forall|id: u128, j: int|
                    0 <= j < i && #[trigger] keys[j].0 == prefix@ + #[trigger] be_u128(id)
                        ==> out@.contains((id, keys[j].1)),
            decreases found@.len() - i,
        {
            let ghost key = keys[i as int].0;
            let ghost before = out@;
            assert(key == found@[i as int].0@ && keys[i as int].1 == found@[i as int].1);
            assert(has_prefix(key, prefix@));
            let len: usize = found[i].0.len();
            if len - n == 16 {
                let tail = slice_subrange(found[i].0.as_slice(), n, len);
                proof {
                    lemma_be_value_roundtrip(tail@);
                    lemma_pow256_sizes();
                    assert(key =~= prefix@ + tail@);
                }
                let id: u128 = read_be(tail);
                assert(key == prefix@ + be_u128(id));
                proof {
                    assert forall|j: int| 0 <= j < before.len() implies (#[trigger] before[j]).0
                        < id by {
                        lemma_lex_prefix(prefix@, be_u128(id), be_u128(before[j].0));
                        lemma_be_order(id as nat, before[j].0 as nat, 16);
                    }
                }
                out.push((id, found[i].1));
                assert(m.contains_key(id) && m[id] == found@[i as int].1);
            }
            proof {
                assert forall|id: u128, j: int|
                    0 <= j < i + 1 && #[trigger] keys[j].0 == prefix@ + #[trigger] be_u128(
                        id,
                    ) implies out@.contains((id, keys[j].1)) by {
                    if j < i {
                        assert(before.contains((id, keys[j].1)));
                        let k = choose|k: int|
                            0 <= k < before.len() && before[k] == (id, keys[j].1);
                        assert(out@[k] == (id, keys[j].1));
                    } else {
                        broadcast use be_bytes_len;

                        assert(key.len() == n + 16);
                        assert(key.skip(n as int) =~= be_u128(id));
                        lemma_pow256_sizes();
                        lemma_be_roundtrip(id as nat, 16);
                        assert(out@.last().0 == id) by {
                            assert(out@.len() == before.len() + 1);
                            let last = out@.last().0;
                            assert((prefix@ + be_u128(last)).skip(n as int) =~= be_u128(last));
                            lemma_be_roundtrip(last as nat, 16);
                        }
                        assert(out@[out@.len() - 1] == (id, keys[j].1));
                    }
                }
                assert forall|j: int|
                    0 <= j < out@.len() && i + 1 < keys.len() implies lex_lt(
                    prefix@ + be_u128((#[trigger] out@[j]).0),
                    keys[i + 1].0,
                ) by {
                    assert(lex_lt(keys[i as int].0, keys[i + 1].0));
                    if j < before.len() {
                        assert(out@[j] == before[j]);
                        assert(lex_lt(prefix@ + be_u128(before[j].0), key));
                        lemma_lex_total(prefix@ + be_u128(before[j].0), key);
                        if lex_le(keys[i + 1].0, prefix@ + be_u128(before[j].0)) {
                            lemma_lex_trans(
                                keys[i + 1].0,
                                prefix@ + be_u128(before[j].0),
                                key,
                            );
                        }
                    }
                }
            }
            i += 1;
        }
        proof {
            assert forall|id: u128| #[trigger] m.contains_key(id) implies out@.contains(
                (id, m[id]),
            ) by {
                let k = prefix@ + be_u128(id);
                assert(self@.contains_key(k));
                assert(k.take(n as int) =~= prefix@);
                assert(keys.contains((k, self@[k])));
                let j = choose|j: int| 0 <= j < keys.len() && keys[j] == (k, self@[k]);
                assert(keys[j].0 == prefix@ + be_u128(id));
            }
        }
        out
    }

    /// The slots of the entries whose keys are `prefix` and an id of 16 bytes,
    /// by rising id.
    pub fn scan_slots(&self, prefix: &[u8]) -> (r: Vec<SlotRef>)
        requires
            self.wf(),
        ensures
            lists_slots(tails(self@, prefix@), r@),
    {
        let found = self.scan_ids(prefix);
        let mut out: Vec<SlotRef> = Vec::new();
        let mut i: usize = 0;
        while i < found.len()
            invariant
                i <= found@.len(),
                out@ == slots_in(found@.take(i as int)),
            decreases found@.len() - i,
        {
            out.push(found[i].1);
            assert(out@ =~= slots_in(found@.take(i + 1)));
            i += 1;
        }
        assert(found@.take(i as int) =~= found@);
        assert(lists_ids(tails(self@, prefix@), found@));
        out
    }
}

} // verus!
