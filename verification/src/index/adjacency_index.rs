//! Adjacency secondary index.
//!
//! Maps `(source id, edge type, target id)` to the slot of the edge. The edges of
//! one type that leave a node are found by the front of the key, without a walk
//! along a linked list.

use vstd::prelude::*;
use vstd::slice::slice_subrange;

use crate::bytes::be_bytes_len;
use crate::bytes::be_value;
use crate::bytes::copy_range;
use crate::bytes::has_prefix;
use crate::bytes::lemma_be_roundtrip;
use crate::bytes::lemma_be_value_roundtrip;
use crate::bytes::lemma_pow256_sizes;
use crate::bytes::lex_lt;
use crate::graph::record::SlotRef;
use crate::index::btree::BTreeError;
use crate::index::key::be_u128;
use crate::index::key::be_u64;
use crate::index::key::decode_u128_be;
use crate::index::key::edge_adjacency_key;
use crate::index::key::key_16_8_16;
use crate::index::key::law_16_8_16_injective;
use crate::index::key::law_16_8_16_order;
use crate::index::slots::insert_result;
use crate::index::slots::lists_keys;
use crate::index::slots::lists_slots;
use crate::index::slots::slot_views;
use crate::index::slots::tails;
use crate::index::slots::SlotIndex;

verus! {

/// An edge as (source, type, target).
pub type Link = (u128, u64, u128);

/// The edges of one type that leave a node, by target.
pub open spec fn leaving(m: Map<Link, SlotRef>, source_id: u128, type_id: u64) -> Map<
    u128,
    SlotRef,
> {
    Map::new(
        |id: u128| m.contains_key((source_id, type_id, id)),
        |id: u128| m[(source_id, type_id, id)],
    )
}

/// Does `r` list the edges that enter `target_id`, by source and type?
pub open spec fn lists_entering(
    m: Map<Link, SlotRef>,
    target_id: u128,
    r: Seq<(u128, u64, SlotRef)>,
) -> bool {
    &&& forall|i: int, j: int|
        0 <= i < j < r.len() ==> (#[trigger] r[i]).0 < (#[trigger] r[j]).0 || (r[i].0 == r[j].0
            && r[i].1 < r[j].1)
    &&& forall|i: int|
        0 <= i < r.len() ==> m.contains_key(((#[trigger] r[i]).0, r[i].1, target_id)) && m[(
            r[i].0,
            r[i].1,
            target_id,
        )] == r[i].2
    &&& forall|s: u128, t: u64| #[trigger]
        m.contains_key((s, t, target_id)) ==> r.contains((s, t, m[(s, t, target_id)]))
}

/// The slots of a list of edges.
pub open spec fn entering_slots(r: Seq<(u128, u64, SlotRef)>) -> Seq<SlotRef> {
    r.map_values(|e: (u128, u64, SlotRef)| e.2)
}

/// The edges of a type that leave a node are those that were entered so.
pub proof fn law_leaving(m: Map<Link, SlotRef>, source_id: u128, type_id: u64, target_id: u128)
    ensures
        leaving(m, source_id, type_id).contains_key(target_id) <==> m.contains_key(
            (source_id, type_id, target_id),
        ),
        leaving(m, source_id, type_id).contains_key(target_id) ==> leaving(
            m,
            source_id,
            type_id,
        )[target_id] == m[(source_id, type_id, target_id)],
{
}

/// A list of the edges that enter a node has each of them once, with its slot, by source and
/// then by type.
pub proof fn law_entering(
    m: Map<Link, SlotRef>,
    target_id: u128,
    r: Seq<(u128, u64, SlotRef)>,
    source_id: u128,
    type_id: u64,
)
    requires
        lists_entering(m, target_id, r),
    ensures
        m.contains_key((source_id, type_id, target_id)) <==> exists|i: int|
            0 <= i < r.len() && (#[trigger] r[i]).0 == source_id && r[i].1 == type_id,
        forall|i: int|
            0 <= i < r.len() && (#[trigger] r[i]).0 == source_id && r[i].1 == type_id ==> r[i].2
                == m[(source_id, type_id, target_id)],
        forall|i: int, j: int|
            0 <= i < j < r.len() ==> (#[trigger] r[i]).0 < (#[trigger] r[j]).0 || (r[i].0 == r[j].0
                && r[i].1 < r[j].1),
        entering_slots(r).len() == r.len(),
        forall|i: int| 0 <= i < r.len() ==> #[trigger] entering_slots(r)[i] == r[i].2,
{
    if m.contains_key((source_id, type_id, target_id)) {
        let e = (source_id, type_id, m[(source_id, type_id, target_id)]);
        assert(r.contains(e));
        let i = choose|i: int| 0 <= i < r.len() && r[i] == e;
        assert(r[i].0 == source_id);
    }
}

/// Does the key end with the target?
spec fn enters(key: Seq<u8>, target_id: u128) -> bool {
    key.skip(24) == be_u128(target_id)
}

/// The source in a key.
spec fn source_of(key: Seq<u8>) -> u128 {
    be_value(key.take(16)) as u128
}

/// The edge type in a key.
spec fn type_of(key: Seq<u8>) -> u64 {
    be_value(key.subrange(16, 24)) as u64
}

proof fn lemma_link_of_key(key: Seq<u8>, target_id: u128)
    requires
        key.len() == 40,
        enters(key, target_id),
    ensures
        key == key_16_8_16(source_of(key), type_of(key), target_id),
{
    lemma_pow256_sizes();
    lemma_be_value_roundtrip(key.take(16));
    lemma_be_value_roundtrip(key.subrange(16, 24));
    assert(key =~= key.take(16) + key.subrange(16, 24) + key.skip(24));
}

/// Secondary index of edges by their ends and type.
pub struct AdjacencyIndex {
    slots: SlotIndex,
}

impl View for AdjacencyIndex {
    type V = Map<Link, SlotRef>;

    closed spec fn view(&self) -> Map<Link, SlotRef> {
        Map::new(
            |k: Link| self.slots@.contains_key(key_16_8_16(k.0, k.1, k.2)),
            |k: Link| self.slots@[key_16_8_16(k.0, k.1, k.2)],
        )
    }
}

impl AdjacencyIndex {
    /// Is the tree well-formed, and every key that of an edge?
    pub closed spec fn wf(&self) -> bool {
        &&& self.slots.wf()
        &&& forall|k: Seq<u8>| #[trigger] self.slots@.contains_key(k) ==> k.len() == 40
    }

    /// Are the page ids of the index used up?
    pub closed spec fn is_full(&self) -> bool {
        self.slots.is_full()
    }

    /// For how many insertions are there page ids left at least?
    pub closed spec fn room(&self) -> int {
        self.slots.room()
    }

    /// An index with room is not full.
    pub proof fn lemma_room(&self)
        requires
            self.room() > 0,
        ensures
            !self.is_full(),
    {
        self.slots.lemma_room();
    }

    /// An empty index.
    pub fn new() -> (r: Self)
        ensures
            r.wf(),
            r@ == Map::<Link, SlotRef>::empty(),
            !r.is_full(),
            r.room() == 0x4000_0000,
    {
        let r = AdjacencyIndex { slots: SlotIndex::new() };
        assert(r@ =~= Map::<Link, SlotRef>::empty());
        r
    }

    /// Are page ids certainly left for one more insertion after `n` others?
    pub fn has_room_after(&self, n: u64) -> (r: bool)
        requires
            self.wf(),
        ensures
            r == (self.room() > n),
    {
        self.slots.has_room_after(n)
    }

    /// Has the index page ids left for another insertion?
    pub fn has_room(&self) -> (r: bool)
        requires
            self.wf(),
        ensures
            r == !self.is_full(),
    {
        self.slots.has_room()
    }

    /// Stores or replaces an entry. It fails, and changes nothing, where the page
    /// ids are used up.
    pub fn insert(
        &mut self,
        source_id: u128,
        type_id: u64,
        target_id: u128,
        slot: SlotRef,
    ) -> (r: Result<(), BTreeError>)
        requires
            old(self).wf(),
        ensures
            final(self).wf(),
            insert_result(old(self).is_full(), r),
            final(self)@ == (if old(self).is_full() {
                old(self)@
            } else {
                old(self)@.insert((source_id, type_id, target_id), slot)
            }),
            old(self).room() > 0 ==> final(self).room() >= old(self).room() - 1,
    {
        broadcast use be_bytes_len;

        let key = edge_adjacency_key(source_id, type_id, target_id);
        let r = self.slots.insert(&key, slot);
        proof {
            let link = (source_id, type_id, target_id);
            if r is Ok {
                assert forall|k: Link| #[trigger] key_16_8_16(k.0, k.1, k.2) == key@ implies k
                    == link by {
                    law_16_8_16_injective(k, link);
                }
                assert(self@ =~= old(self)@.insert(link, slot));
            } else {
                assert(self@ =~= old(self)@);
            }
        }
        r
    }

    /// Deletes an entry. Returns whether there was one.
    pub fn delete(&mut self, source_id: u128, type_id: u64, target_id: u128) -> (r: Result<
        bool,
        BTreeError,
    >)
        requires
            old(self).wf(),
        ensures
            final(self).wf(),
            r == Ok::<bool, BTreeError>(
                old(self)@.contains_key((source_id, type_id, target_id)),
            ),
            final(self)@ == old(self)@.remove((source_id, type_id, target_id)),
            final(self).room() >= old(self).room(),
    {
        let key = edge_adjacency_key(source_id, type_id, target_id);
        let r = self.slots.delete(&key);
        proof {
            let link = (source_id, type_id, target_id);
            assert forall|k: Link| #[trigger] key_16_8_16(k.0, k.1, k.2) == key@ implies k
                == link by {
                law_16_8_16_injective(k, link);
            }
            assert(self@ =~= old(self)@.remove(link));
        }
        r
    }

    /// The slot of an entry.
    pub fn lookup(&self, source_id: u128, type_id: u64, target_id: u128) -> (r: Option<SlotRef>)
        requires
            self.wf(),
        ensures
            match r {
                Some(slot) => self@.contains_key((source_id, type_id, target_id)) && slot
                    == self@[(source_id, type_id, target_id)],
                None => !self@.contains_key((source_id, type_id, target_id)),
            },
    {
        self.slots.search(&edge_adjacency_key(source_id, type_id, target_id))
    }

    /// The slots of the edges of one type that leave a node, by target.
    pub fn scan_outgoing(&self, source_id: u128, type_id: u64) -> (r: Vec<SlotRef>)
        requires
            self.wf(),
        ensures
            lists_slots(leaving(self@, source_id, type_id), r@),
    {
        let key = edge_adjacency_key(source_id, type_id, 0);
        broadcast use be_bytes_len;

        let prefix = copy_range(key.as_slice(), 0, 24);
        proof {
            assert(prefix@ =~= be_u128(source_id) + be_u64(type_id));
            assert(tails(self.slots@, prefix@) =~= leaving(self@, source_id, type_id));
        }
        self.slots.scan_slots(prefix.as_slice())
    }

    /// The slots of the edges that enter a node, by source and type. Every entry
    /// of the index is looked at.
    pub fn scan_incoming(&self, target_id: u128) -> (r: Vec<SlotRef>)
        requires
            self.wf(),
        ensures
            exists|p: Seq<(u128, u64, SlotRef)>| #[trigger]
                lists_entering(self@, target_id, p) && r@ == entering_slots(p),
    {
        let empty: Vec<u8> = Vec::new();
        let found = self.slots.entries(empty.as_slice());
        let ghost keys = slot_views(found@);
        let ghost mut at: Seq<int> = Seq::empty();
        let mut out: Vec<SlotRef> = Vec::new();
        let mut i: usize = 0;
        while i < found.len()
            invariant
                self.wf(),
                i <= found@.len(),
                keys == slot_views(found@),
                lists_keys(self.slots@, Seq::empty(), keys),
                out@.len() == at.len(),
                forall|j: int| 0 <= j < at.len() ==> 0 <= #[trigger] at[j] < i,
                forall|j: int, k: int|
                    0 <= j < k < at.len() ==> #[trigger] at[j] < #[trigger] at[k],
                forall|j: int| 0 <= j < at.len() ==> enters(keys[#[trigger] at[j]].0, target_id),
                forall|j: int| 0 <= j < at.len() ==> out@[j] == keys[#[trigger] at[j]].1,
                forall|j: int|
                    0 <= j < i && #[trigger] enters(keys[j].0, target_id) ==> at.contains(j),
            decreases found@.len() - i,
        {
            assert(keys[i as int].0 == found@[i as int].0@);
            assert(self.slots@.contains_key(keys[i as int].0));
            let bytes = found[i].0.as_slice();
            let target_bytes = slice_subrange(bytes, 24, 40);
            let ghost before = at;
            proof {
                lemma_pow256_sizes();
                lemma_be_value_roundtrip(target_bytes@);
                lemma_be_roundtrip(target_id as nat, 16);
            }
            if decode_u128_be(target_bytes) == target_id {
                out.push(found[i].1);
                proof {
                    at = at.push(i as int);
                    assert(at[at.len() - 1] == i);
                }
            }
            proof {
                assert forall|j: int|
                    0 <= j < i + 1 && #[trigger] enters(keys[j].0, target_id) implies at.contains(
                    j,
                ) by {
                    if j < i {
                        assert(before.contains(j));
                        let n = choose|n: int| 0 <= n < before.len() && before[n] == j;
                        assert(at[n] == j);
                    }
                }
            }
            i += 1;
        }
        proof {
            let p = Seq::new(
                at.len(),
                |j: int| (source_of(keys[at[j]].0), type_of(keys[at[j]].0), keys[at[j]].1),
            );
            assert(out@ =~= entering_slots(p));
            assert forall|j: int| 0 <= j < p.len() implies keys[#[trigger] at[j]].0 == key_16_8_16(
                p[j].0,
                p[j].1,
                target_id,
            ) by {
                assert(self.slots@.contains_key(keys[at[j]].0));
                lemma_link_of_key(keys[at[j]].0, target_id);
            }
            assert forall|j: int, k: int| 0 <= j < k < p.len() implies (#[trigger] p[j]).0 < (
            #[trigger] p[k]).0 || (p[j].0 == p[k].0 && p[j].1 < p[k].1) by {
                assert(lex_lt(keys[at[j]].0, keys[at[k]].0));
                law_16_8_16_order(
                    (p[k].0, p[k].1, target_id),
                    (p[j].0, p[j].1, target_id),
                );
            }
            assert forall|j: int| 0 <= j < p.len() implies self@.contains_key(
                ((#[trigger] p[j]).0, p[j].1, target_id),
            ) && self@[(p[j].0, p[j].1, target_id)] == p[j].2 by {
                assert(keys[at[j]].0 == key_16_8_16(p[j].0, p[j].1, target_id));
                assert(self.slots@.contains_key(keys[at[j]].0));
            }
            assert forall|s: u128, t: u64| #[trigger]
                self@.contains_key((s, t, target_id)) implies p.contains(
                (s, t, self@[(s, t, target_id)]),
            ) by {
                let k = key_16_8_16(s, t, target_id);
                assert(self.slots@.contains_key(k));
                assert(k.take(0) =~= Seq::<u8>::empty());
                assert(has_prefix(k, Seq::empty()));
                assert(keys.contains((k, self.slots@[k])));
                let j = choose|j: int| 0 <= j < keys.len() && keys[j] == (k, self.slots@[k]);
                lemma_pow256_sizes();
                assert(k.skip(24) =~= be_u128(target_id)) by {
                    broadcast use be_bytes_len;

                }
                assert(enters(keys[j].0, target_id));
                let n = choose|n: int| 0 <= n < at.len() && at[n] == j;
                lemma_link_of_key(k, target_id);
                law_16_8_16_injective(
                    (s, t, target_id),
                    (source_of(k), type_of(k), target_id),
                );
                assert(p[n] == (s, t, self@[(s, t, target_id)]));
            }
            assert(lists_entering(self@, target_id, p));
        }
        out
    }
}

impl Default for AdjacencyIndex {
    fn default() -> (r: Self)
        ensures
            r.wf(),
            r@ == Map::<Link, SlotRef>::empty(),
            !r.is_full(),
            r.room() == 0x4000_0000,
    {
        AdjacencyIndex::new()
    }
}

} // verus!
