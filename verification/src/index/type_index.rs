//! Edge type secondary index.
//!
//! Maps `(type_id, edge_id)` to the slot of the edge, for lookups and for scans of
//! all edges with one type.

use vstd::prelude::*;

use crate::bytes::copy_range;
use crate::graph::record::SlotRef;
use crate::index::btree::BTreeError;
use crate::index::key::be_u64;
use crate::index::key::key_8_16;
use crate::index::key::law_8_16_injective;
use crate::index::key::type_index_key;
use crate::index::slots::insert_result;
use crate::index::slots::lists_slots;
use crate::index::slots::tails;
use crate::index::slots::SlotIndex;

verus! {

/// The entries of one type, by edge id.
pub open spec fn entries_of(m: Map<(u64, u128), SlotRef>, type_id: u64) -> Map<u128, SlotRef> {
    Map::new(|id: u128| m.contains_key((type_id, id)), |id: u128| m[(type_id, id)])
}

/// The entries of one type are those that were made under it.
pub proof fn law_entries_of(m: Map<(u64, u128), SlotRef>, type_id: u64, id: u128)
    ensures
        entries_of(m, type_id).contains_key(id) <==> m.contains_key((type_id, id)),
        entries_of(m, type_id).contains_key(id) ==> entries_of(m, type_id)[id] == m[(type_id, id)],
{
}

/// Secondary index of edges by type.
pub struct TypeIndex {
    slots: SlotIndex,
}

impl View for TypeIndex {
    type V = Map<(u64, u128), SlotRef>;

    closed spec fn view(&self) -> Map<(u64, u128), SlotRef> {
        Map::new(
            |k: (u64, u128)| self.slots@.contains_key(key_8_16(k.0, k.1)),
            |k: (u64, u128)| self.slots@[key_8_16(k.0, k.1)],
        )
    }
}

impl TypeIndex {
    pub closed spec fn wf(&self) -> bool {
        self.slots.wf()
    }

    /// Are the page ids of the index used up?
    pub closed spec fn is_full(&self) -> bool {
        self.slots.is_full()
    }

    /// For how many insertions are there page ids left at least?
    pub closed spec fn room(&self) -> int {
        self.slots.room()
    }

    /// An index with room is not full.
    pub proof fn lemma_room(&self)
        requires
            self.room() > 0,
        ensures
            !self.is_full(),
    {
        self.slots.lemma_room();
    }

    /// An empty index.
    pub fn new() -> (r: Self)
        ensures
            r.wf(),
            r@ == Map::<(u64, u128), SlotRef>::empty(),
            !r.is_full(),
            r.room() == 0x4000_0000,
    {
        let r = TypeIndex { slots: SlotIndex::new() };
        assert(r@ =~= Map::<(u64, u128), SlotRef>::empty());
        r
    }

    /// Are page ids certainly left for one more insertion after `n` others?
    pub fn has_room_after(&self, n: u64) -> (r: bool)
        requires
            self.wf(),
        ensures
            r == (self.room() > n),
    {
        self.slots.has_room_after(n)
    }

    /// Has the index page ids left for another insertion?
    pub fn has_room(&self) -> (r: bool)
        requires
            self.wf(),
        ensures
            r == !self.is_full(),
    {
        self.slots.has_room()
    }

    /// Stores or replaces an entry. It fails, and changes nothing, where the page
    /// ids are used up.
    pub fn insert(&mut self, type_id: u64, edge_id: u128, slot: SlotRef) -> (r: Result<(), BTreeError>)
        requires
            old(self).wf(),
        ensures
            final(self).wf(),
            insert_result(old(self).is_full(), r),
            final(self)@ == (if old(self).is_full() {
                old(self)@
            } else {
                old(self)@.insert((type_id, edge_id), slot)
            }),
            old(self).room() > 0 ==> final(self).room() >= old(self).room() - 1,
    {
        broadcast use crate::bytes::be_bytes_len;

        let key = type_index_key(type_id, edge_id);
        let r = self.slots.insert(&key, slot);
        proof {
            if r is Ok {
                assert forall|k: (u64, u128)| #[trigger] key_8_16(k.0, k.1) == key@ implies k == (
                    type_id,
                    edge_id,
                ) by {
                    law_8_16_injective(k, (type_id, edge_id));
                }
                assert(self@ =~= old(self)@.insert((type_id, edge_id), slot));
            } else {
                assert(self@ =~= old(self)@);
            }
        }
        r
    }

    /// Deletes an entry. Returns whether there was one.
    pub fn delete(&mut self, type_id: u64, edge_id: u128) -> (r: Result<bool, BTreeError>)
        requires
            old(self).wf(),
        ensures
            final(self).wf(),
            r == Ok::<bool, BTreeError>(old(self)@.contains_key((type_id, edge_id))),
            final(self)@ == old(self)@.remove((type_id, edge_id)),
            final(self).room() >= old(self).room(),
    {
        let key = type_index_key(type_id, edge_id);
        let r = self.slots.delete(&key);
        proof {
            assert forall|k: (u64, u128)| #[trigger] key_8_16(k.0, k.1) == key@ implies k == (
                type_id,
                edge_id,
            ) by {
                law_8_16_injective(k, (type_id, edge_id));
            }
            assert(self@ =~= old(self)@.remove((type_id, edge_id)));
        }
        r
    }

    /// The slot of an entry.
    pub fn lookup(&self, type_id: u64, edge_id: u128) -> (r: Option<SlotRef>)
        requires
            self.wf(),
        ensures
            match r {
                Some(slot) => self@.contains_key((type_id, edge_id)) && slot == self@[(type_id, edge_id)],
                None => !self@.contains_key((type_id, edge_id)),
            },
    {
        self.slots.search(&type_index_key(type_id, edge_id))
    }

    /// The slots of all edges with one type, by edge id.
    pub fn scan(&self, type_id: u64) -> (r: Vec<SlotRef>)
        requires
            self.wf(),
        ensures
            lists_slots(entries_of(self@, type_id), r@),
    {
        let key = type_index_key(type_id, 0);
        proof {
            broadcast use crate::bytes::be_bytes_len;

        }
        let prefix = copy_range(key.as_slice(), 0, 8);
        proof {
            broadcast use crate::bytes::be_bytes_len;

            assert(prefix@ =~= be_u64(type_id));
            assert(tails(self.slots@, prefix@) =~= entries_of(self@, type_id));
        }
        self.slots.scan_slots(prefix.as_slice())
    }
}

impl Default for TypeIndex {
    fn default() -> (r: Self)
        ensures
            r.wf(),
            r@ == Map::<(u64, u128), SlotRef>::empty(),
            !r.is_full(),
            r.room() == 0x4000_0000,
    {
        TypeIndex::new()
    }
}

} // verus!
