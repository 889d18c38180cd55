//! Property secondary index.
//!
//! Maps `(property id, encoded value, entity id)` to the slot of the property,
//! for lookups and for scans of all entities with one value.

use vstd::prelude::*;

use crate::bytes::be_bytes_len;
use crate::bytes::copy_range;
use crate::bytes::lemma_be_injective;
use crate::bytes::lemma_pow256_sizes;
use crate::graph::record::SlotRef;
use crate::graph::record::ValueType;
use crate::index::btree::BTreeError;
use crate::index::key::be_u128;
use crate::index::key::be_u64;
use crate::index::key::key_property;
use crate::index::key::property_index_key;
use crate::index::slots::insert_result;
use crate::index::slots::lists_ids;
use crate::index::slots::lists_slots;
use crate::index::slots::slots_in;
use crate::index::slots::tails;
use crate::index::slots::SlotIndex;
use crate::index::value_codec::encode_property_value;
use crate::index::value_codec::encoded_property;
use crate::index::value_codec::MAX_ENCODED_LEN;

verus! {

/// A key of the index: property id, encoded value, entity id.
pub type PropertyKey = (u64, Seq<u8>, u128);

/// The value under which a property is indexed: its encoding, and that of null
/// where it has none.
pub open spec fn index_value(value_type: ValueType, payload: Seq<u8>) -> Seq<u8> {
    match encoded_property(value_type, payload) {
        Some(bytes) => bytes,
        None => seq![0u8],
    }
}

/// The entities with one value of a property.
pub open spec fn holders(m: Map<PropertyKey, SlotRef>, property_id: u64, value: Seq<u8>) -> Map<
    u128,
    SlotRef,
> {
    Map::new(
        |id: u128| m.contains_key((property_id, value, id)),
        |id: u128| m[(property_id, value, id)],
    )
}

/// The entities with one value of a property are those that were entered under the property
/// and that value.
pub proof fn law_holders(m: Map<PropertyKey, SlotRef>, property_id: u64, value: Seq<u8>, id: u128)
    ensures
        holders(m, property_id, value).contains_key(id) <==> m.contains_key(
            (property_id, value, id),
        ),
        holders(m, property_id, value).contains_key(id) ==> holders(m, property_id, value)[id]
            == m[(property_id, value, id)],
{
}

/// A value is indexed by its encoding, and one that has none as null is.
pub proof fn law_index_value(value_type: ValueType, payload: Seq<u8>)
    ensures
        encoded_property(value_type, payload) matches Some(bytes) ==> index_value(
            value_type,
            payload,
        ) == bytes,
        encoded_property(value_type, payload) is None ==> index_value(value_type, payload) == seq![
            0u8,
        ],
{
}

/// The value under which a property is indexed.
fn indexed_value(value_type: ValueType, payload: &[u8]) -> (r: Vec<u8>)
    ensures
        r@ == index_value(value_type, payload@),
        r@.len() <= MAX_ENCODED_LEN,
{
    match encode_property_value(value_type, payload) {
        Some(bytes) => bytes,
        None => {
            let mut null: Vec<u8> = Vec::new();
            null.push(0);
            assert(null@ =~= seq![0u8]);
            null
        },
    }
}

/// A field keeps its place in the key: equal keys have equal fields.
pub proof fn law_property_key_injective(a: PropertyKey, b: PropertyKey)
    requires
        key_property(a.0, a.1, a.2) == key_property(b.0, b.1, b.2),
    ensures
        a == b,
{
    broadcast use be_bytes_len;

    lemma_pow256_sizes();
    let x = key_property(a.0, a.1, a.2);
    let y = key_property(b.0, b.1, b.2);
    let n = x.len() as int;
    assert(x.take(8) =~= be_u64(a.0));
    assert(y.take(8) =~= be_u64(b.0));
    lemma_be_injective(a.0 as nat, b.0 as nat, 8);
    assert(x.skip(n - 16) =~= be_u128(a.2));
    assert(y.skip(n - 16) =~= be_u128(b.2));
    lemma_be_injective(a.2 as nat, b.2 as nat, 16);
    assert(x.subrange(8, n - 16) =~= a.1);
    assert(y.subrange(8, n - 16) =~= b.1);
}

/// Secondary index of property values.
pub struct PropertyIndex {
    slots: SlotIndex,
}

impl View for PropertyIndex {
    type V = Map<PropertyKey, SlotRef>;

    closed spec fn view(&self) -> Map<PropertyKey, SlotRef> {
        Map::new(
            |k: PropertyKey| self.slots@.contains_key(key_property(k.0, k.1, k.2)),
            |k: PropertyKey| self.slots@[key_property(k.0, k.1, k.2)],
        )
    }
}

impl PropertyIndex {
    pub closed spec fn wf(&self) -> bool {
        self.slots.wf()
    }

    /// Are the page ids of the index used up?
    pub closed spec fn is_full(&self) -> bool {
        self.slots.is_full()
    }

    /// For how many insertions are there page ids left at least?
    pub closed spec fn room(&self) -> int {
        self.slots.room()
    }

    /// An index with room is not full.
    pub proof fn lemma_room(&self)
        requires
            self.room() > 0,
        ensures
            !self.is_full(),
    {
        self.slots.lemma_room();
    }

    /// An empty index.
    pub fn new() -> (r: Self)
        ensures
            r.wf(),
            r@ == Map::<PropertyKey, SlotRef>::empty(),
            !r.is_full(),
            r.room() == 0x4000_0000,
    {
        let r = PropertyIndex { slots: SlotIndex::new() };
        assert(r@ =~= Map::<PropertyKey, SlotRef>::empty());
        r
    }

    /// Are page ids certainly left for one more insertion after `n` others?
    pub fn has_room_after(&self, n: u64) -> (r: bool)
        requires
            self.wf(),
        ensures
            r == (self.room() > n),
    {
        self.slots.has_room_after(n)
    }

    /// Has the index page ids left for another insertion?
    pub fn has_room(&self) -> (r: bool)
        requires
            self.wf(),
        ensures
            r == !self.is_full(),
    {
        self.slots.has_room()
    }

    /// Stores or replaces the entry of an entity with a value. It fails, and
    /// changes nothing, where the page ids are used up.
    pub fn insert(
        &mut self,
        property_id: u64,
        value_type: ValueType,
        payload: &[u8],
        entity_id: u128,
        slot: SlotRef,
    ) -> (r: Result<(), BTreeError>)
        requires
            old(self).wf(),
        ensures
            final(self).wf(),
            insert_result(old(self).is_full(), r),
            final(self)@ == (if old(self).is_full() {
                old(self)@
            } else {
                old(self)@.insert(
                    (property_id, index_value(value_type, payload@), entity_id),
                    slot,
                )
            }),
            old(self).room() > 0 ==> final(self).room() >= old(self).room() - 1,
    {
        broadcast use be_bytes_len;

        let value = indexed_value(value_type, payload);
        let key = property_index_key(property_id, value.as_slice(), entity_id);
        let r = self.slots.insert(&key, slot);
        proof {
            let k0 = (property_id, value@, entity_id);
            if r is Ok {
                assert forall|k: PropertyKey| #[trigger]
                    key_property(k.0, k.1, k.2) == key@ implies k == k0 by {
                    law_property_key_injective(k, k0);
                }
                assert(self@ =~= old(self)@.insert(k0, slot));
            } else {
                assert(self@ =~= old(self)@);
            }
        }
        r
    }

    /// Deletes the entry of an entity with a value. Returns whether there was
    /// one.
    pub fn delete(
        &mut self,
        property_id: u64,
        value_type: ValueType,
        payload: &[u8],
        entity_id: u128,
    ) -> (r: Result<bool, BTreeError>)
        requires
            old(self).wf(),
        ensures
            final(self).wf(),
            r == Ok::<bool, BTreeError>(
                old(self)@.contains_key(
                    (property_id, index_value(value_type, payload@), entity_id),
                ),
            ),
            final(self)@ == old(self)@.remove(
                (property_id, index_value(value_type, payload@), entity_id),
            ),
            final(self).room() >= old(self).room(),
    {
        let value = indexed_value(value_type, payload);
        let key = property_index_key(property_id, value.as_slice(), entity_id);
        let r = self.slots.delete(&key);
        proof {
            let k0 = (property_id, value@, entity_id);
            assert forall|k: PropertyKey| #[trigger]
                key_property(k.0, k.1, k.2) == key@ implies k == k0 by {
                law_property_key_injective(k, k0);
            }
            assert(self@ =~= old(self)@.remove(k0));
        }
        r
    }

    /// The slot of the entry of an entity with a value.
    pub fn lookup(
        &self,
        property_id: u64,
        value_type: ValueType,
        payload: &[u8],
        entity_id: u128,
    ) -> (r: Option<SlotRef>)
        requires
            self.wf(),
        ensures
            ({
                let k = (property_id, index_value(value_type, payload@), entity_id);
                match r {
                    Some(slot) => self@.contains_key(k) && slot == self@[k],
                    None => !self@.contains_key(k),
                }
            }),
    {
        let value = indexed_value(value_type, payload);
        self.slots.search(&property_index_key(property_id, value.as_slice(), entity_id))
    }

    /// The entities with one value of a property, with the slots of their
    /// entries, by entity id.
    pub fn scan_entities(&self, property_id: u64, value_type: ValueType, payload: &[u8]) -> (r: Vec<
        (u128, SlotRef),
    >)
        requires
            self.wf(),
        ensures
            lists_ids(holders(self@, property_id, index_value(value_type, payload@)), r@),
    {
        broadcast use be_bytes_len;

        let value = indexed_value(value_type, payload);
        let key = property_index_key(property_id, value.as_slice(), 0);
        let prefix = copy_range(key.as_slice(), 0, 8 + value.len());
        proof {
            assert(prefix@ =~= be_u64(property_id) + value@);
            assert(tails(self.slots@, prefix@) =~= holders(self@, property_id, value@));
        }
        self.slots.scan_ids(prefix.as_slice())
    }

    /// The slots of all entries with one value of a property, by entity id.
    pub fn scan(&self, property_id: u64, value_type: ValueType, payload: &[u8]) -> (r: Vec<SlotRef>)
        requires
            self.wf(),
        ensures
            lists_slots(holders(self@, property_id, index_value(value_type, payload@)), r@),
    {
        let found = self.scan_entities(property_id, value_type, payload);
        let mut out: Vec<SlotRef> = Vec::new();
        let mut i: usize = 0;
        while i < found.len()
            invariant
                i <= found@.len(),
                out@ == slots_in(found@.take(i as int)),
            decreases found@.len() - i,
        {
            out.push(found[i].1);
            assert(out@ =~= slots_in(found@.take(i + 1)));
            i += 1;
        }
        assert(found@.take(i as int) =~= found@);
        assert(lists_ids(
            holders(self@, property_id, index_value(value_type, payload@)),
            found@,
        ));
        out
    }
}

impl Default for PropertyIndex {
    fn default() -> (r: Self)
        ensures
            r.wf(),
            r@ == Map::<PropertyKey, SlotRef>::empty(),
            !r.is_full(),
            r.room() == 0x4000_0000,
    {
        PropertyIndex::new()
    }
}

} // verus!
