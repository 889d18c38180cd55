//! Properties of nodes and edges as chains of stored properties.
//!
//! The properties of an entity are chained by rising name. They are stored from the
//! last to the first, so that each can name its successor.

use vstd::prelude::*;
use vstd::string::StringSliceAdditionalSpecFns;
use vstd::utf8::encode_utf8;

use crate::bytes::copy_range;
use crate::bytes::le_bytes_len;
use crate::graph::engine::agreements_kept;
use crate::graph::engine::property_at;
use crate::graph::engine::put_property_after;
use crate::graph::engine::EngineView;
use crate::graph::engine::GraphStorageEngine;
use crate::graph::property::by_name;
use crate::graph::property::lemma_by_name;
use crate::graph::property::Entry;
use crate::graph::property::PropertyMap;
use crate::graph::property::PropertyModel;
use crate::graph::record::MAX_INLINE_PROPERTY_LEN;
use crate::graph::record::SlotRef;
use crate::graph::record::ValueType;
use crate::graph::store::lemma_insert_cells;
use crate::graph::store::properties_of;
use crate::graph::stored::law_stored_property_roundtrip;
use crate::graph::stored::property_bytes;
use crate::graph::stored::PropertyView;
use crate::graph::stored::StoredProperty;
use crate::graph::value_form::decode_property_value;
use crate::graph::value_form::form_or_null;
use crate::graph::value_form::law_kinds_read_back;
use crate::graph::value_form::law_stored_value_roundtrip;
use crate::graph::value_form::read_form;
use crate::graph::value_form::stored_form;
use crate::index::property::index_value;
use crate::index::property::PropertyKey;
use crate::storage::error::StorageError;
use crate::storage::heap::cells;
use crate::storage::heap::insert_outcome;
use crate::storage::heap::is_page;
use crate::storage::heap::last_with_room;
use crate::storage::heap::lemma_last_with_room;
use crate::storage::heap::pages_of;
use crate::storage::heap::FIRST_DATA_PAGE;
use crate::storage::heap::PageView;
use crate::storage::heap::RecordKind;
use crate::storage::page::PageId;

verus! {

/// The number of properties after which reading a chain ends.
pub const MAX_CHAIN_DEPTH: usize = 4096;

/// Can these properties be stored? Their names and values must not be too long.
pub open spec fn storable(m: Map<Seq<char>, PropertyModel>) -> bool {
    forall|name: Seq<char>| #[trigger] m.contains_key(name) ==> entry_storable((name, m[name]))
}

/// Can the entries of a list be stored?
pub open spec fn list_storable(list: Seq<Entry>) -> bool {
    forall|i: int| 0 <= i < list.len() ==> entry_storable(#[trigger] list[i])
}

/// Can this property be stored?
pub open spec fn entry_storable(entry: Entry) -> bool {
    encode_utf8(entry.0).len() <= u16::MAX && form_or_null(entry.1).1.len()
        <= MAX_INLINE_PROPERTY_LEN
}

/// Properties can be stored if every name has up to 65535 bytes and every value up to 256 in
/// its stored form.
pub proof fn law_storable(m: Map<Seq<char>, PropertyModel>)
    ensures
        storable(m) <==> forall|name: Seq<char>| #[trigger]
            m.contains_key(name) ==> encode_utf8(name).len() <= 65535 && form_or_null(
                m[name],
            ).1.len() <= 256,
{
    if forall|name: Seq<char>| #[trigger]
        m.contains_key(name) ==> encode_utf8(name).len() <= 65535 && form_or_null(m[name]).1.len()
            <= 256 {
        assert forall|name: Seq<char>| #[trigger] m.contains_key(name) implies entry_storable(
            (name, m[name]),
        ) by {}
    }
}

/// What is stored for a property with a successor.
pub open spec fn link(entry: Entry, next: SlotRef) -> PropertyView {
    PropertyView {
        name: entry.0,
        next_property: next,
        key_id: 0,
        value_type: form_or_null(entry.1).0.spec_code(),
        payload: form_or_null(entry.1).1,
    }
}

/// The key of a property of an entity in the index of values.
pub open spec fn value_key(entity_id: u64, entry: Entry) -> PropertyKey {
    let form = form_or_null(entry.1);
    (0, index_value(form.0, form.1), entity_id as u128)
}

/// The engine with one more property stored and entered into the index of values.
pub open spec fn linked_in(v: EngineView, entity_id: u64, entry: Entry, next: SlotRef, slot: SlotRef)
    -> EngineView {
    let w = put_property_after(v, link(entry, next), slot);
    EngineView { property_index: w.property_index.insert(value_key(entity_id, entry), slot), ..w }
}

/// The outcome of storing the properties of an entity in front of `next`: the head
/// of the chain, or why it could not be stored, and the engine then.
pub open spec fn chained(v: EngineView, entity_id: u64, list: Seq<Entry>, next: SlotRef) -> (
    Result<SlotRef, StorageError>,
    EngineView,
)
    decreases list.len(),
{
    if list.len() == 0 {
        (Ok(next), v)
    } else {
        let bytes = property_bytes(link(list.last(), next));
        match insert_outcome(v.pages, RecordKind::Property, bytes, v.property_pages).0 {
            Ok(slot) => chained(
                linked_in(v, entity_id, list.last(), next, slot),
                entity_id,
                list.drop_last(),
                slot,
            ),
            Err(e) => (Err(e), v),
        }
    }
}

/// The kind of value that a number stands for.
pub open spec fn type_of_code(code: u8) -> Option<ValueType> {
    if code == 0 {
        Some(ValueType::Null)
    } else if code == 1 {
        Some(ValueType::Bool)
    } else if code == 2 {
        Some(ValueType::Int64)
    } else if code == 3 {
        Some(ValueType::Float64)
    } else if code == 4 {
        Some(ValueType::String)
    } else if code == 5 {
        Some(ValueType::List)
    } else if code == 6 {
        Some(ValueType::Dict)
    } else {
        None
    }
}

/// The properties of a chain, at most `depth` of them. One of an unknown kind is
/// passed over.
pub open spec fn read_chain(pages: Seq<PageView>, head: SlotRef, depth: nat) -> Seq<Entry>
    decreases depth,
{
    if head.spec_is_null() || depth == 0 {
        Seq::empty()
    } else {
        match property_at(pages, head) {
            None => Seq::empty(),
            Some(p) => {
                let rest = read_chain(pages, p.next_property, (depth - 1) as nat);
                match type_of_code(p.value_type) {
                    Some(t) => seq![(p.name, read_form(t, p.payload))] + rest,
                    None => rest,
                }
            },
        }
    }
}

/// The properties of an entity by name.
pub open spec fn chain_map(pages: Seq<PageView>, head: SlotRef) -> Map<Seq<char>, PropertyModel> {
    by_name(read_chain(pages, head, MAX_CHAIN_DEPTH as nat))
}

/// A property as it is read back.
pub open spec fn read_entry(entry: Entry) -> Entry {
    (entry.0, read_form(form_or_null(entry.1).0, form_or_null(entry.1).1))
}

/// Properties as they are read back.
pub open spec fn read_entries(list: Seq<Entry>) -> Seq<Entry> {
    list.map_values(|e: Entry| read_entry(e))
}

/// A value as it is read back: no value in place of one that has no stored form.
pub open spec fn read_back(m: PropertyModel) -> PropertyModel {
    if stored_form(m) is Some {
        m
    } else {
        PropertyModel::Null
    }
}

/// Properties by name as they are read back.
pub open spec fn all_read_back(m: Map<Seq<char>, PropertyModel>) -> Map<Seq<char>, PropertyModel> {
    m.map_values(|v: PropertyModel| read_back(v))
}

// ---------------------------------------------------------------------------
// What was stored is read back
// ---------------------------------------------------------------------------

/// Properties can be stored if the entries of their list can.
pub proof fn lemma_storable(properties: PropertyMap)
    requires
        properties.wf(),
    ensures
        storable(properties@) == list_storable(properties.list()),
{
    let list = properties.list();
    lemma_by_name(list);
    if list_storable(list) {
        assert forall|name: Seq<char>| #[trigger]
            properties@.contains_key(name) implies entry_storable((name, properties@[name])) by {
            let i = choose|i: int| 0 <= i < list.len() && (#[trigger] list[i]).0 == name;
            assert(entry_storable(list[i]));
        }
    }
    if storable(properties@) {
        assert forall|i: int| 0 <= i < list.len() implies entry_storable(#[trigger] list[i]) by {
            assert(properties@.contains_key(list[i].0));
        }
    }
}

/// Reading properties back keeps their names, and every value that has a stored form.
pub proof fn law_properties_read_back(list: Seq<Entry>)
    ensures
        by_name(read_entries(list)) == all_read_back(by_name(list)),
    decreases list.len(),
{
    if list.len() > 0 {
        law_properties_read_back(list.drop_last());
        law_stored_value_roundtrip(list.last().1);
        assert(read_entries(list).drop_last() =~= read_entries(list.drop_last()));
    }
    assert(by_name(read_entries(list)) =~= all_read_back(by_name(list)));
}

/// Properties keep their names when they are read back. Null, truth values, integers, floats
/// and texts keep their value too; any other value is read as no value.
pub proof fn law_read_back_by_kind(m: Map<Seq<char>, PropertyModel>, name: Seq<char>)
    ensures
        all_read_back(m).contains_key(name) == m.contains_key(name),
        m.contains_key(name) && (m[name] is Null || m[name] is Boolean || m[name] is Integer
            || m[name] is Float || m[name] is String) ==> all_read_back(m)[name] == m[name],
        m.contains_key(name) && !(m[name] is Null || m[name] is Boolean || m[name] is Integer
            || m[name] is Float || m[name] is String) ==> all_read_back(m)[name]
            == PropertyModel::Null,
{
    if m.contains_key(name) {
        law_kinds_read_back(m[name]);
    }
}

/// Every kind of value has a number of its own, and a stored property is read as the kind
/// that it was stored as.
pub proof fn law_type_codes(a: ValueType, b: ValueType)
    ensures
        type_of_code(a.spec_code()) == Some(a),
        a.spec_code() == b.spec_code() <==> a == b,
        a.spec_code() <= 6,
{
}

/// A number above 6 stands for no kind of value.
pub proof fn law_unknown_codes(code: u8)
    ensures
        type_of_code(code) is None <==> code > 6,
{
}

/// Once the properties of an entity are stored, the index of values holds the entity
/// under every value.
pub proof fn law_values_entered(v: EngineView, entity_id: u64, list: Seq<Entry>, next: SlotRef)
    ensures
        ({
            let (outcome, w) = chained(v, entity_id, list, next);
            &&& forall|k: PropertyKey| #[trigger]
                v.property_index.contains_key(k) ==> w.property_index.contains_key(k)
            &&& outcome is Ok ==> forall|i: int|
                0 <= i < list.len() ==> w.property_index.contains_key(
                    value_key(entity_id, #[trigger] list[i]),
                )
        }),
    decreases list.len(),
{
    if list.len() > 0 {
        let bytes = property_bytes(link(list.last(), next));
        match insert_outcome(v.pages, RecordKind::Property, bytes, v.property_pages).0 {
            Ok(slot) => {
                let v1 = linked_in(v, entity_id, list.last(), next, slot);
                law_values_entered(v1, entity_id, list.drop_last(), slot);
                let w = chained(v, entity_id, list, next).1;
                assert(v1.property_index.contains_key(value_key(entity_id, list.last())));
                assert forall|k: PropertyKey| #[trigger]
                    v.property_index.contains_key(k) implies w.property_index.contains_key(k) by {
                    assert(v1.property_index.contains_key(k));
                }
                if chained(v, entity_id, list, next).0 is Ok {
                    assert forall|i: int| 0 <= i < list.len() implies w.property_index.contains_key(
                        value_key(entity_id, #[trigger] list[i]),
                    ) by {
                        if i < list.len() - 1 {
                            assert(list.drop_last()[i] == list[i]);
                        }
                    }
                }
            },
            Err(_) => {},
        }
    }
}

/// The index of values holds an entity under the bytes of each of its values, with key 0 and
/// the id of the entity, and storing the properties of one entity enters nothing for another
/// and nothing under a value that it does not have.
pub proof fn law_only_values_entered(
    v: EngineView,
    entity_id: u64,
    list: Seq<Entry>,
    next: SlotRef,
    key: PropertyKey,
)
    ensures
        ({
            let (outcome, w) = chained(v, entity_id, list, next);
            &&& w.property_index.contains_key(key) && !v.property_index.contains_key(key) ==> {
                &&& key.0 == 0
                &&& key.2 == entity_id
                &&& exists|i: int|
                    0 <= i < list.len() && key.1 == index_value(
                        form_or_null((#[trigger] list[i]).1).0,
                        form_or_null(list[i].1).1,
                    )
            }
            &&& outcome is Ok && key.0 == 0 && key.2 == entity_id && (exists|i: int|
                0 <= i < list.len() && key.1 == index_value(
                    form_or_null((#[trigger] list[i]).1).0,
                    form_or_null(list[i].1).1,
                )) ==> w.property_index.contains_key(key)
        }),
    decreases list.len(),
{
    law_values_entered(v, entity_id, list, next);
    if list.len() > 0 {
        let bytes = property_bytes(link(list.last(), next));
        if let Ok(slot) = insert_outcome(
            v.pages,
            RecordKind::Property,
            bytes,
            v.property_pages,
        ).0 {
            let v1 = linked_in(v, entity_id, list.last(), next, slot);
            let rest = list.drop_last();
            law_only_values_entered(v1, entity_id, rest, slot, key);
            let w = chained(v, entity_id, list, next).1;
            assert(list[list.len() - 1] == list.last());
            if w.property_index.contains_key(key) && !v1.property_index.contains_key(key) {
                let i = choose|i: int|
                    0 <= i < rest.len() && key.1 == index_value(
                        form_or_null((#[trigger] rest[i]).1).0,
                        form_or_null(rest[i].1).1,
                    );
                assert(rest[i] == list[i]);
            }
        }
    }
}

impl PropertyMap {
    /// Can the properties be stored?
    pub fn is_storable(&self) -> (r: bool)
        requires
            self.wf(),
        ensures
            r == storable(self@),
    {
        proof {
            lemma_storable(*self);
        }
        let mut i: usize = 0;
        while i < self.entries.len()
            invariant
                storable(self@) == list_storable(self.list()),
                i <= self.entries@.len(),
                forall|k: int| 0 <= k < i ==> entry_storable(#[trigger] self.list()[k]),
            decreases self.entries@.len() - i,
        {
            let name = self.entries[i].0.as_str();
            let length: usize = match self.entries[i].1.to_value_type_payload() {
                Some(form) => form.1.len(),
                None => 0,
            };
            assert(self.list()[i as int] == (name@, self.entries@[i as int].1.model()));
            if name.as_bytes().len() > 65535 || length > MAX_INLINE_PROPERTY_LEN {
                assert(!entry_storable(self.list()[i as int]));
                return false;
            }
            i += 1;
        }
        true
    }
}

/// Do the properties stand in a chain from `head` on, with `next` behind the last?
pub open spec fn is_stored_chain(
    pages: Seq<PageView>,
    head: SlotRef,
    list: Seq<Entry>,
    next: SlotRef,
) -> bool
    decreases list.len(),
{
    if list.len() == 0 {
        head == next
    } else {
        let p = property_at(pages, head);
        &&& !head.spec_is_null()
        &&& p is Some
        &&& p->0 == link(list[0], p->0.next_property)
        &&& is_stored_chain(pages, p->0.next_property, list.skip(1), next)
    }
}

/// A chain with one more property at its end.
proof fn lemma_chain_append(
    pages: Seq<PageView>,
    head: SlotRef,
    list: Seq<Entry>,
    slot: SlotRef,
    next: SlotRef,
)
    requires
        list.len() > 0,
        is_stored_chain(pages, head, list.drop_last(), slot),
        !slot.spec_is_null(),
        property_at(pages, slot) == Some(link(list.last(), next)),
    ensures
        is_stored_chain(pages, head, list, next),
    decreases list.len(),
{
    reveal_with_fuel(is_stored_chain, 3);
    if list.len() == 1 {
        assert(list.skip(1) =~= Seq::empty());
        assert(list[0] == list.last());
    } else {
        let p = property_at(pages, head)->0;
        assert(list.drop_last()[0] == list[0]);
        assert(list.drop_last().skip(1) =~= list.skip(1).drop_last());
        assert(list.skip(1).last() == list.last());
        lemma_chain_append(pages, p.next_property, list.skip(1), slot, next);
    }
}

/// A chain is read as it was stored.
proof fn lemma_chain_read(
    pages: Seq<PageView>,
    head: SlotRef,
    list: Seq<Entry>,
    next: SlotRef,
    depth: nat,
)
    requires
        is_stored_chain(pages, head, list, next),
        depth >= list.len(),
    ensures
        read_chain(pages, head, depth) == read_entries(list) + read_chain(
            pages,
            next,
            (depth - list.len()) as nat,
        ),
    decreases list.len(),
{
    if list.len() == 0 {
        assert(read_entries(list) + read_chain(pages, next, depth) =~= read_chain(
            pages,
            next,
            depth,
        ));
    } else {
        let p = property_at(pages, head)->0;
        lemma_chain_read(pages, p.next_property, list.skip(1), next, (depth - 1) as nat);
        assert(type_of_code(p.value_type) == Some(form_or_null(list[0].1).0));
        assert(read_entries(list) =~= seq![read_entry(list[0])] + read_entries(list.skip(1)));
        let tail = read_chain(pages, next, (depth - list.len()) as nat);
        assert(seq![read_entry(list[0])] + (read_entries(list.skip(1)) + tail) =~= read_entries(
            list,
        ) + tail);
    }
}

/// Are the property pages of the engine in order?
pub open spec fn property_pages_ok(v: EngineView) -> bool {
    &&& pages_of(v.pages, v.property_pages, RecordKind::Property)
    &&& FIRST_DATA_PAGE + v.pages.len() <= SlotRef::MAX_PAGE_ID + 1
}

/// The chain stands in the engine after it was stored, and what was stored before
/// still does.
pub proof fn lemma_chained(v: EngineView, entity_id: u64, list: Seq<Entry>, next: SlotRef)
    requires
        property_pages_ok(v),
        list_storable(list),
    ensures
        ({
            let (r, w) = chained(v, entity_id, list, next);
            &&& property_pages_ok(w)
            &&& w == (EngineView {
                pages: w.pages,
                property_pages: w.property_pages,
                property_index: w.property_index,
                wal: w.wal,
                ..v
            })
            &&& forall|s: SlotRef| #[trigger]
                cells(v.pages).contains_key(s) ==> cells(w.pages).contains_key(s) && cells(
                    w.pages,
                )[s] == cells(v.pages)[s]
            &&& r matches Ok(head) ==> is_stored_chain(w.pages, head, list, next)
        }),
    decreases list.len(),
{
    if list.len() > 0 {
        let entry = list.last();
        let p = link(entry, next);
        let bytes = property_bytes(p);
        lemma_insert_cells(v.pages, RecordKind::Property, bytes, v.property_pages);
        if let Ok(slot) = insert_outcome(
            v.pages,
            RecordKind::Property,
            bytes,
            v.property_pages,
        ).0 {
            let v2 = linked_in(v, entity_id, entry, next, slot);
            let before = list.drop_last();
            assert(list_storable(before)) by {
                assert forall|i: int| 0 <= i < before.len() implies entry_storable(
                    #[trigger] before[i],
                ) by {
                    assert(before[i] == list[i]);
                }
            }
            lemma_chained(v2, entity_id, before, slot);
            let (r, w) = chained(v2, entity_id, before, slot);
            assert forall|s: SlotRef| #[trigger] cells(v.pages).contains_key(s) implies cells(
                w.pages,
            ).contains_key(s) && cells(w.pages)[s] == cells(v.pages)[s] by {
                assert(cells(v2.pages).contains_key(s));
            }
            assert(cells(v2.pages).contains_key(slot));
            assert(entry_storable(list[list.len() - 1]));
            law_stored_property_roundtrip(p);
            assert(properties_of(cells(w.pages)).contains_key(slot));
            assert(property_at(w.pages, slot) == Some(p));
            if let Ok(head) = r {
                lemma_chain_append(w.pages, head, list, slot, next);
            }
        }
    }
}

/// Storing a chain takes no id.
pub proof fn lemma_chained_next_id(v: EngineView, entity_id: u64, list: Seq<Entry>, next: SlotRef)
    ensures
        chained(v, entity_id, list, next).1.next_id == v.next_id,
    decreases list.len(),
{
    if list.len() > 0 {
        let bytes = property_bytes(link(list.last(), next));
        if let Ok(slot) = insert_outcome(
            v.pages,
            RecordKind::Property,
            bytes,
            v.property_pages,
        ).0 {
            lemma_chained_next_id(
                linked_in(v, entity_id, list.last(), next, slot),
                entity_id,
                list.drop_last(),
                slot,
            );
        }
    }
}

/// An insertion of a record that a page can hold succeeds while there can be one more page,
/// and takes no more than that.
pub proof fn lemma_insert_succeeds(
    pages: Seq<PageView>,
    kind: RecordKind,
    record: Seq<u8>,
    list: Seq<PageId>,
)
    requires
        pages_of(pages, list, kind),
        record.len() + 4 <= 8128,
        3 + pages.len() <= 0xFF_FFFF,
    ensures
        insert_outcome(pages, kind, record, list).0 is Ok,
        insert_outcome(pages, kind, record, list).1.len() <= pages.len() + 1,
{
    lemma_last_with_room(pages, list, record.len());
    if let Some(id) = last_with_room(pages, list, record.len()) {
        let i = choose|i: int| 0 <= i < list.len() && list[i] == id;
        assert(is_page(pages, list[i]));
    }
}

/// Do the name and the stored form of every property fit on one page?
pub open spec fn fits_on_page(list: Seq<Entry>) -> bool {
    forall|i: int|
        0 <= i < list.len() ==> encode_utf8((#[trigger] list[i]).0).len() + form_or_null(
            list[i].1,
        ).1.len() + 18 <= 8128
}

/// Properties that fit on a page are stored, however many there are, while the pages can
/// grow by one for each.
pub proof fn law_chain_is_stored(v: EngineView, entity_id: u64, list: Seq<Entry>, next: SlotRef)
    requires
        pages_of(v.pages, v.property_pages, RecordKind::Property),
        fits_on_page(list),
        3 + v.pages.len() + list.len() <= 0x100_0000,
    ensures
        chained(v, entity_id, list, next).0 is Ok,
    decreases list.len(),
{
    broadcast use le_bytes_len;

    if list.len() > 0 {
        assert(list[list.len() - 1] == list.last());
        let bytes = property_bytes(link(list.last(), next));
        lemma_insert_succeeds(v.pages, RecordKind::Property, bytes, v.property_pages);
        lemma_insert_cells(v.pages, RecordKind::Property, bytes, v.property_pages);
        let slot = insert_outcome(v.pages, RecordKind::Property, bytes, v.property_pages).0->Ok_0;
        assert(fits_on_page(list.drop_last())) by {
            assert forall|i: int| 0 <= i < list.len() - 1 implies encode_utf8(
                (#[trigger] list.drop_last()[i]).0,
            ).len() + form_or_null(list.drop_last()[i].1).1.len() + 18 <= 8128 by {
                assert(list.drop_last()[i] == list[i]);
            }
        }
        law_chain_is_stored(
            linked_in(v, entity_id, list.last(), next, slot),
            entity_id,
            list.drop_last(),
            slot,
        );
    }
}

/// A chain is read from the properties alone.
pub proof fn lemma_chain_same(pages: Seq<PageView>, pages2: Seq<PageView>, head: SlotRef, depth: nat)
    requires
        properties_of(cells(pages)) == properties_of(cells(pages2)),
    ensures
        read_chain(pages, head, depth) == read_chain(pages2, head, depth),
    decreases depth,
{
    if !head.spec_is_null() && depth > 0 {
        if let Some(p) = property_at(pages, head) {
            lemma_chain_same(pages, pages2, p.next_property, (depth - 1) as nat);
        }
    }
}

/// What was stored for an entity is read back: every name has the value it was
/// given, as far as that has a stored form.
pub proof fn law_chain_roundtrip(v: EngineView, entity_id: u64, list: Seq<Entry>)
    requires
        property_pages_ok(v),
        list_storable(list),
        list.len() <= MAX_CHAIN_DEPTH,
    ensures
        ({
            let (r, w) = chained(v, entity_id, list, SlotRef::null());
            r matches Ok(head) ==> chain_map(w.pages, head) == by_name(read_entries(list))
        }),
{
    let (r, w) = chained(v, entity_id, list, SlotRef::null());
    lemma_chained(v, entity_id, list, SlotRef::null());
    if let Ok(head) = r {
        lemma_chain_read(w.pages, head, list, SlotRef::null(), MAX_CHAIN_DEPTH as nat);
        let rest = (MAX_CHAIN_DEPTH - list.len()) as nat;
        assert(read_chain(w.pages, SlotRef::null(), rest) =~= Seq::empty());
        assert(read_entries(list) + Seq::<Entry>::empty() =~= read_entries(list));
    }
}

// ---------------------------------------------------------------------------
// The engine
// ---------------------------------------------------------------------------

/// Stores the properties of an entity as a chain and enters them into the index of
/// values. A value that the index has no room for is left out of it.
pub fn store_chain(engine: &mut GraphStorageEngine, entity_id: u64, properties: &PropertyMap) -> (r:
    Result<SlotRef, StorageError>)
    requires
        old(engine).wf(),
        properties.wf(),
        storable(properties@),
    ensures
        final(engine).wf(),
        ({
            let (outcome, after) = chained(
                old(engine)@,
                entity_id,
                properties.list(),
                SlotRef::null(),
            );
            &&& r == outcome
            &&& final(engine)@ == (EngineView {
                property_index: final(engine)@.property_index,
                ..after
            })
            &&& !final(engine).property_index.is_full() ==> final(engine)@ == after
        }),
        old(engine).property_index.is_full() ==> final(engine).property_index.is_full(),
        old(engine).room() >= properties.list().len() ==> final(engine).room() >= old(engine).room()
            - properties.list().len(),
        agreements_kept(old(engine)@, final(engine)@),
{
    let ghost start = *engine;
    let ghost list = properties.list();
    let ghost mut model = engine@;
    proof {
        lemma_storable(*properties);
    }
    let mut next = SlotRef::null();
    let mut i: usize = properties.len();
    assert(list.take(i as int) =~= list);
    while i > 0
        invariant
            engine.wf(),
            start == *old(engine),
            properties.wf(),
            list == properties.list(),
            list_storable(list),
            i <= list.len(),
            chained(start@, entity_id, list, SlotRef::null()) == chained(
                model,
                entity_id,
                list.take(i as int),
                next,
            ),
            engine@ == (EngineView { property_index: engine@.property_index, ..model }),
            !engine.property_index.is_full() ==> engine@ == model,
            start.property_index.is_full() ==> engine.property_index.is_full(),
            start.room() >= list.len() ==> engine.room() >= start.room() - (list.len() - i),
            agreements_kept(start@, engine@),
        decreases i,
    {
        let ghost rest = list.take(i as int);
        i -= 1;
        let ghost entry = list[i as int];
        assert(rest.last() == entry);
        assert(rest.drop_last() =~= list.take(i as int));
        assert(entry_storable(list[i as int]));
        let name = properties.entries[i].0.as_str();
        let form = match properties.entries[i].1.to_value_type_payload() {
            Some(form) => form,
            None => (ValueType::Null, Vec::new()),
        };
        assert(form.1@ =~= form_or_null(entry.1).1);
        assert(form.0 == form_or_null(entry.1).0);
        let indexed = copy_range(form.1.as_slice(), 0, form.1.len());
        assert(indexed@ =~= form.1@);
        let mut prop = StoredProperty::inline(name, 0, form.0, form.1);
        prop.next_property = next;
        assert(prop@ =~= link(entry, next));
        let slot = match engine.put_property(&prop) {
            Ok(slot) => slot,
            Err(e) => {
                return Err(e);
            },
        };
        if engine.property_index.has_room() {
            let _r = engine.insert_property_index(
                entity_id as u128,
                0,
                form.0,
                indexed.as_slice(),
                slot,
            );
        }
        proof {
            model = linked_in(model, entity_id, entry, next, slot);
        }
        next = slot;
    }
    Ok(next)
}

/// The properties of a chain by name.
pub fn read_property_chain_engine(engine: &GraphStorageEngine, head: SlotRef) -> (r: PropertyMap)
    requires
        engine.wf(),
    ensures
        r.wf(),
        r@ == chain_map(engine@.pages, head),
{
    let mut map = PropertyMap::new();
    let mut current = head;
    let mut left: usize = MAX_CHAIN_DEPTH;
    let ghost mut done: Seq<Entry> = Seq::empty();
    let ghost all = read_chain(engine@.pages, head, MAX_CHAIN_DEPTH as nat);
    assert(done + all =~= all);
    while !current.is_null() && left > 0
        invariant_except_break
            done + read_chain(engine@.pages, current, left as nat) == all,
        invariant
            engine.wf(),
            map.wf(),
            map@ == by_name(done),
        ensures
            done == all,
        decreases left,
    {
        let prop = match engine.get_property(current) {
            Some(prop) => prop,
            None => {
                assert(done + Seq::<Entry>::empty() =~= done);
                break;
            },
        };
        let ghost rest = read_chain(engine@.pages, prop@.next_property, (left - 1) as nat);
        match ValueType::from_u8(prop.record.header.value_type) {
            Some(t) => {
                let value = decode_property_value(t, prop.record.payload.as_slice());
                let ghost entry = (prop@.name, value.model());
                proof {
                    assert(type_of_code(prop@.value_type) == Some(t));
                    assert(done + (seq![entry] + rest) =~= done.push(entry) + rest);
                    assert(done.push(entry).drop_last() =~= done);
                    done = done.push(entry);
                }
                map.insert(prop.name.clone(), value);
            },
            None => {
                assert(type_of_code(prop@.value_type) is None);
            },
        }
        current = prop.next_property;
        left -= 1;
    }
    map
}

} // verus!
