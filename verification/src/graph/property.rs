//! Property values, and properties by name.

use vstd::prelude::*;
use vstd::std_specs::convert::FromSpec;
use vstd::std_specs::convert::FromSpecImpl;
use vstd::string::StringSliceAdditionalSpecFns;
use vstd::utf8::encode_utf8;
use vstd::utf8::encode_utf8_decode_utf8;

use crate::bytes::bytes_eq;
use crate::bytes::bytes_lt;
use crate::bytes::lemma_lex_antisym;
use crate::bytes::lemma_lex_refl;
use crate::bytes::lemma_lex_total;
use crate::bytes::lemma_lex_trans;
use crate::bytes::lex_lt;
use crate::graph::float::OrderedF64;

verus! {

/// A property value.
#[derive(Debug, PartialEq, Eq)]
pub enum Property {
    /// No value.
    Null,
    /// An integer.
    Integer(i64),
    /// A float.
    Float(OrderedF64),
    /// A text.
    String(String),
    /// A truth value.
    Boolean(bool),
    /// A point in time, in milliseconds of the epoch.
    Date(i64),
    /// A span of time, in nanoseconds.
    Duration(i64),
    /// A point in two or three dimensions.
    Point { srid: u32, x: OrderedF64, y: OrderedF64, z: Option<OrderedF64> },
    /// A list of values.
    List(Vec<Property>),
    /// Values by name.
    Dict(PropertyMap),
}

/// Properties by name. They are kept by rising name.
#[derive(Debug, PartialEq, Eq)]
pub struct PropertyMap {
    pub entries: Vec<(String, Property)>,
}

/// What a property value is.
#[verifier::ext_equal]
pub enum PropertyModel {
    Null,
    Integer(i64),
    Float(OrderedF64),
    String(Seq<char>),
    Boolean(bool),
    Date(i64),
    Duration(i64),
    Point { srid: u32, x: OrderedF64, y: OrderedF64, z: Option<OrderedF64> },
    List(Seq<PropertyModel>),
    Dict(Seq<(Seq<char>, PropertyModel)>),
}

/// A name with a value.
pub type Entry = (Seq<char>, PropertyModel);

impl Property {
    /// What the value is.
    pub open spec fn model(self) -> PropertyModel
        decreases self,
    {
        match self {
            Property::Null => PropertyModel::Null,
            Property::Integer(v) => PropertyModel::Integer(v),
            Property::Float(v) => PropertyModel::Float(v),
            Property::String(s) => PropertyModel::String(s@),
            Property::Boolean(b) => PropertyModel::Boolean(b),
            Property::Date(v) => PropertyModel::Date(v),
            Property::Duration(v) => PropertyModel::Duration(v),
            Property::Point { srid, x, y, z } => PropertyModel::Point { srid, x, y, z },
            Property::List(items) => PropertyModel::List(
                Seq::new(
                    items@.len(),
                    |i: int|
                        if 0 <= i < items@.len() {
                            items@[i].model()
                        } else {
                            PropertyModel::Null
                        },
                ),
            ),
            Property::Dict(m) => PropertyModel::Dict(
                Seq::new(
                    m.entries@.len(),
                    |i: int|
                        if 0 <= i < m.entries@.len() {
                            (m.entries@[i].0@, m.entries@[i].1.model())
                        } else {
                            (Seq::empty(), PropertyModel::Null)
                        },
                ),
            ),
        }
    }

    /// Is there no value?
    pub fn is_null(&self) -> (r: bool)
        ensures
            r == (self.model() is Null),
    {
        match self {
            Property::Null => true,
            _ => false,
        }
    }

    /// Is this a single value, neither a list nor values by name?
    pub fn is_scalar(&self) -> (r: bool)
        ensures
            r == !(self.model() is Null || self.model() is List || self.model() is Dict),
    {
        match self {
            Property::Null => false,
            Property::List(_) => false,
            Property::Dict(_) => false,
            _ => true,
        }
    }

    /// Is this a list, or values by name?
    pub fn is_composite(&self) -> (r: bool)
        ensures
            r == (self.model() is List || self.model() is Dict),
    {
        match self {
            Property::List(_) => true,
            Property::Dict(_) => true,
            _ => false,
        }
    }

    /// The place of the kind of value when values are sorted.
    pub open spec fn spec_discriminant_ord(model: PropertyModel) -> u8 {
        match model {
            PropertyModel::Null => 0,
            PropertyModel::Boolean(_) => 1,
            PropertyModel::Integer(_) => 2,
            PropertyModel::Float(_) => 3,
            PropertyModel::String(_) => 4,
            PropertyModel::List(_) => 5,
            PropertyModel::Dict(_) => 6,
            PropertyModel::Point { .. } => 7,
            PropertyModel::Date(_) => 8,
            PropertyModel::Duration(_) => 9,
        }
    }

    /// The place of the kind of value when values are sorted.
    pub fn discriminant_ord(&self) -> (r: u8)
        ensures
            r == Self::spec_discriminant_ord(self.model()),
    {
        match self {
            Property::Null => 0,
            Property::Boolean(_) => 1,
            Property::Integer(_) => 2,
            Property::Float(_) => 3,
            Property::String(_) => 4,
            Property::List(_) => 5,
            Property::Dict(_) => 6,
            Property::Point { .. } => 7,
            Property::Date(_) => 8,
            Property::Duration(_) => 9,
        }
    }
}

// ---------------------------------------------------------------------------
// Conversions
// ---------------------------------------------------------------------------

impl FromSpecImpl<i64> for Property {
    open spec fn obeys_from_spec() -> bool {
        true
    }

    open spec fn from_spec(v: i64) -> Property {
        Property::Integer(v)
    }
}

impl From<i64> for Property {
    fn from(v: i64) -> (r: Property) {
        Property::Integer(v)
    }
}

impl FromSpecImpl<i32> for Property {
    open spec fn obeys_from_spec() -> bool {
        true
    }

    open spec fn from_spec(v: i32) -> Property {
        Property::Integer(v as i64)
    }
}

impl From<i32> for Property {
    fn from(v: i32) -> (r: Property) {
        Property::Integer(v as i64)
    }
}

impl FromSpecImpl<u32> for Property {
    open spec fn obeys_from_spec() -> bool {
        true
    }

    open spec fn from_spec(v: u32) -> Property {
        Property::Integer(v as i64)
    }
}

impl From<u32> for Property {
    fn from(v: u32) -> (r: Property) {
        Property::Integer(v as i64)
    }
}

impl FromSpecImpl<OrderedF64> for Property {
    open spec fn obeys_from_spec() -> bool {
        true
    }

    open spec fn from_spec(v: OrderedF64) -> Property {
        Property::Float(v)
    }
}

impl From<OrderedF64> for Property {
    fn from(v: OrderedF64) -> (r: Property) {
        Property::Float(v)
    }
}

impl FromSpecImpl<String> for Property {
    open spec fn obeys_from_spec() -> bool {
        true
    }

    open spec fn from_spec(v: String) -> Property {
        Property::String(v)
    }
}

impl From<String> for Property {
    fn from(v: String) -> (r: Property) {
        Property::String(v)
    }
}

impl FromSpecImpl<&str> for Property {
    open spec fn obeys_from_spec() -> bool {
        false
    }

    open spec fn from_spec(v: &str) -> Property {
        Property::Null
    }
}

impl From<&str> for Property {
    fn from(v: &str) -> (r: Property)
        ensures
            r.model() == PropertyModel::String(v@),
    {
        Property::String(v.to_owned())
    }
}

impl FromSpecImpl<bool> for Property {
    open spec fn obeys_from_spec() -> bool {
        true
    }

    open spec fn from_spec(v: bool) -> Property {
        Property::Boolean(v)
    }
}

impl From<bool> for Property {
    fn from(v: bool) -> (r: Property) {
        Property::Boolean(v)
    }
}

impl FromSpecImpl<Vec<Property>> for Property {
    open spec fn obeys_from_spec() -> bool {
        true
    }

    open spec fn from_spec(v: Vec<Property>) -> Property {
        Property::List(v)
    }
}

impl From<Vec<Property>> for Property {
    fn from(v: Vec<Property>) -> (r: Property) {
        Property::List(v)
    }
}

impl FromSpecImpl<PropertyMap> for Property {
    open spec fn obeys_from_spec() -> bool {
        true
    }

    open spec fn from_spec(v: PropertyMap) -> Property {
        Property::Dict(v)
    }
}

impl From<PropertyMap> for Property {
    fn from(v: PropertyMap) -> (r: Property) {
        Property::Dict(v)
    }
}

/// A value that is made of a number, a text, a truth value or others holds just that.
pub proof fn law_from_values(
    i: i64,
    j: i32,
    k: u32,
    f: OrderedF64,
    s: String,
    b: bool,
    items: Vec<Property>,
    entries: PropertyMap,
)
    ensures
        <Property as FromSpec<i64>>::from_spec(i) == Property::Integer(i),
        <Property as FromSpec<i32>>::from_spec(j) matches Property::Integer(v) && v == j,
        <Property as FromSpec<u32>>::from_spec(k) matches Property::Integer(v) && v == k,
        <Property as FromSpec<OrderedF64>>::from_spec(f) == Property::Float(f),
        <Property as FromSpec<String>>::from_spec(s) == Property::String(s),
        <Property as FromSpec<bool>>::from_spec(b) == Property::Boolean(b),
        <Property as FromSpec<Vec<Property>>>::from_spec(items) == Property::List(items),
        <Property as FromSpec<PropertyMap>>::from_spec(entries) == Property::Dict(entries),
{
}

/// Values of different kinds are sorted by kind: null, truth values, integers, floats, texts,
/// lists, values by name, points, dates, durations.
pub proof fn law_kinds_sorted(m: PropertyModel)
    ensures
        Property::spec_discriminant_ord(m) == (if m is Null {
            0int
        } else if m is Boolean {
            1
        } else if m is Integer {
            2
        } else if m is Float {
            3
        } else if m is String {
            4
        } else if m is List {
            5
        } else if m is Dict {
            6
        } else if m is Point {
            7
        } else if m is Date {
            8
        } else {
            9
        }),
{
}

// ---------------------------------------------------------------------------
// Properties by name
// ---------------------------------------------------------------------------

/// Of two entries with one name the later one counts, and an entry changes no other name.
pub proof fn law_last_entry_counts(list: Seq<Entry>, entry: Entry, name: Seq<char>)
    ensures
        by_name(Seq::empty()).dom() == Set::<Seq<char>>::empty(),
        by_name(list.push(entry)).contains_key(entry.0),
        by_name(list.push(entry))[entry.0] == entry.1,
        name != entry.0 ==> by_name(list.push(entry)).contains_key(name) == by_name(
            list,
        ).contains_key(name),
        name != entry.0 && by_name(list).contains_key(name) ==> by_name(list.push(entry))[name]
            == by_name(list)[name],
{
    assert(list.push(entry).drop_last() =~= list);
    assert(by_name(Seq::empty()).dom() =~= Set::<Seq<char>>::empty());
}

/// Names are ordered as their bytes are.
pub proof fn law_name_order(a: Seq<char>, b: Seq<char>)
    ensures
        name_lt(a, b) == lex_lt(encode_utf8(a), encode_utf8(b)),
{
}

/// Does one name come before another?
pub open spec fn name_lt(a: Seq<char>, b: Seq<char>) -> bool {
    lex_lt(encode_utf8(a), encode_utf8(b))
}

/// Do the names rise?
pub open spec fn names_rise(list: Seq<Entry>) -> bool {
    forall|i: int, j: int|
        0 <= i < j < list.len() ==> name_lt((#[trigger] list[i]).0, (#[trigger] list[j]).0)
}

/// Is the name in the list?
pub open spec fn has_name(list: Seq<Entry>, name: Seq<char>) -> bool {
    exists|i: int| 0 <= i < list.len() && (#[trigger] list[i]).0 == name
}

/// The entries of a list by name; the last one of a name counts.
pub open spec fn by_name(list: Seq<Entry>) -> Map<Seq<char>, PropertyModel>
    decreases list.len(),
{
    if list.len() == 0 {
        Map::empty()
    } else {
        by_name(list.drop_last()).insert(list.last().0, list.last().1)
    }
}

/// What a list of entries stands for, where every name occurs once.
pub proof fn lemma_by_name(list: Seq<Entry>)
    requires
        names_rise(list),
    ensures
        forall|name: Seq<char>| #[trigger]
            by_name(list).contains_key(name) <==> has_name(list, name),
        forall|i: int|
            0 <= i < list.len() ==> by_name(list).contains_key((#[trigger] list[i]).0) && by_name(
                list,
            )[list[i].0] == list[i].1,
    decreases list.len(),
{
    if list.len() > 0 {
        let rest = list.drop_last();
        lemma_by_name(rest);
        let last = list.last();
        assert forall|name: Seq<char>| #[trigger]
            by_name(list).contains_key(name) <==> has_name(list, name) by {
            if has_name(rest, name) {
                let i = choose|i: int| 0 <= i < rest.len() && (#[trigger] rest[i]).0 == name;
                assert(list[i].0 == name);
            }
            if name == last.0 {
                assert(list[list.len() - 1].0 == name);
            }
            if has_name(list, name) && name != last.0 {
                let i = choose|i: int| 0 <= i < list.len() && (#[trigger] list[i]).0 == name;
                assert(rest[i].0 == name);
            }
        }
        assert forall|i: int| 0 <= i < list.len() implies by_name(list).contains_key(
            (#[trigger] list[i]).0,
        ) && by_name(list)[list[i].0] == list[i].1 by {
            if i < rest.len() {
                assert(rest[i] == list[i]);
                assert(name_lt(list[i].0, list[list.len() - 1].0));
                lemma_lex_refl(encode_utf8(list[i].0));
            }
        }
    }
}

/// Where every name occurs once, there are as many names as entries.
pub proof fn lemma_name_count(list: Seq<Entry>)
    requires
        names_rise(list),
    ensures
        by_name(list).dom().finite(),
        by_name(list).dom().len() == list.len(),
    decreases list.len(),
{
    if list.len() > 0 {
        let front = list.drop_last();
        assert(names_rise(front)) by {
            assert forall|i: int, j: int| 0 <= i < j < front.len() implies name_lt(
                (#[trigger] front[i]).0,
                (#[trigger] front[j]).0,
            ) by {
                assert(name_lt(list[i].0, list[j].0));
            }
        }
        lemma_name_count(front);
        lemma_by_name(front);
        assert(by_name(list).dom() =~= by_name(front).dom().insert(list.last().0));
        if by_name(front).contains_key(list.last().0) {
            let i = choose|i: int| 0 <= i < front.len() && (#[trigger] front[i]).0 == list.last().0;
            assert(name_lt(list[i].0, list[list.len() - 1].0));
            lemma_lex_refl(encode_utf8(list.last().0));
        }
    }
}

impl PropertyMap {
    /// The entries by rising name.
    pub open spec fn list(self) -> Seq<Entry> {
        Seq::new(self.entries@.len(), |i: int| (self.entries@[i].0@, self.entries@[i].1.model()))
    }

    pub open spec fn wf(self) -> bool {
        names_rise(self.list())
    }

    /// No properties.
    pub fn new() -> (r: Self)
        ensures
            r.wf(),
            r.list() == Seq::<Entry>::empty(),
            r@ == Map::<Seq<char>, PropertyModel>::empty(),
    {
        let r = PropertyMap { entries: Vec::new() };
        assert(r.list() =~= Seq::empty());
        r
    }

    /// The number of properties.
    pub fn len(&self) -> (r: usize)
        requires
            self.wf(),
        ensures
            r == self.list().len(),
            r == self@.dom().len(),
    {
        proof {
            lemma_name_count(self.list());
        }
        self.entries.len()
    }

    /// Are there no properties?
    pub fn is_empty(&self) -> (r: bool)
        requires
            self.wf(),
        ensures
            r == (self.list().len() == 0),
            r == (self@ == Map::<Seq<char>, PropertyModel>::empty()),
    {
        proof {
            lemma_name_count(self.list());
        }
        self.entries.len() == 0
    }

    /// The place of the first name that does not come before `name`.
    fn place(&self, name: &str) -> (r: usize)
        requires
            self.wf(),
        ensures
            r <= self.list().len(),
            forall|i: int| 0 <= i < r ==> name_lt((#[trigger] self.list()[i]).0, name@),
            forall|i: int|
                r <= i < self.list().len() ==> (#[trigger] self.list()[i]).0 == name@ || name_lt(
                    name@,
                    self.list()[i].0,
                ),
    {
        let wanted = name.as_bytes();
        let mut i: usize = 0;
        while i < self.entries.len()
            invariant
                self.wf(),
                wanted@ == encode_utf8(name@),
                i <= self.entries@.len(),
                forall|k: int| 0 <= k < i ==> name_lt((#[trigger] self.list()[k]).0, name@),
            decreases self.entries@.len() - i,
        {
            let text = self.entries[i].0.as_str();
            assert(self.list()[i as int].0 == text@);
            if !bytes_lt(text.as_bytes(), wanted) {
                proof {
                    lemma_not_before(text@, name@);
                    assert forall|k: int| i <= k < self.list().len() implies (
                    #[trigger] self.list()[k]).0 == name@ || name_lt(
                        name@,
                        self.list()[k].0,
                    ) by {
                        if k > i {
                            assert(name_lt(self.list()[i as int].0, self.list()[k].0));
                            if text@ != name@ {
                                lemma_name_lt_trans(name@, text@, self.list()[k].0);
                            }
                        }
                    }
                }
                return i;
            }
            i += 1;
        }
        i
    }

    /// The value with a name.
    pub fn get(&self, name: &str) -> (r: Option<&Property>)
        requires
            self.wf(),
        ensures
            match r {
                Some(p) => self@.contains_key(name@) && p.model() == self@[name@],
                None => !self@.contains_key(name@),
            },
    {
        let i: usize = self.place(name);
        proof {
            lemma_by_name(self.list());
        }
        if i < self.entries.len() && text_eq(self.entries[i].0.as_str(), name) {
            assert(self.list()[i as int].0 == name@);
            return Some(&self.entries[i].1);
        }
        proof {
            if has_name(self.list(), name@) {
                let k = choose|k: int|
                    0 <= k < self.list().len() && (#[trigger] self.list()[k]).0 == name@;
                lemma_lex_refl(encode_utf8(name@));
                if k > i {
                    assert(self.list()[i as int].0 == name@ || name_lt(
                        name@,
                        self.list()[i as int].0,
                    ));
                    assert(name_lt(self.list()[i as int].0, self.list()[k].0));
                    lemma_name_lt_trans(name@, self.list()[i as int].0, name@);
                }
            }
        }
        None
    }

    /// Gives a name a value.
    pub fn insert(&mut self, name: String, value: Property)
        requires
            old(self).wf(),
        ensures
            final(self).wf(),
            final(self)@ == old(self)@.insert(name@, value.model()),
    {
        let i: usize = self.place(name.as_str());
        let ghost before = self.list();
        let ghost entry = (name@, value.model());
        proof {
            lemma_by_name(before);
        }
        if i < self.entries.len() && text_eq(self.entries[i].0.as_str(), name.as_str()) {
            assert(before[i as int].0 == name@);
            self.entries[i] = (name, value);
            assert(self.list() =~= before.update(i as int, entry));
            proof {
                lemma_replaced(before, i as int, entry);
            }
        } else {
            proof {
                assert forall|k: int| i <= k < before.len() implies name_lt(
                    name@,
                    (#[trigger] before[k]).0,
                ) by {
                    if k > i {
                        assert(name_lt(before[i as int].0, before[k].0));
                        assert(name_lt(name@, before[i as int].0));
                        lemma_name_lt_trans(name@, before[i as int].0, before[k].0);
                    }
                }
            }
            self.entries.insert(i, (name, value));
            assert(self.list() =~= before.insert(i as int, entry));
            proof {
                lemma_inserted(before, i as int, entry);
            }
        }
    }
}

impl View for PropertyMap {
    type V = Map<Seq<char>, PropertyModel>;

    open spec fn view(&self) -> Map<Seq<char>, PropertyModel> {
        by_name(self.list())
    }
}

impl Default for PropertyMap {
    fn default() -> (r: Self)
        ensures
            r.wf(),
            r.list() == Seq::<Entry>::empty(),
    {
        PropertyMap::new()
    }
}

/// Is it the same text?
fn text_eq(a: &str, b: &str) -> (r: bool)
    ensures
        r == (a@ == b@),
{
    let x = a.as_bytes();
    let y = b.as_bytes();
    proof {
        encode_utf8_decode_utf8(a@);
        encode_utf8_decode_utf8(b@);
    }
    bytes_eq(x, y)
}

proof fn lemma_not_before(a: Seq<char>, b: Seq<char>)
    ensures
        name_lt(a, b) || a == b || name_lt(b, a),
{
    encode_utf8_decode_utf8(a);
    encode_utf8_decode_utf8(b);
    if !name_lt(a, b) && !name_lt(b, a) {
        lemma_lex_antisym(encode_utf8(a), encode_utf8(b));
    }
}

proof fn lemma_name_lt_trans(a: Seq<char>, b: Seq<char>, c: Seq<char>)
    requires
        name_lt(a, b),
        name_lt(b, c),
    ensures
        name_lt(a, c),
{
    lemma_lex_total(encode_utf8(a), encode_utf8(b));
    if !name_lt(a, c) {
        lemma_lex_trans(encode_utf8(c), encode_utf8(a), encode_utf8(b));
    }
}

/// A list with another value for one of its names.
proof fn lemma_replaced(list: Seq<Entry>, i: int, entry: Entry)
    requires
        names_rise(list),
        0 <= i < list.len(),
        list[i].0 == entry.0,
    ensures
        names_rise(list.update(i, entry)),
        by_name(list.update(i, entry)) == by_name(list).insert(entry.0, entry.1),
{
    let after = list.update(i, entry);
    assert(names_rise(after)) by {
        assert forall|j: int, k: int| 0 <= j < k < after.len() implies name_lt(
            (#[trigger] after[j]).0,
            (#[trigger] after[k]).0,
        ) by {
            assert(name_lt(list[j].0, list[k].0));
        }
    }
    assert(after[i] == entry);
    assert forall|k: int| 0 <= k < list.len() implies (#[trigger] list[k]).0 == entry.0
        || after.contains(list[k]) by {
        if k != i {
            assert(after[k] == list[k]);
        }
    }
    assert forall|k: int| 0 <= k < after.len() implies #[trigger] after[k] == entry
        || list.contains(after[k]) by {
        if k != i {
            assert(after[k] == list[k]);
        }
    }
    lemma_same_names(list, after, entry);
}

/// A list with one more name.
proof fn lemma_inserted(list: Seq<Entry>, i: int, entry: Entry)
    requires
        names_rise(list),
        0 <= i <= list.len(),
        forall|k: int| 0 <= k < i ==> name_lt((#[trigger] list[k]).0, entry.0),
        forall|k: int| i <= k < list.len() ==> name_lt(entry.0, (#[trigger] list[k]).0),
    ensures
        names_rise(list.insert(i, entry)),
        by_name(list.insert(i, entry)) == by_name(list).insert(entry.0, entry.1),
{
    let after = list.insert(i, entry);
    assert(names_rise(after)) by {
        assert forall|j: int, k: int| 0 <= j < k < after.len() implies name_lt(
            (#[trigger] after[j]).0,
            (#[trigger] after[k]).0,
        ) by {
            let a = if j < i {
                j
            } else {
                j - 1
            };
            let b = if k < i {
                k
            } else {
                k - 1
            };
            if j != i {
                assert(after[j] == list[a]);
            }
            if k != i {
                assert(after[k] == list[b]);
            }
            if j != i && k != i {
                assert(name_lt(list[a].0, list[b].0));
            }
        }
    }
    assert(after[i] == entry);
    assert forall|k: int| 0 <= k < list.len() implies (#[trigger] list[k]).0 == entry.0
        || after.contains(list[k]) by {
        let j = if k < i {
            k
        } else {
            k + 1
        };
        assert(after[j] == list[k]);
    }
    assert forall|k: int| 0 <= k < after.len() implies #[trigger] after[k] == entry
        || list.contains(after[k]) by {
        if k != i {
            let j = if k < i {
                k
            } else {
                k - 1
            };
            assert(after[k] == list[j]);
        }
    }
    lemma_same_names(list, after, entry);
}

/// Two lists that differ in one entry.
proof fn lemma_same_names(list: Seq<Entry>, after: Seq<Entry>, entry: Entry)
    requires
        names_rise(list),
        names_rise(after),
        exists|i: int| 0 <= i < after.len() && after[i] == entry,
        forall|k: int|
            0 <= k < list.len() ==> (#[trigger] list[k]).0 == entry.0 || after.contains(list[k]),
        forall|k: int|
            0 <= k < after.len() ==> #[trigger] after[k] == entry || list.contains(after[k]),
    ensures
        by_name(after) == by_name(list).insert(entry.0, entry.1),
{
    lemma_by_name(list);
    lemma_by_name(after);
    let m = by_name(list).insert(entry.0, entry.1);
    assert forall|name: Seq<char>| #[trigger] by_name(after).contains_key(name) == m.contains_key(
        name,
    ) by {
        if has_name(after, name) {
            let k = choose|k: int| 0 <= k < after.len() && (#[trigger] after[k]).0 == name;
            if after[k] != entry {
                let j = choose|j: int| 0 <= j < list.len() && list[j] == after[k];
                assert(list[j].0 == name);
            }
        }
        if has_name(list, name) {
            let k = choose|k: int| 0 <= k < list.len() && (#[trigger] list[k]).0 == name;
            if name != entry.0 {
                let j = choose|j: int| 0 <= j < after.len() && after[j] == list[k];
                assert(after[j].0 == name);
            }
        }
        if name == entry.0 {
            let i = choose|i: int| 0 <= i < after.len() && after[i] == entry;
            assert(after[i].0 == name);
        }
    }
    assert forall|name: Seq<char>| #[trigger] by_name(after).contains_key(name) implies by_name(
        after,
    )[name] == m[name] by {
        let i = choose|i: int| 0 <= i < after.len() && after[i] == entry;
        if name == entry.0 {
            assert(by_name(after)[after[i].0] == after[i].1);
        } else {
            let k = choose|k: int| 0 <= k < after.len() && (#[trigger] after[k]).0 == name;
            let j = choose|j: int| 0 <= j < list.len() && list[j] == after[k];
            assert(by_name(list)[list[j].0] == list[j].1);
        }
    }
    assert(by_name(after) =~= m);
}

} // verus!
