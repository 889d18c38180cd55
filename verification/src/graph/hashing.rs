//! What of a property value goes into a hash, and in which order.
//!
//! A value that serves as a key is hashed by these parts. Properties by name go in by
//! rising name, so that their hash does not depend on how they were put together.

use vstd::prelude::*;

use crate::graph::float::is_nan;
use crate::graph::float::rank;
use crate::graph::float::OrderedF64;
use crate::graph::property::Property;
use crate::graph::property::PropertyModel;

verus! {

/// A part that goes into a hash.
#[derive(Debug, PartialEq, Eq, Hash)]
pub enum HashPart {
    /// The kind of a value.
    Kind(u8),
    /// An integer, a point in time or a span of time.
    Integer(i64),
    /// The bits of a float.
    Bits(u64),
    /// A text.
    Text(String),
    /// A truth value.
    Flag(bool),
    /// The reference system of a point.
    System(u32),
    /// Has a point a third dimension?
    Third(bool),
}

/// What a part is.
pub enum HashPartView {
    Kind(u8),
    Integer(i64),
    Bits(u64),
    Text(Seq<char>),
    Flag(bool),
    System(u32),
    Third(bool),
}

impl View for HashPart {
    type V = HashPartView;

    open spec fn view(&self) -> HashPartView {
        match self {
            HashPart::Kind(k) => HashPartView::Kind(*k),
            HashPart::Integer(v) => HashPartView::Integer(*v),
            HashPart::Bits(b) => HashPartView::Bits(*b),
            HashPart::Text(s) => HashPartView::Text(s@),
            HashPart::Flag(b) => HashPartView::Flag(*b),
            HashPart::System(s) => HashPartView::System(*s),
            HashPart::Third(b) => HashPartView::Third(*b),
        }
    }
}

/// What some parts are.
pub open spec fn part_views(parts: Seq<HashPart>) -> Seq<HashPartView> {
    parts.map_values(|p: HashPart| p@)
}

/// The bits of a float with one pattern for all NaNs.
pub open spec fn hashed_float(f: OrderedF64) -> HashPartView {
    HashPartView::Bits(
        if is_nan(f.0) {
            OrderedF64::CANONICAL_NAN_BITS
        } else {
            f.0
        },
    )
}

/// The number of the kind of a value.
pub open spec fn kind_of(m: PropertyModel) -> u8 {
    match m {
        PropertyModel::Null => 0,
        PropertyModel::Integer(_) => 1,
        PropertyModel::Float(_) => 2,
        PropertyModel::String(_) => 3,
        PropertyModel::Boolean(_) => 4,
        PropertyModel::Date(_) => 5,
        PropertyModel::Duration(_) => 6,
        PropertyModel::Point { .. } => 7,
        PropertyModel::List(_) => 8,
        PropertyModel::Dict(_) => 9,
    }
}

/// The parts of a value: its kind, then what it holds.
pub open spec fn hashed(m: PropertyModel) -> Seq<HashPartView>
    decreases m, 0nat,
{
    let kind = seq![HashPartView::Kind(kind_of(m))];
    match m {
        PropertyModel::Null => kind,
        PropertyModel::Integer(v) => kind.push(HashPartView::Integer(v)),
        PropertyModel::Float(f) => kind.push(hashed_float(f)),
        PropertyModel::String(s) => kind.push(HashPartView::Text(s)),
        PropertyModel::Boolean(b) => kind.push(HashPartView::Flag(b)),
        PropertyModel::Date(v) => kind.push(HashPartView::Integer(v)),
        PropertyModel::Duration(v) => kind.push(HashPartView::Integer(v)),
        PropertyModel::Point { srid, x, y, z } => {
            let flat = kind.push(HashPartView::System(srid)).push(hashed_float(x)).push(
                hashed_float(y),
            ).push(HashPartView::Third(z is Some));
            match z {
                Some(z) => flat.push(hashed_float(z)),
                None => flat,
            }
        },
        PropertyModel::List(items) => kind + hashed_items(items, items.len()),
        PropertyModel::Dict(entries) => kind + hashed_entries(entries, entries.len()),
    }
}

/// The parts of the first `n` values of a list.
pub open spec fn hashed_items(items: Seq<PropertyModel>, n: nat) -> Seq<HashPartView>
    decreases items, n,
{
    if n == 0 || n > items.len() {
        Seq::empty()
    } else {
        hashed_items(items, (n - 1) as nat) + hashed(items[n - 1])
    }
}

/// The parts of the first `n` values with names.
pub open spec fn hashed_entries(entries: Seq<(Seq<char>, PropertyModel)>, n: nat) -> Seq<
    HashPartView,
>
    decreases entries, n,
{
    if n == 0 || n > entries.len() {
        Seq::empty()
    } else {
        hashed_entries(entries, (n - 1) as nat).push(HashPartView::Text(entries[n - 1].0))
            + hashed(entries[n - 1].1)
    }
}

// ---------------------------------------------------------------------------
// Values that hash alike
// ---------------------------------------------------------------------------

/// Are the values the same but for the bits of their NaNs?
pub open spec fn same_but_nans(a: PropertyModel, b: PropertyModel) -> bool
    decreases a,
{
    match (a, b) {
        (PropertyModel::Float(f), PropertyModel::Float(g)) => rank(f.0) == rank(g.0),
        (
            PropertyModel::Point { srid, x, y, z },
            PropertyModel::Point { srid: srid2, x: x2, y: y2, z: z2 },
        ) => {
            &&& srid == srid2
            &&& rank(x.0) == rank(x2.0)
            &&& rank(y.0) == rank(y2.0)
            &&& match (z, z2) {
                (Some(z), Some(z2)) => rank(z.0) == rank(z2.0),
                (None, None) => true,
                _ => false,
            }
        },
        (PropertyModel::List(s), PropertyModel::List(t)) => {
            &&& s.len() == t.len()
            &&& forall|i: int| 0 <= i < s.len() ==> same_but_nans(#[trigger] s[i], t[i])
        },
        (PropertyModel::Dict(s), PropertyModel::Dict(t)) => {
            &&& s.len() == t.len()
            &&& forall|i: int|
                0 <= i < s.len() ==> (#[trigger] s[i]).0 == t[i].0 && same_but_nans(s[i].1, t[i].1)
        },
        _ => a == b,
    }
}

/// Values that are the same but for the bits of their NaNs hash alike.
pub proof fn law_nans_hash_alike(a: PropertyModel, b: PropertyModel)
    requires
        same_but_nans(a, b),
    ensures
        hashed(a) == hashed(b),
    decreases a, 0nat,
{
    match (a, b) {
        (PropertyModel::List(s), PropertyModel::List(t)) => {
            lemma_items_alike(s, t, s.len());
        },
        (PropertyModel::Dict(s), PropertyModel::Dict(t)) => {
            lemma_entries_alike(s, t, s.len());
        },
        _ => {},
    }
}

/// A value that is made of no others is hashed by its kind and all it holds: two such values
/// hash alike only if they are the same but for the bits of a NaN.
pub proof fn law_simple_values_hash_apart(a: PropertyModel, b: PropertyModel)
    requires
        !(a is List) && !(a is Dict) && !(a is Point),
        !(b is List) && !(b is Dict) && !(b is Point),
    ensures
        hashed(a) == hashed(b) <==> a == b || (a matches PropertyModel::Float(x)
            && b matches PropertyModel::Float(y) && is_nan(x.0) && is_nan(y.0)),
        hashed(a).len() <= 2,
{
    if hashed(a) == hashed(b) {
        assert(hashed(a)[0] == HashPartView::Kind(kind_of(a)));
        assert(hashed(b)[0] == HashPartView::Kind(kind_of(b)));
        if a is Null {
        } else {
            assert(hashed(a)[1] == hashed(b)[1]);
        }
        lemma_canonical_is_nan();
    }
}

proof fn lemma_canonical_is_nan()
    ensures
        is_nan(0x7FF8_0000_0000_0000),
{
    assert(0x7FF8_0000_0000_0000u64 & 0x7FF0_0000_0000_0000 == 0x7FF0_0000_0000_0000
        && 0x7FF8_0000_0000_0000u64 & 0x000F_FFFF_FFFF_FFFF != 0) by (bit_vector);
}

/// Points hash alike only if they are the same but for the bits of a NaN.
pub proof fn law_points_hash_apart(a: PropertyModel, b: PropertyModel)
    requires
        a is Point,
        b is Point,
    ensures
        hashed(a) == hashed(b) <==> same_but_nans(a, b),
{
    lemma_canonical_is_nan();
    if hashed(a) == hashed(b) {
        assert(hashed(a)[1] == hashed(b)[1]);
        assert(hashed(a)[2] == hashed(b)[2]);
        assert(hashed(a)[3] == hashed(b)[3]);
        assert(hashed(a)[4] == hashed(b)[4]);
        if hashed(a).len() > 5 {
            assert(hashed(a)[5] == hashed(b)[5]);
        }
    }
    if same_but_nans(a, b) {
        law_nans_hash_alike(a, b);
    }
}

/// A list is hashed item by item, and properties by name with each name before its value.
pub proof fn law_composite_hash(
    items: Seq<PropertyModel>,
    item: PropertyModel,
    entries: Seq<(Seq<char>, PropertyModel)>,
    entry: (Seq<char>, PropertyModel),
)
    ensures
        hashed(PropertyModel::List(Seq::empty())) == seq![HashPartView::Kind(8)],
        hashed(PropertyModel::List(items.push(item))) == hashed(PropertyModel::List(items))
            + hashed(item),
        hashed(PropertyModel::Dict(Seq::empty())) == seq![HashPartView::Kind(9)],
        hashed(PropertyModel::Dict(entries.push(entry))) == hashed(
            PropertyModel::Dict(entries),
        ).push(HashPartView::Text(entry.0)) + hashed(entry.1),
{
    let all = items.push(item);
    lemma_items_front(items, all, items.len());
    assert(hashed_items(all, all.len()) == hashed_items(all, items.len()) + hashed(item));
    assert(hashed(PropertyModel::List(all)) =~= hashed(PropertyModel::List(items)) + hashed(item));
    let named = entries.push(entry);
    lemma_entries_front(entries, named, entries.len());
    assert(hashed_entries(named, named.len()) == hashed_entries(named, entries.len()).push(
        HashPartView::Text(entry.0),
    ) + hashed(entry.1));
    assert(hashed(PropertyModel::Dict(named)) =~= hashed(PropertyModel::Dict(entries)).push(
        HashPartView::Text(entry.0),
    ) + hashed(entry.1));
    assert(hashed(PropertyModel::List(Seq::empty())) =~= seq![HashPartView::Kind(8)]);
    assert(hashed(PropertyModel::Dict(Seq::empty())) =~= seq![HashPartView::Kind(9)]);
}

proof fn lemma_items_front(s: Seq<PropertyModel>, t: Seq<PropertyModel>, n: nat)
    requires
        n <= s.len() <= t.len(),
        forall|i: int| 0 <= i < s.len() ==> #[trigger] s[i] == t[i],
    ensures
        hashed_items(s, n) == hashed_items(t, n),
    decreases n,
{
    if n > 0 {
        lemma_items_front(s, t, (n - 1) as nat);
        assert(s[n - 1] == t[n - 1]);
    }
}

proof fn lemma_entries_front(
    s: Seq<(Seq<char>, PropertyModel)>,
    t: Seq<(Seq<char>, PropertyModel)>,
    n: nat,
)
    requires
        n <= s.len() <= t.len(),
        forall|i: int| 0 <= i < s.len() ==> #[trigger] s[i] == t[i],
    ensures
        hashed_entries(s, n) == hashed_entries(t, n),
    decreases n,
{
    if n > 0 {
        lemma_entries_front(s, t, (n - 1) as nat);
        assert(s[n - 1] == t[n - 1]);
    }
}

proof fn lemma_items_alike(s: Seq<PropertyModel>, t: Seq<PropertyModel>, n: nat)
    requires
        s.len() == t.len(),
        n <= s.len(),
        forall|i: int| 0 <= i < s.len() ==> same_but_nans(#[trigger] s[i], t[i]),
    ensures
        hashed_items(s, n) == hashed_items(t, n),
    decreases s, n,
{
    if n > 0 {
        lemma_items_alike(s, t, (n - 1) as nat);
        law_nans_hash_alike(s[n - 1], t[n - 1]);
    }
}

proof fn lemma_entries_alike(
    s: Seq<(Seq<char>, PropertyModel)>,
    t: Seq<(Seq<char>, PropertyModel)>,
    n: nat,
)
    requires
        s.len() == t.len(),
        n <= s.len(),
        forall|i: int|
            0 <= i < s.len() ==> (#[trigger] s[i]).0 == t[i].0 && same_but_nans(s[i].1, t[i].1),
    ensures
        hashed_entries(s, n) == hashed_entries(t, n),
    decreases s, n,
{
    if n > 0 {
        lemma_entries_alike(s, t, (n - 1) as nat);
        assert(same_but_nans(s[n - 1].1, t[n - 1].1));
        law_nans_hash_alike(s[n - 1].1, t[n - 1].1);
    }
}

// ---------------------------------------------------------------------------
// Taking a value apart
// ---------------------------------------------------------------------------

fn push_part(out: &mut Vec<HashPart>, part: HashPart)
    ensures
        part_views(final(out)@) == part_views(old(out)@).push(part@),
{
    out.push(part);
    assert(part_views(out@) =~= part_views(old(out)@).push(part@));
}

impl Property {
    /// The parts by which the value is hashed.
    pub fn hash_parts(&self) -> (r: Vec<HashPart>)
        ensures
            part_views(r@) == hashed(self.model()),
    {
        let mut out: Vec<HashPart> = Vec::new();
        self.write_parts(&mut out);
        assert(part_views(out@) =~= hashed(self.model()));
        out
    }

    /// The number of the kind of the value.
    fn kind(&self) -> (r: u8)
        ensures
            r == kind_of(self.model()),
    {
        match self {
            Property::Null => 0,
            Property::Integer(_) => 1,
            Property::Float(_) => 2,
            Property::String(_) => 3,
            Property::Boolean(_) => 4,
            Property::Date(_) => 5,
            Property::Duration(_) => 6,
            Property::Point { .. } => 7,
            Property::List(_) => 8,
            Property::Dict(_) => 9,
        }
    }

    /// Adds the parts of the value.
    fn write_parts(&self, out: &mut Vec<HashPart>)
        ensures
            part_views(final(out)@) == part_views(old(out)@) + hashed(self.model()),
        decreases self,
    {
        let ghost start = part_views(out@);
        push_part(out, HashPart::Kind(self.kind()));
        match self {
            Property::Null => {},
            Property::Integer(v) => push_part(out, HashPart::Integer(*v)),
            Property::Float(f) => push_part(out, HashPart::Bits(f.canonical_bits())),
            Property::String(s) => push_part(out, HashPart::Text(s.as_str().to_owned())),
            Property::Boolean(b) => push_part(out, HashPart::Flag(*b)),
            Property::Date(v) => push_part(out, HashPart::Integer(*v)),
            Property::Duration(v) => push_part(out, HashPart::Integer(*v)),
            Property::Point { srid, x, y, z } => {
                push_part(out, HashPart::System(*srid));
                push_part(out, HashPart::Bits(x.canonical_bits()));
                push_part(out, HashPart::Bits(y.canonical_bits()));
                match z {
                    Some(z) => {
                        push_part(out, HashPart::Third(true));
                        push_part(out, HashPart::Bits(z.canonical_bits()));
                    },
                    None => push_part(out, HashPart::Third(false)),
                }
            },
            Property::List(items) => {
                let ghost opened = part_views(out@);
                let ghost models = self.model()->List_0;
                let mut i: usize = 0;
                assert(opened + hashed_items(models, 0) =~= opened);
                while i < items.len()
                    invariant
                        *self == Property::List(*items),
                        models == self.model()->List_0,
                        i <= items@.len(),
                        part_views(out@) == opened + hashed_items(models, i as nat),
                    decreases items@.len() - i,
                {
                    items[i].write_parts(out);
                    assert(models[i as int] == items@[i as int].model());
                    assert(part_views(out@) =~= opened + hashed_items(models, (i + 1) as nat));
                    i += 1;
                }
            },
            Property::Dict(map) => {
                let ghost opened = part_views(out@);
                let ghost models = self.model()->Dict_0;
                let mut i: usize = 0;
                assert(opened + hashed_entries(models, 0) =~= opened);
                while i < map.entries.len()
                    invariant
                        *self == Property::Dict(*map),
                        models == self.model()->Dict_0,
                        i <= map.entries@.len(),
                        part_views(out@) == opened + hashed_entries(models, i as nat),
                    decreases map.entries@.len() - i,
                {
                    push_part(out, HashPart::Text(map.entries[i].0.as_str().to_owned()));
                    map.entries[i].1.write_parts(out);
                    assert(models[i as int] == (
                        map.entries@[i as int].0@,
                        map.entries@[i as int].1.model(),
                    ));
                    assert(part_views(out@) =~= opened + hashed_entries(models, (i + 1) as nat));
                    i += 1;
                }
            },
        }
        assert(part_views(out@) =~= start + hashed(self.model()));
    }
}

} // verus!
