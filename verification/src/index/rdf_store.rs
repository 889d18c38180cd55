//! RDF triple store over three B+ tree indexes.
//!
//! Each index holds every triple under another order of its fields, so that any
//! pattern with a bound front is answered by a scan of one prefix:
//!
//! - SPO (subject, predicate, object)
//! - POS (predicate, object, subject)
//! - OSP (object, subject, predicate)
//!
//! The graph of a quad stands in the value, behind the slot.

use vstd::prelude::*;
use vstd::slice::slice_subrange;

use crate::bytes::be_bytes_len;
use crate::bytes::be_value;
use crate::bytes::copy_range;
use crate::bytes::has_prefix;
use crate::bytes::lemma_be_injective;
use crate::bytes::lemma_be_roundtrip;
use crate::bytes::lemma_be_value_roundtrip;
use crate::bytes::lemma_pow256_sizes;
use crate::bytes::lex_lt;
use crate::bytes::push_be;
use crate::graph::record::SlotRef;
use crate::index::btree::is_prefix_scan;
use crate::index::btree::least;
use crate::index::btree::pair_views;
use crate::index::btree::BPlusTree;
use crate::index::btree::BPlusTreeConfig;
use crate::index::btree::BTreeError;
use crate::index::key::be_u128;
use crate::index::key::be_u64;
use crate::index::key::decode_u128_be;
use crate::index::key::decode_u64_be;
use crate::index::key::key_16_16_8;
use crate::index::key::key_16_8_16;
use crate::index::key::key_8_16_16;
use crate::index::key::law_8_16_16_order;
use crate::index::key::law_16_8_16_order;
use crate::index::key::law_16_16_8_order;
use crate::index::key::rdf_osp_key;
use crate::index::key::rdf_pos_key;
use crate::index::key::rdf_spo_key;
use crate::index::key::CompositeKey;
use crate::index::slots::decode_slot_ref;
use crate::index::slots::encode_slot_ref;
use crate::index::slots::insert_result;
use crate::index::slots::slot_bytes;
use crate::index::slots::slot_of;

verus! {

/// An RDF triple.
#[derive(Debug, Clone, Copy, PartialEq, Eq, Structural)]
pub struct RdfTriple {
    pub subject: u128,
    pub predicate: u64,
    pub object: u128,
}

/// An RDF quad: a triple in a graph.
#[derive(Debug, Clone, Copy, PartialEq, Eq, Structural)]
pub struct RdfQuad {
    pub graph: u64,
    pub triple: RdfTriple,
}

impl RdfQuad {
    /// The quad of these terms.
    pub fn new(graph: u64, subject: u128, predicate: u64, object: u128) -> (r: Self)
        ensures
            r == (RdfQuad { graph, triple: RdfTriple { subject, predicate, object } }),
    {
        RdfQuad { graph, triple: RdfTriple { subject, predicate, object } }
    }
}

/// The order of the fields in the keys of an index.
#[derive(Debug, Clone, Copy, PartialEq, Eq, Structural)]
pub enum Permutation {
    /// Subject, predicate, object.
    Spo,
    /// Predicate, object, subject.
    Pos,
    /// Object, subject, predicate.
    Osp,
}

/// The key of a triple in an index.
pub open spec fn perm_key(perm: Permutation, t: RdfTriple) -> Seq<u8> {
    match perm {
        Permutation::Spo => key_16_8_16(t.subject, t.predicate, t.object),
        Permutation::Pos => key_8_16_16(t.predicate, t.object, t.subject),
        Permutation::Osp => key_16_16_8(t.object, t.subject, t.predicate),
    }
}

/// The bytes of the slot and the graph of a triple.
pub open spec fn value_bytes(slot: SlotRef, graph: Option<u64>) -> Seq<u8> {
    match graph {
        Some(g) => slot_bytes(slot) + be_u64(g),
        None => slot_bytes(slot),
    }
}

/// The slot and the graph in these bytes.
pub open spec fn value_of(bytes: Seq<u8>) -> (SlotRef, Option<u64>) {
    (
        slot_of(bytes),
        if bytes.len() >= 12 {
            Some(be_value(bytes.subrange(4, 12)) as u64)
        } else {
            None
        },
    )
}

/// A slot and a graph are read back from their bytes.
pub proof fn law_rdf_value_roundtrip(slot: SlotRef, graph: Option<u64>)
    ensures
        value_bytes(slot, graph).len() >= 4,
        value_of(value_bytes(slot, graph)) == (slot, graph),
{
    broadcast use be_bytes_len;

    lemma_pow256_sizes();
    lemma_be_roundtrip(slot.raw as nat, 4);
    let bytes = value_bytes(slot, graph);
    assert(bytes.take(4) =~= slot_bytes(slot));
    match graph {
        Some(g) => {
            lemma_be_roundtrip(g as nat, 8);
            assert(bytes.subrange(4, 12) =~= be_u64(g));
        },
        None => {},
    }
}

/// Different triples have different keys in every index.
pub proof fn law_perm_key_injective(perm: Permutation, a: RdfTriple, b: RdfTriple)
    requires
        perm_key(perm, a) == perm_key(perm, b),
    ensures
        a == b,
{
    broadcast use be_bytes_len;

    lemma_pow256_sizes();
    let x = perm_key(perm, a);
    let y = perm_key(perm, b);
    match perm {
        Permutation::Spo => {
            assert(x.subrange(0, 16) =~= be_u128(a.subject) && y.subrange(0, 16) =~= be_u128(
                b.subject,
            ));
            assert(x.subrange(16, 24) =~= be_u64(a.predicate) && y.subrange(16, 24) =~= be_u64(
                b.predicate,
            ));
            assert(x.subrange(24, 40) =~= be_u128(a.object) && y.subrange(24, 40) =~= be_u128(
                b.object,
            ));
        },
        Permutation::Pos => {
            assert(x.subrange(0, 8) =~= be_u64(a.predicate) && y.subrange(0, 8) =~= be_u64(
                b.predicate,
            ));
            assert(x.subrange(8, 24) =~= be_u128(a.object) && y.subrange(8, 24) =~= be_u128(
                b.object,
            ));
            assert(x.subrange(24, 40) =~= be_u128(a.subject) && y.subrange(24, 40) =~= be_u128(
                b.subject,
            ));
        },
        Permutation::Osp => {
            assert(x.subrange(0, 16) =~= be_u128(a.object) && y.subrange(0, 16) =~= be_u128(
                b.object,
            ));
            assert(x.subrange(16, 32) =~= be_u128(a.subject) && y.subrange(16, 32) =~= be_u128(
                b.subject,
            ));
            assert(x.subrange(32, 40) =~= be_u64(a.predicate) && y.subrange(32, 40) =~= be_u64(
                b.predicate,
            ));
        },
    }
    lemma_be_injective(a.subject as nat, b.subject as nat, 16);
    lemma_be_injective(a.object as nat, b.object as nat, 16);
    lemma_be_injective(a.predicate as nat, b.predicate as nat, 8);
}

impl Permutation {
    /// The triple whose key this is; `None` where the key is too short. What
    /// stands behind the 40 bytes of a key does not matter.
    pub fn decode_triple(self, key: &[u8]) -> (r: Option<RdfTriple>)
        ensures
            match r {
                Some(t) => key@.len() >= 40 && key@.take(40) == perm_key(self, t),
                None => key@.len() < 40,
            },
    {
        if key.len() < 40 {
            return None;
        }
        proof {
            lemma_pow256_sizes();
        }
        let t = match self {
            Permutation::Spo => {
                let s = slice_subrange(key, 0, 16);
                let p = slice_subrange(key, 16, 24);
                let o = slice_subrange(key, 24, 40);
                proof {
                    lemma_be_value_roundtrip(s@);
                    lemma_be_value_roundtrip(p@);
                    assert(p@.take(8) =~= p@);
                    lemma_be_value_roundtrip(o@);
                }
                let t = RdfTriple {
                    subject: decode_u128_be(s),
                    predicate: decode_u64_be(p),
                    object: decode_u128_be(o),
                };
                assert(be_u128(t.subject) == s@);
                assert(be_u64(t.predicate) == p@);
                assert(be_u128(t.object) == o@);
                assert(key@.take(40) =~= perm_key(self, t));
                t
            },
            Permutation::Pos => {
                let p = slice_subrange(key, 0, 8);
                let o = slice_subrange(key, 8, 24);
                let s = slice_subrange(key, 24, 40);
                proof {
                    lemma_be_value_roundtrip(s@);
                    lemma_be_value_roundtrip(p@);
                    assert(p@.take(8) =~= p@);
                    lemma_be_value_roundtrip(o@);
                }
                let t = RdfTriple {
                    subject: decode_u128_be(s),
                    predicate: decode_u64_be(p),
                    object: decode_u128_be(o),
                };
                assert(be_u128(t.subject) == s@);
                assert(be_u64(t.predicate) == p@);
                assert(be_u128(t.object) == o@);
                assert(key@.take(40) =~= perm_key(self, t));
                t
            },
            Permutation::Osp => {
                let o = slice_subrange(key, 0, 16);
                let s = slice_subrange(key, 16, 32);
                let p = slice_subrange(key, 32, 40);
                proof {
                    lemma_be_value_roundtrip(s@);
                    lemma_be_value_roundtrip(p@);
                    assert(p@.take(8) =~= p@);
                    lemma_be_value_roundtrip(o@);
                }
                let t = RdfTriple {
                    subject: decode_u128_be(s),
                    predicate: decode_u64_be(p),
                    object: decode_u128_be(o),
                };
                assert(be_u128(t.subject) == s@);
                assert(be_u64(t.predicate) == p@);
                assert(be_u128(t.object) == o@);
                assert(key@.take(40) =~= perm_key(self, t));
                t
            },
        };
        Some(t)
    }
}

/// The key of a triple in an index.
fn key_in(perm: Permutation, t: &RdfTriple) -> (k: CompositeKey)
    ensures
        k@ == perm_key(perm, *t),
        k@.len() == 40,
{
    broadcast use be_bytes_len;

    match perm {
        Permutation::Spo => rdf_spo_key(t.subject, t.predicate, t.object),
        Permutation::Pos => rdf_pos_key(t.predicate, t.object, t.subject),
        Permutation::Osp => rdf_osp_key(t.object, t.subject, t.predicate),
    }
}

/// The bytes of the slot and the graph of a triple.
fn encode_value(slot: SlotRef, graph: Option<u64>) -> (r: Vec<u8>)
    ensures
        r@ == value_bytes(slot, graph),
{
    let mut buf = encode_slot_ref(slot);
    match graph {
        Some(g) => {
            push_be(&mut buf, g as u128, 8);
        },
        None => {},
    }
    assert(buf@ =~= value_bytes(slot, graph));
    buf
}

/// The slot and the graph in these bytes; `None` where there is no slot.
fn decode_value(value: &[u8]) -> (r: Option<(SlotRef, Option<u64>)>)
    ensures
        match r {
            Some(v) => value@.len() >= 4 && v == value_of(value@),
            None => value@.len() < 4,
        },
{
    match decode_slot_ref(value) {
        Some(slot) => {
            let graph = if value.len() >= 12 {
                let g = slice_subrange(value, 4, 12);
                proof {
                    lemma_pow256_sizes();
                    lemma_be_value_roundtrip(g@);
                    assert(g@.take(8) =~= g@);
                }
                Some(decode_u64_be(g))
            } else {
                None
            };
            Some((slot, graph))
        },
        None => None,
    }
}

/// A found triple with its slot and its graph.
pub type RdfMatch = (RdfTriple, SlotRef, Option<u64>);

/// Does the triple fit a pattern, of which any field may be open?
pub open spec fn fits(
    t: RdfTriple,
    subject: Option<u128>,
    predicate: Option<u64>,
    object: Option<u128>,
) -> bool {
    &&& subject is Some ==> t.subject == subject->0
    &&& predicate is Some ==> t.predicate == predicate->0
    &&& object is Some ==> t.object == object->0
}

/// Does `r` list, in the order of an index, the triples whose keys start with
/// `prefix`?
pub open spec fn lists_prefix(
    m: Map<RdfTriple, (SlotRef, Option<u64>)>,
    perm: Permutation,
    prefix: Seq<u8>,
    r: Seq<RdfMatch>,
) -> bool {
    &&& forall|i: int, j: int|
        0 <= i < j < r.len() ==> lex_lt(
            perm_key(perm, (#[trigger] r[i]).0),
            perm_key(perm, (#[trigger] r[j]).0),
        )
    &&& forall|i: int|
        0 <= i < r.len() ==> {
            &&& m.contains_key((#[trigger] r[i]).0)
            &&& m[r[i].0] == (r[i].1, r[i].2)
            &&& has_prefix(perm_key(perm, r[i].0), prefix)
        }
    &&& forall|t: RdfTriple| #[trigger]
        m.contains_key(t) && has_prefix(perm_key(perm, t), prefix) ==> r.contains(
            (t, m[t].0, m[t].1),
        )
}

/// Does `r` list, in the order of an index, the triples that fit a pattern?
pub open spec fn lists_matches(
    m: Map<RdfTriple, (SlotRef, Option<u64>)>,
    perm: Permutation,
    subject: Option<u128>,
    predicate: Option<u64>,
    object: Option<u128>,
    r: Seq<RdfMatch>,
) -> bool {
    &&& forall|i: int, j: int|
        0 <= i < j < r.len() ==> lex_lt(
            perm_key(perm, (#[trigger] r[i]).0),
            perm_key(perm, (#[trigger] r[j]).0),
        )
    &&& forall|i: int|
        0 <= i < r.len() ==> {
            &&& m.contains_key((#[trigger] r[i]).0)
            &&& m[r[i].0] == (r[i].1, r[i].2)
            &&& fits(r[i].0, subject, predicate, object)
        }
    &&& forall|t: RdfTriple| #[trigger]
        m.contains_key(t) && fits(t, subject, predicate, object) ==> r.contains(
            (t, m[t].0, m[t].1),
        )
}

/// A triple fits a pattern if each field that the pattern gives is the triple's.
pub proof fn law_fits(
    t: RdfTriple,
    subject: Option<u128>,
    predicate: Option<u64>,
    object: Option<u128>,
)
    ensures
        fits(t, subject, predicate, object) <==> (subject is None || subject == Some(t.subject)) && (
        predicate is None || predicate == Some(t.predicate)) && (object is None || object == Some(
            t.object,
        )),
{
}

/// The three orders of triples: by subject, predicate and object; by predicate, object and
/// subject; by object, subject and predicate.
pub proof fn law_permutations(a: RdfTriple, b: RdfTriple)
    ensures
        lex_lt(perm_key(Permutation::Spo, a), perm_key(Permutation::Spo, b)) <==> (a.subject
            < b.subject || (a.subject == b.subject && (a.predicate < b.predicate || (a.predicate
            == b.predicate && a.object < b.object)))),
        lex_lt(perm_key(Permutation::Pos, a), perm_key(Permutation::Pos, b)) <==> (a.predicate
            < b.predicate || (a.predicate == b.predicate && (a.object < b.object || (a.object
            == b.object && a.subject < b.subject)))),
        lex_lt(perm_key(Permutation::Osp, a), perm_key(Permutation::Osp, b)) <==> (a.object
            < b.object || (a.object == b.object && (a.subject < b.subject || (a.subject
            == b.subject && a.predicate < b.predicate)))),
{
    law_16_8_16_order(
        (b.subject, b.predicate, b.object),
        (a.subject, a.predicate, a.object),
    );
    law_8_16_16_order(
        (b.predicate, b.object, b.subject),
        (a.predicate, a.object, a.subject),
    );
    law_16_16_8_order(
        (b.object, b.subject, b.predicate),
        (a.object, a.subject, a.predicate),
    );
}

/// A list of matches has each triple that fits once, with its slot and its graph, in the
/// order of the index.
pub proof fn law_matches(
    m: Map<RdfTriple, (SlotRef, Option<u64>)>,
    perm: Permutation,
    subject: Option<u128>,
    predicate: Option<u64>,
    object: Option<u128>,
    r: Seq<RdfMatch>,
    t: RdfTriple,
)
    requires
        lists_matches(m, perm, subject, predicate, object, r),
    ensures
        (exists|i: int| 0 <= i < r.len() && (#[trigger] r[i]).0 == t) <==> m.contains_key(t) && (
        subject is None || subject == Some(t.subject)) && (predicate is None || predicate == Some(
            t.predicate,
        )) && (object is None || object == Some(t.object)),
        forall|i: int|
            0 <= i < r.len() && (#[trigger] r[i]).0 == t ==> (r[i].1, r[i].2) == m[t],
        forall|i: int, j: int|
            0 <= i < j < r.len() ==> lex_lt(
                perm_key(perm, (#[trigger] r[i]).0),
                perm_key(perm, (#[trigger] r[j]).0),
            ),
{
    if m.contains_key(t) && fits(t, subject, predicate, object) {
        let e = (t, m[t].0, m[t].1);
        assert(r.contains(e));
        let i = choose|i: int| 0 <= i < r.len() && r[i] == e;
        assert(r[i].0 == t);
    }
    if exists|i: int| 0 <= i < r.len() && (#[trigger] r[i]).0 == t {
        let i = choose|i: int| 0 <= i < r.len() && (#[trigger] r[i]).0 == t;
        assert(m.contains_key(r[i].0));
    }
}

/// The value of a triple is its slot, and its graph behind it if it has one.
pub proof fn law_rdf_value_layout(slot: SlotRef, graph: Option<u64>)
    ensures
        be_value(value_bytes(slot, graph).take(4)) == slot.raw,
        graph is None ==> value_bytes(slot, graph).len() == 4,
        graph matches Some(g) ==> value_bytes(slot, graph).len() == 12 && be_value(
            value_bytes(slot, graph).skip(4),
        ) == g,
{
    broadcast use be_bytes_len;

    lemma_pow256_sizes();
    lemma_be_roundtrip(slot.raw as nat, 4);
    assert(value_bytes(slot, graph).take(4) =~= slot_bytes(slot));
    match graph {
        Some(g) => {
            lemma_be_roundtrip(g as nat, 8);
            assert(value_bytes(slot, graph).skip(4) =~= be_u64(g));
        },
        None => {},
    }
}

/// A list of the triples under a prefix is one of the triples that fit the
/// pattern that the prefix stands for.
proof fn lemma_prefix_is_pattern(
    m: Map<RdfTriple, (SlotRef, Option<u64>)>,
    perm: Permutation,
    prefix: Seq<u8>,
    subject: Option<u128>,
    predicate: Option<u64>,
    object: Option<u128>,
    r: Seq<RdfMatch>,
)
    requires
        lists_prefix(m, perm, prefix, r),
        forall|t: RdfTriple|
            has_prefix(#[trigger] perm_key(perm, t), prefix) == fits(
                t,
                subject,
                predicate,
                object,
            ),
    ensures
        lists_matches(m, perm, subject, predicate, object, r),
{
    assert forall|i: int| 0 <= i < r.len() implies fits(
        (#[trigger] r[i]).0,
        subject,
        predicate,
        object,
    ) by {
        assert(has_prefix(perm_key(perm, r[i].0), prefix));
    }
    assert forall|t: RdfTriple| #[trigger]
        m.contains_key(t) && fits(t, subject, predicate, object) implies r.contains(
        (t, m[t].0, m[t].1),
    ) by {
        assert(has_prefix(perm_key(perm, t), prefix));
    }
}

proof fn lemma_front_16(a: u128, b: u128, x: Seq<u8>)
    ensures
        has_prefix(be_u128(a) + x, be_u128(b)) == (a == b),
{
    broadcast use be_bytes_len;

    lemma_pow256_sizes();
    assert((be_u128(a) + x).take(16) =~= be_u128(a));
    if be_u128(a) == be_u128(b) {
        lemma_be_injective(a as nat, b as nat, 16);
    }
}

proof fn lemma_front_pair(x: Seq<u8>, y: Seq<u8>, u: Seq<u8>, v: Seq<u8>, z: Seq<u8>)
    requires
        x.len() == u.len(),
        y.len() == v.len(),
    ensures
        has_prefix(x + y + z, u + v) == (x == u && y == v),
{
    let s = x + y + z;
    assert(s.take((u + v).len() as int) =~= x + y);
    if x + y == u + v {
        assert((x + y).take(x.len() as int) =~= x && (u + v).take(x.len() as int) =~= u);
        assert((x + y).skip(x.len() as int) =~= y && (u + v).skip(x.len() as int) =~= v);
    }
}

/// RDF triples with slots and graphs, under three orders.
pub struct RdfStore {
    spo: BPlusTree,
    pos: BPlusTree,
    osp: BPlusTree,
}

/// Does the tree hold every triple of `m` under its key, and nothing else?
pub open spec fn tree_of(
    tree: Map<Seq<u8>, Seq<u8>>,
    perm: Permutation,
    m: Map<RdfTriple, (SlotRef, Option<u64>)>,
) -> bool {
    &&& forall|k: Seq<u8>| #[trigger] tree.contains_key(k) ==> k.len() == 40 && tree[k].len() >= 4
    &&& forall|t: RdfTriple|
        tree.contains_key(#[trigger] perm_key(perm, t)) == m.contains_key(t)
    &&& forall|t: RdfTriple| #[trigger]
        m.contains_key(t) ==> value_of(tree[perm_key(perm, t)]) == m[t]
}

impl View for RdfStore {
    type V = Map<RdfTriple, (SlotRef, Option<u64>)>;

    closed spec fn view(&self) -> Map<RdfTriple, (SlotRef, Option<u64>)> {
        Map::new(
            |t: RdfTriple| self.spo@.contains_key(perm_key(Permutation::Spo, t)),
            |t: RdfTriple| value_of(self.spo@[perm_key(Permutation::Spo, t)]),
        )
    }
}

proof fn lemma_tree_insert(
    before: Map<Seq<u8>, Seq<u8>>,
    perm: Permutation,
    m: Map<RdfTriple, (SlotRef, Option<u64>)>,
    t: RdfTriple,
    slot: SlotRef,
    graph: Option<u64>,
)
    requires
        tree_of(before, perm, m),
    ensures
        tree_of(
            before.insert(perm_key(perm, t), value_bytes(slot, graph)),
            perm,
            m.insert(t, (slot, graph)),
        ),
{
    broadcast use be_bytes_len;

    law_rdf_value_roundtrip(slot, graph);
    assert forall|u: RdfTriple| #[trigger] perm_key(perm, u) == perm_key(perm, t) implies u
        == t by {
        law_perm_key_injective(perm, u, t);
    }
}

proof fn lemma_tree_remove(
    before: Map<Seq<u8>, Seq<u8>>,
    perm: Permutation,
    m: Map<RdfTriple, (SlotRef, Option<u64>)>,
    t: RdfTriple,
)
    requires
        tree_of(before, perm, m),
    ensures
        tree_of(before.remove(perm_key(perm, t)), perm, m.remove(t)),
{
    assert forall|u: RdfTriple| #[trigger] perm_key(perm, u) == perm_key(perm, t) implies u
        == t by {
        law_perm_key_injective(perm, u, t);
    }
}

impl RdfStore {
    /// Do the three trees hold the same triples?
    pub closed spec fn wf(&self) -> bool {
        &&& self.spo.wf()
        &&& self.pos.wf()
        &&& self.osp.wf()
        &&& tree_of(self.spo@, Permutation::Spo, self@)
        &&& tree_of(self.pos@, Permutation::Pos, self@)
        &&& tree_of(self.osp@, Permutation::Osp, self@)
    }

    /// Are the page ids of one of the trees used up?
    pub closed spec fn is_full(&self) -> bool {
        self.spo.ids_exhausted() || self.pos.ids_exhausted() || self.osp.ids_exhausted()
    }

    /// For how many insertions are there page ids left at least?
    pub closed spec fn room(&self) -> int {
        least(self.spo.room(), least(self.pos.room(), self.osp.room()))
    }

    /// A store with room is not full.
    pub proof fn lemma_room(&self)
        requires
            self.room() > 0,
        ensures
            !self.is_full(),
    {
    }

    /// An empty store.
    pub fn new() -> (r: Self)
        ensures
            r.wf(),
            r@ == Map::<RdfTriple, (SlotRef, Option<u64>)>::empty(),
            !r.is_full(),
            r.room() == 0x4000_0000,
    {
        let r = RdfStore {
            spo: BPlusTree::new(BPlusTreeConfig::default()),
            pos: BPlusTree::new(BPlusTreeConfig::default()),
            osp: BPlusTree::new(BPlusTreeConfig::default()),
        };
        assert(r@ =~= Map::<RdfTriple, (SlotRef, Option<u64>)>::empty());
        r
    }

    /// Are page ids certainly left for one more insertion after `n` others?
    pub fn has_room_after(&self, n: u64) -> (r: bool)
        requires
            self.wf(),
        ensures
            r == (self.room() > n),
    {
        self.spo.has_room_after(n) && self.pos.has_room_after(n) && self.osp.has_room_after(n)
    }

    /// Stores a triple, with its graph if it has one, in all three indexes. It
    /// fails, and changes nothing, where the page ids are used up.
    pub fn insert(&mut self, triple: &RdfTriple, slot: SlotRef, graph: Option<u64>) -> (r: Result<
        (),
        BTreeError,
    >)
        requires
            old(self).wf(),
        ensures
            final(self).wf(),
            insert_result(old(self).is_full(), r),
            final(self)@ == (if old(self).is_full() {
                old(self)@
            } else {
                old(self)@.insert(*triple, (slot, graph))
            }),
            old(self).room() > 0 ==> final(self).room() >= old(self).room() - 1,
    {
        broadcast use be_bytes_len;

        if !self.spo.has_room() || !self.pos.has_room() || !self.osp.has_room() {
            return Err(BTreeError::SplitFailed);
        }
        let value = encode_value(slot, graph);
        proof {
            let m = self@;
            lemma_tree_insert(self.spo@, Permutation::Spo, m, *triple, slot, graph);
            lemma_tree_insert(self.pos@, Permutation::Pos, m, *triple, slot, graph);
            lemma_tree_insert(self.osp@, Permutation::Osp, m, *triple, slot, graph);
        }
        let ghost m = self@;
        let a = self.spo.insert(&key_in(Permutation::Spo, triple), value.as_slice());
        let b = self.pos.insert(&key_in(Permutation::Pos, triple), value.as_slice());
        let c = self.osp.insert(&key_in(Permutation::Osp, triple), value.as_slice());
        assert(a is Ok && b is Ok && c is Ok);
        assert(self@ =~= m.insert(*triple, (slot, graph)));
        Ok(())
    }

    /// Deletes a triple from all three indexes. Returns whether it was there.
    pub fn delete(&mut self, triple: &RdfTriple) -> (r: Result<bool, BTreeError>)
        requires
            old(self).wf(),
        ensures
            final(self).wf(),
            r == Ok::<bool, BTreeError>(old(self)@.contains_key(*triple)),
            final(self)@ == old(self)@.remove(*triple),
            final(self).room() >= old(self).room(),
    {
        let ghost m = self@;
        proof {
            lemma_tree_remove(self.spo@, Permutation::Spo, m, *triple);
            lemma_tree_remove(self.pos@, Permutation::Pos, m, *triple);
            lemma_tree_remove(self.osp@, Permutation::Osp, m, *triple);
        }
        let found = self.spo.delete(&key_in(Permutation::Spo, triple));
        let b = self.pos.delete(&key_in(Permutation::Pos, triple));
        let c = self.osp.delete(&key_in(Permutation::Osp, triple));
        assert(self@ =~= m.remove(*triple));
        found
    }

    /// The slot and the graph of a triple.
    pub fn lookup(&self, triple: &RdfTriple) -> (r: Option<(SlotRef, Option<u64>)>)
        requires
            self.wf(),
        ensures
            match r {
                Some(v) => self@.contains_key(*triple) && v == self@[*triple],
                None => !self@.contains_key(*triple),
            },
    {
        match self.spo.get(&key_in(Permutation::Spo, triple)) {
            Some(value) => decode_value(value.as_slice()),
            None => None,
        }
    }

    /// The triples with this subject and predicate, by object.
    pub fn scan_by_subject_predicate(&self, subject: u128, predicate: u64) -> (r: Vec<RdfMatch>)
        requires
            self.wf(),
        ensures
            lists_matches(self@, Permutation::Spo, Some(subject), Some(predicate), None, r@),
    {
        broadcast use be_bytes_len;

        let key = rdf_spo_key(subject, predicate, 0);
        let prefix = copy_range(key.as_slice(), 0, 24);
        let r = scan_prefix(&self.spo, Permutation::Spo, prefix.as_slice(), Ghost(self@));
        proof {
            lemma_pow256_sizes();
            assert(prefix@ =~= be_u128(subject) + be_u64(predicate));
            assert forall|t: RdfTriple|
                has_prefix(#[trigger] perm_key(Permutation::Spo, t), prefix@) == fits(
                    t,
                    Some(subject),
                    Some(predicate),
                    None,
                ) by {
                lemma_front_pair(
                    be_u128(t.subject),
                    be_u64(t.predicate),
                    be_u128(subject),
                    be_u64(predicate),
                    be_u128(t.object),
                );
                if be_u128(t.subject) == be_u128(subject) {
                    lemma_be_injective(t.subject as nat, subject as nat, 16);
                }
                if be_u64(t.predicate) == be_u64(predicate) {
                    lemma_be_injective(t.predicate as nat, predicate as nat, 8);
                }
            }
            lemma_prefix_is_pattern(
                self@,
                Permutation::Spo,
                prefix@,
                Some(subject),
                Some(predicate),
                None,
                r@,
            );
        }
        r
    }

    /// The triples with this subject, by predicate and object.
    pub fn scan_by_subject(&self, subject: u128) -> (r: Vec<RdfMatch>)
        requires
            self.wf(),
        ensures
            lists_matches(self@, Permutation::Spo, Some(subject), None, None, r@),
    {
        broadcast use be_bytes_len;

        let key = rdf_spo_key(subject, 0, 0);
        let prefix = copy_range(key.as_slice(), 0, 16);
        let r = scan_prefix(&self.spo, Permutation::Spo, prefix.as_slice(), Ghost(self@));
        proof {
            assert(prefix@ =~= be_u128(subject));
            assert forall|t: RdfTriple|
                has_prefix(#[trigger] perm_key(Permutation::Spo, t), prefix@) == fits(
                    t,
                    Some(subject),
                    None,
                    None,
                ) by {
                lemma_front_16(t.subject, subject, be_u64(t.predicate) + be_u128(t.object));
                assert(perm_key(Permutation::Spo, t) =~= be_u128(t.subject) + (be_u64(t.predicate)
                    + be_u128(t.object)));
            }
            lemma_prefix_is_pattern(
                self@,
                Permutation::Spo,
                prefix@,
                Some(subject),
                None,
                None,
                r@,
            );
        }
        r
    }

    /// The triples with this predicate and object, by subject.
    pub fn scan_by_predicate_object(&self, predicate: u64, object: u128) -> (r: Vec<RdfMatch>)
        requires
            self.wf(),
        ensures
            lists_matches(self@, Permutation::Pos, None, Some(predicate), Some(object), r@),
    {
        broadcast use be_bytes_len;

        let key = rdf_pos_key(predicate, object, 0);
        let prefix = copy_range(key.as_slice(), 0, 24);
        let r = scan_prefix(&self.pos, Permutation::Pos, prefix.as_slice(), Ghost(self@));
        proof {
            lemma_pow256_sizes();
            assert(prefix@ =~= be_u64(predicate) + be_u128(object));
            assert forall|t: RdfTriple|
                has_prefix(#[trigger] perm_key(Permutation::Pos, t), prefix@) == fits(
                    t,
                    None,
                    Some(predicate),
                    Some(object),
                ) by {
                lemma_front_pair(
                    be_u64(t.predicate),
                    be_u128(t.object),
                    be_u64(predicate),
                    be_u128(object),
                    be_u128(t.subject),
                );
                if be_u128(t.object) == be_u128(object) {
                    lemma_be_injective(t.object as nat, object as nat, 16);
                }
                if be_u64(t.predicate) == be_u64(predicate) {
                    lemma_be_injective(t.predicate as nat, predicate as nat, 8);
                }
            }
            lemma_prefix_is_pattern(
                self@,
                Permutation::Pos,
                prefix@,
                None,
                Some(predicate),
                Some(object),
                r@,
            );
        }
        r
    }

    /// The triples with this object, by subject and predicate.
    pub fn scan_by_object(&self, object: u128) -> (r: Vec<RdfMatch>)
        requires
            self.wf(),
        ensures
            lists_matches(self@, Permutation::Osp, None, None, Some(object), r@),
    {
        broadcast use be_bytes_len;

        let key = rdf_osp_key(object, 0, 0);
        let prefix = copy_range(key.as_slice(), 0, 16);
        let r = scan_prefix(&self.osp, Permutation::Osp, prefix.as_slice(), Ghost(self@));
        proof {
            assert(prefix@ =~= be_u128(object));
            assert forall|t: RdfTriple|
                has_prefix(#[trigger] perm_key(Permutation::Osp, t), prefix@) == fits(
                    t,
                    None,
                    None,
                    Some(object),
                ) by {
                lemma_front_16(t.object, object, be_u128(t.subject) + be_u64(t.predicate));
                assert(perm_key(Permutation::Osp, t) =~= be_u128(t.object) + (be_u128(t.subject)
                    + be_u64(t.predicate)));
            }
            lemma_prefix_is_pattern(
                self@,
                Permutation::Osp,
                prefix@,
                None,
                None,
                Some(object),
                r@,
            );
        }
        r
    }
}

/// The triples of one index whose keys start with `prefix`, in its order.
fn scan_prefix(
    tree: &BPlusTree,
    perm: Permutation,
    prefix: &[u8],
    Ghost(m): Ghost<Map<RdfTriple, (SlotRef, Option<u64>)>>,
) -> (r: Vec<RdfMatch>)
    requires
        tree.wf(),
        tree_of(tree@, perm, m),
    ensures
        lists_prefix(m, perm, prefix@, r@),
{
    let found = tree.scan_prefix(prefix);
    let ghost pairs = pair_views(found@);
    let mut out: Vec<RdfMatch> = Vec::new();
    let mut i: usize = 0;
    while i < found.len()
        invariant
            tree_of(tree@, perm, m),
            i <= found@.len(),
            pairs == pair_views(found@),
            is_prefix_scan(tree@, prefix@, pairs),
            out@.len() == i,
            forall|j: int|
                0 <= j < i ==> perm_key(perm, (#[trigger] out@[j]).0) == pairs[j].0 && (
                    out@[j].1,
                    out@[j].2,
                ) == value_of(pairs[j].1),
        decreases found@.len() - i,
    {
        assert(pairs[i as int] == (found@[i as int].0@, found@[i as int].1@));
        assert(tree@.contains_key(pairs[i as int].0));
        match perm.decode_triple(found[i].0.as_slice()) {
            Some(triple) => {
                assert(pairs[i as int].0.take(40) =~= pairs[i as int].0);
                match decode_value(found[i].1.as_slice()) {
                    Some((slot, graph)) => {
                        out.push((triple, slot, graph));
                    },
                    None => {},
                }
            },
            None => {},
        }
        i += 1;
    }
    proof {
        let r = out@;
        assert forall|j: int, k: int| 0 <= j < k < r.len() implies lex_lt(
            perm_key(perm, (#[trigger] r[j]).0),
            perm_key(perm, (#[trigger] r[k]).0),
        ) by {
            assert(lex_lt(pairs[j].0, pairs[k].0));
        }
        assert forall|j: int| 0 <= j < r.len() implies {
            &&& m.contains_key((#[trigger] r[j]).0)
            &&& m[r[j].0] == (r[j].1, r[j].2)
            &&& has_prefix(perm_key(perm, r[j].0), prefix@)
        } by {
            assert(perm_key(perm, r[j].0) == pairs[j].0);
            assert(tree@.contains_key(pairs[j].0));
        }
        assert forall|t: RdfTriple| #[trigger]
            m.contains_key(t) && has_prefix(perm_key(perm, t), prefix@) implies r.contains(
            (t, m[t].0, m[t].1),
        ) by {
            let k = perm_key(perm, t);
            assert(tree@.contains_key(k));
            assert(pairs.contains((k, tree@[k])));
            let n = choose|n: int| 0 <= n < pairs.len() && pairs[n] == (k, tree@[k]);
            law_perm_key_injective(perm, r[n].0, t);
            assert(r[n] == (t, m[t].0, m[t].1));
        }
    }
    out
}

impl Default for RdfStore {
    fn default() -> (r: Self)
        ensures
            r.wf(),
            r@ == Map::<RdfTriple, (SlotRef, Option<u64>)>::empty(),
            !r.is_full(),
            r.room() == 0x4000_0000,
    {
        RdfStore::new()
    }
}

} // verus!
