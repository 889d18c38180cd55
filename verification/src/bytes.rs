//! Byte strings: lexicographic order and integers in bytes.
//!
//! Every key of the store is a byte string compared lexicographically, and
//! every integer inside a key is big-endian, so that the order of the bytes is
//! the order of the numbers.

use vstd::prelude::*;
use vstd::slice::slice_subrange;
use vstd::slice::slice_to_vec;

verus! {

// ---------------------------------------------------------------------------
// Lexicographic order
// ---------------------------------------------------------------------------

/// Lexicographic `a <= b`: at the first difference `a` has the smaller byte, or
/// `a` is a prefix of `b`.
pub open spec fn lex_le(a: Seq<u8>, b: Seq<u8>) -> bool
    decreases a.len(),
{
    if a.len() == 0 {
        true
    } else if b.len() == 0 {
        false
    } else if a[0] != b[0] {
        a[0] < b[0]
    } else {
        lex_le(a.drop_first(), b.drop_first())
    }
}

/// Lexicographic `a < b`.
pub open spec fn lex_lt(a: Seq<u8>, b: Seq<u8>) -> bool {
    !lex_le(b, a)
}

/// The order is that of a dictionary: one string comes before another if it has the smaller
/// byte at the first place where they differ, or if it ends there.
pub proof fn law_dictionary_order(a: Seq<u8>, b: Seq<u8>, n: int)
    requires
        0 <= n <= a.len(),
        n <= b.len(),
        forall|i: int| 0 <= i < n ==> #[trigger] a[i] == b[i],
    ensures
        n < a.len() && n < b.len() && a[n] < b[n] ==> lex_lt(a, b) && lex_le(a, b),
        n == a.len() && n < b.len() ==> lex_lt(a, b) && lex_le(a, b),
        n == a.len() && n == b.len() ==> lex_le(a, b) && !lex_lt(a, b),
    decreases n,
{
    if n > 0 {
        assert(a[0] == b[0]);
        assert forall|i: int| 0 <= i < n - 1 implies #[trigger] a.drop_first()[i]
            == b.drop_first()[i] by {
            assert(a[i + 1] == b[i + 1]);
        }
        law_dictionary_order(a.drop_first(), b.drop_first(), n - 1);
    }
}

/// A string starts with another if it is as long at least and has the same bytes up to the
/// other's end.
pub proof fn law_prefix(s: Seq<u8>, p: Seq<u8>)
    ensures
        has_prefix(s, p) <==> p.len() <= s.len() && forall|i: int|
            0 <= i < p.len() ==> #[trigger] p[i] == s[i],
{
    if p.len() <= s.len() {
        if has_prefix(s, p) {
            assert forall|i: int| 0 <= i < p.len() implies #[trigger] p[i] == s[i] by {
                assert(s.take(p.len() as int)[i] == s[i]);
            }
        }
        if forall|i: int| 0 <= i < p.len() ==> #[trigger] p[i] == s[i] {
            assert(s.take(p.len() as int) =~= p);
        }
    }
}

/// Lexicographic order is reflexive.
pub proof fn lemma_lex_refl(a: Seq<u8>)
    ensures
        lex_le(a, a),
    decreases a.len(),
{
    if a.len() > 0 {
        lemma_lex_refl(a.drop_first());
    }
}

/// Lexicographic order is total.
pub proof fn lemma_lex_total(a: Seq<u8>, b: Seq<u8>)
    ensures
        lex_le(a, b) || lex_le(b, a),
    decreases a.len(),
{
    if a.len() > 0 && b.len() > 0 && a[0] == b[0] {
        lemma_lex_total(a.drop_first(), b.drop_first());
    }
}

/// Lexicographic order is antisymmetric.
pub proof fn lemma_lex_antisym(a: Seq<u8>, b: Seq<u8>)
    requires
        lex_le(a, b),
        lex_le(b, a),
    ensures
        a == b,
    decreases a.len(),
{
    if a.len() > 0 && b.len() > 0 {
        lemma_lex_antisym(a.drop_first(), b.drop_first());
        assert(a =~= seq![a[0]] + a.drop_first());
        assert(b =~= seq![b[0]] + b.drop_first());
    } else {
        assert(a =~= b);
    }
}

/// Lexicographic order is transitive.
pub proof fn lemma_lex_trans(a: Seq<u8>, b: Seq<u8>, c: Seq<u8>)
    requires
        lex_le(a, b),
        lex_le(b, c),
    ensures
        lex_le(a, c),
    decreases a.len(),
{
    if a.len() > 0 && a[0] == b[0] && b[0] == c[0] {
        lemma_lex_trans(a.drop_first(), b.drop_first(), c.drop_first());
    }
}

/// The order laws of [`lex_le`], for automatic use.
pub broadcast proof fn lex_order_refl(a: Seq<u8>)
    ensures
        #[trigger] lex_le(a, a),
{
    lemma_lex_refl(a);
}

pub broadcast proof fn lex_order_pair(a: Seq<u8>, b: Seq<u8>)
    ensures
        (#[trigger] lex_le(a, b)) || lex_le(b, a),
        lex_le(a, b) && lex_le(b, a) ==> a == b,
{
    lemma_lex_total(a, b);
    if lex_le(a, b) && lex_le(b, a) {
        lemma_lex_antisym(a, b);
    }
}

pub broadcast proof fn lex_order_trans(a: Seq<u8>, b: Seq<u8>, c: Seq<u8>)
    requires
        #[trigger] lex_le(a, b),
        #[trigger] lex_le(b, c),
    ensures
        lex_le(a, c),
{
    lemma_lex_trans(a, b, c);
}

pub broadcast group group_lex_order {
    lex_order_refl,
    lex_order_pair,
    lex_order_trans,
}

/// A common prefix does not change the order.
pub proof fn lemma_lex_prefix(p: Seq<u8>, a: Seq<u8>, b: Seq<u8>)
    ensures
        lex_le(p + a, p + b) == lex_le(a, b),
    decreases p.len(),
{
    if p.len() == 0 {
        assert(p + a =~= a);
        assert(p + b =~= b);
    } else {
        assert((p + a).drop_first() =~= p.drop_first() + a);
        assert((p + b).drop_first() =~= p.drop_first() + b);
        lemma_lex_prefix(p.drop_first(), a, b);
    }
}

/// A prefix comes before every string that starts with it.
pub proof fn lemma_lex_prefix_le(p: Seq<u8>, a: Seq<u8>)
    ensures
        lex_le(p, p + a),
{
    lemma_lex_prefix(p, Seq::empty(), a);
    assert(p + Seq::<u8>::empty() =~= p);
}

/// Where two strings have different heads of one length, the heads decide.
pub proof fn lemma_lex_heads(a: Seq<u8>, b: Seq<u8>, x: Seq<u8>, y: Seq<u8>)
    requires
        a.len() == b.len(),
        a != b,
    ensures
        lex_le(a + x, b + y) == lex_le(a, b),
    decreases a.len(),
{
    if a.len() == 0 {
        assert(a =~= b);
    } else if a[0] == b[0] {
        assert((a + x).drop_first() =~= a.drop_first() + x);
        assert((b + y).drop_first() =~= b.drop_first() + y);
        assert(a.drop_first() != b.drop_first()) by {
            if a.drop_first() == b.drop_first() {
                assert(a =~= seq![a[0]] + a.drop_first());
                assert(b =~= seq![b[0]] + b.drop_first());
            }
        }
        lemma_lex_heads(a.drop_first(), b.drop_first(), x, y);
    }
}

/// Does `s` start with `p`?
pub open spec fn has_prefix(s: Seq<u8>, p: Seq<u8>) -> bool {
    p.len() <= s.len() && s.take(p.len() as int) == p
}

/// The first string after every string that starts with `p`; `None` where there
/// is no such string because `p` is made of 255s only.
pub open spec fn prefix_end(p: Seq<u8>) -> Option<Seq<u8>>
    decreases p.len(),
{
    if p.len() == 0 {
        None
    } else if p.last() < 255 {
        Some(p.drop_last().push((p.last() + 1) as u8))
    } else {
        prefix_end(p.drop_last())
    }
}

/// The strings that start with `p` are those from `p` up to its end.
pub proof fn lemma_prefix_range(p: Seq<u8>, k: Seq<u8>)
    ensures
        has_prefix(k, p) == (lex_le(p, k) && match prefix_end(p) {
            Some(e) => lex_lt(k, e),
            None => true,
        }),
    decreases p.len(),
{
    broadcast use group_lex_order;

    if p.len() == 0 {
        assert(k.take(0) =~= p);
    } else {
        let q = p.drop_last();
        let x = p.last();
        lemma_prefix_range(q, k);
        assert(p =~= q.push(x));
        assert(p =~= q + seq![x]);
        if has_prefix(k, q) {
            let t = k.skip(q.len() as int);
            assert(k =~= q + t);
            lemma_lex_prefix(q, seq![x], t);
            reveal_with_fuel(lex_le, 2);
            assert(has_prefix(k, p) == (t.len() > 0 && t[0] == x)) by {
                if t.len() > 0 {
                    assert(k.take(p.len() as int) =~= q.push(t[0]));
                    if t[0] != x {
                        assert(q.push(t[0])[q.len() as int] != p[q.len() as int]);
                    }
                }
            }
            if x < 255 {
                let y = (x + 1) as u8;
                assert(q.push(y) =~= q + seq![y]);
                lemma_lex_prefix(q, seq![y], t);
                if t.len() > 0 {
                    assert(lex_le(seq![y], t) == (y <= t[0]));
                    assert(lex_le(seq![x], t) == (x <= t[0]));
                }
            } else {
                if t.len() > 0 {
                    assert(lex_le(seq![x], t) == (x <= t[0]));
                }
            }
        } else {
            if has_prefix(k, p) {
                assert(k.take(q.len() as int) =~= k.take(p.len() as int).drop_last());
            }
            lemma_lex_prefix_le(q, seq![x]);
            if x < 255 && lex_le(p, k) {
                let y = (x + 1) as u8;
                // Beyond every string with the shorter prefix.
                match prefix_end(q) {
                    Some(e) => {
                        assert(lex_le(e, k));
                        lemma_prefix_range(q, q.push(y));
                        assert(q.push(y).take(q.len() as int) =~= q);
                    },
                    None => {},
                }
            }
        }
    }
}

/// The string right after `a` is `a` with a zero byte.
pub proof fn lemma_lex_successor(a: Seq<u8>, b: Seq<u8>)
    ensures
        lex_le(a.push(0), b) == lex_lt(a, b),
    decreases a.len(),
{
    if a.len() == 0 {
        reveal_with_fuel(lex_le, 2);
        assert(a.push(0).drop_first().len() == 0);
    } else if b.len() > 0 && a[0] == b[0] {
        assert(a.push(0).drop_first() =~= a.drop_first().push(0));
        lemma_lex_successor(a.drop_first(), b.drop_first());
    }
}

/// Are two byte strings equal?
pub fn bytes_eq(a: &[u8], b: &[u8]) -> (r: bool)
    ensures
        r == (a@ == b@),
{
    if a.len() != b.len() {
        return false;
    }
    let n: usize = a.len();
    let mut i: usize = 0;
    while i < n
        invariant
            i <= n,
            n == a@.len(),
            n == b@.len(),
            forall|j: int| 0 <= j < i ==> a@[j] == b@[j],
        decreases n - i,
    {
        if a[i] != b[i] {
            return false;
        }
        i += 1;
    }
    assert(a@ =~= b@);
    true
}

/// Lexicographic `a <= b`.
pub fn bytes_le(a: &[u8], b: &[u8]) -> (r: bool)
    ensures
        r == lex_le(a@, b@),
{
    let mut i: usize = 0;
    proof {
        assert(a@.skip(0) =~= a@);
        assert(b@.skip(0) =~= b@);
    }
    while i < a.len() && i < b.len()
        invariant
            i <= a@.len(),
            i <= b@.len(),
            lex_le(a@, b@) == lex_le(a@.skip(i as int), b@.skip(i as int)),
        decreases a@.len() - i,
    {
        proof {
            assert(a@.skip(i as int)[0] == a@[i as int]);
            assert(b@.skip(i as int)[0] == b@[i as int]);
            assert(a@.skip(i as int).drop_first() =~= a@.skip(i + 1));
            assert(b@.skip(i as int).drop_first() =~= b@.skip(i + 1));
        }
        if a[i] != b[i] {
            return a[i] < b[i];
        }
        i += 1;
    }
    i >= a.len()
}

/// Lexicographic `a < b`.
pub fn bytes_lt(a: &[u8], b: &[u8]) -> (r: bool)
    ensures
        r == lex_lt(a@, b@),
{
    !bytes_le(b, a)
}

/// Does `s` start with `p`?
pub fn starts_with(s: &[u8], p: &[u8]) -> (r: bool)
    ensures
        r == has_prefix(s@, p@),
{
    if p.len() > s.len() {
        return false;
    }
    let head = slice_subrange(s, 0, p.len());
    assert(head@ =~= s@.take(p@.len() as int));
    bytes_eq(head, p)
}

/// The first string after every string that starts with `p`.
pub fn prefix_upper_bound(p: &[u8]) -> (r: Option<Vec<u8>>)
    ensures
        match r {
            Some(e) => prefix_end(p@) == Some(e@),
            None => prefix_end(p@) == None::<Seq<u8>>,
        },
{
    let mut n: usize = p.len();
    assert(p@.take(n as int) =~= p@);
    while n > 0
        invariant
            n <= p@.len(),
            prefix_end(p@) == prefix_end(p@.take(n as int)),
        decreases n,
    {
        assert(p@.take(n as int).drop_last() =~= p@.take(n - 1));
        if p[n - 1] < 255 {
            let mut e = copy_range(p, 0, n - 1);
            e.push(p[n - 1] + 1);
            assert(e@ =~= p@.take(n - 1).push((p@[n - 1] + 1) as u8));
            return Some(e);
        }
        n -= 1;
    }
    None
}

/// A copy of `s[from..to]`.
pub fn copy_range(s: &[u8], from: usize, to: usize) -> (r: Vec<u8>)
    requires
        from <= to <= s@.len(),
    ensures
        r@ == s@.subrange(from as int, to as int),
{
    slice_to_vec(slice_subrange(s, from, to))
}

/// Appends a copy of `s` to `out`.
pub fn append_slice(out: &mut Vec<u8>, s: &[u8])
    ensures
        final(out)@ == old(out)@ + s@,
{
    let ghost before = out@;
    let n: usize = s.len();
    let mut i: usize = 0;
    while i < n
        invariant
            i <= n,
            n == s@.len(),
            out@ == before + s@.take(i as int),
        decreases n - i,
    {
        out.push(s[i]);
        proof {
            assert(s@.take(i + 1) =~= s@.take(i as int).push(s@[i as int]));
            assert(out@ =~= before + s@.take(i + 1));
        }
        i += 1;
    }
    assert(s@.take(n as int) =~= s@);
}

// ---------------------------------------------------------------------------
// Big-endian integers
// ---------------------------------------------------------------------------

/// The `n` big-endian bytes of `v` (of `v` modulo `256^n`).
pub open spec fn be_bytes(v: nat, n: nat) -> Seq<u8>
    decreases n,
{
    if n == 0 {
        Seq::empty()
    } else {
        be_bytes(v / 256, (n - 1) as nat).push((v % 256) as u8)
    }
}

/// The number whose big-endian bytes are `s`.
pub open spec fn be_value(s: Seq<u8>) -> nat
    decreases s.len(),
{
    if s.len() == 0 {
        0
    } else {
        be_value(s.drop_last()) * 256 + s.last() as nat
    }
}

/// `256^n`.
pub open spec fn pow256(n: nat) -> nat
    decreases n,
{
    if n == 0 {
        1
    } else {
        256 * pow256((n - 1) as nat)
    }
}

/// The sizes of the integer types.
pub proof fn lemma_pow256_sizes()
    ensures
        pow256(2) == 0x1_0000,
        pow256(4) == 0x1_0000_0000,
        pow256(8) == 0x1_0000_0000_0000_0000,
        pow256(16) == 0x1_0000_0000_0000_0000_0000_0000_0000_0000,
{
    reveal_with_fuel(pow256, 5);
    assert(pow256(8) == 0x1_0000_0000_0000_0000) by {
        assert(pow256(4) == 0x1_0000_0000);
    }
    assert(pow256(12) == 0x1_0000_0000_0000_0000_0000_0000) by {
        assert(pow256(8) == 0x1_0000_0000_0000_0000);
    }
}

pub proof fn lemma_be_len(v: nat, n: nat)
    ensures
        be_bytes(v, n).len() == n,
    decreases n,
{
    if n > 0 {
        lemma_be_len(v / 256, (n - 1) as nat);
    }
}

pub broadcast proof fn be_bytes_len(v: nat, n: nat)
    ensures
        #[trigger] be_bytes(v, n).len() == n,
{
    lemma_be_len(v, n);
}

/// Decoding gives back what was encoded.
pub proof fn lemma_be_roundtrip(v: nat, n: nat)
    requires
        v < pow256(n),
    ensures
        be_bytes(v, n).len() == n,
        be_value(be_bytes(v, n)) == v,
    decreases n,
{
    lemma_be_len(v, n);
    if n > 0 {
        assert(v / 256 < pow256((n - 1) as nat));
        lemma_be_roundtrip(v / 256, (n - 1) as nat);
        assert(be_bytes(v, n).drop_last() =~= be_bytes(v / 256, (n - 1) as nat));
        assert(be_bytes(v, n).last() == (v % 256) as u8);
    }
}

/// Encoding gives back what was decoded, and `n` bytes hold a number below
/// `256^n`.
pub proof fn lemma_be_value_roundtrip(s: Seq<u8>)
    ensures
        be_value(s) < pow256(s.len()),
        be_bytes(be_value(s), s.len()) == s,
    decreases s.len(),
{
    if s.len() > 0 {
        lemma_be_value_roundtrip(s.drop_last());
        let hi = be_value(s.drop_last());
        let v = be_value(s);
        assert(v == hi * 256 + s.last() as nat);
        assert(v / 256 == hi && v % 256 == s.last() as nat);
        assert(be_bytes(v, s.len()) =~= s.drop_last().push(s.last()));
        assert(s =~= s.drop_last().push(s.last()));
    } else {
        assert(be_bytes(0, 0) =~= s);
    }
}

/// Distinct numbers have distinct encodings.
pub proof fn lemma_be_injective(v: nat, w: nat, n: nat)
    requires
        v < pow256(n),
        w < pow256(n),
        be_bytes(v, n) == be_bytes(w, n),
    ensures
        v == w,
{
    lemma_be_roundtrip(v, n);
    lemma_be_roundtrip(w, n);
}

/// On strings of one length, a last byte decides only between equal heads.
pub proof fn lemma_lex_push(a: Seq<u8>, b: Seq<u8>, x: u8, y: u8)
    requires
        a.len() == b.len(),
    ensures
        lex_le(a.push(x), b.push(y)) == (if a == b {
            x <= y
        } else {
            lex_le(a, b)
        }),
{
    assert(a.push(x) =~= a + seq![x]);
    assert(b.push(y) =~= b + seq![y]);
    if a == b {
        lemma_lex_prefix(a, seq![x], seq![y]);
        reveal_with_fuel(lex_le, 2);
    } else {
        lemma_lex_heads(a, b, seq![x], seq![y]);
    }
}

/// Big-endian encoding keeps the order: the bytes compare as the numbers do.
pub proof fn lemma_be_order(v: nat, w: nat, n: nat)
    requires
        v < pow256(n),
        w < pow256(n),
    ensures
        lex_le(be_bytes(v, n), be_bytes(w, n)) == (v <= w),
    decreases n,
{
    if n > 0 {
        let m = (n - 1) as nat;
        lemma_be_len(v / 256, m);
        lemma_be_len(w / 256, m);
        lemma_be_order(v / 256, w / 256, m);
        lemma_lex_push(
            be_bytes(v / 256, m),
            be_bytes(w / 256, m),
            (v % 256) as u8,
            (w % 256) as u8,
        );
        if be_bytes(v / 256, m) == be_bytes(w / 256, m) {
            lemma_be_injective(v / 256, w / 256, m);
        }
    }
}

/// Appends the `n` big-endian bytes of `v` to `out`.
pub fn push_be(out: &mut Vec<u8>, v: u128, n: usize)
    ensures
        final(out)@ == old(out)@ + be_bytes(v as nat, n as nat),
    decreases n,
{
    let ghost before = out@;
    if n > 0 {
        push_be(out, v / 256, n - 1);
        out.push((v % 256) as u8);
    }
    assert(out@ =~= before + be_bytes(v as nat, n as nat));
}

/// The number whose big-endian bytes are `s`.
pub fn read_be(s: &[u8]) -> (v: u128)
    requires
        s@.len() <= 16,
    ensures
        v as nat == be_value(s@),
        v < pow256(s@.len()),
{
    let n: usize = s.len();
    let mut v: u128 = 0;
    let mut i: usize = 0;
    proof {
        assert(s@.take(0) =~= Seq::empty());
        lemma_pow256_sizes();
    }
    while i < n
        invariant
            i <= n,
            n == s@.len(),
            n <= 16,
            v as nat == be_value(s@.take(i as int)),
            v < pow256(i as nat),
            pow256(16) == 0x1_0000_0000_0000_0000_0000_0000_0000_0000,
        decreases n - i,
    {
        proof {
            lemma_pow256_mono((i + 1) as nat, 16);
            assert(s@.take(i + 1).drop_last() =~= s@.take(i as int));
        }
        v = v * 256 + s[i] as u128;
        i += 1;
    }
    assert(s@.take(n as int) =~= s@);
    v
}

pub proof fn lemma_pow256_mono(a: nat, b: nat)
    requires
        a <= b,
    ensures
        pow256(a) <= pow256(b),
        pow256(a) > 0,
    decreases b,
{
    if a < b {
        lemma_pow256_mono(a, (b - 1) as nat);
    } else if a > 0 {
        lemma_pow256_mono((a - 1) as nat, (a - 1) as nat);
    }
}

// ---------------------------------------------------------------------------
// Little-endian integers
// ---------------------------------------------------------------------------

/// The `n` little-endian bytes of `v` (of `v` modulo `256^n`).
pub open spec fn le_bytes(v: nat, n: nat) -> Seq<u8>
    decreases n,
{
    if n == 0 {
        Seq::empty()
    } else {
        seq![(v % 256) as u8] + le_bytes(v / 256, (n - 1) as nat)
    }
}

/// The number whose little-endian bytes are `s`.
pub open spec fn le_value(s: Seq<u8>) -> nat
    decreases s.len(),
{
    if s.len() == 0 {
        0
    } else {
        s[0] as nat + 256 * le_value(s.drop_first())
    }
}

pub broadcast proof fn le_bytes_len(v: nat, n: nat)
    ensures
        #[trigger] le_bytes(v, n).len() == n,
    decreases n,
{
    if n > 0 {
        le_bytes_len(v / 256, (n - 1) as nat);
    }
}

/// Decoding gives back what was encoded.
pub proof fn lemma_le_roundtrip(v: nat, n: nat)
    requires
        v < pow256(n),
    ensures
        le_value(le_bytes(v, n)) == v,
    decreases n,
{
    le_bytes_len(v, n);
    if n > 0 {
        assert(v / 256 < pow256((n - 1) as nat));
        lemma_le_roundtrip(v / 256, (n - 1) as nat);
        assert(le_bytes(v, n).drop_first() =~= le_bytes(v / 256, (n - 1) as nat));
        assert(le_bytes(v, n)[0] == (v % 256) as u8);
    }
}

/// Encoding gives back what was decoded, and `n` bytes hold a number below
/// `256^n`.
pub proof fn lemma_le_value_roundtrip(s: Seq<u8>)
    ensures
        le_value(s) < pow256(s.len()),
        le_bytes(le_value(s), s.len()) == s,
    decreases s.len(),
{
    if s.len() > 0 {
        lemma_le_value_roundtrip(s.drop_first());
        let v = le_value(s);
        let hi = le_value(s.drop_first());
        assert(v / 256 == hi && v % 256 == s[0] as nat);
        assert(seq![s[0]] + s.drop_first() =~= s);
    } else {
        assert(le_bytes(0, 0) =~= s);
    }
}

/// Little-endian bytes are big-endian bytes from the back to the front, written and read.
pub proof fn law_endian(v: nat, n: nat, s: Seq<u8>)
    ensures
        le_bytes(v, n) == be_bytes(v, n).reverse(),
        le_value(s) == be_value(s.reverse()),
    decreases n + s.len(),
{
    broadcast use {be_bytes_len, le_bytes_len};

    if n > 0 {
        law_endian(v / 256, (n - 1) as nat, Seq::empty());
    }
    assert(le_bytes(v, n) =~= be_bytes(v, n).reverse());
    if s.len() > 0 {
        law_endian(0, 0, s.drop_first());
        assert(s.reverse().drop_last() =~= s.drop_first().reverse());
        assert(s.reverse().last() == s[0]);
    } else {
        assert(s.reverse() =~= Seq::empty());
    }
}

/// Appends the `n` little-endian bytes of `v` to `out`.
pub fn push_le(out: &mut Vec<u8>, v: u128, n: usize)
    ensures
        final(out)@ == old(out)@ + le_bytes(v as nat, n as nat),
    decreases n,
{
    let ghost before = out@;
    if n > 0 {
        out.push((v % 256) as u8);
        push_le(out, v / 256, n - 1);
    }
    assert(out@ =~= before + le_bytes(v as nat, n as nat));
}

/// The number whose little-endian bytes are `s`.
pub fn read_le(s: &[u8]) -> (v: u128)
    requires
        s@.len() <= 16,
    ensures
        v as nat == le_value(s@),
        v < pow256(s@.len()),
{
    let n: usize = s.len();
    let mut v: u128 = 0;
    let mut i: usize = n;
    proof {
        assert(s@.skip(n as int) =~= Seq::empty());
        lemma_pow256_sizes();
    }
    while i > 0
        invariant
            i <= n,
            n == s@.len(),
            n <= 16,
            v as nat == le_value(s@.skip(i as int)),
            v < pow256((n - i) as nat),
            pow256(16) == 0x1_0000_0000_0000_0000_0000_0000_0000_0000,
        decreases i,
    {
        proof {
            lemma_pow256_mono((n - i + 1) as nat, 16);
            assert(s@.skip(i - 1).drop_first() =~= s@.skip(i as int));
        }
        v = v * 256 + s[i - 1] as u128;
        i -= 1;
    }
    assert(s@.skip(0) =~= s@);
    v
}

/// Replaces the contents of `out` by those of `s`.
pub fn copy_into(out: &mut [u8], s: &[u8])
    requires
        old(out)@.len() == s@.len(),
    ensures
        final(out)@ == s@,
{
    let n: usize = s.len();
    let mut i: usize = 0;
    while i < n
        invariant
            i <= n,
            n == s@.len(),
            out@.len() == n,
            forall|j: int| 0 <= j < i ==> out@[j] == s@[j],
        decreases n - i,
    {
        out[i] = s[i];
        i += 1;
    }
    assert(out@ =~= s@);
}

} // verus!
