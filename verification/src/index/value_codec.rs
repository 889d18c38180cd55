//! Order-preserving encoding of property values.
//!
//! Every value is encoded as a byte string, a tag of one byte first, and the
//! strings compare as the values do:
//!
//! ```text
//! null < false < true < integers < floats < strings < lists < maps
//! ```
//!
//! A byte string inside a value is escaped (`00` as `00 FF`, `FF` as `FF 00`)
//! and ends with a bare `00`, so that a value shows where it ends.

use vstd::prelude::*;
use vstd::slice::slice_subrange;
use vstd::string::StringSliceAdditionalSpecFns;

use crate::bytes::append_slice;
use crate::bytes::be_bytes;
use crate::bytes::be_bytes_len;
use crate::bytes::be_value;
use crate::bytes::copy_range;
use crate::bytes::lemma_be_order;
use crate::bytes::lemma_be_roundtrip;
use crate::bytes::lemma_be_value_roundtrip;
use crate::bytes::lemma_lex_prefix;
use crate::bytes::lemma_lex_refl;
use crate::bytes::lemma_pow256_sizes;
use crate::bytes::lex_le;
use crate::bytes::lex_lt;
use crate::bytes::push_be;
use crate::bytes::read_be;
use crate::graph::record::ValueType;

verus! {

/// The longest encoding of a value.
pub const MAX_ENCODED_LEN: usize = 512;

/// The most bytes of a string that are encoded.
const MAX_STRING_LEN: usize = 65535;

/// A property value.
#[derive(Debug, Clone, PartialEq, Eq, PartialOrd, Ord)]
pub enum Value {
    Null,
    Bool(bool),
    Int64(i64),
    /// A float by its ordered bits (see [`order_f64_bits`]).
    Float64(u64),
    String(Vec<u8>),
    List(Vec<u8>),
    Dict(Vec<u8>),
}

/// What a property value is.
#[verifier::ext_equal]
pub enum ValueView {
    Null,
    Bool(bool),
    Int64(i64),
    Float64(u64),
    String(Seq<u8>),
    List(Seq<u8>),
    Dict(Seq<u8>),
}

impl View for Value {
    type V = ValueView;

    open spec fn view(&self) -> ValueView {
        match self {
            Value::Null => ValueView::Null,
            Value::Bool(b) => ValueView::Bool(*b),
            Value::Int64(v) => ValueView::Int64(*v),
            Value::Float64(v) => ValueView::Float64(*v),
            Value::String(s) => ValueView::String(s@),
            Value::List(s) => ValueView::List(s@),
            Value::Dict(s) => ValueView::Dict(s@),
        }
    }
}

impl Value {
    /// The value of a string.
    pub fn from_str(s: &str) -> (r: Self)
        ensures
            r@ == ValueView::String(s.spec_bytes()),
    {
        let bytes = s.as_bytes();
        let text = copy_range(bytes, 0, bytes.len());
        assert(text@ =~= bytes@);
        Value::String(text)
    }

    /// The value of an integer.
    pub fn from_i64(v: i64) -> (r: Self)
        ensures
            r@ == ValueView::Int64(v),
    {
        Value::Int64(v)
    }

    /// The value of the float with these IEEE 754 bits; all NaNs give one
    /// value.
    pub fn from_f64_bits(bits: u64) -> (r: Self)
        ensures
            r@ == ValueView::Float64(float_rank(canonical_bits(bits)) as u64),
    {
        let magnitude: u64 = bits % 0x8000_0000_0000_0000;
        if magnitude > 0x7FF0_0000_0000_0000 {
            Value::Float64(order_f64_bits(0x7FF8_0000_0000_0000))
        } else {
            Value::Float64(order_f64_bits(bits))
        }
    }

    /// The IEEE 754 bits of a float value.
    pub fn to_f64_bits(&self) -> (r: Option<u64>)
        ensures
            match r {
                Some(bits) => self@ is Float64 && float_rank(bits) == self@->Float64_0,
                None => !(self@ is Float64),
            },
    {
        match self {
            Value::Float64(ordered) => Some(unorder_f64_bits(*ordered)),
            _ => None,
        }
    }
}

// ---------------------------------------------------------------------------
// Numbers in order
// ---------------------------------------------------------------------------

/// Do these IEEE 754 bits stand for a NaN?
pub open spec fn is_nan_bits(bits: u64) -> bool {
    bits as int % 0x8000_0000_0000_0000 > 0x7FF0_0000_0000_0000
}

/// The bits that stand for a float: its own, or those of the one NaN that stands for
/// all.
pub open spec fn canonical_bits(bits: u64) -> u64 {
    if is_nan_bits(bits) {
        0x7FF8_0000_0000_0000
    } else {
        bits
    }
}

/// The place of a float among all floats, by its IEEE 754 bits: the negative
/// ones by falling magnitude, then the positive ones by rising magnitude.
pub open spec fn float_rank(bits: u64) -> int {
    if bits < 0x8000_0000_0000_0000 {
        0x8000_0000_0000_0000 + bits
    } else {
        0xFFFF_FFFF_FFFF_FFFF - bits
    }
}

/// The place of an integer among all integers.
pub open spec fn int_rank(v: i64) -> int {
    v + 0x8000_0000_0000_0000
}

/// The place of an integer among all integers.
pub fn order_i64(v: i64) -> (r: u64)
    ensures
        r == int_rank(v),
{
    (v as i128 + 0x8000_0000_0000_0000i128) as u64
}

/// The integer with this place.
pub fn unorder_i64(v: u64) -> (r: i64)
    ensures
        int_rank(r) == v,
{
    (v as i128 - 0x8000_0000_0000_0000i128) as i64
}

/// The place of a float among all floats, by its IEEE 754 bits.
pub fn order_f64_bits(bits: u64) -> (r: u64)
    ensures
        r == float_rank(bits),
{
    if bits >= 0x8000_0000_0000_0000 {
        0xFFFF_FFFF_FFFF_FFFF - bits
    } else {
        bits + 0x8000_0000_0000_0000
    }
}

/// The IEEE 754 bits of the float with this place.
pub fn unorder_f64_bits(bits: u64) -> (r: u64)
    ensures
        float_rank(r) == bits,
{
    if bits >= 0x8000_0000_0000_0000 {
        bits - 0x8000_0000_0000_0000
    } else {
        0xFFFF_FFFF_FFFF_FFFF - bits
    }
}

// ---------------------------------------------------------------------------
// Escaped strings
// ---------------------------------------------------------------------------

/// The escaped form of one byte.
pub open spec fn escaped_byte(b: u8) -> Seq<u8> {
    if b == 0x00 {
        seq![0x00u8, 0xFFu8]
    } else if b == 0xFF {
        seq![0xFFu8, 0x00u8]
    } else {
        seq![b]
    }
}

/// The escaped form of a string, without its end.
pub open spec fn escaped(s: Seq<u8>) -> Seq<u8>
    decreases s.len(),
{
    if s.len() == 0 {
        Seq::empty()
    } else {
        escaped_byte(s[0]) + escaped(s.drop_first())
    }
}

/// A string as it stands inside a value: escaped, then the end mark.
pub open spec fn terminated(s: Seq<u8>) -> Seq<u8> {
    escaped(s) + seq![0x00u8]
}

/// The string at the front of `data` and the number of bytes that it takes;
/// `None` where `data` holds no end mark.
pub open spec fn unescape(data: Seq<u8>) -> Option<(Seq<u8>, nat)>
    decreases data.len(),
{
    if data.len() == 0 {
        None
    } else {
        let pair = data.len() >= 2 && ((data[0] == 0x00 && data[1] == 0xFF) || (data[0] == 0xFF
            && data[1] == 0x00));
        if pair {
            match unescape(data.skip(2)) {
                Some((s, n)) => Some((seq![data[0]] + s, n + 2)),
                None => None,
            }
        } else if data[0] == 0x00 {
            Some((Seq::empty(), 1))
        } else {
            match unescape(data.drop_first()) {
                Some((s, n)) => Some((seq![data[0]] + s, n + 1)),
                None => None,
            }
        }
    }
}

proof fn lemma_escaped_push(s: Seq<u8>, b: u8)
    ensures
        escaped(s.push(b)) == escaped(s) + escaped_byte(b),
    decreases s.len(),
{
    if s.len() == 0 {
        assert(s.push(b).drop_first() =~= s);
        assert(escaped(s) =~= Seq::empty());
        assert(escaped(s.push(b)) =~= escaped(s) + escaped_byte(b));
    } else {
        assert(s.push(b).drop_first() =~= s.drop_first().push(b));
        lemma_escaped_push(s.drop_first(), b);
        assert(escaped(s.push(b)) =~= escaped(s) + escaped_byte(b));
    }
}

proof fn lemma_escaped_len(s: Seq<u8>)
    ensures
        s.len() <= escaped(s).len() <= 2 * s.len(),
    decreases s.len(),
{
    if s.len() > 0 {
        lemma_escaped_len(s.drop_first());
    }
}

/// A terminated string is read back, whatever follows it, unless an `FF`
/// follows.
proof fn lemma_unescape(s: Seq<u8>, rest: Seq<u8>)
    requires
        rest.len() == 0 || rest[0] != 0xFF,
    ensures
        unescape(terminated(s) + rest) == Some((s, terminated(s).len())),
    decreases s.len(),
{
    let data = terminated(s) + rest;
    if s.len() == 0 {
        assert(escaped(s) =~= Seq::empty());
        assert(data[0] == 0x00);
        assert(data.len() >= 2 ==> data[1] == rest[0]);
        assert(s =~= Seq::empty());
    } else {
        let t = s.drop_first();
        lemma_unescape(t, rest);
        let tail = terminated(t) + rest;
        lemma_escaped_len(t);
        assert(tail.len() > 0);
        assert(s =~= seq![s[0]] + t);
        if s[0] == 0x00 || s[0] == 0xFF {
            assert(data.skip(2) =~= tail);
            assert(data[0] == s[0]);
            assert(data[1] == escaped_byte(s[0])[1]);
        } else {
            assert(data.drop_first() =~= tail);
            assert(data[0] == s[0]);
        }
    }
}

/// A terminated string compares as the string does.
proof fn lemma_terminated_order(a: Seq<u8>, b: Seq<u8>)
    ensures
        lex_le(terminated(a), terminated(b)) == lex_le(a, b),
    decreases a.len(),
{
    let x = terminated(a);
    let y = terminated(b);
    if a.len() > 0 && b.len() > 0 && a[0] == b[0] {
        let u = escaped_byte(a[0]);
        assert(x =~= u + terminated(a.drop_first()));
        assert(y =~= u + terminated(b.drop_first()));
        lemma_lex_prefix(u, terminated(a.drop_first()), terminated(b.drop_first()));
        lemma_terminated_order(a.drop_first(), b.drop_first());
    } else if a.len() > 0 && b.len() > 0 {
        assert(x[0] == a[0] && y[0] == b[0]);
    } else if a.len() == 0 && b.len() == 0 {
        assert(a =~= b);
        lemma_lex_refl(x);
    } else if a.len() == 0 {
        assert(escaped(a) =~= Seq::empty());
        assert(x =~= seq![0x00u8]);
        assert(y[0] == b[0]);
        assert(x.drop_first() =~= Seq::empty());
        assert(lex_le(x.drop_first(), y.drop_first()));
    } else {
        assert(escaped(b) =~= Seq::empty());
        assert(y =~= seq![0x00u8]);
        assert(x[0] == a[0]);
        if a[0] == 0x00 {
            assert(x.drop_first()[0] == 0xFF);
            assert(y.drop_first() =~= Seq::empty());
            assert(!lex_le(x.drop_first(), y.drop_first()));
        }
    }
}

/// Appends the escaped form of `bytes` and the end mark to `out`.
fn push_terminated(out: &mut Vec<u8>, bytes: &[u8])
    requires
        bytes@.len() <= MAX_STRING_LEN,
    ensures
        final(out)@ == old(out)@ + terminated(bytes@),
{
    let ghost before = out@;
    let mut i: usize = 0;
    assert(escaped(bytes@.take(0)) =~= Seq::empty());
    while i < bytes.len()
        invariant
            i <= bytes@.len(),
            out@ == before + escaped(bytes@.take(i as int)),
        decreases bytes@.len() - i,
    {
        let b: u8 = bytes[i];
        proof {
            assert(bytes@.take(i + 1) =~= bytes@.take(i as int).push(b));
            lemma_escaped_push(bytes@.take(i as int), b);
        }
        if b == 0x00 {
            out.push(0x00);
            out.push(0xFF);
        } else if b == 0xFF {
            out.push(0xFF);
            out.push(0x00);
        } else {
            out.push(b);
        }
        assert(out@ =~= before + escaped(bytes@.take(i + 1)));
        i += 1;
    }
    out.push(0x00);
    assert(bytes@.take(i as int) =~= bytes@);
    assert(out@ =~= before + terminated(bytes@));
}

/// Reads the string at the front of `data` and says how many bytes it takes;
/// `None` where `data` holds no end mark.
fn decode_terminated(data: &[u8]) -> (r: Option<(Vec<u8>, usize)>)
    ensures
        match r {
            Some((s, n)) => unescape(data@) == Some((s@, n as nat)) && n <= data@.len(),
            None => unescape(data@) is None,
        },
{
    let mut out: Vec<u8> = Vec::new();
    let mut i: usize = 0;
    assert(data@.skip(0) =~= data@);
    while i < data.len()
        invariant
            i <= data@.len(),
            match unescape(data@.skip(i as int)) {
                Some((s, n)) => unescape(data@) == Some((out@ + s, n + i as nat)),
                None => unescape(data@) is None,
            },
        decreases data@.len() - i,
    {
        let b: u8 = data[i];
        let ghost here = data@.skip(i as int);
        let ghost so_far = out@;
        assert(here[0] == b);
        assert(i + 1 < data@.len() ==> here[1] == data@[i + 1]);
        if i + 1 < data.len() && ((b == 0x00 && data[i + 1] == 0xFF) || (b == 0xFF && data[i + 1]
            == 0x00)) {
            out.push(b);
            i += 2;
            proof {
                assert(here.skip(2) =~= data@.skip(i as int));
                match unescape(here.skip(2)) {
                    Some((s, n)) => {
                        assert(so_far + (seq![b] + s) =~= out@ + s);
                    },
                    None => {},
                }
            }
        } else if b == 0x00 {
            assert(out@ + Seq::<u8>::empty() =~= out@);
            return Some((out, i + 1));
        } else {
            out.push(b);
            i += 1;
            proof {
                assert(here.drop_first() =~= data@.skip(i as int));
                match unescape(here.drop_first()) {
                    Some((s, n)) => {
                        assert(so_far + (seq![b] + s) =~= out@ + s);
                    },
                    None => {},
                }
            }
        }
    }
    assert(data@.skip(i as int) =~= Seq::empty());
    None
}

// ---------------------------------------------------------------------------
// Values
// ---------------------------------------------------------------------------

/// The tag of a value.
pub open spec fn tag(v: ValueView) -> u8 {
    match v {
        ValueView::Null => 0,
        ValueView::Bool(_) => 1,
        ValueView::Int64(_) => 2,
        ValueView::Float64(_) => 3,
        ValueView::String(_) => 4,
        ValueView::List(_) => 5,
        ValueView::Dict(_) => 6,
    }
}

/// What follows the tag of a value.
pub open spec fn body(v: ValueView) -> Seq<u8> {
    match v {
        ValueView::Null => Seq::empty(),
        ValueView::Bool(b) => seq![if b {
            1u8
        } else {
            0u8
        }],
        ValueView::Int64(n) => be_bytes(int_rank(n) as nat, 8),
        ValueView::Float64(n) => be_bytes(n as nat, 8),
        ValueView::String(s) => terminated(s),
        ValueView::List(s) => terminated(s),
        ValueView::Dict(s) => terminated(s),
    }
}

/// The encoding of a value.
pub open spec fn encoded(v: ValueView) -> Seq<u8> {
    seq![tag(v)] + body(v)
}

/// The order of values: by kind, then by value.
pub open spec fn value_le(a: ValueView, b: ValueView) -> bool {
    match (a, b) {
        (ValueView::Bool(x), ValueView::Bool(y)) => x ==> y,
        (ValueView::Int64(x), ValueView::Int64(y)) => x <= y,
        (ValueView::Float64(x), ValueView::Float64(y)) => x <= y,
        (ValueView::String(x), ValueView::String(y)) => lex_le(x, y),
        (ValueView::List(x), ValueView::List(y)) => lex_le(x, y),
        (ValueView::Dict(x), ValueView::Dict(y)) => lex_le(x, y),
        _ => tag(a) <= tag(b),
    }
}

/// The value at the front of `data` and the number of bytes that it takes.
pub open spec fn decoded(data: Seq<u8>) -> Option<(ValueView, nat)> {
    if data.len() == 0 {
        None
    } else if data[0] == 0 {
        Some((ValueView::Null, 1))
    } else if data[0] == 1 {
        if data.len() < 2 {
            None
        } else {
            Some((ValueView::Bool(data[1] != 0), 2))
        }
    } else if data[0] == 2 {
        if data.len() < 9 {
            None
        } else {
            Some(
                (
                    ValueView::Int64(
                        (be_value(data.subrange(1, 9)) - 0x8000_0000_0000_0000) as i64,
                    ),
                    9,
                ),
            )
        }
    } else if data[0] == 3 {
        if data.len() < 9 {
            None
        } else {
            Some((ValueView::Float64(be_value(data.subrange(1, 9)) as u64), 9))
        }
    } else if data[0] <= 6 {
        match unescape(data.skip(1)) {
            Some((s, n)) => Some(
                (
                    if data[0] == 4 {
                        ValueView::String(s)
                    } else if data[0] == 5 {
                        ValueView::List(s)
                    } else {
                        ValueView::Dict(s)
                    },
                    n + 1,
                ),
            ),
            None => None,
        }
    } else {
        None
    }
}

/// Decoding gives back the value that was encoded, and shows where it ends: what
/// follows it does not matter unless it starts with `FF`, which no value does.
pub proof fn law_decode_encoded(v: ValueView, rest: Seq<u8>)
    requires
        rest.len() == 0 || rest[0] != 0xFF,
    ensures
        decoded(encoded(v) + rest) == Some((v, encoded(v).len())),
{
    let data = encoded(v) + rest;
    broadcast use be_bytes_len;

    lemma_pow256_sizes();
    assert(data[0] == tag(v));
    match v {
        ValueView::Int64(n) => {
            lemma_be_roundtrip(int_rank(n) as nat, 8);
            assert(data.subrange(1, 9) =~= be_bytes(int_rank(n) as nat, 8));
        },
        ValueView::Float64(n) => {
            lemma_be_roundtrip(n as nat, 8);
            assert(data.subrange(1, 9) =~= be_bytes(n as nat, 8));
        },
        ValueView::String(s) => {
            lemma_unescape(s, rest);
            assert(data.skip(1) =~= terminated(s) + rest);
        },
        ValueView::List(s) => {
            lemma_unescape(s, rest);
            assert(data.skip(1) =~= terminated(s) + rest);
        },
        ValueView::Dict(s) => {
            lemma_unescape(s, rest);
            assert(data.skip(1) =~= terminated(s) + rest);
        },
        _ => {},
    }
}

/// The encodings compare as the values do.
pub proof fn law_encoded_order(a: ValueView, b: ValueView)
    ensures
        lex_le(encoded(a), encoded(b)) == value_le(a, b),
{
    lemma_pow256_sizes();
    if tag(a) == tag(b) {
        lemma_lex_prefix(seq![tag(a)], body(a), body(b));
        match (a, b) {
            (ValueView::Null, ValueView::Null) => {},
            (ValueView::Bool(x), ValueView::Bool(y)) => {
                reveal_with_fuel(lex_le, 2);
            },
            (ValueView::Int64(x), ValueView::Int64(y)) => {
                lemma_be_order(int_rank(x) as nat, int_rank(y) as nat, 8);
            },
            (ValueView::Float64(x), ValueView::Float64(y)) => {
                lemma_be_order(x as nat, y as nat, 8);
            },
            (ValueView::String(x), ValueView::String(y)) => {
                lemma_terminated_order(x, y);
            },
            (ValueView::List(x), ValueView::List(y)) => {
                lemma_terminated_order(x, y);
            },
            (ValueView::Dict(x), ValueView::Dict(y)) => {
                lemma_terminated_order(x, y);
            },
            _ => {},
        }
    } else {
        assert(encoded(a)[0] == tag(a) && encoded(b)[0] == tag(b));
    }
}

/// Distinct values have distinct encodings.
pub proof fn law_encoded_injective(a: ValueView, b: ValueView)
    requires
        encoded(a) == encoded(b),
    ensures
        a == b,
{
    law_decode_encoded(a, Seq::empty());
    law_decode_encoded(b, Seq::empty());
    assert(encoded(a) + Seq::<u8>::empty() =~= encoded(a));
    assert(encoded(b) + Seq::<u8>::empty() =~= encoded(b));
}

/// The order of floats: a smaller magnitude comes later among the negative
/// ones and earlier among the positive ones, and every negative float comes
/// before every positive one.
pub proof fn law_float_order(a: u64, b: u64)
    ensures
        float_rank(a) == float_rank(b) <==> a == b,
        float_rank(a) < float_rank(b) <==> (if a >= 0x8000_0000_0000_0000 {
            b < 0x8000_0000_0000_0000 || b < a
        } else {
            b < 0x8000_0000_0000_0000 && a < b
        }),
        0 <= float_rank(a) <= u64::MAX,
{
}

/// Appends the encoding of `value` to `out` and says how many bytes it takes;
/// where it is too long, `out` stays as it was.
pub fn encode(value: &Value, out: &mut Vec<u8>) -> (r: Option<usize>)
    ensures
        match r {
            Some(n) => n == encoded(value@).len() && n <= MAX_ENCODED_LEN && final(out)@ == old(
                out,
            )@ + encoded(value@),
            None => encoded(value@).len() > MAX_ENCODED_LEN && final(out)@ == old(out)@,
        },
{
    let mut buf: Vec<u8> = Vec::new();
    broadcast use be_bytes_len;

    match value {
        Value::Null => {
            buf.push(0);
            assert(buf@ =~= encoded(value@));
        },
        Value::Bool(b) => {
            buf.push(1);
            buf.push(
                if *b {
                    0x01
                } else {
                    0x00
                },
            );
            assert(buf@ =~= encoded(value@));
        },
        Value::Int64(v) => {
            buf.push(2);
            push_be(&mut buf, order_i64(*v) as u128, 8);
            assert(buf@ =~= encoded(value@));
        },
        Value::Float64(ordered) => {
            buf.push(3);
            push_be(&mut buf, *ordered as u128, 8);
            assert(buf@ =~= encoded(value@));
        },
        Value::String(bytes) => {
            if !encode_bytes(4, bytes.as_slice(), &mut buf) {
                return None;
            }
        },
        Value::List(bytes) => {
            if !encode_bytes(5, bytes.as_slice(), &mut buf) {
                return None;
            }
        },
        Value::Dict(bytes) => {
            if !encode_bytes(6, bytes.as_slice(), &mut buf) {
                return None;
            }
        },
    }
    assert(buf@ =~= encoded(value@));
    let n: usize = buf.len();
    if n > MAX_ENCODED_LEN {
        None
    } else {
        append_slice(out, buf.as_slice());
        Some(n)
    }
}

/// Appends a tag and the escaped form of `bytes`; `false` where `bytes` are too
/// long for any encoding.
fn encode_bytes(tag: u8, bytes: &[u8], buf: &mut Vec<u8>) -> (r: bool)
    ensures
        r == (bytes@.len() <= MAX_STRING_LEN),
        r ==> final(buf)@ == old(buf)@ + (seq![tag] + terminated(bytes@)),
        !r ==> (seq![tag] + terminated(bytes@)).len() > MAX_ENCODED_LEN,
{
    let ghost before = buf@;
    if bytes.len() > MAX_STRING_LEN {
        proof {
            lemma_escaped_len(bytes@);
        }
        return false;
    }
    buf.push(tag);
    push_terminated(buf, bytes);
    assert(buf@ =~= before + (seq![tag] + terminated(bytes@)));
    true
}

/// The value at the front of `data` and the number of bytes that it takes.
pub fn decode(data: &[u8]) -> (r: Option<(Value, usize)>)
    ensures
        match r {
            Some((v, n)) => decoded(data@) == Some((v@, n as nat)) && n <= data@.len(),
            None => decoded(data@) is None,
        },
{
    if data.len() == 0 {
        return None;
    }
    let t: u8 = data[0];
    proof {
        lemma_pow256_sizes();
    }
    if t == 0 {
        Some((Value::Null, 1))
    } else if t == 1 {
        if data.len() < 2 {
            return None;
        }
        Some((Value::Bool(data[1] != 0), 2))
    } else if t == 2 {
        if data.len() < 9 {
            return None;
        }
        let bits: u64 = read_be(slice_subrange(data, 1, 9)) as u64;
        Some((Value::Int64(unorder_i64(bits)), 9))
    } else if t == 3 {
        if data.len() < 9 {
            return None;
        }
        let bits: u64 = read_be(slice_subrange(data, 1, 9)) as u64;
        Some((Value::Float64(bits), 9))
    } else if t <= 6 {
        let rest = slice_subrange(data, 1, data.len());
        assert(rest@ =~= data@.skip(1));
        match decode_terminated(rest) {
            Some((bytes, n)) => {
                let v = if t == 4 {
                    Value::String(bytes)
                } else if t == 5 {
                    Value::List(bytes)
                } else {
                    Value::Dict(bytes)
                };
                Some((v, n + 1))
            },
            None => None,
        }
    } else {
        None
    }
}

// ---------------------------------------------------------------------------
// Stored properties
// ---------------------------------------------------------------------------

/// The value of a stored property; `None` where the payload is too short for
/// its kind.
pub open spec fn property_value(value_type: ValueType, payload: Seq<u8>) -> Option<ValueView> {
    match value_type {
        ValueType::Null => Some(ValueView::Null),
        ValueType::Bool => if payload.len() == 0 {
            None
        } else {
            Some(ValueView::Bool(payload[0] != 0))
        },
        ValueType::Int64 => if payload.len() < 8 {
            None
        } else {
            Some(ValueView::Int64(two_complement(be_value(payload.take(8)))))
        },
        ValueType::Float64 => if payload.len() < 8 {
            None
        } else {
            let bits = be_value(payload.take(8)) as u64;
            Some(ValueView::Float64(float_rank(canonical_bits(bits)) as u64))
        },
        ValueType::String => Some(ValueView::String(payload)),
        ValueType::List => Some(ValueView::List(payload)),
        ValueType::Dict => Some(ValueView::Dict(payload)),
    }
}

/// The integer whose two's complement is `v`.
pub open spec fn two_complement(v: nat) -> i64 {
    if v < 0x8000_0000_0000_0000 {
        v as i64
    } else {
        (v - 0x1_0000_0000_0000_0000) as i64
    }
}

/// The integer whose two's complement is `v`.
pub fn from_two_complement(v: u64) -> (r: i64)
    ensures
        r == two_complement(v as nat),
{
    if v < 0x8000_0000_0000_0000 {
        v as i64
    } else {
        (v as i128 - 0x1_0000_0000_0000_0000i128) as i64
    }
}

/// The encoding of a stored property; `None` where the payload is too short for
/// its kind or the encoding is too long.
pub open spec fn encoded_property(value_type: ValueType, payload: Seq<u8>) -> Option<Seq<u8>> {
    match property_value(value_type, payload) {
        Some(v) => if encoded(v).len() <= MAX_ENCODED_LEN {
            Some(encoded(v))
        } else {
            None
        },
        None => None,
    }
}

/// The number that an integer is stored as: its two's complement.
spec fn stored_as(a: i64) -> int {
    if a < 0 {
        a + 0x1_0000_0000_0000_0000
    } else {
        a as int
    }
}

proof fn lemma_int_property(a: i64, p: Seq<u8>)
    requires
        p.len() >= 8,
        be_value(p.take(8)) == stored_as(a),
    ensures
        encoded_property(ValueType::Int64, p) == Some(encoded(ValueView::Int64(a))),
        encoded(ValueView::Int64(a)) == seq![2u8] + be_bytes(
            (a + 0x8000_0000_0000_0000) as nat,
            8,
        ),
{
    broadcast use be_bytes_len;

    assert(property_value(ValueType::Int64, p) == Some(ValueView::Int64(a)));
}

/// A stored integer is encoded as itself: two integers have one encoding only if they are
/// equal, and their encodings compare as they do. An integer is stored as its two's
/// complement in eight bytes, the highest first, and encoded as its distance from the
/// least integer.
pub proof fn law_int_property(a: i64, p: Seq<u8>, b: i64, q: Seq<u8>)
    requires
        p.len() >= 8,
        be_value(p.take(8)) == (if a < 0 {
            a + 0x1_0000_0000_0000_0000
        } else {
            a as int
        }),
        q.len() >= 8,
        be_value(q.take(8)) == (if b < 0 {
            b + 0x1_0000_0000_0000_0000
        } else {
            b as int
        }),
    ensures
        encoded_property(ValueType::Int64, p) == Some(encoded(ValueView::Int64(a))),
        encoded_property(ValueType::Int64, p) == Some(
            seq![2u8] + be_bytes((a + 0x8000_0000_0000_0000) as nat, 8),
        ),
        encoded_property(ValueType::Int64, p) == encoded_property(ValueType::Int64, q) <==> a == b,
        lex_lt(
            encoded_property(ValueType::Int64, p)->0,
            encoded_property(ValueType::Int64, q)->0,
        ) <==> a < b,
{
    lemma_int_property(a, p);
    lemma_int_property(b, q);
    law_encoded_order(ValueView::Int64(a), ValueView::Int64(b));
    law_encoded_order(ValueView::Int64(b), ValueView::Int64(a));
    if encoded(ValueView::Int64(a)) == encoded(ValueView::Int64(b)) {
        law_encoded_injective(ValueView::Int64(a), ValueView::Int64(b));
    }
}

/// A stored truth value is encoded by whether its first byte is 0, and false comes before
/// true.
pub proof fn law_bool_property(p: Seq<u8>)
    ensures
        encoded_property(ValueType::Null, p) == Some(seq![0u8]),
        encoded_property(ValueType::Bool, p) == (if p.len() == 0 {
            None
        } else if p[0] == 0 {
            Some(seq![1u8, 0u8])
        } else {
            Some(seq![1u8, 1u8])
        }),
{
    assert(encoded(ValueView::Null) =~= seq![0u8]);
    assert(encoded(ValueView::Bool(false)) =~= seq![1u8, 0u8]);
    assert(encoded(ValueView::Bool(true)) =~= seq![1u8, 1u8]);
}

/// Stored floats that are numbers have one encoding only if their bits are equal, and the
/// encodings compare as the floats do: the negative ones by falling magnitude, then the
/// positive ones by rising magnitude, with the negative zero just before the positive one.
pub proof fn law_float_property(p: Seq<u8>, q: Seq<u8>)
    requires
        p.len() >= 8,
        q.len() >= 8,
        be_value(p.take(8)) % 0x8000_0000_0000_0000 <= 0x7FF0_0000_0000_0000,
        be_value(q.take(8)) % 0x8000_0000_0000_0000 <= 0x7FF0_0000_0000_0000,
    ensures
        encoded_property(ValueType::Float64, p) is Some,
        ({
            let x = be_value(p.take(8));
            let y = be_value(q.take(8));
            let a = encoded_property(ValueType::Float64, p)->0;
            let b = encoded_property(ValueType::Float64, q)->0;
            &&& a == seq![3u8] + be_bytes(
                if x < 0x8000_0000_0000_0000 {
                    (x + 0x8000_0000_0000_0000) as nat
                } else {
                    (0xFFFF_FFFF_FFFF_FFFF - x) as nat
                },
                8,
            )
            &&& a == b <==> x == y
            &&& lex_lt(a, b) <==> (if x >= 0x8000_0000_0000_0000 {
                y < 0x8000_0000_0000_0000 || y < x
            } else {
                y < 0x8000_0000_0000_0000 && x < y
            })
        }),
{
    broadcast use be_bytes_len;

    lemma_pow256_sizes();
    lemma_be_value_roundtrip(p.take(8));
    lemma_be_value_roundtrip(q.take(8));
    let v = property_value(ValueType::Float64, p)->0;
    let w = property_value(ValueType::Float64, q)->0;
    law_float_order(be_value(p.take(8)) as u64, be_value(q.take(8)) as u64);
    law_encoded_order(v, w);
    law_encoded_order(w, v);
    if encoded(v) == encoded(w) {
        law_encoded_injective(v, w);
    }
}

/// Stored texts, lists and values by name are encoded whole, each kind under a tag of its
/// own: within a kind the encodings are equal only for equal payloads and compare as they
/// do.
pub proof fn law_bytes_property(value_type: ValueType, p: Seq<u8>, q: Seq<u8>)
    requires
        value_type == ValueType::String || value_type == ValueType::List || value_type
            == ValueType::Dict,
        encoded_property(value_type, p) is Some,
        encoded_property(value_type, q) is Some,
    ensures
        encoded_property(value_type, p)->0[0] == (if value_type == ValueType::String {
            4int
        } else if value_type == ValueType::List {
            5
        } else {
            6
        }),
        encoded_property(value_type, p) == encoded_property(value_type, q) <==> p == q,
        lex_le(encoded_property(value_type, p)->0, encoded_property(value_type, q)->0) == lex_le(
            p,
            q,
        ),
{
    let v = property_value(value_type, p)->0;
    let w = property_value(value_type, q)->0;
    law_encoded_order(v, w);
    if encoded(v) == encoded(w) {
        law_encoded_injective(v, w);
    }
}

/// How long an encoding is: a byte that is 00 or FF takes two, any other one, and the tag
/// and the end one each. An encoding of up to 512 bytes is kept, a longer one is refused.
pub proof fn law_bytes_property_fits(value_type: ValueType, p: Seq<u8>)
    requires
        value_type == ValueType::String || value_type == ValueType::List || value_type
            == ValueType::Dict,
    ensures
        ({
            let doubled = p.filter(|b: u8| b == 0x00 || b == 0xFF).len();
            &&& encoded_property(value_type, p) is Some <==> p.len() + doubled + 2 <= 512
            &&& encoded_property(value_type, p) matches Some(bytes) ==> bytes.len() == p.len()
                + doubled + 2
        }),
        p.len() <= 255 ==> encoded_property(value_type, p) is Some,
        p.len() > 510 ==> encoded_property(value_type, p) is None,
{
    lemma_escaped_count(p);
    p.lemma_filter_len(|b: u8| b == 0x00 || b == 0xFF);
}

proof fn lemma_escaped_count(s: Seq<u8>)
    ensures
        escaped(s).len() == s.len() + s.filter(|b: u8| b == 0x00 || b == 0xFF).len(),
    decreases s.len(),
{
    reveal(Seq::filter);
    if s.len() > 0 {
        lemma_escaped_count(s.drop_last());
        lemma_escaped_push(s.drop_last(), s.last());
        assert(s.drop_last().push(s.last()) =~= s);
    }
}

/// What the escaped form of a string is made of: the bytes in order, a 00 with an FF behind
/// it and an FF with a 00 behind it.
pub proof fn law_escaped_bytes(a: Seq<u8>, b: u8)
    ensures
        escaped(Seq::<u8>::empty()).len() == 0,
        escaped(a.push(b)) == (if b == 0x00 {
            escaped(a).push(0x00).push(0xFF)
        } else if b == 0xFF {
            escaped(a).push(0xFF).push(0x00)
        } else {
            escaped(a).push(b)
        }),
{
    lemma_escaped_push(a, b);
}

/// Kinds of values are ordered: null, truth values, integers, floats, texts, lists, values
/// by name.
pub proof fn law_kinds_in_order(t: ValueType, p: Seq<u8>, u: ValueType, q: Seq<u8>)
    requires
        t.spec_code() < u.spec_code(),
        encoded_property(t, p) is Some,
        encoded_property(u, q) is Some,
    ensures
        lex_lt(encoded_property(t, p)->0, encoded_property(u, q)->0),
        encoded_property(t, p)->0[0] == t.spec_code(),
        encoded_property(u, q)->0[0] == u.spec_code(),
{
    let v = property_value(t, p)->0;
    let w = property_value(u, q)->0;
    law_encoded_order(v, w);
    law_encoded_order(w, v);
}

/// The encoding of every NaN.
pub open spec fn nan_encoding() -> Seq<u8> {
    seq![3u8, 0xFF, 0xF8, 0, 0, 0, 0, 0, 0]
}

/// All NaNs have one encoding, whatever their sign and payload, and it comes after
/// that of every other float, infinity among them.
pub proof fn law_nan_is_last_float(nan: Seq<u8>, other: Seq<u8>)
    requires
        nan.len() >= 8,
        is_nan_bits(be_value(nan.take(8)) as u64),
        other.len() >= 8,
        !is_nan_bits(be_value(other.take(8)) as u64),
    ensures
        encoded_property(ValueType::Float64, nan) == Some(nan_encoding()),
        encoded_property(ValueType::Float64, other) is Some,
        lex_lt(encoded_property(ValueType::Float64, other)->0, nan_encoding()),
{
    broadcast use be_bytes_len;

    lemma_nan_encoding();
    let v = property_value(ValueType::Float64, nan)->0;
    let w = property_value(ValueType::Float64, other)->0;
    law_encoded_order(v, w);
    law_encoded_order(w, v);
}

/// The encoding of the NaN that stands for all.
proof fn lemma_nan_encoding()
    ensures
        encoded(ValueView::Float64(float_rank(0x7FF8_0000_0000_0000) as u64)) == nan_encoding(),
{
    let s = seq![0xFFu8, 0xF8, 0, 0, 0, 0, 0, 0];
    assert(be_value(s) == 0xFFF8_0000_0000_0000) by {
        reveal_with_fuel(be_value, 9);
        assert(s.drop_last() =~= seq![0xFFu8, 0xF8, 0, 0, 0, 0, 0]);
        assert(s.drop_last().drop_last() =~= seq![0xFFu8, 0xF8, 0, 0, 0, 0]);
        assert(seq![0xFFu8, 0xF8, 0, 0, 0, 0].drop_last() =~= seq![0xFFu8, 0xF8, 0, 0, 0]);
        assert(seq![0xFFu8, 0xF8, 0, 0, 0].drop_last() =~= seq![0xFFu8, 0xF8, 0, 0]);
        assert(seq![0xFFu8, 0xF8, 0, 0].drop_last() =~= seq![0xFFu8, 0xF8, 0]);
        assert(seq![0xFFu8, 0xF8, 0].drop_last() =~= seq![0xFFu8, 0xF8]);
        assert(seq![0xFFu8, 0xF8].drop_last() =~= seq![0xFFu8]);
        assert(seq![0xFFu8].drop_last() =~= Seq::<u8>::empty());
    }
    lemma_be_value_roundtrip(s);
    assert(seq![3u8] + s =~= nan_encoding());
}

/// The encoding of a stored property; `None` where the payload is too short for
/// its kind or the encoding is too long. All NaNs have one encoding.
pub fn encode_property_value(value_type: ValueType, payload: &[u8]) -> (r: Option<Vec<u8>>)
    ensures
        match r {
            Some(bytes) => encoded_property(value_type, payload@) == Some(bytes@),
            None => encoded_property(value_type, payload@) is None,
        },
        value_type == ValueType::Float64 && payload@.len() >= 8 && is_nan_bits(
            be_value(payload@.take(8)) as u64,
        ) ==> (r matches Some(bytes) && bytes@ == nan_encoding()),
{
    proof {
        lemma_pow256_sizes();
        lemma_nan_encoding();
    }
    let value = match value_type {
        ValueType::Null => Value::Null,
        ValueType::Bool => {
            if payload.len() == 0 {
                return None;
            }
            Value::Bool(payload[0] != 0)
        },
        ValueType::Int64 => {
            if payload.len() < 8 {
                return None;
            }
            let head = slice_subrange(payload, 0, 8);
            assert(head@ =~= payload@.take(8));
            Value::Int64(from_two_complement(read_be(head) as u64))
        },
        ValueType::Float64 => {
            if payload.len() < 8 {
                return None;
            }
            let head = slice_subrange(payload, 0, 8);
            assert(head@ =~= payload@.take(8));
            Value::from_f64_bits(read_be(head) as u64)
        },
        ValueType::String => Value::String(whole_copy(payload)),
        ValueType::List => Value::List(whole_copy(payload)),
        ValueType::Dict => Value::Dict(whole_copy(payload)),
    };
    assert(property_value(value_type, payload@) == Some(value@));
    let mut buf: Vec<u8> = Vec::new();
    match encode(&value, &mut buf) {
        Some(_n) => {
            assert(buf@ =~= encoded(value@));
            Some(buf)
        },
        None => None,
    }
}

fn whole_copy(s: &[u8]) -> (r: Vec<u8>)
    ensures
        r@ == s@,
{
    let r = copy_range(s, 0, s.len());
    assert(r@ =~= s@);
    r
}

} // verus!
