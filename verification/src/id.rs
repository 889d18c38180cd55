//! Identifiers of sixteen bytes that rise with time.

use vstd::prelude::*;
use vstd::string::StringExecFns;

use crate::bytes::be_bytes;
use crate::bytes::be_bytes_len;
use crate::bytes::be_value;
use crate::bytes::law_endian;
use crate::bytes::le_bytes;
use crate::bytes::le_bytes_len;
use crate::bytes::le_value;
use crate::bytes::lemma_be_order;
use crate::bytes::lemma_be_value_roundtrip;
use crate::bytes::lemma_le_roundtrip;
use crate::bytes::lemma_pow256_sizes;
use crate::bytes::lex_le;
use crate::bytes::push_be;
use crate::bytes::read_be;
use crate::error::RGraphError;

verus! {

/// An identifier.
#[derive(Debug, Clone, Copy, PartialEq, Eq, PartialOrd, Ord, Hash)]
pub struct Id {
    pub bytes: [u8; 16],
}

/// The digit for a number below sixteen.
pub open spec fn hex_digit(d: int) -> char {
    seq!['0', '1', '2', '3', '4', '5', '6', '7', '8', '9', 'a', 'b', 'c', 'd', 'e', 'f'][d]
}

/// Some bytes in hexadecimal digits.
pub open spec fn hex(bytes: Seq<u8>) -> Seq<char> {
    Seq::new(
        2 * bytes.len(),
        |i: int|
            if i % 2 == 0 {
                hex_digit(bytes[i / 2] as int / 16)
            } else {
                hex_digit(bytes[i / 2] as int % 16)
            },
    )
}

/// The text of an identifier: its bytes in hexadecimal digits, in five groups.
pub open spec fn id_text(b: Seq<u8>) -> Seq<char> {
    hex(b.subrange(0, 4)) + seq!['-'] + hex(b.subrange(4, 6)) + seq!['-'] + hex(b.subrange(6, 8))
        + seq!['-'] + hex(b.subrange(8, 10)) + seq!['-'] + hex(b.subrange(10, 16))
}

/// New bytes of a UUID of version 7.
///
/// Calls `uuid::Uuid::now_v7`. What is taken on trust: the bytes carry the version
/// and the variant. The others come from the clock and a random source, and nothing
/// is said of them; that later bytes are larger rests on the clock and on what the
/// process has made before.
#[verifier::external_body]
fn fresh_uuid() -> (r: [u8; 16])
    ensures
        r@[6] / 16 == 7,
        r@[8] / 64 == 2,
{
    *uuid::Uuid::now_v7().as_bytes()
}

/// The bytes of the UUID made of some bytes.
///
/// Calls `uuid::Uuid::from_slice`. What is taken on trust: it takes sixteen bytes as
/// they are, and fails on any other number of bytes.
#[verifier::external_body]
fn uuid_of(bytes: &[u8]) -> (r: Option<[u8; 16]>)
    ensures
        match r {
            Some(b) => bytes@.len() == 16 && b@ == bytes@,
            None => bytes@.len() != 16,
        },
{
    uuid::Uuid::from_slice(bytes).ok().map(|u| *u.as_bytes())
}

/// The text of a UUID.
///
/// Calls `to_string` of `uuid::Uuid`. What is taken on trust: it is the lower-case
/// hexadecimal form with hyphens.
#[verifier::external_body]
fn uuid_text(bytes: [u8; 16]) -> (r: String)
    ensures
        r@ == id_text(bytes@),
{
    uuid::Uuid::from_bytes(bytes).to_string()
}

/// A number in the wire format.
///
/// Calls `bincode::serialize`. What is taken on trust: it writes the sixteen bytes of
/// the number, the lowest first, and does not fail.
#[verifier::external_body]
fn write_u128(v: u128) -> (r: Result<Vec<u8>, String>)
    ensures
        r is Ok,
        r->Ok_0@ == le_bytes(v as nat, 16),
{
    bincode::serialize(&v).map_err(|e| e.to_string())
}

/// The number at the front of some bytes in the wire format.
///
/// Calls `bincode::deserialize`. What is taken on trust: it reads a number from the
/// first sixteen bytes, the lowest first, whatever follows them, and fails where there
/// are fewer. Nothing is said of the text of the error.
#[verifier::external_body]
fn read_u128(bytes: &[u8]) -> (r: Result<u128, String>)
    ensures
        match r {
            Ok(v) => bytes@.len() >= 16 && v == le_value(bytes@.take(16)),
            Err(_) => bytes@.len() < 16,
        },
{
    bincode::deserialize(bytes).map_err(|e| e.to_string())
}

impl View for Id {
    type V = Seq<u8>;

    open spec fn view(&self) -> Seq<u8> {
        self.bytes@
    }
}

/// The bytes that an identifier is sent as.
pub open spec fn wire_bytes(id: Seq<u8>) -> Seq<u8> {
    le_bytes(be_value(id), 16)
}

/// The identifier that was sent as these bytes.
pub open spec fn wire_id(bytes: Seq<u8>) -> Seq<u8> {
    be_bytes(le_value(bytes.take(16)), 16)
}

/// What the message of a failed [`Id::decode`] starts with.
pub open spec fn decode_prefix() -> Seq<char> {
    "id decode failed: "@
}

/// An identifier is what it was sent as.
pub proof fn law_wire_roundtrip(id: Seq<u8>)
    requires
        id.len() == 16,
    ensures
        wire_bytes(id).len() == 16,
        wire_id(wire_bytes(id)) == id,
{
    broadcast use le_bytes_len;

    lemma_pow256_sizes();
    lemma_be_value_roundtrip(id);
    lemma_le_roundtrip(be_value(id), 16);
    assert(wire_bytes(id).take(16) =~= wire_bytes(id));
}

/// An identifier is sent with its last byte first.
pub proof fn law_wire_is_reversed(id: Seq<u8>)
    requires
        id.len() == 16,
    ensures
        wire_bytes(id) == id.reverse(),
        wire_id(id) == id.reverse(),
{
    lemma_be_value_roundtrip(id);
    law_endian(be_value(id), 16, id);
    lemma_be_value_roundtrip(id.reverse());
    assert(id.take(16) =~= id);
}

/// The text of an identifier has two digits for each byte, the higher one first, and dashes
/// behind the fourth, sixth, eighth and tenth byte.
pub proof fn law_text(b: Seq<u8>, i: int)
    requires
        b.len() == 16,
        0 <= i < 16,
    ensures
        ({
            let text = id_text(b);
            let at = 2 * i + (if i < 4 {
                0int
            } else if i < 6 {
                1
            } else if i < 8 {
                2
            } else if i < 10 {
                3
            } else {
                4
            });
            &&& text.len() == 36
            &&& text[8] == '-' && text[13] == '-' && text[18] == '-' && text[23] == '-'
            &&& text[at] as int == (if b[i] / 16 < 10 {
                48 + b[i] / 16
            } else {
                87 + b[i] / 16
            })
            &&& text[at + 1] as int == (if b[i] % 16 < 10 {
                48 + b[i] % 16
            } else {
                87 + b[i] % 16
            })
        }),
{
}

/// An identifier is made of the number it stands for.
pub proof fn law_number_roundtrip(id: Seq<u8>)
    requires
        id.len() == 16,
    ensures
        be_bytes(be_value(id), 16) == id,
{
    lemma_be_value_roundtrip(id);
}

/// Identifiers are ordered as the numbers they stand for.
pub proof fn law_order_is_numeric(a: Seq<u8>, b: Seq<u8>)
    requires
        a.len() == 16,
        b.len() == 16,
    ensures
        lex_le(a, b) == (be_value(a) <= be_value(b)),
{
    lemma_be_value_roundtrip(a);
    lemma_be_value_roundtrip(b);
    lemma_be_order(be_value(a), be_value(b), 16);
}

impl Id {
    /// A new identifier.
    pub fn new() -> (r: Self)
        ensures
            r@.len() == 16,
            r@[6] / 16 == 7,
            r@[8] / 64 == 2,
    {
        Id { bytes: fresh_uuid() }
    }

    /// The identifier with these bytes.
    pub fn from_bytes(bytes: [u8; 16]) -> (r: Result<Self, RGraphError>)
        ensures
            r is Ok,
            r->Ok_0@ == bytes@,
    {
        Self::from_slice(bytes.as_slice())
    }

    /// The identifier with these bytes, of which there must be sixteen.
    fn from_slice(bytes: &[u8]) -> (r: Result<Self, RGraphError>)
        ensures
            match r {
                Ok(id) => bytes@.len() == 16 && id@ == bytes@,
                Err(RGraphError::Argument(message)) => bytes@.len() != 16
                    && message@ == "invalid id bytes"@,
                Err(_) => false,
            },
    {
        match uuid_of(bytes) {
            Some(bytes) => Ok(Id { bytes }),
            None => Err(RGraphError::Argument("invalid id bytes".to_owned())),
        }
    }

    /// The bytes of the identifier.
    pub fn to_bytes(&self) -> (r: [u8; 16])
        ensures
            r@ == self@,
    {
        self.bytes
    }

    /// The identifier as a number.
    pub fn to_u128(&self) -> (r: u128)
        ensures
            r == be_value(self@),
    {
        read_be(self.bytes.as_slice())
    }

    /// The bytes that the identifier is sent as.
    pub fn encode(&self) -> (r: Result<Vec<u8>, RGraphError>)
        ensures
            r is Ok,
            r->Ok_0@ == wire_bytes(self@),
    {
        match write_u128(self.to_u128()) {
            Ok(bytes) => Ok(bytes),
            Err(text) => {
                let mut message = "id encode failed: ".to_owned();
                message.append(text.as_str());
                Err(RGraphError::Argument(message))
            },
        }
    }

    /// The identifier that was sent as these bytes.
    pub fn decode(buf: &[u8]) -> (r: Result<Self, RGraphError>)
        ensures
            match r {
                Ok(id) => buf@.len() >= 16 && id@ == wire_id(buf@),
                Err(RGraphError::Argument(message)) => buf@.len() < 16
                    && decode_prefix().is_prefix_of(message@),
                Err(_) => false,
            },
    {
        match read_u128(buf) {
            Ok(v) => {
                broadcast use be_bytes_len;

                let mut bytes: Vec<u8> = Vec::new();
                push_be(&mut bytes, v, 16);
                assert(bytes@ =~= wire_id(buf@));
                Self::from_slice(bytes.as_slice())
            },
            Err(text) => {
                let mut message = "id decode failed: ".to_owned();
                message.append(text.as_str());
                assert(message@.take(decode_prefix().len() as int) =~= decode_prefix());
                Err(RGraphError::Argument(message))
            },
        }
    }

    /// The text of the identifier.
    pub fn text(&self) -> (r: String)
        ensures
            r@ == id_text(self@),
    {
        uuid_text(self.bytes)
    }
}

impl Default for Id {
    fn default() -> (r: Self)
        ensures
            r@.len() == 16,
            r@[6] / 16 == 7,
            r@[8] / 64 == 2,
    {
        Id::new()
    }
}

} // verus!
