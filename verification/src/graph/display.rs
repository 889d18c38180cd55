//! Property values as text.
//!
//! How a float is written is left to who puts the text together: the pieces of a
//! text are texts and floats.

use vstd::prelude::*;
use vstd::string::StringExecFns;

use crate::graph::float::OrderedF64;
use crate::graph::property::Property;
use crate::graph::property::PropertyModel;

verus! {

/// A piece of the text of a value.
#[derive(Debug, PartialEq, Eq)]
pub enum Piece {
    Text(String),
    Float(OrderedF64),
}

/// One sign of the text of a value: a char, or a float that is still to be written.
pub enum Sign {
    Char(char),
    Float(OrderedF64),
}

/// The signs of a text.
pub open spec fn letters(s: Seq<char>) -> Seq<Sign> {
    s.map_values(|c: char| Sign::Char(c))
}

/// The signs of a piece.
pub open spec fn piece_signs(p: Piece) -> Seq<Sign> {
    match p {
        Piece::Text(s) => letters(s@),
        Piece::Float(f) => seq![Sign::Float(f)],
    }
}

/// The signs of some pieces.
pub open spec fn signs(pieces: Seq<Piece>) -> Seq<Sign>
    decreases pieces.len(),
{
    if pieces.len() == 0 {
        Seq::empty()
    } else {
        signs(pieces.drop_last()) + piece_signs(pieces.last())
    }
}

// ---------------------------------------------------------------------------
// Decimal numbers
// ---------------------------------------------------------------------------

/// The digit for a number below ten.
pub open spec fn digit(d: nat) -> char {
    if d == 0 {
        '0'
    } else if d == 1 {
        '1'
    } else if d == 2 {
        '2'
    } else if d == 3 {
        '3'
    } else if d == 4 {
        '4'
    } else if d == 5 {
        '5'
    } else if d == 6 {
        '6'
    } else if d == 7 {
        '7'
    } else if d == 8 {
        '8'
    } else {
        '9'
    }
}

/// A number in decimal digits.
pub open spec fn decimal(n: nat) -> Seq<char>
    decreases n,
{
    if n < 10 {
        seq![digit(n)]
    } else {
        decimal(n / 10).push(digit(n % 10))
    }
}

/// An integer in decimal digits, with a sign where it is negative.
pub open spec fn integer_text(v: int) -> Seq<char> {
    if v < 0 {
        seq!['-'] + decimal((-v) as nat)
    } else {
        decimal(v as nat)
    }
}

fn digit_text(d: u64) -> (r: &'static str)
    requires
        d < 10,
    ensures
        r@ == seq![digit(d as nat)],
{
    proof {
        reveal_strlit("0");
        reveal_strlit("1");
        reveal_strlit("2");
        reveal_strlit("3");
        reveal_strlit("4");
        reveal_strlit("5");
        reveal_strlit("6");
        reveal_strlit("7");
        reveal_strlit("8");
        reveal_strlit("9");
    }
    let r = if d == 0 {
        "0"
    } else if d == 1 {
        "1"
    } else if d == 2 {
        "2"
    } else if d == 3 {
        "3"
    } else if d == 4 {
        "4"
    } else if d == 5 {
        "5"
    } else if d == 6 {
        "6"
    } else if d == 7 {
        "7"
    } else if d == 8 {
        "8"
    } else {
        "9"
    };
    assert(r@ =~= seq![digit(d as nat)]);
    r
}

/// A number in decimal digits.
pub fn decimal_text(n: u64) -> (r: String)
    ensures
        r@ == decimal(n as nat),
    decreases n,
{
    if n < 10 {
        let mut s = String::new();
        s.append(digit_text(n));
        assert(s@ =~= decimal(n as nat));
        return s;
    }
    let mut s = decimal_text(n / 10);
    let ghost head = s@;
    s.append(digit_text(n % 10));
    assert(s@ =~= head.push(digit((n % 10) as nat)));
    s
}

/// An integer in decimal digits, with a sign where it is negative.
pub fn signed_text(v: i64) -> (r: String)
    ensures
        r@ == integer_text(v as int),
{
    if v < 0 {
        proof {
            reveal_strlit("-");
        }
        let mut s = String::new();
        s.append("-");
        let digits = decimal_text((-(v as i128)) as u64);
        s.append(digits.as_str());
        assert(s@ =~= integer_text(v as int));
        s
    } else {
        decimal_text(v as u64)
    }
}

// ---------------------------------------------------------------------------
// Values
// ---------------------------------------------------------------------------

/// The text of a value.
pub open spec fn display(m: PropertyModel) -> Seq<Sign>
    decreases m, 0nat,
{
    match m {
        PropertyModel::Null => letters("NULL"@),
        PropertyModel::Integer(v) => letters(integer_text(v as int)),
        PropertyModel::Float(f) => seq![Sign::Float(f)],
        PropertyModel::String(s) => letters("'"@) + letters(s) + letters("'"@),
        PropertyModel::Boolean(b) => if b {
            letters("true"@)
        } else {
            letters("false"@)
        },
        PropertyModel::Date(v) => letters("date("@) + letters(integer_text(v as int)) + letters(
            ")"@,
        ),
        PropertyModel::Duration(v) => letters("duration("@) + letters(integer_text(v as int))
            + letters(")"@),
        PropertyModel::Point { srid, x, y, z } => {
            let flat = letters("point({srid:"@) + letters(decimal(srid as nat)) + letters(", x:"@)
                + seq![Sign::Float(x)] + letters(", y:"@) + seq![Sign::Float(y)];
            match z {
                Some(z) => flat + letters(", z:"@) + seq![Sign::Float(z)] + letters("})"@),
                None => flat + letters("})"@),
            }
        },
        PropertyModel::List(items) => letters("["@) + display_items(items, items.len()) + letters(
            "]"@,
        ),
        PropertyModel::Dict(entries) => letters("{"@) + display_entries(entries, entries.len())
            + letters("}"@),
    }
}

/// The text of the first `n` values of a list.
pub open spec fn display_items(items: Seq<PropertyModel>, n: nat) -> Seq<Sign>
    decreases items, n,
{
    if n == 0 || n > items.len() {
        Seq::empty()
    } else if n == 1 {
        display(items[0])
    } else {
        display_items(items, (n - 1) as nat) + letters(", "@) + display(items[n - 1])
    }
}

/// The text of the first `n` values with names.
pub open spec fn display_entries(entries: Seq<(Seq<char>, PropertyModel)>, n: nat) -> Seq<Sign>
    decreases entries, n,
{
    if n == 0 || n > entries.len() {
        Seq::empty()
    } else {
        let entry = letters(entries[n - 1].0) + letters(": "@) + display(entries[n - 1].1);
        if n == 1 {
            entry
        } else {
            display_entries(entries, (n - 1) as nat) + letters(", "@) + entry
        }
    }
}

/// The number that decimal digits stand for.
pub open spec fn decimal_value(s: Seq<char>) -> int
    decreases s.len(),
{
    if s.len() == 0 {
        0
    } else {
        decimal_value(s.drop_last()) * 10 + (s.last() as int - '0' as int)
    }
}

/// The decimal digits of a number are digits, stand for the number, and start with a 0 only
/// if they are that one digit. So different numbers have different digits.
pub proof fn law_decimal_digits(n: nat)
    ensures
        decimal_value(decimal(n)) == n,
        decimal(n).len() >= 1,
        forall|i: int|
            0 <= i < decimal(n).len() ==> '0' as int <= #[trigger] decimal(n)[i] as int <= '9' as int,
        n > 0 ==> decimal(n)[0] != '0',
    decreases n,
{
    if n < 10 {
        reveal_with_fuel(decimal_value, 2);
        assert(seq![digit(n)].drop_last() =~= Seq::<char>::empty());
    } else {
        law_decimal_digits(n / 10);
        assert(decimal(n).drop_last() =~= decimal(n / 10));
        assert(decimal(n)[0] == decimal(n / 10)[0]);
        assert forall|i: int| 0 <= i < decimal(n).len() implies '0' as int
            <= #[trigger] decimal(n)[i] as int <= '9' as int by {
            if i < decimal(n / 10).len() {
                assert(decimal(n)[i] == decimal(n / 10)[i]);
            }
        }
    }
}

/// A negative integer is written as its magnitude behind a minus.
pub proof fn law_integer_text(v: int)
    ensures
        v >= 0 ==> integer_text(v) == decimal(v as nat),
        v < 0 ==> integer_text(v)[0] == '-' && integer_text(v).skip(1) == decimal((-v) as nat),
{
    if v < 0 {
        assert(integer_text(v).skip(1) =~= decimal((-v) as nat));
    }
}

/// How the simple values are written.
pub proof fn law_simple_text(m: PropertyModel)
    ensures
        m is Null ==> display(m) == letters("NULL"@),
        m matches PropertyModel::Boolean(b) ==> display(m) == (if b {
            letters("true"@)
        } else {
            letters("false"@)
        }),
        m matches PropertyModel::Integer(v) ==> display(m) == letters(integer_text(v as int)),
        m matches PropertyModel::Float(f) ==> display(m) == seq![Sign::Float(f)],
        m matches PropertyModel::String(t) ==> display(m) == letters("'"@) + letters(t) + letters(
            "'"@,
        ),
        m matches PropertyModel::Date(v) ==> display(m) == letters("date("@) + letters(
            integer_text(v as int),
        ) + letters(")"@),
        m matches PropertyModel::Duration(v) ==> display(m) == letters("duration("@) + letters(
            integer_text(v as int),
        ) + letters(")"@),
{
}

/// How a point is written: its reference system, then its coordinates, the third only if
/// there is one.
pub proof fn law_point_text(srid: u32, x: OrderedF64, y: OrderedF64, z: OrderedF64)
    ensures
        ({
            let front = letters("point({srid:"@) + letters(decimal(srid as nat)) + letters(", x:"@)
                + seq![Sign::Float(x)] + letters(", y:"@) + seq![Sign::Float(y)];
            &&& display(PropertyModel::Point { srid, x, y, z: None }) == front + letters("})"@)
            &&& display(PropertyModel::Point { srid, x, y, z: Some(z) }) == front + letters(", z:"@)
                + seq![Sign::Float(z)] + letters("})"@)
        }),
{
}

/// A list is written as its values between brackets, and properties by name as names and
/// values between braces, with a comma and a space between two of them.
pub proof fn law_composite_text(
    items: Seq<PropertyModel>,
    entries: Seq<(Seq<char>, PropertyModel)>,
    n: nat,
)
    ensures
        display(PropertyModel::List(items)) == letters("["@) + display_items(items, items.len())
            + letters("]"@),
        display_items(items, 0).len() == 0,
        items.len() >= 1 ==> display_items(items, 1) == display(items[0]),
        1 <= n < items.len() ==> display_items(items, n + 1) == display_items(items, n) + letters(
            ", "@,
        ) + display(items[n as int]),
        display(PropertyModel::Dict(entries)) == letters("{"@) + display_entries(
            entries,
            entries.len(),
        ) + letters("}"@),
        display_entries(entries, 0).len() == 0,
        entries.len() >= 1 ==> display_entries(entries, 1) == letters(entries[0].0) + letters(
            ": "@,
        ) + display(entries[0].1),
        1 <= n < entries.len() ==> display_entries(entries, n + 1) == display_entries(entries, n)
            + letters(", "@) + (letters(entries[n as int].0) + letters(": "@) + display(
            entries[n as int].1,
        )),
{
}

proof fn lemma_signs_push(pieces: Seq<Piece>, p: Piece)
    ensures
        signs(pieces.push(p)) == signs(pieces) + piece_signs(p),
{
    assert(pieces.push(p).drop_last() =~= pieces);
}

fn push_text(out: &mut Vec<Piece>, s: &str)
    ensures
        signs(final(out)@) == signs(old(out)@) + letters(s@),
{
    let text = s.to_owned();
    proof {
        lemma_signs_push(out@, Piece::Text(text));
    }
    out.push(Piece::Text(text));
}

fn push_float(out: &mut Vec<Piece>, f: OrderedF64)
    ensures
        signs(final(out)@) == signs(old(out)@) + seq![Sign::Float(f)],
{
    proof {
        lemma_signs_push(out@, Piece::Float(f));
    }
    out.push(Piece::Float(f));
}

impl Property {
    /// The pieces of the text of the value.
    pub fn pieces(&self) -> (r: Vec<Piece>)
        ensures
            signs(r@) == display(self.model()),
    {
        let mut out: Vec<Piece> = Vec::new();
        self.write_pieces(&mut out);
        assert(signs(out@) =~= display(self.model()));
        out
    }

    /// Adds the pieces of the text of the value.
    fn write_pieces(&self, out: &mut Vec<Piece>)
        ensures
            signs(final(out)@) == signs(old(out)@) + display(self.model()),
        decreases self,
    {
        let ghost start = signs(out@);
        match self {
            Property::Null => push_text(out, "NULL"),
            Property::Integer(v) => push_text(out, signed_text(*v).as_str()),
            Property::Float(f) => push_float(out, *f),
            Property::String(s) => {
                push_text(out, "'");
                push_text(out, s.as_str());
                push_text(out, "'");
            },
            Property::Boolean(b) => {
                if *b {
                    push_text(out, "true");
                } else {
                    push_text(out, "false");
                }
            },
            Property::Date(v) => {
                push_text(out, "date(");
                push_text(out, signed_text(*v).as_str());
                push_text(out, ")");
            },
            Property::Duration(v) => {
                push_text(out, "duration(");
                push_text(out, signed_text(*v).as_str());
                push_text(out, ")");
            },
            Property::Point { srid, x, y, z } => {
                push_text(out, "point({srid:");
                push_text(out, decimal_text(*srid as u64).as_str());
                push_text(out, ", x:");
                push_float(out, *x);
                push_text(out, ", y:");
                push_float(out, *y);
                if let Some(z) = z {
                    push_text(out, ", z:");
                    push_float(out, *z);
                }
                push_text(out, "})");
            },
            Property::List(items) => {
                push_text(out, "[");
                let ghost opened = signs(out@);
                let ghost models = self.model()->List_0;
                let mut i: usize = 0;
                assert(opened + display_items(models, 0) =~= opened);
                while i < items.len()
                    invariant
                        *self == Property::List(*items),
                        models == self.model()->List_0,
                        i <= items@.len(),
                        signs(out@) == opened + display_items(models, i as nat),
                    decreases items@.len() - i,
                {
                    let ghost before = signs(out@);
                    if i > 0 {
                        push_text(out, ", ");
                    }
                    items[i].write_pieces(out);
                    assert(models[i as int] == items@[i as int].model());
                    assert(signs(out@) =~= opened + display_items(models, (i + 1) as nat));
                    i += 1;
                }
                push_text(out, "]");
            },
            Property::Dict(map) => {
                push_text(out, "{");
                let ghost opened = signs(out@);
                let ghost models = self.model()->Dict_0;
                let mut i: usize = 0;
                assert(opened + display_entries(models, 0) =~= opened);
                while i < map.entries.len()
                    invariant
                        *self == Property::Dict(*map),
                        models == self.model()->Dict_0,
                        i <= map.entries@.len(),
                        signs(out@) == opened + display_entries(models, i as nat),
                    decreases map.entries@.len() - i,
                {
                    if i > 0 {
                        push_text(out, ", ");
                    }
                    push_text(out, map.entries[i].0.as_str());
                    push_text(out, ": ");
                    map.entries[i].1.write_pieces(out);
                    assert(models[i as int] == (
                        map.entries@[i as int].0@,
                        map.entries@[i as int].1.model(),
                    ));
                    assert(signs(out@) =~= opened + display_entries(models, (i + 1) as nat));
                    i += 1;
                }
                push_text(out, "}");
            },
        }
        assert(signs(out@) =~= start + display(self.model()));
    }
}

} // verus!
