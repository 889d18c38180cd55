//! Floats by their bits.

use std::cmp::Ordering;

use vstd::prelude::*;

verus! {

/// A float by its IEEE 754 bits.
///
/// Two floats are equal as numbers are: a NaN is equal to nothing, and the two
/// zeros are equal. The order is another matter: it is total, see
/// [`OrderedF64::total_cmp`].
#[derive(Debug, Clone, Copy)]
pub struct OrderedF64(pub u64);

/// Are these the bits of a NaN?
pub open spec fn is_nan(bits: u64) -> bool {
    bits & 0x7FF0_0000_0000_0000 == 0x7FF0_0000_0000_0000 && bits & 0x000F_FFFF_FFFF_FFFF != 0
}

/// Are these the bits of a zero?
pub open spec fn is_zero(bits: u64) -> bool {
    bits == 0 || bits == 0x8000_0000_0000_0000
}

/// Do the bits stand for equal numbers?
pub open spec fn float_eq(a: u64, b: u64) -> bool {
    !is_nan(a) && !is_nan(b) && (a == b || (is_zero(a) && is_zero(b)))
}

/// The place of a float in the total order: the negative ones by falling
/// magnitude, down to -0, then the others by rising magnitude, the NaNs, which
/// share one place, last.
pub open spec fn rank(bits: u64) -> int {
    if is_nan(bits) {
        0x1_0000_0000_0000_0000
    } else if bits < 0x8000_0000_0000_0000 {
        bits as int
    } else {
        0x8000_0000_0000_0000 - bits - 1
    }
}

/// Which of two floats comes first in the total order?
pub open spec fn rank_order(a: u64, b: u64) -> Ordering {
    if rank(a) < rank(b) {
        Ordering::Less
    } else if rank(a) == rank(b) {
        Ordering::Equal
    } else {
        Ordering::Greater
    }
}

/// Only NaNs share a place in the total order.
pub proof fn law_order_is_strict(a: u64, b: u64)
    ensures
        rank(a) == rank(b) <==> a == b || (is_nan(a) && is_nan(b)),
{
}

/// What the order is: a negative float comes before a positive one, of two negative ones that
/// with the larger magnitude first, of two positive ones that with the smaller, and a NaN
/// after every number. The magnitude of a float is its bits without the sign, and those of a
/// NaN are above those of infinity.
pub proof fn law_float_order_is_numeric(a: u64, b: u64)
    ensures
        is_nan(a) <==> a % 0x8000_0000_0000_0000 > 0x7FF0_0000_0000_0000,
        !is_nan(a) && is_nan(b) ==> rank_order(a, b) == Ordering::Less && rank_order(b, a)
            == Ordering::Greater,
        is_nan(a) && is_nan(b) ==> rank_order(a, b) == Ordering::Equal,
        !is_nan(a) && !is_nan(b) ==> {
            &&& rank_order(a, b) == Ordering::Less <==> (if a >= 0x8000_0000_0000_0000 {
                b < 0x8000_0000_0000_0000 || b < a
            } else {
                b < 0x8000_0000_0000_0000 && a < b
            })
            &&& rank_order(a, b) == Ordering::Equal <==> a == b
        },
{
    lemma_nan_magnitude(a);
    lemma_nan_magnitude(b);
    law_order_is_strict(a, b);
}

/// Floats are equal if they are the same number: no NaN is equal to anything, the two zeros
/// are equal, and any other number is equal to itself alone.
pub proof fn law_float_equality(a: u64, b: u64)
    ensures
        float_eq(a, b) <==> a % 0x8000_0000_0000_0000 <= 0x7FF0_0000_0000_0000 && b
            % 0x8000_0000_0000_0000 <= 0x7FF0_0000_0000_0000 && (a == b || (a
            % 0x8000_0000_0000_0000 == 0 && b % 0x8000_0000_0000_0000 == 0)),
{
    lemma_nan_magnitude(a);
    lemma_nan_magnitude(b);
}

proof fn lemma_nan_magnitude(a: u64)
    ensures
        is_nan(a) <==> a % 0x8000_0000_0000_0000 > 0x7FF0_0000_0000_0000,
{
    assert((a & 0x7FF0_0000_0000_0000 == 0x7FF0_0000_0000_0000 && a & 0x000F_FFFF_FFFF_FFFF != 0)
        <==> a % 0x8000_0000_0000_0000 > 0x7FF0_0000_0000_0000) by (bit_vector);
}

impl OrderedF64 {
    /// The bits that stand for all NaNs.
    pub const CANONICAL_NAN_BITS: u64 = 0x7FF8_0000_0000_0000;

    /// The bits, with one pattern for all NaNs. Values that hash by these bits hash
    /// alike if they share a place in the total order.
    pub fn canonical_bits(&self) -> (r: u64)
        ensures
            r == (if is_nan(self.0) {
                Self::CANONICAL_NAN_BITS
            } else {
                self.0
            }),
    {
        if self.0 & 0x7FF0_0000_0000_0000 == 0x7FF0_0000_0000_0000 && self.0
            & 0x000F_FFFF_FFFF_FFFF != 0 {
            Self::CANONICAL_NAN_BITS
        } else {
            self.0
        }
    }

    /// Which of two floats comes first in the total order? Negative floats come
    /// before -0, then 0, positive floats and NaN.
    pub fn total_cmp(&self, other: &Self) -> (r: Ordering)
        ensures
            r == rank_order(self.0, other.0),
    {
        let a: u64 = self.canonical_bits();
        let b: u64 = other.canonical_bits();
        proof {
            lemma_canonical_nan();
            law_order_is_strict(self.0, other.0);
            lemma_finite_below_nan(self.0);
            lemma_finite_below_nan(other.0);
        }
        if a == b {
            return Ordering::Equal;
        }
        if a == Self::CANONICAL_NAN_BITS {
            return Ordering::Greater;
        }
        if b == Self::CANONICAL_NAN_BITS {
            return Ordering::Less;
        }
        let a_negative: bool = a >= 0x8000_0000_0000_0000;
        let b_negative: bool = b >= 0x8000_0000_0000_0000;
        if a_negative && b_negative {
            if b < a {
                Ordering::Less
            } else {
                Ordering::Greater
            }
        } else if a_negative {
            Ordering::Less
        } else if b_negative {
            Ordering::Greater
        } else if a < b {
            Ordering::Less
        } else {
            Ordering::Greater
        }
    }
}

proof fn lemma_canonical_nan()
    ensures
        is_nan(0x7FF8_0000_0000_0000),
{
    assert(0x7FF8_0000_0000_0000u64 & 0x7FF0_0000_0000_0000 == 0x7FF0_0000_0000_0000
        && 0x7FF8_0000_0000_0000u64 & 0x000F_FFFF_FFFF_FFFF != 0) by (bit_vector);
}

/// What is no NaN comes before the NaNs.
proof fn lemma_finite_below_nan(bits: u64)
    ensures
        !is_nan(bits) ==> rank(bits) < 0x1_0000_0000_0000_0000 && bits != 0x7FF8_0000_0000_0000,
{
    lemma_canonical_nan();
}

impl PartialEq for OrderedF64 {
    fn eq(&self, other: &Self) -> (r: bool) {
        let a: u64 = self.0;
        let b: u64 = other.0;
        let a_nan: bool = a & 0x7FF0_0000_0000_0000 == 0x7FF0_0000_0000_0000 && a
            & 0x000F_FFFF_FFFF_FFFF != 0;
        let b_nan: bool = b & 0x7FF0_0000_0000_0000 == 0x7FF0_0000_0000_0000 && b
            & 0x000F_FFFF_FFFF_FFFF != 0;
        !a_nan && !b_nan && (a == b || ((a == 0 || a == 0x8000_0000_0000_0000) && (b == 0 || b
            == 0x8000_0000_0000_0000)))
    }
}

impl vstd::std_specs::cmp::PartialEqSpecImpl for OrderedF64 {
    open spec fn obeys_eq_spec() -> bool {
        true
    }

    open spec fn eq_spec(&self, other: &Self) -> bool {
        float_eq(self.0, other.0)
    }
}

impl Eq for OrderedF64 {

}

impl PartialOrd for OrderedF64 {
    fn partial_cmp(&self, other: &Self) -> (r: Option<Ordering>) {
        Some(self.total_cmp(other))
    }
}

impl vstd::std_specs::cmp::PartialOrdSpecImpl for OrderedF64 {
    open spec fn obeys_partial_cmp_spec() -> bool {
        true
    }

    open spec fn partial_cmp_spec(&self, other: &Self) -> Option<Ordering> {
        Some(rank_order(self.0, other.0))
    }
}

} // verus!
