//! Bit flags of an edge record.

use vstd::prelude::*;

verus! {

/// The edge is marked for deletion.
pub const DELETED: u16 = 0x0001;

/// The edge has overflow properties.
pub const HAS_OVERFLOW: u16 = 0x0002;

} // verus!
