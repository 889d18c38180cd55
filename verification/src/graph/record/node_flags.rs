//! Bit flags of a node record.

use vstd::prelude::*;

verus! {

/// The node is marked for deletion.
pub const DELETED: u16 = 0x0001;

/// The node has overflow properties.
pub const HAS_OVERFLOW: u16 = 0x0002;

} // verus!
