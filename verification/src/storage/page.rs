//! Page sizes shared by heap pages and B+ tree pages.

use vstd::prelude::*;

verus! {

/// Identifier of a page; page `0` is the superblock.
pub type PageId = u64;

/// Size of every page, in bytes.
pub const PAGE_SIZE: usize = 8192;

/// Size of the header in front of every page.
pub const HEADER_SIZE: usize = 64;

/// Size of one entry of a page's slot directory.
pub const SLOT_SIZE: usize = 4;

} // verus!
