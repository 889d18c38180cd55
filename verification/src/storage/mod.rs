//! Pages.

pub mod error;
pub mod heap;
pub mod image;
pub mod page;
pub mod wal;
