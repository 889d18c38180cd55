//! Decisions around input and output. The input and output themselves are left to
//! the program.

pub mod aligned_buffer;
pub mod fault;
pub mod transfer;
