//! A graph database: storage engine, indexes and the graph on top of them.

pub mod bytes;
pub mod error;
pub mod graph;
pub mod id;
pub mod index;
pub mod io;
pub mod server;
pub mod storage;
pub mod text;
