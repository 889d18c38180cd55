//! Ordered indexes.

pub mod adjacency_index;
pub mod btree;
pub mod bulk;
pub mod cursor;
pub mod defrag;
pub mod entry;
pub mod epoch;
pub mod key;
pub mod label;
pub mod latch;
pub mod manager;
pub mod merge;
pub mod node;
pub mod page;
pub mod prefix;
pub mod property;
pub mod rdf_store;
pub mod shape;
pub mod slots;
pub mod sort;
pub mod split;
pub mod type_index;
pub mod value_codec;
