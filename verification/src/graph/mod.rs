//! Graph records and the structures built of them.

pub mod adjacency;
pub mod agreement;
pub mod builder;
pub mod chain;
pub mod copies;
pub mod csr;
pub mod display;
pub mod edges;
pub mod engine;
pub mod float;
pub mod frame;
pub mod graph;
pub mod hashing;
pub mod ids;
pub mod maintenance;
pub mod property;
pub mod reclaim;
pub mod record;
pub mod reopen;
pub mod scan;
pub mod storage_engine;
pub mod store;
pub mod stored;
pub mod value_form;
pub mod wiring;
