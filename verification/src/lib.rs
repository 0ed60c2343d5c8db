//! A verified, content-addressed block store for directed acyclic graphs of
//! immutable, hash-identified blocks.
//!
//! The store is modelled as explicit relational tables: an identifier table
//! interning content hashes to compact ids, a link-edge table, a payload
//! table, durable named pins (aliases), transient session pins, and a stats
//! summary kept consistent with the ground truth. Block ingest, reachability
//! queries, incremental garbage collection, the orphan sweep and the legacy
//! migration are verified against this model; an embedding supplies
//! durability and loads or saves the tables around it.

pub mod gc;
pub mod laws;
pub mod migrate;
pub mod reach;
pub mod rows;
pub mod store;
pub mod timing;

pub use rows::AliasRow;
pub use rows::BlockRow;
pub use rows::CidRow;
pub use rows::PinRow;
pub use rows::RefRow;
pub use rows::SizeTargets;
pub use rows::StoreError;
pub use rows::StoreStats;
pub use rows::TempPin;
