//! Evidence runtime kernel: partial ordering of admitted records, typed evidence
//! contracts, deterministic correction replay, immutable segment containers and
//! the pure parts of the catalog and the embedded engine.
pub mod text;
pub mod ordering;
pub mod schema;
pub mod replay;
pub mod segment;
pub mod catalog;
pub mod sdk;
