//! Incremental harvesting of partitioned archive listings into canonical,
//! duplicate-free, sorted per-partition tables.

pub mod text;
pub mod wildcard;
pub mod number;
pub mod table;
pub mod csv;
pub mod ledger;
pub mod listing;
pub mod plan;
