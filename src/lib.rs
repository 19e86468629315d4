//! Parsers for the replies of a cache cluster's introspection commands: the
//! node listing, the slot-ownership array, and the colon-separated info
//! texts, turned into typed values with the aggregates (per-node slot
//! counts, total slots, coverage) that callers rely on.
pub mod info;
pub mod metrics;
pub mod nodes;
pub mod slots;
pub mod text;
