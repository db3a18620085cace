//! A verified sync engine for mirroring one owner's records from a paginated,
//! rate-limited remote JSON API into a local per-entity cache.
//!
//! The engine is pure decision logic over plain values: the transport layer
//! validates one exchange at a time and decides between success, cache hit,
//! delayed retry and fatal error; the cursor enumerates the owner's id set by
//! keyset pagination, keeping it strictly ascending; the batch planner and
//! collector split known ids into bounded fetches and reduce their outcomes
//! to the first fatal error; and the normalization engine flattens deeply
//! nested entity records into per-kind tables in dependency order. The
//! surrounding runtime performs the network and disk work these decisions
//! call for, and hands every response back as plain values.

pub mod batch;
pub mod cachefile;
pub mod cursor;
pub mod digits;
pub mod envelope;
pub mod error;
pub mod headers;
pub mod httptime;
pub mod normalise;
pub mod table;
pub mod transport;
pub mod users;
pub mod value;
