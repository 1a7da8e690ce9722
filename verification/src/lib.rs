//! An append-only key-value store kept in a single log of checksummed records.
//!
//! The log is a sequence of bytes. Every write appends one record; an index
//! maps each key to the offset of its most recent record. The modules follow
//! the layers of the store: byte order and checksum at the bottom, the record
//! codec above them, then the log, the index and the engine.

pub mod bytes;
pub mod checksum;
pub mod endian;
pub mod engine;
pub mod index;
pub mod log;
pub mod persist;
pub mod record;

pub use crate::engine::OxideDB;
pub use crate::persist::store_index_on_disk;
pub use crate::record::KeyValuePair;
