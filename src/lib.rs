//! A log-structured key-value store: every write is a checksummed record
//! appended to one log, and an in-memory index maps each key to the offset
//! of its latest record.

pub mod codec;
pub mod index;
pub mod log;
pub mod store;
pub mod laws;
pub mod clock;
