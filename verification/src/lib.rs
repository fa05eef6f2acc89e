//! An embedded, persistent key-value store in the Bitcask style: an
//! append-only log of CRC-protected records paired with an in-memory index
//! from each live key to the position of its most recent value.
//!
//! This crate is the verified core of the engine. It models segment files as
//! byte buffers and proves the storage logic over them: the record codec, the
//! index, reads and writes, recovery, transactional batches and compaction.
//! Binding the core to an actual directory of files (positional reads,
//! appends, fsync and the advisory lock) is left to a thin unverified shell.

pub mod batch;
pub mod crc;
pub mod db;
pub mod entry;
pub mod file_handle;
pub mod hintfile;
pub mod index;
pub mod keydir;
pub mod merge;
pub mod options;
pub mod result;
pub mod varint;

pub use result::Error;
pub use result::IoKind;
pub use result::Reason;
