//! Error taxonomy of the store.
//!
//! Every refusal the engine can produce is an enumerated case, so contracts
//! can state exactly which error comes back on which input.

use vstd::prelude::*;

verus! {

/// The precise cause behind an `Error::Unsupported`.
#[derive(Clone, Copy, Debug, PartialEq, Eq, Structural)]
pub enum Reason {
    /// An empty key was handed to put, get or delete.
    KeyRequired,
    /// A record with an empty key and an empty value cannot be written:
    /// its encoding would read back as the end of the log.
    EmptyRecord,
    /// A write was attempted on a store opened read-only.
    ReadOnly,
    /// The key is longer than `max_key_size`.
    KeyTooLarge,
    /// The value is longer than `max_value_size`.
    ValueTooLarge,
    /// `max_key_size` must be greater than zero and fit the record format.
    BadMaxKeySize,
    /// `max_value_size` must be greater than zero and fit the record format.
    BadMaxValueSize,
    /// `data_file_size` must be greater than zero.
    BadDataFileSize,
    /// `dir_path` must be non-empty.
    BadDirPath,
    /// A second open holds the directory already.
    AlreadyInUse,
    /// A batch held more pending writes than `max_batch_num`.
    BatchTooLarge,
    /// The stored checksum does not match the record's bytes.
    CrcMismatch,
    /// `get` found no live entry for the key.
    KeyNotFound,
    /// The index points into a segment that does not exist.
    FileNotFound,
    /// The record a locator points at is not an active entry.
    EntryRemoved,
    /// Merge was requested on a store that holds no data.
    MergeEmpty,
    /// A record carries a state byte outside the known states.
    BadState,
    /// A counter (file id or sequence number) cannot grow further.
    CounterExhausted,
    /// The backend bound to this handle cannot perform the operation.
    BackendReadOnly,
}

/// The kind of a propagated I/O condition.
#[derive(Clone, Copy, Debug, PartialEq, Eq, Structural)]
pub enum IoKind {
    /// Clean end of the log, or a truncated read.
    UnexpectedEof,
    /// The store was opened read-only.
    PermissionDenied,
}

/// Everything a store operation can fail with.
#[derive(Clone, Copy, Debug, PartialEq, Eq, Structural)]
pub enum Error {
    /// The engine was used in an unsupported way.
    Unsupported(Reason),
    /// A read or write error while interacting with the log.
    Io(IoKind),
}

impl Error {
    /// A human-readable description, for callers that report errors as text.
    pub fn message(&self) -> &'static str {
        match self {
            Error::Unsupported(r) => match r {
                Reason::KeyRequired => "Key is required",
                Reason::EmptyRecord => "Key and value are both empty",
                Reason::ReadOnly => "Write on a read-only store",
                Reason::KeyTooLarge => "limited max_key_size exceeded",
                Reason::ValueTooLarge => "limited max_value_size exceeded",
                Reason::BadMaxKeySize => {
                    "validate options error: max_key_size is required to be greater than 0"
                },
                Reason::BadMaxValueSize => {
                    "validate options error: max_value_size is required to be greater than 0"
                },
                Reason::BadDataFileSize => {
                    "validate options error: data_file_size is required to be greater than 0"
                },
                Reason::BadDirPath => "validate options error: dir_path is required",
                Reason::AlreadyInUse => "Database is already in use",
                Reason::BatchTooLarge => "Exceeds max batch number",
                Reason::CrcMismatch => "CRC check failed",
                Reason::KeyNotFound => "Db read error: Key not found",
                Reason::FileNotFound => "Db read error: File not found",
                Reason::EntryRemoved => "Db read error: Entry removed",
                Reason::MergeEmpty => "Merge when db is empty",
                Reason::BadState => "Invalid state value",
                Reason::CounterExhausted => "Counter exhausted",
                Reason::BackendReadOnly => "Backend does not support write",
            },
            Error::Io(k) => match k {
                IoKind::UnexpectedEof => "IO Error: unexpected end of file",
                IoKind::PermissionDenied => "IO Error: permission denied",
            },
        }
    }
}

} // verus!
