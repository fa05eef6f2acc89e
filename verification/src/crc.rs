//! Checksum of a log record.
//!
//! The digest itself is computed by an outside implementation; the library
//! only names its result, so that contracts can state that a record's stored
//! checksum equals the checksum of its payload.

use vstd::prelude::*;

verus! {

/// The CRC-32 digest of a byte sequence. The digest is a pure function of
/// the bytes alone; nothing further is assumed about its values.
pub uninterp spec fn crc32_of(data: Seq<u8>) -> u32;

/// Relies on crc32fast::Hasher::{new, update, finalize}: the digest depends
/// on exactly the bytes fed to `update`, in order.
#[verifier::external_body]
pub(crate) fn crc32(data: &[u8]) -> (r: u32)
    ensures
        r == crc32_of(data@),
{
    let mut hasher = crc32fast::Hasher::new();
    hasher.update(data);
    hasher.finalize()
}

} // verus!
