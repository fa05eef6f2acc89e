//! The hint file merge writes beside its compacted segments: one active
//! record per live key, whose value is the key's encoded locator. Loading
//! it rebuilds the index without replaying the data segments.

use crate::entry::record_bytes;
use crate::entry::DataEntry;
use crate::entry::State;
use crate::file_handle::FileHandle;
use crate::keydir::keydir_bytes;
use crate::keydir::KeyDirEntry;
use crate::result::Error;
use vstd::prelude::*;

verus! {

/// The hint log under construction during a merge.
pub struct HintFile {
    /// The hint bytes, kept as a segment with id zero.
    pub file: FileHandle,
}

impl HintFile {
    /// An empty hint log.
    pub fn new() -> (r: HintFile)
        ensures
            r.file.content@ == Seq::<u8>::empty(),
            r.file.data.offset == 0,
    {
        HintFile { file: FileHandle::new(0, Vec::new()) }
    }

    /// Appends one hint record: the key, with its locator as the value.
    /// Refused only when the hint log can grow no further.
    pub fn write_entry(&mut self, key: Vec<u8>, keydir_entry: &KeyDirEntry) -> (r: Result<
        (),
        Error,
    >)
        requires
            key@.len() > 0,
        ensures
            match r {
                Ok(()) => {
                    &&& final(self).file.content@ == old(self).file.content@ + record_bytes(
                        State::Active,
                        key@,
                        keydir_bytes(keydir_entry@),
                    )
                    &&& final(self).file.data.offset == old(self).file.data.offset + record_bytes(
                        State::Active,
                        key@,
                        keydir_bytes(keydir_entry@),
                    ).len()
                },
                Err(e) => {
                    &&& e == Error::Unsupported(crate::result::Reason::CounterExhausted)
                    &&& *final(self) == *old(self)
                    &&& old(self).file.data.offset + record_bytes(
                        State::Active,
                        key@,
                        keydir_bytes(keydir_entry@),
                    ).len() > u64::MAX
                },
            },
            (old(self).file.data.offset + record_bytes(
                State::Active,
                key@,
                keydir_bytes(keydir_entry@),
            ).len() <= u64::MAX) ==> r is Ok,
    {
        let entry = DataEntry::new(key, keydir_entry.encode(), State::Active);
        let encoded = match entry.encode() {
            Ok(b) => b,
            Err(e) => {
                proof {
                    assert(false);
                }
                return Err(e);
            },
        };
        let offset = self.file.get_offset();
        if encoded.len() as u64 > u64::MAX - offset {
            return Err(Error::Unsupported(crate::result::Reason::CounterExhausted));
        }
        match self.file.write(encoded.as_slice()) {
            Ok(_) => Ok(()),
            Err(e) => Err(e),
        }
    }

    /// Makes the hint log durable; the shell flushes the backing file.
    pub fn sync(&self) -> (r: Result<(), Error>)
        ensures
            r == Ok::<(), Error>(()),
    {
        self.file.sync()
    }
}

} // verus!
