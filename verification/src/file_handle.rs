//! A segment of the log: its id, its append position, and its bytes.
//!
//! The store works on segments as byte buffers; binding a buffer to an
//! actual file on disk (positional reads, appends, fsync) is the job of the
//! unverified shell around the library.

use crate::entry::parse_record;
use crate::entry::rec_crc_ok;
use crate::entry::DataEntry;
use crate::entry::RecParse;
use crate::entry::State;
use crate::result::Error;
use crate::result::IoKind;
use crate::result::Reason;
use vstd::prelude::*;
use vstd::slice::slice_subrange;

verus! {

/// The bookkeeping of one segment: its id and the next append position.
pub struct DataFile {
    /// The numeric id the segment file is named after.
    pub file_id: u32,
    /// The position the next write goes to.
    pub offset: u64,
}

impl DataFile {
    /// Bookkeeping for a fresh segment: position zero.
    pub fn new(id: u32) -> (r: DataFile)
        ensures
            r.file_id == id,
            r.offset == 0,
    {
        DataFile { file_id: id, offset: 0 }
    }

    /// The segment's id.
    pub fn get_file_id(&self) -> (r: u32)
        ensures
            r == self.file_id,
    {
        self.file_id
    }

    /// The next append position.
    pub fn get_offset(&self) -> (r: u64)
        ensures
            r == self.offset,
    {
        self.offset
    }

    /// Moves the append position.
    pub fn set_offset(&mut self, new_offset: u64)
        ensures
            final(self).offset == new_offset,
            final(self).file_id == old(self).file_id,
    {
        self.offset = new_offset;
    }
}

/// One segment: bookkeeping plus the bytes it holds.
pub struct FileHandle {
    /// Id and append position.
    pub data: DataFile,
    /// The segment's bytes.
    pub content: Vec<u8>,
}

impl FileHandle {
    /// A segment with the given id over the given bytes; the append
    /// position starts at zero, as for a handle freshly bound to a file.
    pub fn new(file_id: u32, content: Vec<u8>) -> (r: FileHandle)
        ensures
            r.data.file_id == file_id,
            r.data.offset == 0,
            r.content@ == content@,
    {
        FileHandle { data: DataFile::new(file_id), content }
    }

    /// Fills the front of `buf` with the bytes at `offset`, as many as are
    /// there, and says how many; the rest of `buf` stays.
    pub fn read(&self, buf: &mut Vec<u8>, offset: u64) -> (r: Result<usize, Error>)
        ensures
            match r {
                Ok(n) => {
                    &&& final(buf)@.len() == old(buf)@.len()
                    &&& if offset as int <= self.content@.len() {
                        &&& n == if self.content@.len() - offset as int <= old(buf)@.len() {
                            self.content@.len() - offset as int
                        } else {
                            old(buf)@.len() as int
                        }
                        &&& final(buf)@ =~= self.content@.subrange(offset as int, offset + n)
                            + old(buf)@.subrange(n as int, old(buf)@.len() as int)
                    } else {
                        &&& n == 0
                        &&& final(buf)@ == old(buf)@
                    }
                },
                Err(_) => false,
            },
    {
        let len = self.content.len();
        if offset >= len as u64 {
            proof {
                if offset as int <= self.content@.len() {
                    assert(buf@ =~= self.content@.subrange(offset as int, offset as int)
                        + buf@.subrange(0, buf@.len() as int));
                }
            }
            return Ok(0);
        }
        let off = offset as usize;
        let avail = len - off;
        let n = if avail <= buf.len() {
            avail
        } else {
            buf.len()
        };
        let mut i: usize = 0;
        while i < n
            invariant
                i <= n,
                n <= buf@.len(),
                off + n <= self.content@.len(),
                off + n <= usize::MAX,
                buf@.len() == old(buf)@.len(),
                forall|j: int| 0 <= j < i ==> #[trigger] buf@[j] == self.content@[off + j],
                forall|j: int| i <= j < buf@.len() ==> #[trigger] buf@[j] == old(buf)@[j],
            decreases n - i,
        {
            let b = self.content[off + i];
            buf[i] = b;
            i = i + 1;
        }
        proof {
            assert(buf@ =~= self.content@.subrange(offset as int, offset + n) + old(buf)@.subrange(
                n as int,
                old(buf)@.len() as int,
            ));
        }
        Ok(n)
    }

    /// Appends bytes and advances the position by what was written.
    pub fn write(&mut self, buf: &[u8]) -> (r: Result<usize, Error>)
        requires
            old(self).data.offset + buf@.len() <= u64::MAX,
        ensures
            r == Ok::<usize, Error>(buf@.len() as usize),
            final(self).content@ == old(self).content@ + buf@,
            final(self).data.offset == old(self).data.offset + buf@.len(),
            final(self).data.file_id == old(self).data.file_id,
    {
        crate::entry::append_bytes(&mut self.content, buf);
        self.data.offset = self.data.offset + buf.len() as u64;
        Ok(buf.len())
    }

    /// Makes the segment durable. The buffer itself is always consistent;
    /// the shell around the library flushes the backing file here.
    pub fn sync(&self) -> (r: Result<(), Error>)
        ensures
            r == Ok::<(), Error>(()),
    {
        Ok(())
    }

    /// The next append position.
    pub fn get_offset(&self) -> (r: u64)
        ensures
            r == self.data.offset,
    {
        self.data.get_offset()
    }

    /// The segment's id.
    pub fn get_file_id(&self) -> (r: u32)
        ensures
            r == self.data.file_id,
    {
        self.data.get_file_id()
    }

    /// Moves the append position.
    pub fn set_offset(&mut self, new_offset: u64)
        ensures
            final(self).data.offset == new_offset,
            final(self).data.file_id == old(self).data.file_id,
            final(self).content@ == old(self).content@,
    {
        self.data.set_offset(new_offset);
    }

    /// The segment's bytes, for the shell that mirrors them to disk.
    pub fn content_bytes(&self) -> (r: &Vec<u8>)
        ensures
            r@ == self.content@,
    {
        &self.content
    }

    /// Reserved by the record-writing path; nothing to prepare here.
    pub fn write_data_entry() -> (r: Result<(), Error>)
        ensures
            r == Ok::<(), Error>(()),
    {
        Ok(())
    }

    /// Cuts the segment back to its append position, discarding bytes
    /// after the last settled record.
    pub fn truncate_to_offset(&mut self)
        requires
            old(self).data.offset <= old(self).content@.len(),
        ensures
            final(self).data == old(self).data,
            final(self).content@ == old(self).content@.subrange(
                0,
                old(self).data.offset as int,
            ),
    {
        let off = self.data.offset as usize;
        self.content.truncate(off);
    }

    /// Reads the shape of the record at `offset` without judging its
    /// checksum: its state, its stored key, and its on-disk size. Recovery
    /// walks the log with this; corruption then surfaces on the read that
    /// touches the record, not here.
    pub fn extract_record_meta(&self, offset: u64) -> (r: Result<(State, Vec<u8>, usize), Error>)
        ensures
            match parse_record(self.content@, offset as nat) {
                RecParse::Eof => r == Err::<(State, Vec<u8>, usize), Error>(
                    Error::Io(IoKind::UnexpectedEof),
                ),
                RecParse::BadState => r == Err::<(State, Vec<u8>, usize), Error>(
                    Error::Unsupported(Reason::BadState),
                ),
                RecParse::Rec(rec, size) => match r {
                    Ok((st, key, n)) => {
                        &&& st == rec.state
                        &&& key@ == rec.key
                        &&& n == size
                    },
                    Err(_) => false,
                },
            },
    {
        let len = self.content.len();
        if offset > len as u64 {
            return Err(Error::Io(IoKind::UnexpectedEof));
        }
        let off = offset as usize;
        let tail = slice_subrange(self.content.as_slice(), off, len);
        let (ksz, vsz, hsz, state_b) = match DataEntry::decode_header(tail) {
            Ok(h) => h,
            Err(e) => {
                return Err(e);
            },
        };
        let rem = len - off;
        if hsz > rem || ksz > rem - hsz || vsz > rem - hsz - ksz || 4 > rem - hsz - ksz - vsz {
            return Err(Error::Io(IoKind::UnexpectedEof));
        }
        let st = match State::from_byte(state_b) {
            Some(s) => s,
            None => {
                return Err(Error::Unsupported(Reason::BadState));
            },
        };
        let key = vstd::slice::slice_to_vec(
            slice_subrange(self.content.as_slice(), off + hsz, off + hsz + ksz),
        );
        Ok((st, key, hsz + ksz + vsz + 4))
    }

    /// Reads the record at `offset`: its fields and its on-disk size.
    /// Truncated data and the end marker read as end-of-file; a record whose
    /// stored checksum does not match its fields is corruption.
    pub fn extract_data_entry(&self, offset: u64) -> (r: Result<(DataEntry, usize), Error>)
        ensures
            match parse_record(self.content@, offset as nat) {
                RecParse::Eof => r == Err::<(DataEntry, usize), Error>(
                    Error::Io(IoKind::UnexpectedEof),
                ),
                RecParse::BadState => r == Err::<(DataEntry, usize), Error>(
                    Error::Unsupported(Reason::BadState),
                ),
                RecParse::Rec(rec, size) => {
                    if rec_crc_ok(rec) {
                        match r {
                            Ok((e, n)) => {
                                &&& e@.key == rec.key
                                &&& e@.value == rec.value
                                &&& e@.state == rec.state
                                &&& n == size
                            },
                            Err(_) => false,
                        }
                    } else {
                        r == Err::<(DataEntry, usize), Error>(
                            Error::Unsupported(Reason::CrcMismatch),
                        )
                    }
                },
            },
    {
        let len = self.content.len();
        if offset > len as u64 {
            return Err(Error::Io(IoKind::UnexpectedEof));
        }
        let off = offset as usize;
        let tail = slice_subrange(self.content.as_slice(), off, len);
        let (ksz, vsz, hsz, state_b) = match DataEntry::decode_header(tail) {
            Ok(h) => h,
            Err(e) => {
                return Err(e);
            },
        };
        let rem = len - off;
        if hsz > rem || ksz > rem - hsz || vsz > rem - hsz - ksz || 4 > rem - hsz - ksz - vsz {
            return Err(Error::Io(IoKind::UnexpectedEof));
        }
        if state_b >= 3 {
            return Err(Error::Unsupported(Reason::BadState));
        }
        let body = slice_subrange(self.content.as_slice(), off + hsz, off + hsz + ksz + vsz + 4);
        proof {
            assert(body@ =~= self.content@.subrange(
                off + hsz,
                off + hsz + ksz + vsz + 4,
            ));
            assert(body@.subrange(0, ksz as int) =~= self.content@.subrange(
                off + hsz,
                off + hsz + ksz,
            ));
            assert(body@.subrange(ksz as int, ksz + vsz) =~= self.content@.subrange(
                off + hsz + ksz,
                off + hsz + ksz + vsz,
            ));
        }
        match DataEntry::decode(body, ksz, vsz, state_b) {
            Ok(e) => Ok((e, hsz + ksz + vsz + 4)),
            Err(e) => Err(e),
        }
    }
}

} // verus!
