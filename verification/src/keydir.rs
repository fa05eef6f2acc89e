//! The locator of a record: which segment holds it, where, and how long it
//! is. The index maps each live key to one of these, and hint files store
//! them as three concatenated varints.

use crate::result::Error;
use crate::result::IoKind;
use crate::varint::decode_varint;
use crate::varint::encode_varint;
use crate::varint::lemma_varint_len_u64;
use crate::varint::lemma_varint_parse_size;
use crate::varint::lemma_varint_roundtrip;
use crate::varint::varint_bytes;
use crate::varint::varint_parse;
use vstd::prelude::*;

verus! {

/// Where a record lies: segment id, byte offset, and on-disk length.
#[derive(Debug, Clone, Copy, PartialEq, Eq, Structural)]
pub struct KeyDirEntry {
    file_id: u32,
    offset: u64,
    size: u32,
}

/// The mathematical content of a locator.
pub struct KeyDirView {
    pub file_id: u32,
    pub offset: u64,
    pub size: u32,
}

impl View for KeyDirEntry {
    type V = KeyDirView;

    closed spec fn view(&self) -> KeyDirView {
        KeyDirView { file_id: self.file_id, offset: self.offset, size: self.size }
    }
}

/// The hint-file encoding of a locator: three varints.
pub open spec fn keydir_bytes(k: KeyDirView) -> Seq<u8> {
    varint_bytes(k.file_id as nat) + varint_bytes(k.offset as nat) + varint_bytes(k.size as nat)
}

/// Reads a locator from the front of `s`: three varints, each within the
/// range of its field. Trailing bytes are ignored.
pub open spec fn keydir_parse(s: Seq<u8>) -> Option<KeyDirView> {
    match varint_parse(s) {
        None => None,
        Some((f, k1)) => match varint_parse(s.subrange(k1 as int, s.len() as int)) {
            None => None,
            Some((o, k2)) => match varint_parse(
                s.subrange((k1 + k2) as int, s.len() as int),
            ) {
                None => None,
                Some((z, _)) => {
                    if f <= u32::MAX && o <= u64::MAX && z <= u32::MAX {
                        Some(
                            KeyDirView {
                                file_id: f as u32,
                                offset: o as u64,
                                size: z as u32,
                            },
                        )
                    } else {
                        None
                    }
                },
            },
        },
    }
}

impl KeyDirEntry {
    /// A locator with the given coordinates.
    pub fn new(file_id: u32, offset: u64, size: u32) -> (r: KeyDirEntry)
        ensures
            r@.file_id == file_id,
            r@.offset == offset,
            r@.size == size,
    {
        KeyDirEntry { file_id, offset, size }
    }

    /// The id of the segment holding the record.
    pub fn get_file_id(&self) -> (r: u32)
        ensures
            r == self@.file_id,
    {
        self.file_id
    }

    /// The byte offset of the record within its segment.
    pub fn get_offset(&self) -> (r: u64)
        ensures
            r == self@.offset,
    {
        self.offset
    }

    /// The on-disk length of the record.
    pub fn get_size(&self) -> (r: u32)
        ensures
            r == self@.size,
    {
        self.size
    }

    /// Encodes the locator as three varints.
    pub fn encode(&self) -> (r: Vec<u8>)
        ensures
            r@ == keydir_bytes(self@),
    {
        let mut buf: Vec<u8> = Vec::new();
        encode_varint(self.file_id as u64, &mut buf);
        encode_varint(self.offset, &mut buf);
        encode_varint(self.size as u64, &mut buf);
        proof {
            assert(buf@ =~= keydir_bytes(self@));
        }
        buf
    }
}

/// Decodes a locator from the bytes of a hint record's value.
pub fn decode_keydir_entry(data: &Vec<u8>) -> (r: Result<KeyDirEntry, Error>)
    ensures
        match keydir_parse(data@) {
            Some(k) => r is Ok && r->Ok_0@ == k,
            None => r == Err::<KeyDirEntry, Error>(Error::Io(IoKind::UnexpectedEof)),
        },
{
    proof {
        assert(data@.subrange(0, data@.len() as int) =~= data@);
    }
    let (f, k1) = match decode_varint(data.as_slice(), 0) {
        Some(x) => x,
        None => {
            return Err(Error::Io(IoKind::UnexpectedEof));
        },
    };
    proof {
        lemma_varint_parse_size(data@, 10);
    }
    let (o, k2) = match decode_varint(data.as_slice(), k1) {
        Some(x) => x,
        None => {
            return Err(Error::Io(IoKind::UnexpectedEof));
        },
    };
    proof {
        lemma_varint_parse_size(data@.subrange(k1 as int, data@.len() as int), 10);
    }
    let (z, _k3) = match decode_varint(data.as_slice(), k1 + k2) {
        Some(x) => x,
        None => {
            return Err(Error::Io(IoKind::UnexpectedEof));
        },
    };
    if f > u32::MAX as u64 || z > u32::MAX as u64 {
        return Err(Error::Io(IoKind::UnexpectedEof));
    }
    Ok(KeyDirEntry { file_id: f as u32, offset: o, size: z as u32 })
}

/// An encoded locator reads back as itself.
pub proof fn lemma_keydir_roundtrip(k: KeyDirView)
    ensures
        keydir_parse(keydir_bytes(k)) == Some(k),
{
    let s = keydir_bytes(k);
    let b1 = varint_bytes(k.file_id as nat);
    let b2 = varint_bytes(k.offset as nat);
    let b3 = varint_bytes(k.size as nat);
    lemma_varint_len_u64(k.file_id as nat);
    lemma_varint_len_u64(k.offset as nat);
    lemma_varint_len_u64(k.size as nat);
    assert(s =~= b1 + (b2 + b3 + Seq::<u8>::empty()));
    lemma_varint_roundtrip(k.file_id as nat, b2 + b3 + Seq::<u8>::empty(), 10);
    assert(s.subrange(b1.len() as int, s.len() as int) =~= b2 + (b3 + Seq::<u8>::empty()));
    lemma_varint_roundtrip(k.offset as nat, b3 + Seq::<u8>::empty(), 10);
    assert(s.subrange((b1.len() + b2.len()) as int, s.len() as int) =~= b3 + Seq::<u8>::empty());
    lemma_varint_roundtrip(k.size as nat, Seq::<u8>::empty(), 10);
}

} // verus!
