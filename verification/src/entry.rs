//! One log record: its in-memory form, its byte-level layout, and the codec.
//!
//! On disk a record is
//!
//! ```text
//! state : u8        (0 = active put, 1 = tombstone, 2 = committed marker)
//! ksz   : varint
//! vsz   : varint
//! key   : ksz bytes
//! value : vsz bytes
//! crc   : u32 big-endian, over everything before it
//! ```
//!
//! A record whose two sizes are both zero marks the end of the valid log.

use crate::crc::crc32;
use crate::crc::crc32_of;
use crate::result::Error;
use crate::result::IoKind;
use crate::result::Reason;
use crate::varint::be32_bytes;
use crate::varint::be32_value;
use crate::varint::encode_varint;
use crate::varint::lemma_be32_roundtrip;
use crate::varint::lemma_varint_len_u64;
use crate::varint::lemma_varint_parse_size;
use crate::varint::lemma_varint_roundtrip;
use crate::varint::read_be32;
use crate::varint::decode_varint;
use crate::varint::varint_bytes;
use crate::varint::varint_len;
use crate::varint::varint_parse;
use crate::varint::varint_size;
use vstd::prelude::*;
use vstd::slice::slice_subrange;
use vstd::slice::slice_to_vec;

verus! {

/// The role a record plays in the log.
#[derive(Clone, Copy, Debug, PartialEq, Eq, Structural)]
pub enum State {
    /// A live key/value pair.
    Active,
    /// A tombstone hiding every earlier write of its key.
    Inactive,
    /// The terminal marker of a committed batch.
    Committed,
}

/// The byte a state is stored as.
pub open spec fn state_byte(s: State) -> u8 {
    match s {
        State::Active => 0,
        State::Inactive => 1,
        State::Committed => 2,
    }
}

/// The state a stored byte denotes; meaningful for bytes below three.
pub open spec fn state_of(b: u8) -> State {
    if b == 0 {
        State::Active
    } else if b == 1 {
        State::Inactive
    } else {
        State::Committed
    }
}

impl State {
    /// The byte this state is stored as.
    pub fn to_byte(&self) -> (r: u8)
        ensures
            r == state_byte(*self),
    {
        match self {
            State::Active => 0,
            State::Inactive => 1,
            State::Committed => 2,
        }
    }

    /// The state a byte denotes, or `None` for an unknown byte.
    pub fn from_byte(b: u8) -> (r: Option<State>)
        ensures
            r == if b < 3 {
                Some(state_of(b))
            } else {
                None::<State>
            },
    {
        if b == 0 {
            Some(State::Active)
        } else if b == 1 {
            Some(State::Inactive)
        } else if b == 2 {
            Some(State::Committed)
        } else {
            None
        }
    }
}

/// The mathematical content of a record: what its fields say, plus the
/// checksum actually stored after them (which corrupt data may falsify).
pub struct RecView {
    pub state: State,
    pub key: Seq<u8>,
    pub value: Seq<u8>,
    pub crc: u32,
}

/// A record as held in memory, before encoding or after decoding.
#[derive(Debug)]
pub struct DataEntry {
    key: Vec<u8>,
    value: Vec<u8>,
    state: State,
}

/// What a `DataEntry` means: its fields as sequences.
pub struct EntryView {
    pub key: Seq<u8>,
    pub value: Seq<u8>,
    pub state: State,
}

impl View for DataEntry {
    type V = EntryView;

    closed spec fn view(&self) -> EntryView {
        EntryView { key: self.key@, value: self.value@, state: self.state }
    }
}

// ---------------------------------------------------------------------------
// Byte-level layout.
// ---------------------------------------------------------------------------

/// The checksummed prefix of a record: state, sizes, key, value.
pub open spec fn payload_bytes(state: State, key: Seq<u8>, value: Seq<u8>) -> Seq<u8> {
    seq![state_byte(state)] + varint_bytes(key.len()) + varint_bytes(value.len()) + key + value
}

/// The full encoding of a record: payload followed by its checksum.
pub open spec fn record_bytes(state: State, key: Seq<u8>, value: Seq<u8>) -> Seq<u8> {
    payload_bytes(state, key, value) + be32_bytes(crc32_of(payload_bytes(state, key, value)))
}

/// How many bytes a record with these fields occupies.
pub open spec fn record_size(key: Seq<u8>, value: Seq<u8>) -> nat {
    1 + varint_len(key.len()) + varint_len(value.len()) + key.len() + value.len() + 4
}

/// Whether the checksum stored in a record matches its fields.
pub open spec fn rec_crc_ok(r: RecView) -> bool {
    r.crc == crc32_of(payload_bytes(r.state, r.key, r.value))
}

/// The outcome of reading a record header from the front of a buffer.
pub enum HeaderParse {
    /// Truncated data, or the all-zero-sizes end marker.
    Eof,
    /// State byte, the two sizes, and the canonical header length.
    Header(u8, nat, nat, nat),
}

/// The outcome of reading a whole record at an offset.
pub enum RecParse {
    /// Truncated data, or the end marker: the clean end of the log.
    Eof,
    /// A state byte outside the known states.
    BadState,
    /// A structurally valid record and its total on-disk size.
    Rec(RecView, nat),
}

/// Reads state byte and the two size varints from the front of `s`.
pub open spec fn header_parse(s: Seq<u8>) -> HeaderParse {
    if s.len() == 0 {
        HeaderParse::Eof
    } else {
        match varint_parse(s.subrange(1, s.len() as int)) {
            None => HeaderParse::Eof,
            Some((ksz, k1)) => match varint_parse(
                s.subrange(1 + k1 as int, s.len() as int),
            ) {
                None => HeaderParse::Eof,
                Some((vsz, k2)) => {
                    if ksz == 0 && vsz == 0 {
                        HeaderParse::Eof
                    } else if k1 != varint_len(ksz) || k2 != varint_len(vsz) {
                        // The format stores sizes canonically; anything else
                        // reads as the end of the valid log.
                        HeaderParse::Eof
                    } else {
                        HeaderParse::Header(s[0], ksz, vsz, 1 + varint_len(ksz) + varint_len(vsz))
                    }
                },
            },
        }
    }
}

/// Reads the record stored in `data` at `off`. The header is read first;
/// key, value and checksum follow at the canonical header length.
pub open spec fn parse_record(data: Seq<u8>, off: nat) -> RecParse {
    if off > data.len() {
        RecParse::Eof
    } else {
        match header_parse(data.subrange(off as int, data.len() as int)) {
            HeaderParse::Eof => RecParse::Eof,
            HeaderParse::Header(sb, ksz, vsz, hsz) => {
                if off + hsz + ksz + vsz + 4 > data.len() {
                    RecParse::Eof
                } else if sb >= 3 {
                    RecParse::BadState
                } else {
                    let key = data.subrange(off + hsz as int, (off + hsz + ksz) as int);
                    let value = data.subrange(
                        (off + hsz + ksz) as int,
                        (off + hsz + ksz + vsz) as int,
                    );
                    let c = (off + hsz + ksz + vsz) as int;
                    let crc = be32_value(data[c], data[c + 1], data[c + 2], data[c + 3]);
                    RecParse::Rec(
                        RecView { state: state_of(sb), key, value, crc },
                        hsz + ksz + vsz + 4,
                    )
                }
            },
        }
    }
}

/// A parsed record occupies at least six bytes and lies within the data.
pub proof fn lemma_parse_record_size(data: Seq<u8>, off: nat)
    ensures
        match parse_record(data, off) {
            RecParse::Rec(r, size) => {
                &&& 6 <= size
                &&& off + size <= data.len()
                &&& size == record_size(r.key, r.value)
            },
            _ => true,
        },
{
    if off <= data.len() {
        let s = data.subrange(off as int, data.len() as int);
        if s.len() > 0 {
            lemma_varint_parse_size(s.subrange(1, s.len() as int), 10);
            match varint_parse(s.subrange(1, s.len() as int)) {
                Some((ksz, k1)) => {
                    lemma_varint_parse_size(s.subrange(1 + k1 as int, s.len() as int), 10);
                    crate::varint::lemma_varint_len(ksz);
                    match varint_parse(s.subrange(1 + k1 as int, s.len() as int)) {
                        Some((vsz, k2)) => {
                            crate::varint::lemma_varint_len(vsz);
                        },
                        None => {},
                    }
                },
                None => {},
            }
        }
    }
}

// ---------------------------------------------------------------------------
// Byte-buffer helpers.
// ---------------------------------------------------------------------------

/// Appends all of `src` to `out`.
pub fn append_bytes(out: &mut Vec<u8>, src: &[u8])
    ensures
        final(out)@ == old(out)@ + src@,
{
    let mut i: usize = 0;
    while i < src.len()
        invariant
            i <= src@.len(),
            out@ == old(out)@ + src@.subrange(0, i as int),
        decreases src@.len() - i,
    {
        let b = src[i];
        out.push(b);
        proof {
            assert(out@ =~= old(out)@ + src@.subrange(0, i + 1));
        }
        i = i + 1;
    }
    proof {
        assert(out@ =~= old(out)@ + src@);
    }
}

/// A fresh vector holding the same bytes as `v`.
pub fn copy_bytes(v: &Vec<u8>) -> (r: Vec<u8>)
    ensures
        r@ == v@,
{
    slice_to_vec(v.as_slice())
}

// ---------------------------------------------------------------------------
// The codec.
// ---------------------------------------------------------------------------

impl DataEntry {
    /// A record with the given fields.
    pub fn new(key: Vec<u8>, value: Vec<u8>, state: State) -> (r: DataEntry)
        ensures
            r@.key == key@,
            r@.value == value@,
            r@.state == state,
    {
        DataEntry { key, value, state }
    }

    /// Replaces the key.
    pub fn set_key(&mut self, key: Vec<u8>)
        ensures
            final(self)@.key == key@,
            final(self)@.value == old(self)@.value,
            final(self)@.state == old(self)@.state,
    {
        self.key = key;
    }

    /// The key bytes.
    pub fn get_key(&self) -> (r: &Vec<u8>)
        ensures
            r@ == self@.key,
    {
        &self.key
    }

    /// Replaces the value.
    pub fn set_value(&mut self, value: Vec<u8>)
        ensures
            final(self)@.value == value@,
            final(self)@.key == old(self)@.key,
            final(self)@.state == old(self)@.state,
    {
        self.value = value;
    }

    /// The value bytes.
    pub fn get_value(&self) -> (r: &Vec<u8>)
        ensures
            r@ == self@.value,
    {
        &self.value
    }

    /// Replaces the state.
    pub fn set_state(&mut self, state: State)
        ensures
            final(self)@.state == state,
            final(self)@.key == old(self)@.key,
            final(self)@.value == old(self)@.value,
    {
        self.state = state;
    }

    /// The state.
    pub fn get_state(&self) -> (r: State)
        ensures
            r == self@.state,
    {
        self.state
    }

    /// Whether this record is a live put.
    pub fn is_active(&self) -> (r: bool)
        ensures
            r == (self@.state == State::Active),
    {
        match self.state {
            State::Active => true,
            _ => false,
        }
    }

    /// Encodes the record and returns both the bytes and the checksum.
    /// A record with empty key and empty value cannot be written: its
    /// encoding would read back as the end of the log.
    pub fn encode_and_get_crc(&self) -> (r: Result<(Vec<u8>, u32), Error>)
        ensures
            match r {
                Ok((bytes, c)) => {
                    &&& self@.key.len() + self@.value.len() > 0
                    &&& bytes@ == record_bytes(self@.state, self@.key, self@.value)
                    &&& bytes@.len() == record_size(self@.key, self@.value)
                    &&& c == crc32_of(payload_bytes(self@.state, self@.key, self@.value))
                },
                Err(e) => {
                    &&& self@.key.len() == 0
                    &&& self@.value.len() == 0
                    &&& e == Error::Unsupported(Reason::EmptyRecord)
                },
            },
    {
        if self.key.len() == 0 && self.value.len() == 0 {
            return Err(Error::Unsupported(Reason::EmptyRecord));
        }
        let mut buf: Vec<u8> = Vec::new();
        buf.push(self.state.to_byte());
        encode_varint(self.key.len() as u64, &mut buf);
        encode_varint(self.value.len() as u64, &mut buf);
        append_bytes(&mut buf, self.key.as_slice());
        append_bytes(&mut buf, self.value.as_slice());
        proof {
            assert(buf@ =~= payload_bytes(self@.state, self@.key, self@.value));
        }
        let c = crc32(buf.as_slice());
        crate::varint::push_be32(&mut buf, c);
        proof {
            assert(buf@ =~= record_bytes(self@.state, self@.key, self@.value));
            lemma_record_bytes_size(self@.state, self@.key, self@.value);
        }
        Ok((buf, c))
    }

    /// Encodes the record.
    pub fn encode(&self) -> (r: Result<Vec<u8>, Error>)
        ensures
            match r {
                Ok(bytes) => {
                    &&& self@.key.len() + self@.value.len() > 0
                    &&& bytes@ == record_bytes(self@.state, self@.key, self@.value)
                    &&& bytes@.len() == record_size(self@.key, self@.value)
                },
                Err(e) => {
                    &&& self@.key.len() == 0
                    &&& self@.value.len() == 0
                    &&& e == Error::Unsupported(Reason::EmptyRecord)
                },
            },
    {
        match self.encode_and_get_crc() {
            Ok((bytes, _)) => Ok(bytes),
            Err(e) => Err(e),
        }
    }

    /// The checksum of the record's payload.
    pub fn get_crc(&self) -> (r: Result<u32, Error>)
        ensures
            match r {
                Ok(c) => {
                    &&& self@.key.len() + self@.value.len() > 0
                    &&& c == crc32_of(payload_bytes(self@.state, self@.key, self@.value))
                },
                Err(e) => {
                    &&& self@.key.len() == 0
                    &&& self@.value.len() == 0
                    &&& e == Error::Unsupported(Reason::EmptyRecord)
                },
            },
    {
        match self.encode_and_get_crc() {
            Ok((_, c)) => Ok(c),
            Err(e) => Err(e),
        }
    }

    /// Reads a record header from the front of `buf`: the state byte, the
    /// two sizes, and the canonical header length. Truncated data and the
    /// end-of-log marker both come back as an end-of-file error.
    pub fn decode_header(buf: &[u8]) -> (r: Result<(usize, usize, usize, u8), Error>)
        ensures
            match header_parse(buf@) {
                HeaderParse::Header(sb0, ksz0, vsz0, hsz0) => hsz0 <= 21,
                HeaderParse::Eof => true,
            },
            match header_parse(buf@) {
                HeaderParse::Eof => r == Err::<(usize, usize, usize, u8), Error>(
                    Error::Io(IoKind::UnexpectedEof),
                ),
                HeaderParse::Header(sb, ksz, vsz, hsz) => {
                    if ksz <= usize::MAX && vsz <= usize::MAX {
                        r == Ok::<(usize, usize, usize, u8), Error>(
                            (ksz as usize, vsz as usize, hsz as usize, sb),
                        )
                    } else {
                        r == Err::<(usize, usize, usize, u8), Error>(
                            Error::Io(IoKind::UnexpectedEof),
                        )
                    }
                },
            },
    {
        proof {
            lemma_header_size_bound(buf@);
        }
        if buf.len() == 0 {
            return Err(Error::Io(IoKind::UnexpectedEof));
        }
        let state_b = buf[0];
        proof {
            assert(buf@.subrange(1, buf@.len() as int) =~= buf@.subrange(0, buf@.len() as int)
                .subrange(1, buf@.len() as int));
        }
        let (ksz, k1) = match decode_varint(buf, 1) {
            Some(x) => x,
            None => {
                return Err(Error::Io(IoKind::UnexpectedEof));
            },
        };
        proof {
            lemma_varint_parse_size(buf@.subrange(1, buf@.len() as int), 10);
        }
        let (vsz, k2) = match decode_varint(buf, 1 + k1) {
            Some(x) => x,
            None => {
                return Err(Error::Io(IoKind::UnexpectedEof));
            },
        };
        proof {
            lemma_varint_parse_size(buf@.subrange(1 + k1 as int, buf@.len() as int), 10);
        }
        if ksz == 0 && vsz == 0 {
            return Err(Error::Io(IoKind::UnexpectedEof));
        }
        proof {
            lemma_varint_len_u64(ksz as nat);
            lemma_varint_len_u64(vsz as nat);
        }
        let ks_len = varint_size(ksz);
        let vs_len = varint_size(vsz);
        if k1 != ks_len || k2 != vs_len {
            return Err(Error::Io(IoKind::UnexpectedEof));
        }
        if ksz > usize::MAX as u64 || vsz > usize::MAX as u64 {
            return Err(Error::Io(IoKind::UnexpectedEof));
        }
        let hsz = 1 + ks_len + vs_len;
        Ok((ksz as usize, vsz as usize, hsz, state_b))
    }

    /// Decodes a record body: `ksz` key bytes, `vsz` value bytes, and the
    /// stored checksum. Succeeds exactly when the stored checksum matches
    /// the checksum of the record's fields.
    pub fn decode(body: &[u8], ksz: usize, vsz: usize, state: u8) -> (r: Result<DataEntry, Error>)
        requires
            body@.len() == ksz + vsz + 4,
            state < 3,
        ensures
            ({
                let key = body@.subrange(0, ksz as int);
                let value = body@.subrange(ksz as int, ksz + vsz);
                let c = ksz + vsz;
                let stored = be32_value(body@[c], body@[c + 1], body@[c + 2], body@[c + 3]);
                if ksz + vsz == 0 {
                    r == Err::<DataEntry, Error>(Error::Unsupported(Reason::EmptyRecord))
                } else {
                    match r {
                        Ok(e) => {
                            &&& e@.key == key
                            &&& e@.value == value
                            &&& e@.state == state_of(state)
                            &&& stored == crc32_of(payload_bytes(state_of(state), key, value))
                        },
                        Err(e) => {
                            &&& e == Error::Unsupported(Reason::CrcMismatch)
                            &&& stored != crc32_of(payload_bytes(state_of(state), key, value))
                        },
                    }
                }
            }),
    {
        let total = body.len();
        let key = slice_to_vec(slice_subrange(body, 0, ksz));
        let value = slice_to_vec(slice_subrange(body, ksz, total - 4));
        let st = match State::from_byte(state) {
            Some(s) => s,
            None => {
                return Err(Error::Unsupported(Reason::BadState));
            },
        };
        let entry = DataEntry { key, value, state: st };
        let computed = match entry.get_crc() {
            Ok(c) => c,
            Err(e) => {
                // A body with both sizes zero cannot carry a checksummed
                // record; its shape is the end-of-log marker.
                return Err(e);
            },
        };
        let stored = read_be32(body, ksz + vsz);
        if stored != computed {
            return Err(Error::Unsupported(Reason::CrcMismatch));
        }
        Ok(entry)
    }
}

/// Whatever sizes a header parses to, their varints are short, so the
/// canonical header is at most 21 bytes.
pub proof fn lemma_header_size_bound(s: Seq<u8>)
    ensures
        match header_parse(s) {
            HeaderParse::Header(sb, ksz, vsz, hsz) => hsz <= 21,
            HeaderParse::Eof => true,
        },
{
    if s.len() > 0 {
        lemma_varint_parse_size(s.subrange(1, s.len() as int), 10);
        match varint_parse(s.subrange(1, s.len() as int)) {
            Some((ksz, k1)) => {
                lemma_varint_parse_size(s.subrange(1 + k1 as int, s.len() as int), 10);
                crate::varint::lemma_varint_len_bound(ksz, 10);
                match varint_parse(s.subrange(1 + k1 as int, s.len() as int)) {
                    Some((vsz, _)) => {
                        crate::varint::lemma_varint_len_bound(vsz, 10);
                    },
                    None => {},
                }
            },
            None => {},
        }
    }
}

/// A record fully parsed out of `data` reads the same after bytes are
/// appended to `data`: the log is append-only and settled records stand.
pub proof fn lemma_parse_record_extend(data: Seq<u8>, ext: Seq<u8>, off: nat)
    requires
        parse_record(data, off) is Rec,
    ensures
        parse_record(data + ext, off) == parse_record(data, off),
{
    let t = data + ext;
    let s0 = data.subrange(off as int, data.len() as int);
    let t0 = t.subrange(off as int, t.len() as int);
    assert(s0 == t0.subrange(0, s0.len() as int)) by {
        assert forall|j: int| 0 <= j < s0.len() implies #[trigger] s0[j] == t0.subrange(
            0,
            s0.len() as int,
        )[j] by {
            assert(s0[j] == data[off + j]);
            assert(t0[j] == t[off + j]);
        }
        assert(s0 =~= t0.subrange(0, s0.len() as int));
    }
    assert(s0.len() > 0);
    assert(t0[0] == s0[0]) by {
        assert(t0.subrange(0, s0.len() as int)[0] == t0[0]);
    }
    let s1 = s0.subrange(1, s0.len() as int);
    let t1 = t0.subrange(1, t0.len() as int);
    assert(s1 == t1.subrange(0, s1.len() as int)) by {
        assert forall|j: int| 0 <= j < s1.len() implies #[trigger] s1[j] == t1.subrange(
            0,
            s1.len() as int,
        )[j] by {
            assert(s1[j] == s0[j + 1]);
            assert(t1[j] == t0[j + 1]);
            assert(t0.subrange(0, s0.len() as int)[j + 1] == t0[j + 1]);
        }
        assert(s1 =~= t1.subrange(0, s1.len() as int));
    }
    crate::varint::lemma_varint_parse_extend(s1, t1, 10);
    let (ksz, k1) = varint_parse(s1)->Some_0;
    let s2 = s0.subrange(1 + k1 as int, s0.len() as int);
    let t2 = t0.subrange(1 + k1 as int, t0.len() as int);
    lemma_varint_parse_size(s1, 10);
    assert(s2 == t2.subrange(0, s2.len() as int)) by {
        assert forall|j: int| 0 <= j < s2.len() implies #[trigger] s2[j] == t2.subrange(
            0,
            s2.len() as int,
        )[j] by {
            assert(s2[j] == s0[1 + k1 + j]);
            assert(t2[j] == t0[1 + k1 + j]);
            assert(t0.subrange(0, s0.len() as int)[1 + k1 + j] == t0[1 + k1 + j]);
        }
        assert(s2 =~= t2.subrange(0, s2.len() as int));
    }
    crate::varint::lemma_varint_parse_extend(s2, t2, 10);
    assert(header_parse(t0) == header_parse(s0));
    match header_parse(s0) {
        HeaderParse::Header(sb, hk, hv, hs) => {
            assert(off + hs + hk + hv + 4 <= data.len());
            assert(data.subrange(off + hs as int, (off + hs + hk) as int) =~= t.subrange(
                off + hs as int,
                (off + hs + hk) as int,
            ));
            assert(data.subrange((off + hs + hk) as int, (off + hs + hk + hv) as int) =~= t
                .subrange((off + hs + hk) as int, (off + hs + hk + hv) as int));
            let c = (off + hs + hk + hv) as int;
            assert(data[c] == t[c]);
            assert(data[c + 1] == t[c + 1]);
            assert(data[c + 2] == t[c + 2]);
            assert(data[c + 3] == t[c + 3]);
        },
        _ => {},
    }
}

/// A record fully contained in a prefix of the data parses the same from
/// the prefix alone: cutting unwritten bytes off the end of a segment does
/// not disturb the records before them.
pub proof fn lemma_parse_record_restrict(data: Seq<u8>, m: int, off: nat)
    requires
        parse_record(data, off) is Rec,
        off + parse_record(data, off)->Rec_1 <= m <= data.len(),
    ensures
        parse_record(data.subrange(0, m), off) == parse_record(data, off),
{
    let p = data.subrange(0, m);
    lemma_parse_record_size(data, off);
    let t0 = data.subrange(off as int, data.len() as int);
    let s0 = p.subrange(off as int, m);
    assert(s0 == t0.subrange(0, s0.len() as int)) by {
        assert forall|j: int| 0 <= j < s0.len() implies #[trigger] s0[j] == t0.subrange(
            0,
            s0.len() as int,
        )[j] by {
            assert(s0[j] == data[off + j]);
            assert(t0[j] == data[off + j]);
        }
        assert(s0 =~= t0.subrange(0, s0.len() as int));
    }
    assert(t0[0] == s0[0]) by {
        assert(t0.subrange(0, s0.len() as int)[0] == t0[0]);
    }
    let t1 = t0.subrange(1, t0.len() as int);
    let s1 = s0.subrange(1, s0.len() as int);
    assert(s1 == t1.subrange(0, s1.len() as int)) by {
        assert forall|j: int| 0 <= j < s1.len() implies #[trigger] s1[j] == t1.subrange(
            0,
            s1.len() as int,
        )[j] by {
            assert(s1[j] == s0[j + 1]);
            assert(t1[j] == t0[j + 1]);
            assert(t0.subrange(0, s0.len() as int)[j + 1] == t0[j + 1]);
        }
        assert(s1 =~= t1.subrange(0, s1.len() as int));
    }
    lemma_varint_parse_size(t1, 10);
    let (ksz, k1) = varint_parse(t1)->Some_0;
    assert(k1 + 1 <= m - off) by {
        match header_parse(t0) {
            HeaderParse::Header(sb, hk, hv, hs) => {
                assert(hs == 1 + k1 + varint_parse(t0.subrange(1 + k1 as int, t0.len() as int))->Some_0.1);
            },
            _ => {},
        }
    }
    crate::varint::lemma_varint_parse_restrict(s1, t1, 10);
    let t2 = t0.subrange(1 + k1 as int, t0.len() as int);
    let s2 = s0.subrange(1 + k1 as int, s0.len() as int);
    assert(s2 == t2.subrange(0, s2.len() as int)) by {
        assert forall|j: int| 0 <= j < s2.len() implies #[trigger] s2[j] == t2.subrange(
            0,
            s2.len() as int,
        )[j] by {
            assert(s2[j] == s0[1 + k1 + j]);
            assert(t2[j] == t0[1 + k1 + j]);
            assert(t0.subrange(0, s0.len() as int)[1 + k1 + j] == t0[1 + k1 + j]);
        }
        assert(s2 =~= t2.subrange(0, s2.len() as int));
    }
    lemma_varint_parse_size(t2, 10);
    crate::varint::lemma_varint_parse_restrict(s2, t2, 10);
    assert(header_parse(s0) == header_parse(t0));
    match header_parse(t0) {
        HeaderParse::Header(sb, hk, hv, hs) => {
            assert(off + hs + hk + hv + 4 <= m);
            assert(p.subrange(off + hs as int, (off + hs + hk) as int) =~= data.subrange(
                off + hs as int,
                (off + hs + hk) as int,
            ));
            assert(p.subrange((off + hs + hk) as int, (off + hs + hk + hv) as int) =~= data
                .subrange((off + hs + hk) as int, (off + hs + hk + hv) as int));
            let c = (off + hs + hk + hv) as int;
            assert(p[c] == data[c]);
            assert(p[c + 1] == data[c + 1]);
            assert(p[c + 2] == data[c + 2]);
            assert(p[c + 3] == data[c + 3]);
        },
        _ => {},
    }
}

/// The encoding of a record has exactly `record_size` bytes.
pub proof fn lemma_record_bytes_size(state: State, key: Seq<u8>, value: Seq<u8>)
    ensures
        record_bytes(state, key, value).len() == record_size(key, value),
{
}

/// Parsing an encoded record out of any surrounding bytes yields exactly its
/// fields and its size, with a matching checksum.
#[verifier::rlimit(80)]
pub proof fn lemma_parse_record_of_encoding(
    prefix: Seq<u8>,
    state: State,
    key: Seq<u8>,
    value: Seq<u8>,
    rest: Seq<u8>,
)
    requires
        key.len() + value.len() > 0,
        key.len() <= u64::MAX,
        value.len() <= u64::MAX,
    ensures
        ({
            let data = prefix + record_bytes(state, key, value) + rest;
            parse_record(data, prefix.len()) == RecParse::Rec(
                RecView {
                    state,
                    key,
                    value,
                    crc: crc32_of(payload_bytes(state, key, value)),
                },
                record_size(key, value),
            )
        }),
{
    let data = prefix + record_bytes(state, key, value) + rest;
    let off = prefix.len();
    let payload = payload_bytes(state, key, value);
    let crc = crc32_of(payload);
    let cb = be32_bytes(crc);
    let k1 = varint_len(key.len());
    let k2 = varint_len(value.len());
    let s = data.subrange(off as int, data.len() as int);
    assert(s =~= record_bytes(state, key, value) + rest);
    lemma_varint_len_u64(key.len());
    lemma_varint_len_u64(value.len());

    // The header: state byte, then the two size varints.
    assert(s[0] == state_byte(state));
    assert(s.subrange(1, s.len() as int) =~= varint_bytes(key.len()) + (varint_bytes(value.len())
        + key + value + cb + rest));
    lemma_varint_roundtrip(key.len(), varint_bytes(value.len()) + key + value + cb + rest, 10);
    assert(varint_parse(s.subrange(1, s.len() as int)) == Some((key.len(), k1)));
    assert(s.subrange(1 + k1 as int, s.len() as int) =~= varint_bytes(value.len()) + (key + value
        + cb + rest));
    lemma_varint_roundtrip(value.len(), key + value + cb + rest, 10);
    assert(varint_parse(s.subrange(1 + k1 as int, s.len() as int)) == Some((value.len(), k2)));
    let hsz = 1 + k1 + k2;
    assert(header_parse(s) == HeaderParse::Header(state_byte(state), key.len(), value.len(), hsz));
    assert(state_byte(state) < 3);
    assert(state_of(state_byte(state)) == state);

    // The body: key, value, checksum, all within bounds.
    let total = hsz + key.len() + value.len() + 4;
    assert(off + total <= data.len());
    assert(data.subrange(off + hsz as int, (off + hsz + key.len()) as int) =~= key);
    assert(data.subrange(
        (off + hsz + key.len()) as int,
        (off + hsz + key.len() + value.len()) as int,
    ) =~= value);
    let c = (off + hsz + key.len() + value.len()) as int;
    assert(data[c] == cb[0]);
    assert(data[c + 1] == cb[1]);
    assert(data[c + 2] == cb[2]);
    assert(data[c + 3] == cb[3]);
    lemma_be32_roundtrip(crc);
}

} // verus!
