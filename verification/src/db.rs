//! The store itself: segments, index, and the point operations.
//!
//! A store holds one active segment receiving appends, a sorted set of
//! immutable inactive segments, the index of live keys, and the next
//! sequence number. Each operation's contract is stated over `live_value`,
//! the value a key currently reads back, derived from the concrete bytes.

use crate::batch::encode_transaction_key;
use crate::batch::txn_key_bytes;
use crate::crc::crc32_of;
use crate::entry::copy_bytes;
use crate::entry::payload_bytes;
use crate::entry::EntryView;
use crate::entry::RecView;
use crate::entry::lemma_parse_record_extend;
use crate::entry::lemma_parse_record_restrict;
use crate::entry::lemma_parse_record_of_encoding;
use crate::entry::lemma_parse_record_size;
use crate::entry::lemma_record_bytes_size;
use crate::entry::parse_record;
use crate::entry::rec_crc_ok;
use crate::entry::record_bytes;
use crate::entry::record_size;
use crate::entry::DataEntry;
use crate::entry::RecParse;
use crate::entry::State;
use crate::file_handle::FileHandle;
use crate::index::IndexMode;
use crate::keydir::KeyDirEntry;
use crate::keydir::KeyDirView;
use crate::options::validate_options;
use crate::options::validate_spec;
use crate::options::Context;
use crate::options::Opts;
use crate::result::Error;
use crate::result::IoKind;
use crate::result::Reason;
use vstd::map::*;
use vstd::prelude::*;

verus! {

/// The sequence number of non-transactional writes.
pub const NON_COMMITTED: u32 = 0;

/// The parsed form an in-memory record takes once encoded and read back:
/// its own fields, under a checksum that matches them.
pub open spec fn rec_of(e: EntryView) -> RecView {
    RecView { state: e.state, key: e.key, value: e.value, crc: crc32_of(payload_bytes(e.state, e.key, e.value)) }
}

/// An open store.
pub struct Db {
    /// The options and the index of live keys.
    pub ctx: Context,
    /// The segment receiving appends; highest id.
    pub active_file: FileHandle,
    /// The immutable segments, ascending by id, all below the active id.
    pub inactive_files: Vec<FileHandle>,
    /// The id of the active segment.
    pub file_id: u32,
    /// The next sequence number a batch commit will take.
    pub sequence_number: u32,
}

impl Db {
    /// Whether some inactive segment carries the id.
    pub open spec fn inactive_has(&self, fid: u32) -> bool {
        exists|i: int|
            0 <= i < self.inactive_files@.len() && #[trigger] self.inactive_files@[i].data.file_id
                == fid
    }

    /// The position of the inactive segment carrying the id.
    pub open spec fn inactive_at(&self, fid: u32) -> int {
        choose|i: int|
            0 <= i < self.inactive_files@.len() && #[trigger] self.inactive_files@[i].data.file_id
                == fid
    }

    /// Whether a segment with the id exists at all.
    pub open spec fn seg_exists(&self, fid: u32) -> bool {
        fid == self.active_file.data.file_id || self.inactive_has(fid)
    }

    /// The bytes of the segment with the id.
    pub open spec fn seg_data(&self, fid: u32) -> Seq<u8> {
        if fid == self.active_file.data.file_id {
            self.active_file.content@
        } else {
            self.inactive_files@[self.inactive_at(fid)].content@
        }
    }

    /// The locator the index holds for a key, if any.
    pub open spec fn lookup(&self, k: Seq<u8>) -> Option<KeyDirView> {
        if self.ctx.index@.contains_key(k) {
            Some(self.ctx.index@[k])
        } else {
            None
        }
    }

    /// What `get` answers for a key the index points somewhere: exactly one
    /// of the read errors, or the record's value.
    pub open spec fn read_spec(&self, loc: KeyDirView) -> Result<Seq<u8>, Error> {
        if !self.seg_exists(loc.file_id) {
            Err(Error::Unsupported(Reason::FileNotFound))
        } else {
            match parse_record(self.seg_data(loc.file_id), loc.offset as nat) {
                RecParse::Eof => Err(Error::Io(IoKind::UnexpectedEof)),
                RecParse::BadState => Err(Error::Unsupported(Reason::BadState)),
                RecParse::Rec(rec, size) => {
                    if !rec_crc_ok(rec) {
                        Err(Error::Unsupported(Reason::CrcMismatch))
                    } else if rec.state != State::Active {
                        Err(Error::Unsupported(Reason::EntryRemoved))
                    } else {
                        Ok(rec.value)
                    }
                },
            }
        }
    }

    /// What `get` answers for a key, in full.
    pub open spec fn get_spec(&self, key: Seq<u8>) -> Result<Seq<u8>, Error> {
        if key.len() == 0 || key.len() > self.ctx.opts.max_key_size {
            Err(Error::Unsupported(Reason::KeyTooLarge))
        } else {
            match self.lookup(key) {
                None => Err(Error::Unsupported(Reason::KeyNotFound)),
                Some(loc) => self.read_spec(loc),
            }
        }
    }

    /// The value a key currently reads back, if a clean read of it would
    /// succeed.
    pub open spec fn live_value(&self, k: Seq<u8>) -> Option<Seq<u8>> {
        match self.lookup(k) {
            None => None,
            Some(loc) => match self.read_spec(loc) {
                Ok(v) => Some(v),
                Err(_) => None,
            },
        }
    }

    /// Whether a locator points at exactly the encoding of a record with
    /// the given fields: its segment exists and parses there to the fields
    /// under a matching checksum.
    pub open spec fn loc_holds(&self, loc: KeyDirView, e: EntryView) -> bool {
        &&& self.seg_exists(loc.file_id)
        &&& parse_record(self.seg_data(loc.file_id), loc.offset as nat) == RecParse::Rec(
            rec_of(e),
            record_size(e.key, e.value),
        )
    }

    /// A locator the index may hold: within the active segment it must
    /// denote a settled, fully parsed record; elsewhere its segment must
    /// exist.
    pub open spec fn loc_wf(&self, loc: KeyDirView) -> bool {
        if loc.file_id == self.active_file.data.file_id {
            parse_record(self.active_file.content@, loc.offset as nat) is Rec
        } else {
            self.inactive_has(loc.file_id)
        }
    }

    /// The run of segments a reopen of this store would read, ascending
    /// by id: the settled segments, then the active one.
    pub open spec fn seg_run(&self) -> Seq<FileHandle> {
        self.inactive_files@.push(self.active_file)
    }

    /// A clean log: the recovery scan of the active segment reaches its
    /// very end, so appended records extend recovery's reading one for one.
    pub open spec fn log_clean(&self) -> bool {
        scan_end(self.active_file.content@, 0) == self.active_file.content@.len()
    }

    /// The store's invariant.
    pub open spec fn wf(&self) -> bool {
        &&& validate_spec(&self.ctx.opts) is Ok
        &&& self.ctx.index.wf()
        &&& forall|i: int, j: int|
            0 <= i < j < self.inactive_files@.len() ==> (#[trigger] self.inactive_files@[i]).data.file_id
                < (#[trigger] self.inactive_files@[j]).data.file_id
        &&& forall|i: int|
            0 <= i < self.inactive_files@.len() ==> (#[trigger] self.inactive_files@[i]).data.file_id
                < self.active_file.data.file_id
        &&& self.file_id == self.active_file.data.file_id
        &&& self.active_file.data.offset == self.active_file.content@.len()
        &&& forall|k: Seq<u8>|
            #[trigger] self.ctx.index@.contains_key(k) ==> self.loc_wf(self.ctx.index@[k])
    }

    /// The inactive segment at a position is the one its id finds.
    pub proof fn lemma_inactive_at(&self, i: int)
        requires
            self.wf(),
            0 <= i < self.inactive_files@.len(),
        ensures
            self.inactive_has(self.inactive_files@[i].data.file_id),
            self.inactive_at(self.inactive_files@[i].data.file_id) == i,
            !(self.inactive_files@[i].data.file_id == self.active_file.data.file_id),
            self.seg_data(self.inactive_files@[i].data.file_id)
                == self.inactive_files@[i].content@,
    {
        let fid = self.inactive_files@[i].data.file_id;
        assert(self.inactive_has(fid));
        let j = self.inactive_at(fid);
        assert(0 <= j < self.inactive_files@.len() && self.inactive_files@[j].data.file_id == fid);
        if i < j {
            assert(self.inactive_files@[i].data.file_id < self.inactive_files@[j].data.file_id);
        }
        if j < i {
            assert(self.inactive_files@[j].data.file_id < self.inactive_files@[i].data.file_id);
        }
    }

    /// Whether appending `len` more bytes would push the active segment
    /// over the rotation threshold.
    pub open spec fn needs_rotation(&self, len: nat) -> bool {
        self.active_file.data.offset + len > self.ctx.opts.data_file_size
    }

    /// Seals the active segment and starts a fresh one under the next id.
    /// Everything already written, and every key's readable value, stays
    /// exactly as it was.
    pub fn rotate_active_file(&mut self) -> (r: Result<(), Error>)
        requires
            old(self).wf(),
        ensures
            final(self).ctx == old(self).ctx,
            final(self).sequence_number == old(self).sequence_number,
            match r {
                Ok(()) => {
                    &&& old(self).file_id < u32::MAX
                    &&& final(self).wf()
                    &&& final(self).file_id == old(self).file_id + 1
                    &&& final(self).active_file.content@ == Seq::<u8>::empty()
                    &&& final(self).active_file.data.offset == 0
                    &&& final(self).inactive_files@ == old(self).inactive_files@.push(
                        old(self).active_file,
                    )
                    &&& forall|fid: u32|
                        #[trigger] old(self).seg_exists(fid) ==> final(self).seg_exists(fid)
                            && final(self).seg_data(fid) == old(self).seg_data(fid)
                    &&& forall|fid: u32|
                        #[trigger] final(self).seg_exists(fid) <==> (old(self).seg_exists(fid)
                            || fid == old(self).file_id + 1)
                    &&& forall|k: Seq<u8>|
                        #[trigger] final(self).live_value(k) == old(self).live_value(k)
                },
                Err(e) => {
                    &&& e == Error::Unsupported(Reason::CounterExhausted)
                    &&& old(self).file_id == u32::MAX
                    &&& *final(self) == *old(self)
                },
            },
    {
        if self.file_id == u32::MAX {
            return Err(Error::Unsupported(Reason::CounterExhausted));
        }
        let ghost olds = *self;
        let new_id = self.file_id + 1;
        let mut new_file = FileHandle::new(new_id, Vec::new());
        core::mem::swap(&mut self.active_file, &mut new_file);
        self.inactive_files.push(new_file);
        self.file_id = new_id;
        proof {
            self.lemma_rotation_frame(olds);
        }
        Ok(())
    }

    /// After a rotation, every existing segment keeps its bytes, every
    /// index entry stays well-placed, and every key reads as before.
    proof fn lemma_rotation_frame(&self, olds: Db)
        requires
            olds.wf(),
            olds.file_id < u32::MAX,
            self.ctx == olds.ctx,
            self.file_id == olds.file_id + 1,
            self.active_file.data.file_id == olds.file_id + 1,
            self.active_file.content@ == Seq::<u8>::empty(),
            self.active_file.data.offset == 0,
            self.inactive_files@ == olds.inactive_files@.push(olds.active_file),
        ensures
            self.wf(),
            forall|fid: u32|
                #[trigger] olds.seg_exists(fid) ==> self.seg_exists(fid) && self.seg_data(fid)
                    == olds.seg_data(fid),
            forall|fid: u32|
                #[trigger] self.seg_exists(fid) <==> (olds.seg_exists(fid) || fid == olds.file_id
                    + 1),
            forall|k: Seq<u8>| #[trigger] self.live_value(k) == olds.live_value(k),
    {
        let n = olds.inactive_files@.len() as int;
        assert forall|i: int, j: int| 0 <= i < j < self.inactive_files@.len() implies (
        #[trigger] self.inactive_files@[i]).data.file_id < (
        #[trigger] self.inactive_files@[j]).data.file_id by {
            if j < n {
                assert(self.inactive_files@[i] == olds.inactive_files@[i]);
                assert(self.inactive_files@[j] == olds.inactive_files@[j]);
            } else {
                assert(self.inactive_files@[j] == olds.active_file);
                assert(self.inactive_files@[i] == olds.inactive_files@[i]);
            }
        }
        assert forall|i: int| 0 <= i < self.inactive_files@.len() implies (
        #[trigger] self.inactive_files@[i]).data.file_id < self.active_file.data.file_id by {
            if i < n {
                assert(self.inactive_files@[i] == olds.inactive_files@[i]);
            } else {
                assert(self.inactive_files@[i] == olds.active_file);
            }
        }
        assert forall|fid: u32| #[trigger] olds.seg_exists(fid) implies self.seg_exists(fid)
            && self.seg_data(fid) == olds.seg_data(fid) by {
            self.lemma_seg_moved(olds, fid);
        }
        assert forall|fid: u32| #[trigger] self.seg_exists(fid) implies (olds.seg_exists(fid)
            || fid == olds.file_id + 1) by {
            if fid != self.active_file.data.file_id {
                let i = self.inactive_at(fid);
                if i < n {
                    assert(olds.inactive_files@[i].data.file_id == fid);
                } else {
                    assert(self.inactive_files@[i] == olds.active_file);
                }
            }
        }
        assert(self.wf()) by {
            assert forall|k: Seq<u8>| #[trigger] self.ctx.index@.contains_key(k) implies
                self.loc_wf(self.ctx.index@[k]) by {
                let loc = self.ctx.index@[k];
                assert(olds.loc_wf(loc));
                if loc.file_id == olds.active_file.data.file_id {
                    assert(self.inactive_files@[n].data.file_id == loc.file_id);
                    assert(self.inactive_has(loc.file_id));
                } else if olds.inactive_has(loc.file_id) {
                    let i = olds.inactive_at(loc.file_id);
                    assert(self.inactive_files@[i].data.file_id == loc.file_id);
                    assert(self.inactive_has(loc.file_id));
                }
            }
        }
        assert forall|k: Seq<u8>| #[trigger] self.live_value(k) == olds.live_value(k) by {
            match olds.lookup(k) {
                None => {},
                Some(loc) => {
                    if olds.seg_exists(loc.file_id) {
                        self.lemma_seg_moved(olds, loc.file_id);
                    } else {
                        if self.seg_exists(loc.file_id) {
                            assert(loc.file_id == olds.file_id + 1);
                            assert(self.seg_data(loc.file_id) == Seq::<u8>::empty());
                            assert(parse_record(self.seg_data(loc.file_id), loc.offset as nat)
                                is Eof);
                        }
                    }
                },
            }
        }
    }

    /// Extending the active segment leaves every existing record, and so
    /// every key's readable value, exactly as it was.
    proof fn lemma_extend_frame(&self, mid: Db, ext: Seq<u8>)
        requires
            mid.wf(),
            self.ctx == mid.ctx,
            self.file_id == mid.file_id,
            self.inactive_files@ == mid.inactive_files@,
            self.active_file.data.file_id == mid.active_file.data.file_id,
            self.active_file.content@ == mid.active_file.content@ + ext,
            self.active_file.data.offset == self.active_file.content@.len(),
        ensures
            self.wf(),
            forall|fid: u32| #[trigger] self.seg_exists(fid) <==> mid.seg_exists(fid),
            forall|fid: u32|
                mid.seg_exists(fid) && fid != mid.active_file.data.file_id
                    ==> #[trigger] self.seg_data(fid) == mid.seg_data(fid),
            forall|k: Seq<u8>| #[trigger] self.live_value(k) == mid.live_value(k),
    {
        assert forall|fid: u32| #[trigger] self.seg_exists(fid) <==> mid.seg_exists(fid) by {}
        assert forall|fid: u32|
            mid.seg_exists(fid) && fid != mid.active_file.data.file_id implies #[trigger] self.seg_data(
            fid,
        ) == mid.seg_data(fid) by {}
        assert forall|k: Seq<u8>| #[trigger] self.ctx.index@.contains_key(k) implies self.loc_wf(
            self.ctx.index@[k],
        ) by {
            let loc = self.ctx.index@[k];
            assert(mid.loc_wf(loc));
            if loc.file_id == mid.active_file.data.file_id {
                lemma_parse_record_extend(mid.active_file.content@, ext, loc.offset as nat);
            }
        }
        assert forall|k: Seq<u8>| #[trigger] self.live_value(k) == mid.live_value(k) by {
            match mid.lookup(k) {
                None => {},
                Some(loc) => {
                    assert(mid.loc_wf(loc));
                    if loc.file_id == mid.active_file.data.file_id {
                        lemma_parse_record_extend(mid.active_file.content@, ext, loc.offset as nat);
                    }
                },
            }
        }
    }

    /// Appends one encoded record to the log, rotating the active segment
    /// first if the record would push it over the threshold. Returns the
    /// locator of the freshly written record. No key's readable value
    /// changes: the index is untouched and settled records stand.
    pub fn append_entry(&mut self, entry: &DataEntry) -> (r: Result<KeyDirEntry, Error>)
        requires
            old(self).wf(),
        ensures
            final(self).ctx == old(self).ctx,
            final(self).sequence_number == old(self).sequence_number,
            match r {
                Ok(loc) => {
                    &&& entry@.key.len() + entry@.value.len() > 0
                    &&& record_size(entry@.key, entry@.value) <= u32::MAX
                    &&& final(self).wf()
                    &&& loc@.file_id == final(self).file_id
                    &&& loc@.size == record_size(entry@.key, entry@.value)
                    &&& if old(self).needs_rotation(record_size(entry@.key, entry@.value)) {
                        &&& final(self).file_id == old(self).file_id + 1
                        &&& final(self).inactive_files@ == old(self).inactive_files@.push(
                            old(self).active_file,
                        )
                        &&& final(self).active_file.content@ == record_bytes(
                            entry@.state,
                            entry@.key,
                            entry@.value,
                        )
                        &&& loc@.offset == 0
                    } else {
                        &&& final(self).file_id == old(self).file_id
                        &&& final(self).inactive_files@ == old(self).inactive_files@
                        &&& final(self).active_file.content@ == old(self).active_file.content@
                            + record_bytes(entry@.state, entry@.key, entry@.value)
                        &&& loc@.offset == old(self).active_file.content@.len()
                    }
                    &&& parse_record(final(self).active_file.content@, loc@.offset as nat)
                        == RecParse::Rec(rec_of(entry@), record_size(entry@.key, entry@.value))
                    &&& final(self).loc_holds(loc@, entry@)
                    &&& forall|loc2: KeyDirView, e2: EntryView|
                        #[trigger] old(self).loc_holds(loc2, e2) ==> final(self).loc_holds(
                            loc2,
                            e2,
                        )
                    &&& forall|fid: u32|
                        #[trigger] old(self).seg_exists(fid) ==> final(self).seg_exists(fid)
                    &&& forall|fid: u32|
                        old(self).seg_exists(fid) && fid != final(self).file_id
                            ==> #[trigger] final(self).seg_data(fid) == old(self).seg_data(fid)
                    &&& forall|fid: u32|
                        #[trigger] final(self).seg_exists(fid) ==> (old(self).seg_exists(fid)
                            || fid == final(self).file_id)
                    &&& forall|k: Seq<u8>|
                        #[trigger] final(self).live_value(k) == old(self).live_value(k)
                    &&& (old(self).log_clean() && crate::batch::txn_parse(entry@.key) is Some
                        ==> final(self).log_clean() && seg_items(final(self).seg_run())
                        == seg_items(old(self).seg_run()).push(
                        ScanItem {
                            seq: crate::batch::txn_parse(entry@.key)->Some_0.0,
                            ukey: crate::batch::txn_parse(entry@.key)->Some_0.1,
                            state: entry@.state,
                            loc: loc@,
                        },
                    ))
                },
                Err(e) => {
                    &&& *final(self) == *old(self)
                    &&& if entry@.key.len() + entry@.value.len() == 0 {
                        e == Error::Unsupported(Reason::EmptyRecord)
                    } else if record_size(entry@.key, entry@.value) > u32::MAX {
                        e == Error::Unsupported(Reason::ValueTooLarge)
                    } else {
                        &&& e == Error::Unsupported(Reason::CounterExhausted)
                        &&& old(self).needs_rotation(record_size(entry@.key, entry@.value))
                        &&& old(self).file_id == u32::MAX
                    }
                },
            },
    {
        let ghost olds = *self;
        let encoded = match entry.encode() {
            Ok(b) => b,
            Err(e) => {
                return Err(e);
            },
        };
        if encoded.len() > u32::MAX as usize {
            return Err(Error::Unsupported(Reason::ValueTooLarge));
        }
        let reclen = encoded.len() as u64;
        let offset = self.active_file.get_offset();
        let dfs = self.ctx.opts.data_file_size;
        if offset >= dfs || reclen > dfs - offset {
            let _synced = self.active_file.sync();
            match self.rotate_active_file() {
                Ok(()) => {},
                Err(e) => {
                    return Err(e);
                },
            }
        }
        let ghost mid = *self;
        let pre_offset = self.active_file.get_offset();
        let written = match self.active_file.write(encoded.as_slice()) {
            Ok(n) => n,
            Err(e) => {
                return Err(e);
            },
        };
        let loc = KeyDirEntry::new(self.file_id, pre_offset, encoded.len() as u32);
        proof {
            lemma_record_bytes_size(entry@.state, entry@.key, entry@.value);
            self.lemma_extend_frame(mid, encoded@);
            lemma_parse_record_of_encoding(
                mid.active_file.content@,
                entry@.state,
                entry@.key,
                entry@.value,
                Seq::<u8>::empty(),
            );
            assert(self.active_file.content@ =~= mid.active_file.content@ + record_bytes(
                entry@.state,
                entry@.key,
                entry@.value,
            ) + Seq::<u8>::empty());
            assert(self.loc_holds(loc@, entry@)) by {
                assert(self.seg_data(loc@.file_id) == self.active_file.content@);
            }
            if olds.log_clean() && crate::batch::txn_parse(entry@.key) is Some {
                let (iseq, iukey) = crate::batch::txn_parse(entry@.key)->Some_0;
                let item = ScanItem { seq: iseq, ukey: iukey, state: entry@.state, loc: loc@ };
                lemma_scan_append(
                    mid.active_file.data.file_id,
                    mid.active_file.content@,
                    entry@.state,
                    entry@.key,
                    entry@.value,
                    iseq,
                    iukey,
                    0,
                );
                lemma_seg_items_push(mid.inactive_files@, self.active_file);
                lemma_seg_items_push(olds.inactive_files@, olds.active_file);
                if olds.needs_rotation(record_size(entry@.key, entry@.value)) {
                    assert(mid.active_file.content@ =~= Seq::<u8>::empty());
                    lemma_seg_items_push(mid.inactive_files@, olds.active_file);
                    assert(mid.inactive_files@ =~= olds.inactive_files@.push(olds.active_file));
                    lemma_seg_items_congruent(
                        olds.inactive_files@.push(olds.active_file),
                        olds.seg_run(),
                    );
                    assert(seg_items(self.seg_run()) =~= seg_items(olds.seg_run()).push(item));
                } else {
                    assert(mid == olds);
                    assert(seg_items(self.seg_run()) =~= seg_items(olds.seg_run()).push(item));
                }
            }
            assert forall|loc2: KeyDirView, e2: EntryView|
                #[trigger] olds.loc_holds(loc2, e2) implies self.loc_holds(loc2, e2) by {
                if loc2.file_id == mid.active_file.data.file_id {
                    lemma_parse_record_extend(mid.active_file.content@, encoded@, loc2.offset as nat);
                    if loc2.file_id == olds.active_file.data.file_id {
                        assert(mid.seg_data(loc2.file_id) == olds.seg_data(loc2.file_id));
                    } else {
                        assert(olds.inactive_has(loc2.file_id));
                        let i = olds.inactive_at(loc2.file_id);
                        assert(olds.inactive_files@[i].data.file_id < olds.active_file.data.file_id);
                        assert(false);
                    }
                } else {
                    if olds.seg_exists(loc2.file_id) {
                        assert(mid.seg_exists(loc2.file_id) && mid.seg_data(loc2.file_id)
                            == olds.seg_data(loc2.file_id));
                        assert(self.seg_data(loc2.file_id) == mid.seg_data(loc2.file_id));
                    }
                }
            }
        }
        Ok(loc)
    }

    /// Stores a value under a key. On success the key reads back exactly
    /// this value and every other key reads as before.
    pub fn put(&mut self, key: Vec<u8>, value: Vec<u8>) -> (r: Result<(), Error>)
        requires
            old(self).wf(),
        ensures
            final(self).sequence_number == old(self).sequence_number,
            final(self).ctx.opts == old(self).ctx.opts,
            match r {
                Ok(()) => {
                    &&& !old(self).ctx.opts.read_only
                    &&& 0 < key@.len() <= old(self).ctx.opts.max_key_size
                    &&& value@.len() <= old(self).ctx.opts.max_value_size
                    &&& final(self).wf()
                    &&& final(self).live_value(key@) == Some(value@)
                    &&& final(self).get_spec(key@) == Ok::<Seq<u8>, Error>(value@)
                    &&& final(self).ctx.index@ == old(self).ctx.index@.insert(
                        key@,
                        final(self).ctx.index@[key@],
                    )
                    &&& forall|k: Seq<u8>|
                        k != key@ ==> #[trigger] final(self).live_value(k) == old(
                            self,
                        ).live_value(k)
                    &&& if old(self).needs_rotation(
                        record_size(txn_key_bytes(NON_COMMITTED, key@), value@),
                    ) {
                        &&& final(self).file_id == old(self).file_id + 1
                        &&& final(self).inactive_files@ == old(self).inactive_files@.push(
                            old(self).active_file,
                        )
                        &&& final(self).active_file.content@ == record_bytes(
                            State::Active,
                            txn_key_bytes(NON_COMMITTED, key@),
                            value@,
                        )
                    } else {
                        &&& final(self).file_id == old(self).file_id
                        &&& final(self).inactive_files@ == old(self).inactive_files@
                        &&& final(self).active_file.content@ == old(self).active_file.content@
                            + record_bytes(
                            State::Active,
                            txn_key_bytes(NON_COMMITTED, key@),
                            value@,
                        )
                    }
                    &&& (old(self).log_clean() ==> final(self).log_clean() && seg_items(
                        final(self).seg_run(),
                    ) == seg_items(old(self).seg_run()).push(
                        ScanItem {
                            seq: NON_COMMITTED,
                            ukey: key@,
                            state: State::Active,
                            loc: final(self).ctx.index@[key@],
                        },
                    ))
                },
                Err(e) => {
                    &&& *final(self) == *old(self)
                    &&& if old(self).ctx.opts.read_only {
                        e == Error::Unsupported(Reason::ReadOnly)
                    } else if key@.len() == 0 || key@.len() > old(self).ctx.opts.max_key_size {
                        e == Error::Unsupported(Reason::KeyTooLarge)
                    } else if value@.len() > old(self).ctx.opts.max_value_size {
                        e == Error::Unsupported(Reason::ValueTooLarge)
                    } else {
                        &&& e == Error::Unsupported(Reason::CounterExhausted)
                        &&& old(self).file_id == u32::MAX
                    }
                },
            },
    {
        if self.ctx.opts.read_only {
            return Err(Error::Unsupported(Reason::ReadOnly));
        }
        if key.len() == 0 || key.len() > self.ctx.opts.max_key_size {
            return Err(Error::Unsupported(Reason::KeyTooLarge));
        }
        if value.len() > self.ctx.opts.max_value_size {
            return Err(Error::Unsupported(Reason::ValueTooLarge));
        }
        let ghost key_view = key@;
        let txn_key = encode_transaction_key(copy_bytes(&key), NON_COMMITTED);
        let entry = DataEntry::new(txn_key, value, State::Active);
        proof {
            crate::varint::lemma_varint_len(0);
            crate::varint::lemma_varint_len_u64(entry@.key.len());
            crate::varint::lemma_varint_len_u64(entry@.value.len());
        }
        let loc = match self.append_entry(&entry) {
            Ok(loc) => loc,
            Err(e) => {
                return Err(e);
            },
        };
        let ghost mid = *self;
        self.ctx.index.put(key, loc);
        proof {
            self.lemma_index_only_update(mid, key_view, loc@);
            assert(self.live_value(key_view) == Some(entry@.value)) by {
                assert(self.ctx.index@[key_view] == loc@);
                assert(self.seg_data(loc@.file_id) == self.active_file.content@);
            }
            crate::batch::lemma_txn_key_roundtrip(NON_COMMITTED, key_view);
            assert(self.seg_run() == mid.seg_run());
        }
        Ok(())
    }

    /// Changing only the index binding of one key leaves the reading of
    /// every other key unchanged, and keeps the store well-formed provided
    /// the new locator is well-placed.
    pub proof fn lemma_index_only_update(&self, mid: Db, key: Seq<u8>, loc: KeyDirView)
        requires
            mid.wf(),
            mid.loc_wf(loc),
            self.ctx.index.wf(),
            self.ctx.index@ == mid.ctx.index@.insert(key, loc),
            self.ctx.opts == mid.ctx.opts,
            self.active_file == mid.active_file,
            self.inactive_files == mid.inactive_files,
            self.file_id == mid.file_id,
        ensures
            self.wf(),
            forall|k: Seq<u8>|
                k != key ==> #[trigger] self.live_value(k) == mid.live_value(k),
            self.lookup(key) == Some(loc),
    {
        assert forall|k: Seq<u8>| #[trigger] self.ctx.index@.contains_key(k) implies self.loc_wf(
            self.ctx.index@[k],
        ) by {
            if k != key {
                assert(mid.ctx.index@.contains_key(k));
                assert(self.ctx.index@[k] == mid.ctx.index@[k]);
                assert(mid.loc_wf(mid.ctx.index@[k]));
            }
        }
        assert forall|k: Seq<u8>| k != key implies #[trigger] self.live_value(k)
            == mid.live_value(k) by {
            assert(self.lookup(k) == mid.lookup(k));
        }
    }

    /// Removes a key. On success the key reads as absent and every other
    /// key reads as before; deleting an unknown key is a no-op.
    pub fn delete(&mut self, key: Vec<u8>) -> (r: Result<(), Error>)
        requires
            old(self).wf(),
        ensures
            final(self).sequence_number == old(self).sequence_number,
            final(self).ctx.opts == old(self).ctx.opts,
            match r {
                Ok(()) => {
                    &&& !old(self).ctx.opts.read_only
                    &&& 0 < key@.len() <= old(self).ctx.opts.max_key_size
                    &&& final(self).wf()
                    &&& final(self).live_value(key@) == None::<Seq<u8>>
                    &&& final(self).lookup(key@) == None::<KeyDirView>
                    &&& final(self).ctx.index@ == old(self).ctx.index@.remove(key@)
                    &&& forall|k: Seq<u8>|
                        k != key@ ==> #[trigger] final(self).live_value(k) == old(
                            self,
                        ).live_value(k)
                    &&& (!old(self).ctx.index@.contains_key(key@) ==> *final(self) == *old(self))
                    &&& (old(self).ctx.index@.contains_key(key@) ==> {
                        let tomb = record_bytes(
                            State::Inactive,
                            txn_key_bytes(NON_COMMITTED, key@),
                            Seq::<u8>::empty(),
                        );
                        &&& if old(self).needs_rotation(tomb.len() as nat) {
                            &&& final(self).file_id == old(self).file_id + 1
                            &&& final(self).inactive_files@ == old(self).inactive_files@.push(
                                old(self).active_file,
                            )
                            &&& final(self).active_file.content@ == tomb
                        } else {
                            &&& final(self).file_id == old(self).file_id
                            &&& final(self).inactive_files@ == old(self).inactive_files@
                            &&& final(self).active_file.content@ == old(
                                self,
                            ).active_file.content@ + tomb
                        }
                        &&& (old(self).log_clean() ==> final(self).log_clean() && exists|
                            loc: KeyDirView,
                        |
                            seg_items(final(self).seg_run()) == seg_items(
                                old(self).seg_run(),
                            ).push(
                                (ScanItem {
                                    seq: NON_COMMITTED,
                                    ukey: key@,
                                    state: State::Inactive,
                                    loc,
                                }),
                            ))
                    })
                },
                Err(e) => {
                    &&& *final(self) == *old(self)
                    &&& if old(self).ctx.opts.read_only {
                        e == Error::Unsupported(Reason::ReadOnly)
                    } else if key@.len() == 0 {
                        e == Error::Unsupported(Reason::KeyRequired)
                    } else if key@.len() > old(self).ctx.opts.max_key_size {
                        e == Error::Unsupported(Reason::KeyTooLarge)
                    } else {
                        &&& e == Error::Unsupported(Reason::CounterExhausted)
                        &&& old(self).file_id == u32::MAX
                        &&& old(self).ctx.index@.contains_key(key@)
                    }
                },
            },
    {
        if self.ctx.opts.read_only {
            return Err(Error::Unsupported(Reason::ReadOnly));
        }
        if key.len() == 0 {
            return Err(Error::Unsupported(Reason::KeyRequired));
        }
        if key.len() > self.ctx.opts.max_key_size {
            return Err(Error::Unsupported(Reason::KeyTooLarge));
        }
        match self.ctx.index.get(&key) {
            None => {
                return Ok(());
            },
            Some(_) => {},
        }
        let txn_key = encode_transaction_key(copy_bytes(&key), NON_COMMITTED);
        let deleted_entry = DataEntry::new(txn_key, Vec::new(), State::Inactive);
        proof {
            crate::varint::lemma_varint_len(0);
            crate::varint::lemma_varint_len_u64(deleted_entry@.key.len());
            crate::varint::lemma_varint_len_u64(deleted_entry@.value.len());
        }
        match self.append_entry(&deleted_entry) {
            Ok(_) => {},
            Err(e) => {
                return Err(e);
            },
        }
        let ghost mid = *self;
        self.ctx.index.delete(&key);
        proof {
            self.lemma_index_only_remove(mid, key@);
            crate::batch::lemma_txn_key_roundtrip(NON_COMMITTED, key@);
            assert(self.seg_run() == mid.seg_run());
            assert(record_bytes(
                State::Inactive,
                txn_key_bytes(NON_COMMITTED, key@),
                Seq::<u8>::empty(),
            ).len() == record_size(txn_key_bytes(NON_COMMITTED, key@), Seq::<u8>::empty())) by {
                lemma_record_bytes_size(
                    State::Inactive,
                    txn_key_bytes(NON_COMMITTED, key@),
                    Seq::<u8>::empty(),
                );
            }
        }
        Ok(())
    }

    /// Removing one key's index binding leaves the reading of every other
    /// key unchanged.
    pub proof fn lemma_index_only_remove(&self, mid: Db, key: Seq<u8>)
        requires
            mid.wf(),
            self.ctx.index.wf(),
            self.ctx.index@ == mid.ctx.index@.remove(key),
            self.ctx.opts == mid.ctx.opts,
            self.active_file == mid.active_file,
            self.inactive_files == mid.inactive_files,
            self.file_id == mid.file_id,
        ensures
            self.wf(),
            forall|k: Seq<u8>|
                k != key ==> #[trigger] self.live_value(k) == mid.live_value(k),
            self.lookup(key) == None::<KeyDirView>,
            self.live_value(key) == None::<Seq<u8>>,
    {
        assert forall|k: Seq<u8>| #[trigger] self.ctx.index@.contains_key(k) implies self.loc_wf(
            self.ctx.index@[k],
        ) by {
            assert(mid.ctx.index@.contains_key(k));
            assert(self.ctx.index@[k] == mid.ctx.index@[k]);
            assert(mid.loc_wf(mid.ctx.index@[k]));
        }
        assert forall|k: Seq<u8>| k != key implies #[trigger] self.live_value(k)
            == mid.live_value(k) by {
            assert(self.lookup(k) == mid.lookup(k));
        }
    }

    /// Reads the record a locator points at, refusing anything that is not
    /// a live entry.
    fn read_data_entry(&self, entry: KeyDirEntry) -> (r: Result<DataEntry, Error>)
        requires
            self.wf(),
        ensures
            match self.read_spec(entry@) {
                Ok(v) => r is Ok && r->Ok_0@.value == v && r->Ok_0@.state == State::Active,
                Err(e) => r == Err::<DataEntry, Error>(e),
            },
    {
        let file_id = entry.get_file_id();
        let offset = entry.get_offset();
        let de = if file_id == self.file_id {
            match self.active_file.extract_data_entry(offset) {
                Ok((de, _)) => de,
                Err(e) => {
                    return Err(e);
                },
            }
        } else {
            let mut i: usize = 0;
            let mut found: Option<usize> = None;
            while i < self.inactive_files.len() && found.is_none()
                invariant
                    i <= self.inactive_files@.len(),
                    match found {
                        None => forall|j: int|
                            0 <= j < i ==> (#[trigger] self.inactive_files@[j]).data.file_id
                                != file_id,
                        Some(ix) => ix < self.inactive_files@.len()
                            && self.inactive_files@[ix as int].data.file_id == file_id,
                    },
                decreases self.inactive_files@.len() - i + (if found is None {
                    1int
                } else {
                    0int
                }),
            {
                if self.inactive_files[i].get_file_id() == file_id {
                    found = Some(i);
                } else {
                    i = i + 1;
                }
            }
            match found {
                None => {
                    proof {
                        assert(!self.inactive_has(file_id));
                    }
                    return Err(Error::Unsupported(Reason::FileNotFound));
                },
                Some(ix) => {
                    proof {
                        self.lemma_inactive_at(ix as int);
                    }
                    match self.inactive_files[ix].extract_data_entry(offset) {
                        Ok((de, _)) => de,
                        Err(e) => {
                            return Err(e);
                        },
                    }
                },
            }
        };
        if !de.is_active() {
            return Err(Error::Unsupported(Reason::EntryRemoved));
        }
        Ok(de)
    }

    /// Looks a key up and returns a copy of its value. Which error comes
    /// back, and when the value does, is exactly `get_spec`.
    pub fn get(&self, key: Vec<u8>) -> (r: Result<Vec<u8>, Error>)
        requires
            self.wf(),
        ensures
            match self.get_spec(key@) {
                Ok(v) => r is Ok && r->Ok_0@ == v,
                Err(e) => r == Err::<Vec<u8>, Error>(e),
            },
    {
        if key.len() == 0 || key.len() > self.ctx.opts.max_key_size {
            return Err(Error::Unsupported(Reason::KeyTooLarge));
        }
        match self.ctx.index.get(&key) {
            Some(loc) => {
                let de = match self.read_data_entry(loc) {
                    Ok(de) => de,
                    Err(e) => {
                        return Err(e);
                    },
                };
                Ok(copy_bytes(de.get_value()))
            },
            None => Err(Error::Unsupported(Reason::KeyNotFound)),
        }
    }

    /// Flushes the active segment; the shell performs the actual fsync.
    pub fn sync(&self) -> (r: Result<(), Error>)
        ensures
            r == Ok::<(), Error>(()),
    {
        self.active_file.sync()
    }

    /// Flushes and releases the store; the shell drops the directory lock.
    pub fn close(&mut self) -> (r: Result<(), Error>)
        ensures
            r == Ok::<(), Error>(()),
            *final(self) == *old(self),
    {
        self.sync()
    }

    /// Each segment that existed before a rotation is found afterwards with
    /// the same bytes.
    proof fn lemma_seg_moved(&self, olds: Db, fid: u32)
        requires
            olds.wf(),
            olds.seg_exists(fid),
            self.inactive_files@ == olds.inactive_files@.push(olds.active_file),
            self.active_file.data.file_id == olds.file_id + 1,
            olds.file_id < u32::MAX,
            forall|i: int, j: int|
                0 <= i < j < self.inactive_files@.len() ==> (#[trigger] self.inactive_files@[i]).data.file_id
                    < (#[trigger] self.inactive_files@[j]).data.file_id,
        ensures
            self.seg_exists(fid),
            self.seg_data(fid) == olds.seg_data(fid),
    {
        let n = olds.inactive_files@.len() as int;
        if fid == olds.active_file.data.file_id {
            assert(self.inactive_files@[n].data.file_id == fid);
            assert(self.inactive_has(fid));
            let i = self.inactive_at(fid);
            if i < n {
                assert(olds.inactive_files@[i].data.file_id == fid);
                assert(false);
            }
            assert(self.seg_data(fid) == olds.active_file.content@);
        } else {
            let i = olds.inactive_at(fid);
            assert(0 <= i < n && olds.inactive_files@[i].data.file_id == fid);
            assert(self.inactive_files@[i].data.file_id == fid);
            assert(self.inactive_has(fid));
            let j = self.inactive_at(fid);
            if i != j {
                if i < j {
                    assert(self.inactive_files@[i].data.file_id
                        < self.inactive_files@[j].data.file_id);
                } else {
                    assert(self.inactive_files@[j].data.file_id
                        < self.inactive_files@[i].data.file_id);
                }
            }
            assert(self.seg_data(fid) == olds.inactive_files@[i].content@);
        }
    }
}

// ---------------------------------------------------------------------------
// Recovery: the replay specification and the transaction buffer.
// ---------------------------------------------------------------------------

/// One record as the recovery scan sees it: its sequence number, its user
/// key, its state, and where it lies.
pub struct ScanItem {
    pub seq: u32,
    pub ukey: Seq<u8>,
    pub state: State,
    pub loc: KeyDirView,
}

/// A record buffered while its batch waits for a commit marker.
pub struct PendingOp {
    /// The batch's sequence number.
    pub seq: u32,
    /// The record's user key, with the sequence prefix stripped.
    pub ukey: Vec<u8>,
    /// Whether the buffered record is a put or a tombstone.
    pub state: State,
    /// Where the record lies.
    pub entry: KeyDirEntry,
}

impl View for PendingOp {
    type V = ScanItem;

    open spec fn view(&self) -> ScanItem {
        ScanItem { seq: self.seq, ukey: self.ukey@, state: self.state, loc: self.entry@ }
    }
}

/// The views of a vector of buffered records.
pub open spec fn ops_of(v: Seq<PendingOp>) -> Seq<ScanItem> {
    v.map(|i: int, op: PendingOp| op@)
}

/// The map a pair of parallel sequence-number and group sequences denotes.
pub open spec fn tmap_of(ks: Seq<u32>, gs: Seq<Seq<ScanItem>>) -> Map<u32, Seq<ScanItem>>
    decreases ks.len(),
{
    if ks.len() == 0 || ks.len() != gs.len() {
        Map::empty()
    } else {
        tmap_of(ks.drop_last(), gs.drop_last()).insert(ks.last(), gs.last())
    }
}

/// `tmap_of` binds exactly the sequence numbers that occur.
pub proof fn lemma_tmap_contains(ks: Seq<u32>, gs: Seq<Seq<ScanItem>>, k: u32)
    requires
        ks.len() == gs.len(),
    ensures
        tmap_of(ks, gs).contains_key(k) <==> exists|i: int| 0 <= i < ks.len() && #[trigger] ks[i]
            == k,
    decreases ks.len(),
{
    if ks.len() > 0 {
        let kp = ks.drop_last();
        let gp = gs.drop_last();
        lemma_tmap_contains(kp, gp, k);
        if tmap_of(ks, gs).contains_key(k) {
            if k == ks.last() {
                assert(ks[ks.len() - 1] == k);
            } else {
                let i = choose|i: int| 0 <= i < kp.len() && #[trigger] kp[i] == k;
                assert(ks[i] == k);
            }
        }
        if exists|i: int| 0 <= i < ks.len() && #[trigger] ks[i] == k {
            let i = choose|i: int| 0 <= i < ks.len() && #[trigger] ks[i] == k;
            if i == ks.len() - 1 {
                assert(k == ks.last());
            } else {
                assert(kp[i] == k);
            }
        }
    }
}

/// With distinct sequence numbers, each position's group survives into the
/// map.
pub proof fn lemma_tmap_at(ks: Seq<u32>, gs: Seq<Seq<ScanItem>>, i: int)
    requires
        ks.len() == gs.len(),
        forall|x: int, y: int| 0 <= x < y < ks.len() ==> #[trigger] ks[x] != #[trigger] ks[y],
        0 <= i < ks.len(),
    ensures
        tmap_of(ks, gs).contains_key(ks[i]),
        tmap_of(ks, gs)[ks[i]] == gs[i],
    decreases ks.len(),
{
    let kp = ks.drop_last();
    let gp = gs.drop_last();
    if i == ks.len() - 1 {
        assert(tmap_of(ks, gs)[ks.last()] == gs.last());
    } else {
        lemma_tmap_at(kp, gp, i);
        assert(kp[i] == ks[i]);
        assert(ks[i] != ks.last());
    }
}

/// The buffer of batches seen during a scan whose commit marker has not yet
/// arrived: for each sequence number, its records in log order.
pub struct TxnBuffer {
    seqs: Vec<u32>,
    groups: Vec<Vec<PendingOp>>,
}

impl View for TxnBuffer {
    type V = Map<u32, Seq<ScanItem>>;

    closed spec fn view(&self) -> Map<u32, Seq<ScanItem>> {
        tmap_of(self.seq_seq(), self.group_seq())
    }
}

impl TxnBuffer {
    /// The buffered sequence numbers, in storage order.
    pub closed spec fn seq_seq(&self) -> Seq<u32> {
        self.seqs@
    }

    /// The buffered groups, in storage order.
    pub closed spec fn group_seq(&self) -> Seq<Seq<ScanItem>> {
        self.groups@.map(|i: int, g: Vec<PendingOp>| ops_of(g@))
    }

    /// Well-formed: parallel vectors, one group per distinct number.
    pub open spec fn wf(&self) -> bool {
        &&& self.seq_seq().len() == self.group_seq().len()
        &&& forall|x: int, y: int|
            0 <= x < y < self.seq_seq().len() ==> #[trigger] self.seq_seq()[x]
                != #[trigger] self.seq_seq()[y]
    }

    /// An empty buffer.
    pub fn new() -> (r: TxnBuffer)
        ensures
            r.wf(),
            r@ == Map::<u32, Seq<ScanItem>>::empty(),
    {
        let r = TxnBuffer { seqs: Vec::new(), groups: Vec::new() };
        proof {
            assert(r.seq_seq() =~= Seq::<u32>::empty());
            assert(r.group_seq() =~= Seq::<Seq<ScanItem>>::empty());
        }
        r
    }

    /// The position buffering a sequence number, if any.
    fn find(&self, seq: u32) -> (r: Option<usize>)
        ensures
            match r {
                Some(i) => i < self.seq_seq().len() && self.seq_seq()[i as int] == seq,
                None => forall|i: int|
                    0 <= i < self.seq_seq().len() ==> #[trigger] self.seq_seq()[i] != seq,
            },
    {
        let mut i: usize = 0;
        while i < self.seqs.len()
            invariant
                i <= self.seq_seq().len(),
                self.seq_seq().len() == self.seqs@.len(),
                forall|j: int| 0 <= j < i ==> #[trigger] self.seq_seq()[j] != seq,
            decreases self.seqs@.len() - i,
        {
            if self.seqs[i] == seq {
                return Some(i);
            }
            i = i + 1;
        }
        None
    }

    /// The group a number holds, or the empty group.
    pub open spec fn group_of(m: Map<u32, Seq<ScanItem>>, seq: u32) -> Seq<ScanItem> {
        if m.contains_key(seq) {
            m[seq]
        } else {
            Seq::empty()
        }
    }

    /// Buffers one more record under its sequence number.
    pub fn push_op(&mut self, op: PendingOp)
        requires
            old(self).wf(),
        ensures
            final(self).wf(),
            final(self)@ == old(self)@.insert(
                op.seq,
                TxnBuffer::group_of(old(self)@, op.seq).push(op@),
            ),
    {
        let ghost olds = *self;
        let seq = op.seq;
        match self.find(seq) {
            Some(i) => {
                proof {
                    lemma_tmap_at(olds.seq_seq(), olds.group_seq(), i as int);
                }
                let mut g: Vec<PendingOp> = Vec::new();
                self.groups.set_and_swap(i, &mut g);
                g.push(op);
                let mut back = g;
                self.groups.set_and_swap(i, &mut back);
                proof {
                    assert(self.seq_seq() == olds.seq_seq());
                    assert(self.group_seq() =~= olds.group_seq().update(
                        i as int,
                        olds.group_seq()[i as int].push(op@),
                    )) by {
                        assert forall|j: int|
                            0 <= j < self.group_seq().len() implies #[trigger] self.group_seq()[j]
                            == olds.group_seq().update(
                            i as int,
                            olds.group_seq()[i as int].push(op@),
                        )[j] by {
                            if j == i {
                                assert(ops_of(self.groups@[j]@) =~= ops_of(
                                    olds.groups@[j]@,
                                ).push(op@));
                            } else {
                                assert(self.groups@[j] == olds.groups@[j]);
                            }
                        }
                    }
                    lemma_tmap_update(
                        olds.seq_seq(),
                        olds.group_seq(),
                        i as int,
                        olds.group_seq()[i as int].push(op@),
                    );
                }
            },
            None => {
                self.seqs.push(seq);
                let mut g: Vec<PendingOp> = Vec::new();
                g.push(op);
                self.groups.push(g);
                proof {
                    assert(self.seq_seq() =~= olds.seq_seq().push(seq));
                    assert(self.group_seq() =~= olds.group_seq().push(seq![op@])) by {
                        assert forall|j: int|
                            0 <= j < self.group_seq().len() implies #[trigger] self.group_seq()[j]
                            == olds.group_seq().push(seq![op@])[j] by {
                            if j < olds.group_seq().len() {
                                assert(self.groups@[j] == olds.groups@[j]);
                            } else {
                                assert(ops_of(self.groups@[j]@) =~= seq![op@]);
                            }
                        }
                    }
                    assert(self.seq_seq().drop_last() =~= olds.seq_seq());
                    assert(self.group_seq().drop_last() =~= olds.group_seq());
                    lemma_tmap_contains(olds.seq_seq(), olds.group_seq(), seq);
                    assert(TxnBuffer::group_of(olds@, seq) =~= Seq::<ScanItem>::empty());
                    assert(TxnBuffer::group_of(olds@, seq).push(op@) =~= seq![op@]);
                }
            },
        }
    }

    /// Removes and returns the group a commit marker closes; the empty
    /// group if the number was never buffered.
    pub fn take(&mut self, seq: u32) -> (r: Vec<PendingOp>)
        requires
            old(self).wf(),
        ensures
            final(self).wf(),
            final(self)@ == old(self)@.remove(seq),
            ops_of(r@) == TxnBuffer::group_of(old(self)@, seq),
    {
        let ghost olds = *self;
        match self.find(seq) {
            None => {
                proof {
                    lemma_tmap_contains(olds.seq_seq(), olds.group_seq(), seq);
                    assert(olds@ =~= olds@.remove(seq));
                    assert(ops_of(Seq::<PendingOp>::empty()) =~= Seq::<ScanItem>::empty());
                }
                Vec::new()
            },
            Some(i) => {
                proof {
                    lemma_tmap_at(olds.seq_seq(), olds.group_seq(), i as int);
                }
                self.seqs.remove(i);
                let g = self.groups.remove(i);
                proof {
                    assert(self.seq_seq() =~= olds.seq_seq().remove(i as int));
                    assert(self.group_seq() =~= olds.group_seq().remove(i as int)) by {
                        assert forall|j: int|
                            0 <= j < self.group_seq().len() implies #[trigger] self.group_seq()[j]
                            == olds.group_seq().remove(i as int)[j] by {
                            if j < i {
                                assert(self.groups@[j] == olds.groups@[j]);
                            } else {
                                assert(self.groups@[j] == olds.groups@[j + 1]);
                            }
                        }
                    }
                    lemma_tmap_remove(olds.seq_seq(), olds.group_seq(), i as int);
                }
                g
            },
        }
    }
}

/// Replacing the group at the position already holding a number inserts the
/// new group into the buffer's map.
proof fn lemma_tmap_update(ks: Seq<u32>, gs: Seq<Seq<ScanItem>>, i: int, g: Seq<ScanItem>)
    requires
        ks.len() == gs.len(),
        forall|x: int, y: int| 0 <= x < y < ks.len() ==> #[trigger] ks[x] != #[trigger] ks[y],
        0 <= i < ks.len(),
    ensures
        tmap_of(ks, gs.update(i, g)) == tmap_of(ks, gs).insert(ks[i], g),
{
    let m1 = tmap_of(ks, gs.update(i, g));
    let m2 = tmap_of(ks, gs).insert(ks[i], g);
    assert_maps_equal!(m1, m2, x => {
        lemma_tmap_contains(ks, gs.update(i, g), x);
        lemma_tmap_contains(ks, gs, x);
        if m1.contains_key(x) || m2.contains_key(x) {
            let j = choose|j: int| 0 <= j < ks.len() && #[trigger] ks[j] == x;
            lemma_tmap_at(ks, gs.update(i, g), j);
            lemma_tmap_at(ks, gs, j);
            if x == ks[i] {
                if j != i {
                    assert(ks[j] == ks[i]);
                    assert(false);
                }
            }
        }
    });
}

/// Removing the position holding a number removes the binding from the
/// buffer's map.
proof fn lemma_tmap_remove(ks: Seq<u32>, gs: Seq<Seq<ScanItem>>, i: int)
    requires
        ks.len() == gs.len(),
        forall|x: int, y: int| 0 <= x < y < ks.len() ==> #[trigger] ks[x] != #[trigger] ks[y],
        0 <= i < ks.len(),
    ensures
        forall|x: int, y: int|
            0 <= x < y < ks.remove(i).len() ==> #[trigger] ks.remove(i)[x] != #[trigger] ks.remove(
                i,
            )[y],
        tmap_of(ks.remove(i), gs.remove(i)) == tmap_of(ks, gs).remove(ks[i]),
{
    let kr = ks.remove(i);
    let gr = gs.remove(i);
    assert forall|x: int, y: int| 0 <= x < y < kr.len() implies #[trigger] kr[x]
        != #[trigger] kr[y] by {
        let x2 = if x < i {
            x
        } else {
            x + 1
        };
        let y2 = if y < i {
            y
        } else {
            y + 1
        };
        assert(kr[x] == ks[x2]);
        assert(kr[y] == ks[y2]);
    }
    let m1 = tmap_of(kr, gr);
    let m2 = tmap_of(ks, gs).remove(ks[i]);
    assert_maps_equal!(m1, m2, x => {
        lemma_tmap_contains(kr, gr, x);
        lemma_tmap_contains(ks, gs, x);
        if m1.contains_key(x) {
            let j = choose|j: int| 0 <= j < kr.len() && #[trigger] kr[j] == x;
            lemma_tmap_at(kr, gr, j);
            let j2 = if j < i { j } else { j + 1 };
            assert(ks[j2] == x);
            lemma_tmap_at(ks, gs, j2);
            if x == ks[i] {
                assert(ks[j2] == ks[i]);
                assert(false);
            }
        }
        if m2.contains_key(x) {
            let j = choose|j: int| 0 <= j < ks.len() && #[trigger] ks[j] == x;
            lemma_tmap_at(ks, gs, j);
            if j == i {
                assert(x == ks[i]);
                assert(false);
            }
            let j2 = if j < i { j } else { j - 1 };
            assert(kr[j2] == x);
            lemma_tmap_at(kr, gr, j2);
        }
    });
}

// ---------------------------------------------------------------------------
// The replay specification: what recovery computes from segment bytes.
// ---------------------------------------------------------------------------

/// The records the recovery scan reads out of one segment, walking from
/// `off` until the log ends: a parse failure, the end marker, an oversized
/// record, or an unreadable transaction key.
pub open spec fn scan_records(fid: u32, data: Seq<u8>, off: nat) -> Seq<ScanItem>
    decreases data.len() - off,
{
    match parse_record(data, off) {
        RecParse::Rec(rec, size) => {
            if size > u32::MAX || off > u64::MAX {
                Seq::empty()
            } else {
                match crate::batch::txn_parse(rec.key) {
                    Some((seq, ukey)) => seq![
                        ScanItem {
                            seq,
                            ukey,
                            state: rec.state,
                            loc: KeyDirView {
                                file_id: fid,
                                offset: off as u64,
                                size: size as u32,
                            },
                        },
                    ] + scan_records(fid, data, off + size),
                    None => Seq::empty(),
                }
            }
        },
        _ => Seq::empty(),
    }
}

/// Where the recovery scan stops in a segment.
pub open spec fn scan_end(data: Seq<u8>, off: nat) -> nat
    decreases data.len() - off,
{
    match parse_record(data, off) {
        RecParse::Rec(rec, size) => {
            if size > u32::MAX || off > u64::MAX {
                off
            } else {
                match crate::batch::txn_parse(rec.key) {
                    Some(_) => scan_end(data, off + size),
                    None => off,
                }
            }
        },
        _ => off,
    }
}

/// The scan never stops before its start nor after the data's end.
pub proof fn lemma_scan_end_bounds(data: Seq<u8>, off: nat)
    requires
        off <= data.len(),
    ensures
        off <= scan_end(data, off) <= data.len(),
    decreases data.len() - off,
{
    match parse_record(data, off) {
        RecParse::Rec(rec, size) => {
            if size <= u32::MAX && off <= u64::MAX {
                match crate::batch::txn_parse(rec.key) {
                    Some(_) => {
                        lemma_parse_record_size(data, off);
                        lemma_scan_end_bounds(data, off + size);
                    },
                    None => {},
                }
            }
        },
        _ => {},
    }
}

/// Every record the scan reads lies where its locator says, wholly before
/// the scan's end, and parses back to itself.
pub proof fn lemma_scan_items_props(fid: u32, data: Seq<u8>, off: nat)
    requires
        off <= data.len(),
    ensures
        forall|j: int|
            0 <= j < scan_records(fid, data, off).len() ==> {
                let it = #[trigger] scan_records(fid, data, off)[j];
                &&& it.loc.file_id == fid
                &&& parse_record(data, it.loc.offset as nat) is Rec
                &&& it.loc.offset as nat + parse_record(data, it.loc.offset as nat)->Rec_1
                    <= scan_end(data, off)
            },
    decreases data.len() - off,
{
    match parse_record(data, off) {
        RecParse::Rec(rec, size) => {
            if size <= u32::MAX && off <= u64::MAX {
                match crate::batch::txn_parse(rec.key) {
                    Some(_) => {
                        lemma_parse_record_size(data, off);
                        lemma_scan_items_props(fid, data, off + size);
                        lemma_scan_end_bounds(data, off + size);
                        assert forall|j: int|
                            0 <= j < scan_records(fid, data, off).len() implies {
                            let it = #[trigger] scan_records(fid, data, off)[j];
                            &&& it.loc.file_id == fid
                            &&& parse_record(data, it.loc.offset as nat) is Rec
                            &&& it.loc.offset as nat + parse_record(
                                data,
                                it.loc.offset as nat,
                            )->Rec_1 <= scan_end(data, off)
                        } by {
                            if j > 0 {
                                assert(scan_records(fid, data, off)[j] == scan_records(
                                    fid,
                                    data,
                                    off + size,
                                )[j - 1]);
                            }
                        }
                    },
                    None => {},
                }
            }
        },
        _ => {},
    }
}

/// The index, the open transaction groups, and the highest sequence number
/// seen, as recovery folds over the log.
pub struct ReplayState {
    pub index: Map<Seq<u8>, KeyDirView>,
    pub pending: Map<u32, Seq<ScanItem>>,
    pub max_seq: u32,
}

/// One record's effect on the index: a put binds its key, anything else
/// removes it.
pub open spec fn apply_scan_item(
    index: Map<Seq<u8>, KeyDirView>,
    it: ScanItem,
) -> Map<Seq<u8>, KeyDirView> {
    if it.state == State::Active {
        index.insert(it.ukey, it.loc)
    } else {
        index.remove(it.ukey)
    }
}

/// A committed group's effect on the index, applied in log order.
pub open spec fn apply_group(
    index: Map<Seq<u8>, KeyDirView>,
    group: Seq<ScanItem>,
) -> Map<Seq<u8>, KeyDirView>
    decreases group.len(),
{
    if group.len() == 0 {
        index
    } else {
        apply_scan_item(apply_group(index, group.drop_last()), group.last())
    }
}

/// The larger of a running maximum and one more sequence number.
pub open spec fn bump_seq(mx: u32, seq: u32) -> u32 {
    if seq > mx {
        seq
    } else {
        mx
    }
}

/// One record's effect on the whole recovery state. A plain write applies
/// at once; a commit marker applies its buffered group and drops it; any
/// other numbered record joins its group. Every record raises the running
/// maximum.
pub open spec fn replay_step(st: ReplayState, it: ScanItem) -> ReplayState {
    let mx = bump_seq(st.max_seq, it.seq);
    if it.seq == NON_COMMITTED {
        ReplayState { index: apply_scan_item(st.index, it), pending: st.pending, max_seq: mx }
    } else if it.state == State::Committed {
        ReplayState {
            index: apply_group(st.index, TxnBuffer::group_of(st.pending, it.seq)),
            pending: st.pending.remove(it.seq),
            max_seq: mx,
        }
    } else {
        ReplayState {
            index: st.index,
            pending: st.pending.insert(it.seq, TxnBuffer::group_of(st.pending, it.seq).push(it)),
            max_seq: mx,
        }
    }
}

/// Folding the recovery step over a run of records.
pub open spec fn replay_items(st: ReplayState, items: Seq<ScanItem>) -> ReplayState
    decreases items.len(),
{
    if items.len() == 0 {
        st
    } else {
        replay_items(replay_step(st, items[0]), items.subrange(1, items.len() as int))
    }
}

/// The records of a run of segments, in segment order. One group buffer
/// spans the whole log, so a batch is judged by its marker wherever the
/// marker lies.
pub open spec fn seg_items(segs: Seq<FileHandle>) -> Seq<ScanItem>
    decreases segs.len(),
{
    if segs.len() == 0 {
        Seq::empty()
    } else {
        scan_records(segs[0].data.file_id, segs[0].content@, 0) + seg_items(
            segs.subrange(1, segs.len() as int),
        )
    }
}

/// Recovery's starting state: the hint-derived index, nothing buffered.
pub open spec fn init_replay(base: Map<Seq<u8>, KeyDirView>) -> ReplayState {
    ReplayState { index: base, pending: Map::empty(), max_seq: 0 }
}

/// What recovery computes from a run of segments over a starting index.
pub open spec fn replay(segs: Seq<FileHandle>, base: Map<Seq<u8>, KeyDirView>) -> ReplayState {
    replay_items(init_replay(base), seg_items(segs))
}

/// Folding over a concatenation folds over the parts in turn.
pub proof fn lemma_replay_items_concat(st: ReplayState, a: Seq<ScanItem>, b: Seq<ScanItem>)
    ensures
        replay_items(st, a + b) == replay_items(replay_items(st, a), b),
    decreases a.len(),
{
    if a.len() == 0 {
        assert(a + b =~= b);
    } else {
        assert((a + b)[0] == a[0]);
        assert((a + b).subrange(1, (a + b).len() as int) =~= a.subrange(1, a.len() as int) + b);
        lemma_replay_items_concat(replay_step(st, a[0]), a.subrange(1, a.len() as int), b);
    }
}

/// Folding one more record steps the state once.
pub proof fn lemma_replay_items_push(st: ReplayState, items: Seq<ScanItem>, it: ScanItem)
    ensures
        replay_items(st, items.push(it)) == replay_step(replay_items(st, items), it),
{
    assert(items.push(it) =~= items + seq![it]);
    lemma_replay_items_concat(st, items, seq![it]);
    let st2 = replay_items(st, items);
    let one = seq![it];
    assert(one.len() == 1);
    assert(one[0] == it);
    assert(one.subrange(1, 1) =~= Seq::<ScanItem>::empty());
    assert(replay_items(st2, one) == replay_items(replay_step(st2, it), one.subrange(1, 1)));
    assert(replay_items(replay_step(st2, it), Seq::<ScanItem>::empty()) == replay_step(st2, it));
}

/// The records of concatenated segment runs concatenate.
pub proof fn lemma_seg_items_concat(a: Seq<FileHandle>, b: Seq<FileHandle>)
    ensures
        seg_items(a + b) == seg_items(a) + seg_items(b),
    decreases a.len(),
{
    if a.len() == 0 {
        assert(a + b =~= b);
        assert(seg_items(a) =~= Seq::<ScanItem>::empty());
        assert(seg_items(a) + seg_items(b) =~= seg_items(b));
    } else {
        assert((a + b)[0] == a[0]);
        assert((a + b).subrange(1, (a + b).len() as int) =~= a.subrange(1, a.len() as int) + b);
        lemma_seg_items_concat(a.subrange(1, a.len() as int), b);
        assert(seg_items(a + b) =~= seg_items(a) + seg_items(b));
    }
}

// ---------------------------------------------------------------------------
// The recovery scan and opening a store.
// ---------------------------------------------------------------------------

/// Replays one segment into the index and the transaction buffer, raising
/// the running maximum sequence number, and leaves the segment's append
/// position at the scan's end. Checksums are not judged here; a corrupt
/// record surfaces on the read that touches it.
fn process_file_handle(
    file: &mut FileHandle,
    index: &mut IndexMode,
    txns: &mut TxnBuffer,
    current_sequence_number: &mut u32,
    Ghost(base): Ghost<Map<Seq<u8>, KeyDirView>>,
    Ghost(prior): Ghost<Seq<ScanItem>>,
    Ghost(loc_ok): Ghost<spec_fn(KeyDirView) -> bool>,
)
    requires
        old(index).wf(),
        old(txns).wf(),
        replay_items(init_replay(base), prior).index == old(index)@,
        replay_items(init_replay(base), prior).pending == old(txns)@,
        replay_items(init_replay(base), prior).max_seq == *old(current_sequence_number),
        forall|k: Seq<u8>| #[trigger] old(index)@.contains_key(k) ==> loc_ok(old(index)@[k]),
        forall|s: u32, j: int|
            old(txns)@.contains_key(s) && 0 <= j < old(txns)@[s].len() ==> loc_ok(
                (#[trigger] old(txns)@[s][j]).loc,
            ),
        forall|j: int|
            0 <= j < scan_records(
                old(file).data.file_id,
                old(file).content@,
                0,
            ).len() ==> loc_ok(
                (#[trigger] scan_records(old(file).data.file_id, old(file).content@, 0)[j]).loc,
            ),
    ensures
        final(index).wf(),
        final(txns).wf(),
        final(file).content@ == old(file).content@,
        final(file).data.file_id == old(file).data.file_id,
        final(file).data.offset == scan_end(old(file).content@, 0),
        final(file).data.offset <= old(file).content@.len(),
        ({
            let st = replay_items(
                init_replay(base),
                prior + scan_records(old(file).data.file_id, old(file).content@, 0),
            );
            &&& final(index)@ == st.index
            &&& final(txns)@ == st.pending
            &&& *final(current_sequence_number) == st.max_seq
        }),
        forall|k: Seq<u8>| #[trigger] final(index)@.contains_key(k) ==> loc_ok(final(index)@[k]),
        forall|s: u32, j: int|
            final(txns)@.contains_key(s) && 0 <= j < final(txns)@[s].len() ==> loc_ok(
                (#[trigger] final(txns)@[s][j]).loc,
            ),
{
    let fid = file.get_file_id();
    let ghost data = file.content@;
    let content_len = file.content.len();
    let mut max_seq: u32 = *current_sequence_number;
    let mut offset: u64 = 0;
    let mut scanning = true;
    let ghost mut processed: Seq<ScanItem> = Seq::empty();
    proof {
        lemma_scan_items_props(fid, data, 0);
        assert(processed + scan_records(fid, data, offset as nat) =~= scan_records(
            fid,
            data,
            0,
        ));
        assert(prior + processed =~= prior);
    }
    while scanning
        invariant
            index.wf(),
            txns.wf(),
            file.content@ == data,
            file.data.file_id == fid,
            data.len() == content_len,
            offset as nat <= data.len(),
            scan_records(fid, data, 0) == processed + scan_records(fid, data, offset as nat),
            scan_end(data, 0) == scan_end(data, offset as nat),
            !scanning ==> scan_records(fid, data, offset as nat) =~= Seq::<ScanItem>::empty(),
            !scanning ==> scan_end(data, offset as nat) == offset as nat,
            ({
                let st = replay_items(init_replay(base), prior + processed);
                &&& index@ == st.index
                &&& txns@ == st.pending
                &&& max_seq == st.max_seq
            }),
            forall|k: Seq<u8>| #[trigger] index@.contains_key(k) ==> loc_ok(index@[k]),
            forall|s: u32, j: int|
                txns@.contains_key(s) && 0 <= j < txns@[s].len() ==> loc_ok(
                    (#[trigger] txns@[s][j]).loc,
                ),
            forall|j: int|
                0 <= j < scan_records(fid, data, 0).len() ==> loc_ok(
                    (#[trigger] scan_records(fid, data, 0)[j]).loc,
                ),
        decreases (data.len() - offset as nat) + (if scanning {
            1int
        } else {
            0int
        }),
    {
        let step = file.extract_record_meta(offset);
        match step {
            Err(_) => {
                scanning = false;
            },
            Ok((state, txn_key, size)) => {
                if size > u32::MAX as usize {
                    scanning = false;
                } else {
                    match crate::batch::decode_transaction_key(&txn_key) {
                        Err(_) => {
                            scanning = false;
                        },
                        Ok((ukey, seq)) => {
                            let ghost rec = parse_record(data, offset as nat)->Rec_0;
                            let ghost item = ScanItem {
                                seq,
                                ukey: ukey@,
                                state,
                                loc: KeyDirView {
                                    file_id: fid,
                                    offset,
                                    size: size as u32,
                                },
                            };
                            proof {
                                lemma_parse_record_size(data, offset as nat);
                                assert(scan_records(fid, data, offset as nat) == seq![item]
                                    + scan_records(fid, data, (offset as nat + size) as nat));
                                assert(scan_records(fid, data, 0)[processed.len() as int]
                                    == item) by {
                                    assert(scan_records(fid, data, offset as nat)[0] == item);
                                }
                                assert(loc_ok(item.loc));
                            }
                            let ghost st_pre = replay_items(init_replay(base), prior + processed);
                            let entry = KeyDirEntry::new(fid, offset, size as u32);
                            if seq == NON_COMMITTED {
                                match state {
                                    State::Active => {
                                        index.put(ukey, entry);
                                    },
                                    _ => {
                                        index.delete(&ukey);
                                    },
                                }
                            } else {
                                match state {
                                    State::Committed => {
                                        let group = txns.take(seq);
                                        let ghost idx0 = index@;
                                        let ghost gseq = ops_of(group@);
                                        let mut gi: usize = 0;
                                        while gi < group.len()
                                            invariant
                                                index.wf(),
                                                gi <= group@.len(),
                                                gseq == ops_of(group@),
                                                gseq.len() == group@.len(),
                                                index@ == apply_group(
                                                    idx0,
                                                    gseq.subrange(0, gi as int),
                                                ),
                                                forall|k: Seq<u8>|
                                                    #[trigger] idx0.contains_key(k) ==> loc_ok(
                                                        idx0[k],
                                                    ),
                                                forall|j: int|
                                                    0 <= j < gseq.len() ==> loc_ok(
                                                        (#[trigger] gseq[j]).loc,
                                                    ),
                                                forall|k: Seq<u8>|
                                                    #[trigger] index@.contains_key(k) ==> loc_ok(
                                                        index@[k],
                                                    ),
                                            decreases group@.len() - gi,
                                        {
                                            let op_key = copy_bytes(&group[gi].ukey);
                                            let op_entry = group[gi].entry;
                                            let is_put = match group[gi].state {
                                                State::Active => true,
                                                _ => false,
                                            };
                                            proof {
                                                assert(gseq[gi as int] == group@[gi as int]@);
                                                assert(gseq.subrange(0, gi as int + 1).drop_last()
                                                    =~= gseq.subrange(0, gi as int));
                                                assert(gseq.subrange(0, gi as int + 1).last()
                                                    == gseq[gi as int]);
                                            }
                                            if is_put {
                                                index.put(op_key, op_entry);
                                            } else {
                                                index.delete(&op_key);
                                            }
                                            gi = gi + 1;
                                        }
                                        proof {
                                            assert(gseq.subrange(0, gseq.len() as int) =~= gseq);
                                            assert(index@ == apply_group(
                                                idx0,
                                                TxnBuffer::group_of(st_pre.pending, seq),
                                            ));
                                        }
                                    },
                                    _ => {
                                        let op = PendingOp { seq, ukey, state, entry };
                                        proof {
                                            assert(op@ == item);
                                        }
                                        txns.push_op(op);
                                    },
                                }
                            }
                            if seq > max_seq {
                                max_seq = seq;
                            }
                            proof {
                                let processed2 = processed.push(item);
                                assert(prior + processed2 =~= (prior + processed).push(item));
                                lemma_replay_items_push(init_replay(base), prior + processed, item);
                                processed = processed2;
                                assert(processed + scan_records(fid, data, (offset as nat + size) as nat)
                                    =~= scan_records(fid, data, 0));
                            }
                            offset = offset + size as u64;
                        },
                    }
                }
            },
        }
    }
    file.set_offset(offset);
    *current_sequence_number = max_seq;
    proof {
        assert(prior + processed =~= prior + scan_records(fid, data, 0));
    }
}

impl Db {
    /// Whether a hint locator may enter the index: its segment must be one
    /// of the run's settled segments, never the one that will receive
    /// appends.
    pub open spec fn hint_fid_ok(files: Seq<FileHandle>, fid: u32) -> bool {
        exists|i: int| 0 <= i < files.len() - 1 && #[trigger] files[i].data.file_id == fid
    }
}

/// The records of a hint file: each key with its decoded locator. Loading
/// stops at the first unreadable or corrupt record.
pub open spec fn hint_items(data: Seq<u8>, off: nat) -> Seq<(Seq<u8>, KeyDirView)>
    decreases data.len() - off,
{
    match parse_record(data, off) {
        RecParse::Rec(rec, size) => {
            if !rec_crc_ok(rec) {
                Seq::empty()
            } else {
                match crate::keydir::keydir_parse(rec.value) {
                    Some(kd) => seq![(rec.key, kd)] + hint_items(data, off + size),
                    None => Seq::empty(),
                }
            }
        },
        _ => Seq::empty(),
    }
}

/// Where the reading of a hint file stops.
pub open spec fn hint_end(data: Seq<u8>, off: nat) -> nat
    decreases data.len() - off,
{
    match parse_record(data, off) {
        RecParse::Rec(rec, size) => {
            if !rec_crc_ok(rec) {
                off
            } else {
                match crate::keydir::keydir_parse(rec.value) {
                    Some(_) => hint_end(data, (off + size) as nat),
                    None => off,
                }
            }
        },
        _ => off,
    }
}

/// A hint record appended to a cleanly read hint log is read after
/// everything already there.
#[verifier::rlimit(100)]
pub proof fn lemma_hint_items_append(data: Seq<u8>, key: Seq<u8>, kd: KeyDirView, off: nat)
    requires
        off <= data.len(),
        hint_end(data, off) == data.len(),
        key.len() > 0,
        key.len() <= u64::MAX,
        crate::keydir::keydir_bytes(kd).len() <= u64::MAX,
    ensures
        ({
            let t = data + record_bytes(State::Active, key, crate::keydir::keydir_bytes(kd));
            &&& hint_items(t, off) == hint_items(data, off).push((key, kd))
            &&& hint_end(t, off) == t.len()
        }),
    decreases data.len() - off,
{
    let rb = record_bytes(State::Active, key, crate::keydir::keydir_bytes(kd));
    let t = data + rb;
    lemma_record_bytes_size(State::Active, key, crate::keydir::keydir_bytes(kd));
    match parse_record(data, off) {
        RecParse::Rec(rec, size) => {
            lemma_parse_record_size(data, off);
            assert(off < data.len());
            if !rec_crc_ok(rec) {
                assert(hint_end(data, off) == off);
                assert(false);
            }
            match crate::keydir::keydir_parse(rec.value) {
                Some(_) => {
                    lemma_parse_record_extend(data, rb, off);
                    lemma_hint_items_append(data, key, kd, (off + size) as nat);
                    assert(parse_record(t, off) == RecParse::Rec(rec, size));
                    assert(hint_items(t, off) == seq![(rec.key, crate::keydir::keydir_parse(
                        rec.value,
                    )->Some_0)] + hint_items(t, (off + size) as nat));
                    assert(hint_items(t, off) =~= hint_items(data, off).push((key, kd)));
                    assert(hint_end(t, off) == hint_end(t, (off + size) as nat));
                },
                None => {
                    assert(hint_end(data, off) == off);
                    assert(false);
                },
            }
        },
        _ => {
            assert(hint_end(data, off) == off);
            assert(off == data.len());
            lemma_parse_record_of_encoding(
                data,
                State::Active,
                key,
                crate::keydir::keydir_bytes(kd),
                Seq::<u8>::empty(),
            );
            assert(t =~= data + rb + Seq::<u8>::empty());
            let recn = RecView {
                state: State::Active,
                key,
                value: crate::keydir::keydir_bytes(kd),
                crc: crc32_of(payload_bytes(State::Active, key, crate::keydir::keydir_bytes(kd))),
            };
            let sizen = record_size(key, crate::keydir::keydir_bytes(kd));
            assert(parse_record(t, off) == RecParse::Rec(recn, sizen));
            assert(rec_crc_ok(recn));
            crate::keydir::lemma_keydir_roundtrip(kd);
            assert(off + sizen == t.len());
            assert(parse_record(t, off + sizen) is Eof);
            assert(hint_items(t, (off + sizen) as nat) =~= Seq::<(Seq<u8>, KeyDirView)>::empty());
            assert(hint_items(t, off) =~= seq![(key, kd)]);
            assert(hint_items(data, off) =~= Seq::<(Seq<u8>, KeyDirView)>::empty());
            assert(hint_items(data, off).push((key, kd)) =~= seq![(key, kd)]);
            assert(hint_end(t, (off + sizen) as nat) == off + sizen);
            assert(hint_end(t, off) == off + sizen);
        },
    }
}

/// The index a hint file seeds: its records in order, locators into the
/// settled segments only.
pub open spec fn hint_base(
    items: Seq<(Seq<u8>, KeyDirView)>,
    files: Seq<FileHandle>,
) -> Map<Seq<u8>, KeyDirView>
    decreases items.len(),
{
    if items.len() == 0 {
        Map::empty()
    } else {
        let m = hint_base(items.drop_last(), files);
        let it = items.last();
        if Db::hint_fid_ok(files, it.1.file_id) {
            m.insert(it.0, it.1)
        } else {
            m
        }
    }
}

/// Every locator a hint seeds points into a settled segment.
pub proof fn lemma_hint_base_locs(items: Seq<(Seq<u8>, KeyDirView)>, files: Seq<FileHandle>)
    ensures
        forall|k: Seq<u8>|
            #[trigger] hint_base(items, files).contains_key(k) ==> Db::hint_fid_ok(
                files,
                hint_base(items, files)[k].file_id,
            ),
    decreases items.len(),
{
    if items.len() > 0 {
        lemma_hint_base_locs(items.drop_last(), files);
        let m = hint_base(items.drop_last(), files);
        let it = items.last();
        assert forall|k: Seq<u8>| #[trigger] hint_base(items, files).contains_key(k) implies
            Db::hint_fid_ok(files, hint_base(items, files)[k].file_id) by {
            if Db::hint_fid_ok(files, it.1.file_id) && k == it.0 {
            } else {
                assert(hint_base(items, files)[k] == m[k]);
            }
        }
    }
}

/// Seeds the index from a hint file's bytes.
fn load_index_from_hint_file(hint: &Vec<u8>, files: &Vec<FileHandle>, index: &mut IndexMode)
    requires
        old(index).wf(),
        old(index)@ == Map::<Seq<u8>, KeyDirView>::empty(),
    ensures
        final(index).wf(),
        final(index)@ == hint_base(hint_items(hint@, 0), files@),
{
    let hint_file = FileHandle::new(0, copy_bytes(hint));
    let ghost data = hint@;
    let hint_len = hint.len();
    let mut offset: u64 = 0;
    let mut scanning = true;
    let ghost mut processed: Seq<(Seq<u8>, KeyDirView)> = Seq::empty();
    proof {
        assert(processed + hint_items(data, offset as nat) =~= hint_items(data, 0));
    }
    while scanning
        invariant
            index.wf(),
            hint_file.content@ == data,
            data.len() == hint_len,
            offset as nat <= data.len(),
            hint_items(data, 0) == processed + hint_items(data, offset as nat),
            !scanning ==> hint_items(data, offset as nat) =~= Seq::<(Seq<u8>, KeyDirView)>::empty(),
            index@ == hint_base(processed, files@),
        decreases (data.len() - offset as nat) + (if scanning {
            1int
        } else {
            0int
        }),
    {
        match hint_file.extract_data_entry(offset) {
            Err(_) => {
                scanning = false;
            },
            Ok((entry, size)) => {
                proof {
                    lemma_parse_record_size(data, offset as nat);
                }
                match crate::keydir::decode_keydir_entry(entry.get_value()) {
                    Err(_) => {
                        scanning = false;
                    },
                    Ok(kd) => {
                        let ghost item = (entry@.key, kd@);
                        proof {
                            assert(hint_items(data, offset as nat) == seq![item] + hint_items(
                                data,
                                (offset as nat + size) as nat,
                            ));
                        }
                        let fid = kd.get_file_id();
                        let mut found = false;
                        let bound = if files.len() == 0 {
                            0
                        } else {
                            files.len() - 1
                        };
                        let mut i: usize = 0;
                        while i < bound && !found
                            invariant
                                bound <= files@.len(),
                                bound == if files@.len() == 0 {
                                    0int
                                } else {
                                    files@.len() - 1
                                },
                                i <= bound,
                                found ==> Db::hint_fid_ok(files@, fid),
                                !found ==> forall|j: int|
                                    0 <= j < i ==> (#[trigger] files@[j]).data.file_id != fid,
                            decreases bound - i + (if found {
                                0int
                            } else {
                                1int
                            }),
                        {
                            if files[i].get_file_id() == fid {
                                found = true;
                            } else {
                                i = i + 1;
                            }
                        }
                        if found {
                            index.put(copy_bytes(entry.get_key()), kd);
                        } else {
                            proof {
                                assert(!Db::hint_fid_ok(files@, fid));
                            }
                        }
                        proof {
                            let processed2 = processed.push(item);
                            assert(processed2.drop_last() =~= processed);
                            assert(processed2.last() == item);
                            processed = processed2;
                            assert(processed + hint_items(data, (offset as nat + size) as nat)
                                =~= hint_items(data, 0));
                        }
                        offset = offset + size as u64;
                    },
                }
            },
        }
    }
}

/// Where a locator that recovery may produce can point: into one of the
/// settled segments, or at a fully parsed record of the run's last segment,
/// wholly before the scan's end there.
pub open spec fn scan_loc_ok(files: Seq<FileHandle>, loc: KeyDirView) -> bool {
    ||| Db::hint_fid_ok(files, loc.file_id)
    ||| (files.len() > 0 && loc.file_id == files.last().data.file_id && parse_record(
        files.last().content@,
        loc.offset as nat,
    ) is Rec && loc.offset + parse_record(
        files.last().content@,
        loc.offset as nat,
    )->Rec_1 <= scan_end(files.last().content@, 0))
}

/// The id the first segment of a fresh store takes.
pub const INITIAL_FILE_ID: u32 = 0;

impl Db {
    /// Opens a store over a run of segments, given ascending by id, and an
    /// optional hint file. The hint seeds the index, the segments are then
    /// replayed over it in order, and the last segment (or a fresh one)
    /// becomes the active segment, cut back to its last settled record.
    /// The next sequence number strictly exceeds every one replayed.
    pub fn open(opts: &Opts, files: Vec<FileHandle>, hint: Option<Vec<u8>>) -> (r: Result<
        Db,
        Error,
    >)
        requires
            forall|i: int, j: int|
                0 <= i < j < files@.len() ==> (#[trigger] files@[i]).data.file_id < (
                #[trigger] files@[j]).data.file_id,
        ensures
            ({
                let base = match hint {
                    Some(h) => hint_base(hint_items(h@, 0), files@),
                    None => Map::<Seq<u8>, KeyDirView>::empty(),
                };
                let st = replay(files@, base);
                match r {
                    Ok(db) => {
                        &&& validate_spec(opts) is Ok
                        &&& db.wf()
                        &&& db.ctx.opts.max_key_size == opts.max_key_size
                        &&& db.ctx.opts.max_value_size == opts.max_value_size
                        &&& db.ctx.opts.read_only == opts.read_only
                        &&& db.ctx.opts.sync_writes == opts.sync_writes
                        &&& db.ctx.opts.dir_path@ == opts.dir_path@
                        &&& db.ctx.opts.data_file_size == opts.data_file_size
                        &&& db.ctx.index@ == st.index
                        &&& st.max_seq < u32::MAX
                        &&& db.sequence_number == st.max_seq + 1
                        &&& db.file_id == if files@.len() == 0 {
                            INITIAL_FILE_ID as int
                        } else {
                            files@.last().data.file_id as int
                        }
                        &&& db.log_clean()
                        &&& seg_items(db.seg_run()) == seg_items(files@)
                        &&& db.inactive_files@.len() == (if files@.len() == 0 {
                            0int
                        } else {
                            files@.len() - 1
                        })
                        &&& forall|i: int|
                            0 <= i < db.inactive_files@.len() ==> (
                            #[trigger] db.inactive_files@[i]).data.file_id
                                == files@[i].data.file_id && db.inactive_files@[i].content@
                                == files@[i].content@
                        &&& db.active_file.content@ == (if files@.len() == 0 {
                            Seq::<u8>::empty()
                        } else {
                            files@.last().content@.subrange(
                                0,
                                scan_end(files@.last().content@, 0) as int,
                            )
                        })
                    },
                    Err(e) => {
                        if validate_spec(opts) is Err {
                            e == validate_spec(opts)->Err_0
                        } else {
                            &&& e == Error::Unsupported(Reason::CounterExhausted)
                            &&& st.max_seq == u32::MAX
                        }
                    },
                }
            }),
    {
        match validate_options(opts) {
            Ok(()) => {},
            Err(e) => {
                return Err(e);
            },
        }
        let ghost orig = files@;
        let mut index = IndexMode::new_hashmap();
        match &hint {
            Some(h) => {
                load_index_from_hint_file(h, &files, &mut index);
            },
            None => {},
        }
        let ghost base = index@;
        proof {
            match hint {
                Some(h) => {
                    lemma_hint_base_locs(hint_items(h@, 0), orig);
                },
                None => {},
            }
        }
        let mut txns = TxnBuffer::new();
        let mut max: u32 = 0;
        let ghost loc_ok = |loc: KeyDirView| scan_loc_ok(orig, loc);
        let ghost mut prior: Seq<ScanItem> = Seq::empty();
        proof {
            assert(replay_items(init_replay(base), prior) == init_replay(base));
            assert(seg_items(orig.subrange(0, 0)) =~= Seq::<ScanItem>::empty());
            assert forall|k: Seq<u8>| #[trigger] index@.contains_key(k) implies loc_ok(
                index@[k],
            ) by {
                match hint {
                    Some(h) => {
                        assert(Db::hint_fid_ok(orig, index@[k].file_id));
                    },
                    None => {},
                }
            }
        }
        let mut remaining = files;
        let mut done: Vec<FileHandle> = Vec::new();
        while remaining.len() > 0
            invariant
                index.wf(),
                txns.wf(),
                done@.len() + remaining@.len() == orig.len(),
                forall|i: int|
                    0 <= i < remaining@.len() ==> #[trigger] remaining@[i] == orig[done@.len()
                        + i],
                forall|i: int|
                    0 <= i < done@.len() ==> {
                        &&& (#[trigger] done@[i]).data.file_id == orig[i].data.file_id
                        &&& done@[i].content@ == orig[i].content@
                        &&& done@[i].data.offset == scan_end(orig[i].content@, 0)
                        &&& done@[i].data.offset <= orig[i].content@.len()
                    },
                prior == seg_items(orig.subrange(0, done@.len() as int)),
                replay_items(init_replay(base), prior).index == index@,
                replay_items(init_replay(base), prior).pending == txns@,
                replay_items(init_replay(base), prior).max_seq == max,
                forall|k: Seq<u8>| #[trigger] index@.contains_key(k) ==> loc_ok(index@[k]),
                forall|s: u32, j: int|
                    txns@.contains_key(s) && 0 <= j < txns@[s].len() ==> loc_ok(
                        (#[trigger] txns@[s][j]).loc,
                    ),
                loc_ok == (|loc: KeyDirView| scan_loc_ok(orig, loc)),
            decreases remaining@.len(),
        {
            let mut f = remaining.remove(0);
            let ghost k = done@.len() as int;
            proof {
                assert(f == orig[k]);
                lemma_scan_items_props(f.data.file_id, f.content@, 0);
                assert forall|j: int|
                    0 <= j < scan_records(f.data.file_id, f.content@, 0).len() implies loc_ok(
                    (#[trigger] scan_records(f.data.file_id, f.content@, 0)[j]).loc,
                ) by {
                    let it = scan_records(f.data.file_id, f.content@, 0)[j];
                    if k < orig.len() - 1 {
                        assert(orig[k].data.file_id == it.loc.file_id);
                        assert(Db::hint_fid_ok(orig, it.loc.file_id));
                    } else {
                        assert(orig.last() == f);
                    }
                }
            }
            process_file_handle(
                &mut f,
                &mut index,
                &mut txns,
                &mut max,
                Ghost(base),
                Ghost(prior),
                Ghost(loc_ok),
            );
            proof {
                prior = prior + scan_records(orig[k].data.file_id, orig[k].content@, 0);
                let pre = orig.subrange(0, k);
                let one = seq![orig[k]];
                assert(orig.subrange(0, k + 1) =~= pre + one);
                lemma_seg_items_concat(pre, one);
                assert(seg_items(one) =~= scan_records(orig[k].data.file_id, orig[k].content@, 0))
                    by {
                    assert(one[0] == orig[k]);
                    assert(one.subrange(1, 1) =~= Seq::<FileHandle>::empty());
                    assert(seg_items(one.subrange(1, 1)) =~= Seq::<ScanItem>::empty());
                }
            }
            done.push(f);
        }
        proof {
            assert(orig.subrange(0, done@.len() as int) =~= orig);
        }
        if max == u32::MAX {
            return Err(Error::Unsupported(Reason::CounterExhausted));
        }
        let ghost done_full = done@;
        let mut active = match done.pop() {
            Some(f) => f,
            None => FileHandle::new(INITIAL_FILE_ID, Vec::new()),
        };
        active.truncate_to_offset();
        let file_id = active.get_file_id();
        let db = Db {
            ctx: Context { index, opts: opts.duplicate() },
            active_file: active,
            inactive_files: done,
            file_id,
            sequence_number: max + 1,
        };
        proof {
            let n = orig.len() as int;
            if n > 0 {
                assert(done_full[n - 1].content@ == orig[n - 1].content@);
                assert(db.inactive_files@ =~= done_full.subrange(0, n - 1));
                let last_data = orig[n - 1].content@;
                let m = scan_end(last_data, 0) as int;
                lemma_scan_end_bounds(last_data, 0);
                lemma_scan_restrict(db.active_file.data.file_id, last_data, m, 0);
                assert(db.active_file.content@ == last_data.subrange(0, m));
                assert(db.log_clean());
                assert forall|i: int|
                    0 <= i < db.inactive_files@.len() implies (
                #[trigger] db.inactive_files@[i]).data.file_id == orig[i].data.file_id
                    && db.inactive_files@[i].content@ == orig[i].content@ by {
                    assert(db.inactive_files@[i] == done_full[i]);
                }
                assert(seg_items(db.seg_run()) == seg_items(orig)) by {
                    lemma_seg_items_push(db.inactive_files@, db.active_file);
                    let pre = orig.subrange(0, n - 1);
                    lemma_seg_items_congruent(db.inactive_files@, pre);
                    lemma_seg_items_push(pre, orig[n - 1]);
                    assert(orig =~= pre.push(orig[n - 1]));
                    assert(seg_items(db.seg_run()) =~= seg_items(orig));
                }
            } else {
                assert(db.active_file.content@ =~= Seq::<u8>::empty());
                assert(scan_end(db.active_file.content@, 0) == 0);
                assert(db.inactive_files@ =~= Seq::<FileHandle>::empty());
                assert(seg_items(db.seg_run()) == seg_items(orig)) by {
                    lemma_seg_items_push(db.inactive_files@, db.active_file);
                    assert(seg_items(db.inactive_files@) =~= Seq::<ScanItem>::empty());
                    assert(scan_records(
                        db.active_file.data.file_id,
                        db.active_file.content@,
                        0,
                    ) =~= Seq::<ScanItem>::empty());
                    assert(seg_items(orig) =~= Seq::<ScanItem>::empty());
                    assert(seg_items(db.seg_run()) =~= seg_items(orig));
                }
            }
            assert forall|k2: Seq<u8>| #[trigger] db.ctx.index@.contains_key(k2) implies db.loc_wf(
                db.ctx.index@[k2],
            ) by {
                let loc = db.ctx.index@[k2];
                assert(scan_loc_ok(orig, loc));
                if Db::hint_fid_ok(orig, loc.file_id) {
                    let i = choose|i: int|
                        0 <= i < orig.len() - 1 && #[trigger] orig[i].data.file_id == loc.file_id;
                    assert(db.inactive_files@[i].data.file_id == loc.file_id);
                    assert(db.inactive_has(loc.file_id));
                    assert(orig[i].data.file_id < orig[n - 1].data.file_id);
                } else {
                    assert(loc.file_id == db.active_file.data.file_id);
                    crate::entry::lemma_parse_record_restrict(
                        orig[n - 1].content@,
                        scan_end(orig[n - 1].content@, 0) as int,
                        loc.offset as nat,
                    );
                }
            }
            assert(db.wf()) by {
                assert(validate_spec(&db.ctx.opts) is Ok);
            }
        }
        Ok(db)
    }
}

// ---------------------------------------------------------------------------
// Laws of recovery.
// ---------------------------------------------------------------------------

/// Replay never lowers the running maximum, and raises it to every sequence
/// number it passes.
pub proof fn lemma_replay_max(st: ReplayState, items: Seq<ScanItem>)
    ensures
        replay_items(st, items).max_seq >= st.max_seq,
        forall|j: int|
            0 <= j < items.len() ==> (#[trigger] items[j]).seq <= replay_items(st, items).max_seq,
    decreases items.len(),
{
    if items.len() > 0 {
        let tail = items.subrange(1, items.len() as int);
        lemma_replay_max(replay_step(st, items[0]), tail);
        assert forall|j: int|
            0 <= j < items.len() implies (#[trigger] items[j]).seq <= replay_items(
            st,
            items,
        ).max_seq by {
            if j > 0 {
                assert(items[j] == tail[j - 1]);
            }
        }
    }
}

/// Monotonic sequence numbers: the next number a reopened store assigns,
/// one above replay's maximum, strictly exceeds every sequence number
/// present in the log it replayed.
pub proof fn lemma_next_seq_exceeds_log(
    segs: Seq<FileHandle>,
    base: Map<Seq<u8>, KeyDirView>,
    j: int,
)
    requires
        0 <= j < seg_items(segs).len(),
    ensures
        seg_items(segs)[j].seq < replay(segs, base).max_seq + 1,
{
    lemma_replay_max(init_replay(base), seg_items(segs));
}

/// Batch atomicity, the abandoned half: records written under sequence
/// numbers whose commit marker never reached the log leave the index a
/// recovery builds exactly as it was.
pub proof fn lemma_uncommitted_batch_invisible(st: ReplayState, items: Seq<ScanItem>)
    requires
        forall|j: int|
            0 <= j < items.len() ==> (#[trigger] items[j]).seq != NON_COMMITTED && items[j].state
                != State::Committed,
    ensures
        replay_items(st, items).index == st.index,
    decreases items.len(),
{
    if items.len() > 0 {
        let tail = items.subrange(1, items.len() as int);
        assert forall|j: int|
            0 <= j < tail.len() implies (#[trigger] tail[j]).seq != NON_COMMITTED && tail[j].state
            != State::Committed by {
            assert(tail[j] == items[j + 1]);
        }
        lemma_uncommitted_batch_invisible(replay_step(st, items[0]), tail);
    }
}

/// A fresh batch's records only gather in their group: replay buffers them
/// in order and touches nothing else.
proof fn lemma_batch_buffered(st: ReplayState, items: Seq<ScanItem>, s: u32)
    requires
        s != NON_COMMITTED,
        !st.pending.contains_key(s),
        forall|j: int|
            0 <= j < items.len() ==> (#[trigger] items[j]).seq == s && items[j].state
                != State::Committed,
    ensures
        replay_items(st, items).index == st.index,
        replay_items(st, items).pending == if items.len() == 0 {
            st.pending
        } else {
            st.pending.insert(s, items)
        },
    decreases items.len(),
{
    if items.len() > 0 {
        let pre = items.drop_last();
        let last = items.last();
        assert forall|j: int|
            0 <= j < pre.len() implies (#[trigger] pre[j]).seq == s && pre[j].state
            != State::Committed by {
            assert(pre[j] == items[j]);
        }
        lemma_batch_buffered(st, pre, s);
        assert(items[items.len() - 1] == last);
        lemma_replay_items_push(st, pre, last);
        let stp = replay_items(st, pre);
        if pre.len() == 0 {
            assert(TxnBuffer::group_of(stp.pending, s) =~= Seq::<ScanItem>::empty());
            assert(TxnBuffer::group_of(stp.pending, s).push(last) =~= items);
        } else {
            assert(stp.pending[s] == pre);
            assert(TxnBuffer::group_of(stp.pending, s).push(last) =~= items);
            assert(st.pending.insert(s, pre).insert(s, items) =~= st.pending.insert(s, items));
        }
        assert(items.drop_last().push(last) =~= items);
    }
}

/// Batch atomicity, the committed half: once a fresh batch's records and
/// its marker stand in the log, recovery applies the whole batch to the
/// index, in order, and nothing else.
pub proof fn lemma_committed_batch_applied(
    st: ReplayState,
    items: Seq<ScanItem>,
    marker: ScanItem,
)
    requires
        marker.seq != NON_COMMITTED,
        marker.state == State::Committed,
        !st.pending.contains_key(marker.seq),
        forall|j: int|
            0 <= j < items.len() ==> (#[trigger] items[j]).seq == marker.seq && items[j].state
                != State::Committed,
    ensures
        replay_items(st, items.push(marker)).index == apply_group(st.index, items),
{
    lemma_batch_buffered(st, items, marker.seq);
    lemma_replay_items_push(st, items, marker);
    let stp = replay_items(st, items);
    if items.len() == 0 {
        assert(TxnBuffer::group_of(stp.pending, marker.seq) =~= Seq::<ScanItem>::empty());
        assert(apply_group(st.index, Seq::<ScanItem>::empty()) == st.index);
        assert(apply_group(st.index, items) == st.index) by {
            assert(items =~= Seq::<ScanItem>::empty());
        }
    } else {
        assert(stp.pending[marker.seq] == items);
    }
}

/// A record appended to a cleanly scanned log is scanned after everything
/// already there: appending extends recovery's reading of the segment by
/// exactly the appended record.
#[verifier::rlimit(100)]
pub proof fn lemma_scan_append(
    fid: u32,
    data: Seq<u8>,
    state: State,
    key: Seq<u8>,
    value: Seq<u8>,
    seq: u32,
    ukey: Seq<u8>,
    off: nat,
)
    requires
        off <= data.len(),
        scan_end(data, off) == data.len(),
        key.len() + value.len() > 0,
        key.len() <= u64::MAX,
        value.len() <= u64::MAX,
        record_size(key, value) <= u32::MAX,
        data.len() <= u64::MAX,
        crate::batch::txn_parse(key) == Some((seq, ukey)),
    ensures
        ({
            let t = data + record_bytes(state, key, value);
            let item = ScanItem {
                seq,
                ukey,
                state,
                loc: KeyDirView {
                    file_id: fid,
                    offset: data.len() as u64,
                    size: record_size(key, value) as u32,
                },
            };
            &&& scan_records(fid, t, off) == scan_records(fid, data, off).push(item)
            &&& scan_end(t, off) == data.len() + record_size(key, value)
        }),
    decreases data.len() - off,
{
    let rb = record_bytes(state, key, value);
    let t = data + rb;
    let item = ScanItem {
        seq,
        ukey,
        state,
        loc: KeyDirView {
            file_id: fid,
            offset: data.len() as u64,
            size: record_size(key, value) as u32,
        },
    };
    lemma_record_bytes_size(state, key, value);
    match parse_record(data, off) {
        RecParse::Rec(rec, size) => {
            lemma_parse_record_size(data, off);
            assert(off < data.len());
            if size > u32::MAX || off > u64::MAX {
                assert(scan_end(data, off) == off);
                assert(false);
            }
            match crate::batch::txn_parse(rec.key) {
                Some(_) => {
                    lemma_parse_record_extend(data, rb, off);
                    lemma_scan_append(fid, data, state, key, value, seq, ukey, off + size);
                    assert(parse_record(t, off) == RecParse::Rec(rec, size));
                    assert(scan_records(fid, t, off) == seq![
                        ScanItem {
                            seq: crate::batch::txn_parse(rec.key)->Some_0.0,
                            ukey: crate::batch::txn_parse(rec.key)->Some_0.1,
                            state: rec.state,
                            loc: KeyDirView {
                                file_id: fid,
                                offset: off as u64,
                                size: size as u32,
                            },
                        },
                    ] + scan_records(fid, t, (off + size) as nat));
                    assert(scan_records(fid, t, off) =~= scan_records(fid, data, off).push(item));
                    assert(scan_end(t, off) == scan_end(t, (off + size) as nat));
                },
                None => {
                    assert(scan_end(data, off) == off);
                    assert(false);
                },
            }
        },
        _ => {
            assert(scan_end(data, off) == off);
            assert(off == data.len());
            lemma_parse_record_of_encoding(data, state, key, value, Seq::<u8>::empty());
            assert(t =~= data + rb + Seq::<u8>::empty());
            assert(parse_record(t, off) == RecParse::Rec(
                RecView { state, key, value, crc: crc32_of(payload_bytes(state, key, value)) },
                record_size(key, value),
            ));
            assert(off + record_size(key, value) == t.len());
            assert(parse_record(t, off + record_size(key, value)) is Eof);
            assert(scan_records(fid, t, (off + record_size(key, value)) as nat)
                =~= Seq::<ScanItem>::empty());
            assert(scan_records(fid, t, off) =~= seq![item]);
            assert(scan_records(fid, data, off) =~= Seq::<ScanItem>::empty());
            assert(scan_records(fid, data, off).push(item) =~= seq![item]);
            assert(scan_end(t, (off + record_size(key, value)) as nat) == off + record_size(
                key,
                value,
            ));
            assert(scan_end(t, off) == off + record_size(key, value));
        },
    }
}

/// A run of segments whose last segment gains one cleanly appended record
/// reads as the old run's records followed by that record.
pub proof fn lemma_seg_items_append(segs: Seq<FileHandle>, f2: FileHandle, item: ScanItem)
    requires
        segs.len() > 0,
        f2.data.file_id == segs.last().data.file_id,
        scan_records(f2.data.file_id, f2.content@, 0) == scan_records(
            segs.last().data.file_id,
            segs.last().content@,
            0,
        ).push(item),
    ensures
        seg_items(segs.update(segs.len() - 1, f2)) == seg_items(segs).push(item),
    decreases segs.len(),
{
    let segs2 = segs.update(segs.len() - 1, f2);
    if segs.len() == 1 {
        assert(segs2[0] == f2);
        assert(segs2.subrange(1, 1) =~= Seq::<FileHandle>::empty());
        assert(segs.subrange(1, 1) =~= Seq::<FileHandle>::empty());
        assert(seg_items(segs2.subrange(1, 1)) =~= Seq::<ScanItem>::empty());
        assert(seg_items(segs.subrange(1, 1)) =~= Seq::<ScanItem>::empty());
        assert(seg_items(segs2) =~= scan_records(f2.data.file_id, f2.content@, 0));
        assert(seg_items(segs) =~= scan_records(
            segs.last().data.file_id,
            segs.last().content@,
            0,
        ));
        assert(seg_items(segs2) =~= seg_items(segs).push(item));
    } else {
        let tail = segs.subrange(1, segs.len() as int);
        let tail2 = segs2.subrange(1, segs2.len() as int);
        assert(tail.last() == segs.last());
        assert(tail2 =~= tail.update(tail.len() - 1, f2));
        lemma_seg_items_append(tail, f2, item);
        assert(segs2[0] == segs[0]);
        assert(seg_items(segs2) =~= seg_items(segs).push(item));
    }
}

/// Cutting a segment at the point its scan ends changes neither the
/// records read out of it nor where the reading stops.
pub proof fn lemma_scan_restrict(fid: u32, data: Seq<u8>, m: int, off: nat)
    requires
        off <= m <= data.len(),
        scan_end(data, off) == m,
    ensures
        scan_records(fid, data.subrange(0, m), off) == scan_records(fid, data, off),
        scan_end(data.subrange(0, m), off) == m,
    decreases data.len() - off,
{
    let p = data.subrange(0, m);
    match parse_record(data, off) {
        RecParse::Rec(rec, size) => {
            lemma_parse_record_size(data, off);
            if size <= u32::MAX && off <= u64::MAX && crate::batch::txn_parse(rec.key) is Some {
                lemma_scan_end_bounds(data, (off + size) as nat);
                assert(off + size <= scan_end(data, (off + size) as nat));
                crate::entry::lemma_parse_record_restrict(data, m, off);
                lemma_scan_restrict(fid, data, m, (off + size) as nat);
                assert(scan_records(fid, p, off) =~= scan_records(fid, data, off));
            } else {
                assert(scan_end(data, off) == off);
                assert(off == m);
                assert(parse_record(p, off) is Eof);
            }
        },
        _ => {
            assert(scan_end(data, off) == off);
            assert(off == m);
            assert(parse_record(p, off) is Eof);
        },
    }
}

/// The records of a run with one more segment are the run's records, then
/// the new segment's.
pub proof fn lemma_seg_items_push(segs: Seq<FileHandle>, f: FileHandle)
    ensures
        seg_items(segs.push(f)) == seg_items(segs) + scan_records(f.data.file_id, f.content@, 0),
{
    assert(segs.push(f) =~= segs + seq![f]);
    lemma_seg_items_concat(segs, seq![f]);
    assert(seg_items(seq![f]) =~= scan_records(f.data.file_id, f.content@, 0)) by {
        assert(seq![f][0] == f);
        assert(seq![f].subrange(1, 1) =~= Seq::<FileHandle>::empty());
        assert(seg_items(seq![f].subrange(1, 1)) =~= Seq::<ScanItem>::empty());
    }
}

/// Two runs whose segments agree on ids and bytes read the same records.
pub proof fn lemma_seg_items_congruent(a: Seq<FileHandle>, b: Seq<FileHandle>)
    requires
        a.len() == b.len(),
        forall|i: int|
            0 <= i < a.len() ==> (#[trigger] a[i]).data.file_id == b[i].data.file_id
                && a[i].content@ == b[i].content@,
    ensures
        seg_items(a) == seg_items(b),
    decreases a.len(),
{
    if a.len() > 0 {
        let at = a.subrange(1, a.len() as int);
        let bt = b.subrange(1, b.len() as int);
        assert forall|i: int|
            0 <= i < at.len() implies (#[trigger] at[i]).data.file_id == bt[i].data.file_id
            && at[i].content@ == bt[i].content@ by {
            assert(at[i] == a[i + 1]);
            assert(bt[i] == b[i + 1]);
        }
        lemma_seg_items_congruent(at, bt);
        assert(seg_items(a) =~= seg_items(b));
    }
}

/// Durability of a single write: appending one seq-zero record to the last
/// segment of a cleanly scanned run moves the index a reopen builds exactly
/// as the live index moved. A put binds its key to the new record; a
/// tombstone removes it; reopen agrees with the running store.
pub proof fn lemma_write_durable(
    segs: Seq<FileHandle>,
    base: Map<Seq<u8>, KeyDirView>,
    f2: FileHandle,
    state: State,
    ukey: Seq<u8>,
    value: Seq<u8>,
)
    requires
        segs.len() > 0,
        scan_end(segs.last().content@, 0) == segs.last().content@.len(),
        segs.last().content@.len() <= u64::MAX,
        f2.data.file_id == segs.last().data.file_id,
        f2.content@ == segs.last().content@ + record_bytes(
            state,
            txn_key_bytes(NON_COMMITTED, ukey),
            value,
        ),
        txn_key_bytes(NON_COMMITTED, ukey).len() <= u64::MAX,
        value.len() <= u64::MAX,
        record_size(txn_key_bytes(NON_COMMITTED, ukey), value) <= u32::MAX,
    ensures
        ({
            let key = txn_key_bytes(NON_COMMITTED, ukey);
            let loc = KeyDirView {
                file_id: f2.data.file_id,
                offset: segs.last().content@.len() as u64,
                size: record_size(key, value) as u32,
            };
            let before = replay(segs, base).index;
            let after = replay(segs.update(segs.len() - 1, f2), base).index;
            after == if state == State::Active {
                before.insert(ukey, loc)
            } else {
                before.remove(ukey)
            }
        }),
{
    let key = txn_key_bytes(NON_COMMITTED, ukey);
    crate::batch::lemma_txn_key_roundtrip(NON_COMMITTED, ukey);
    crate::varint::lemma_varint_len(0);
    assert(key.len() > 0);
    let item = ScanItem {
        seq: NON_COMMITTED,
        ukey,
        state,
        loc: KeyDirView {
            file_id: f2.data.file_id,
            offset: segs.last().content@.len() as u64,
            size: record_size(key, value) as u32,
        },
    };
    lemma_scan_append(
        f2.data.file_id,
        segs.last().content@,
        state,
        key,
        value,
        NON_COMMITTED,
        ukey,
        0,
    );
    lemma_seg_items_append(segs, f2, item);
    lemma_replay_items_push(init_replay(base), seg_items(segs), item);
}

} // verus!
