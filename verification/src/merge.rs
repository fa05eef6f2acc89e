//! Compaction: rewriting the live records into a fresh, minimal log.
//!
//! A merge walks every settled segment, copies each record the index still
//! points at into a fresh store, and pairs it with a hint record. A final
//! marker names the first segment the merge did not cover; the shell
//! installs the result on the next open only if that marker is durable.

use crate::batch::decode_transaction_key;
use crate::batch::encode_transaction_key;
use crate::batch::txn_key_bytes;
use crate::db::hint_items;
use crate::db::hint_end;
use crate::db::lemma_hint_items_append;
use crate::db::Db;
use crate::db::seg_items;
use crate::db::NON_COMMITTED;
use crate::db::ScanItem;
use crate::entry::EntryView;
use crate::keydir::keydir_bytes;
use crate::keydir::KeyDirView;
use crate::entry::copy_bytes;
use crate::entry::parse_record;
use crate::entry::rec_crc_ok;
use crate::entry::record_bytes;
use crate::entry::record_size;
use crate::entry::DataEntry;
use crate::entry::RecParse;
use crate::entry::State;
use crate::file_handle::FileHandle;
use crate::hintfile::HintFile;
use crate::options::Context;
use crate::result::Error;
use crate::result::Reason;
use crate::varint::all_digits;
use crate::varint::decimal_bytes;
use crate::varint::decimal_value;
use crate::varint::encode_decimal;
use crate::varint::lemma_decimal_roundtrip;
use vstd::prelude::*;

verus! {

/// The reserved user key of the merge-finished marker record.
pub open spec fn merge_finished_key_bytes() -> Seq<u8> {
    seq![
        95u8,
        95u8,
        77u8,
        69u8,
        82u8,
        71u8,
        69u8,
        95u8,
        70u8,
        73u8,
        78u8,
        73u8,
        83u8,
        72u8,
        69u8,
        68u8,
        95u8,
        95u8,
    ]
}

/// The reserved user key of the merge-finished marker record, as bytes.
fn merge_finished_key() -> (r: Vec<u8>)
    ensures
        r@ == merge_finished_key_bytes(),
{
    let mut k: Vec<u8> = Vec::new();
    k.push(95);
    k.push(95);
    k.push(77);
    k.push(69);
    k.push(82);
    k.push(71);
    k.push(69);
    k.push(95);
    k.push(70);
    k.push(73);
    k.push(78);
    k.push(73);
    k.push(83);
    k.push(72);
    k.push(69);
    k.push(68);
    k.push(95);
    k.push(95);
    proof {
        assert(k@ =~= merge_finished_key_bytes());
    }
    k
}

/// Whether the record walk of a settled segment, starting at `off`,
/// reaches `target`: every record before it parses whole, canonically
/// sized, checksummed, and under a readable transaction key — the
/// conditions under which the compaction scan keeps walking.
#[verifier::opaque]
pub open spec fn merge_covers(data: Seq<u8>, off: nat, target: nat) -> bool
    decreases data.len() - off,
{
    if off == target {
        true
    } else {
        match parse_record(data, off) {
            RecParse::Rec(rec, size) => {
                if size > u32::MAX || !rec_crc_ok(rec) || crate::batch::txn_parse(rec.key)
                    is None {
                    false
                } else {
                    merge_covers(data, (off + size) as nat, target)
                }
            },
            _ => false,
        }
    }
}

/// A key a merge owes a copy of: it is live, its record decodes back to
/// the key itself, stays within the locator size field, and the walk of
/// its segment reaches it.
#[verifier::opaque]
pub open spec fn merge_candidate(src: Db, k: Seq<u8>) -> bool {
    &&& src.ctx.index@.contains_key(k)
    &&& k.len() > 0
    &&& src.live_value(k) is Some
    &&& {
        let loc = src.ctx.index@[k];
        let pr = parse_record(src.seg_data(loc.file_id), loc.offset as nat);
        &&& pr is Rec
        &&& pr->Rec_1 <= u32::MAX
        &&& crate::batch::txn_parse(pr->Rec_0.key) is Some
        &&& crate::batch::txn_parse(pr->Rec_0.key)->Some_0.1 == k
        &&& merge_covers(src.seg_data(loc.file_id), 0, loc.offset as nat)
    }
}

/// A record re-keyed to sequence zero never grows: the one-byte zero
/// prefix replaces a prefix at least one byte long.
proof fn lemma_rekeyed_record_smaller(key: Seq<u8>, ukey: Seq<u8>, value: Seq<u8>)
    requires
        crate::batch::txn_parse(key) is Some,
        crate::batch::txn_parse(key)->Some_0.1 == ukey,
    ensures
        record_size(txn_key_bytes(NON_COMMITTED, ukey), value) <= record_size(key, value),
{
    crate::varint::lemma_varint_parse_size(key, 10);
    let (v, k1) = crate::varint::varint_parse(key)->Some_0;
    assert(ukey.len() == key.len() - k1);
    crate::varint::lemma_varint_len(0);
    assert(txn_key_bytes(NON_COMMITTED, ukey).len() == 1 + ukey.len());
    crate::varint::lemma_varint_len_mono((1 + ukey.len()) as nat, key.len());
}

/// Whether every key/locator pair of a hint log is sound against the store
/// it was merged from and the compacted store it points into: the key is
/// one the index held, and if it read back a value, the locator holds a
/// live record with exactly that value under a sequence-zero key.
#[verifier::opaque]
pub open spec fn pairs_ok(src: Db, mdb: Db, pairs: Seq<(Seq<u8>, KeyDirView)>) -> bool {
    forall|i: int|
        0 <= i < pairs.len() ==> {
            &&& src.ctx.index@.contains_key((#[trigger] pairs[i]).0)
            &&& (src.live_value(pairs[i].0) is Some ==> mdb.loc_holds(
                pairs[i].1,
                (EntryView {
                    key: txn_key_bytes(NON_COMMITTED, pairs[i].0),
                    value: src.live_value(pairs[i].0)->Some_0,
                    state: State::Active,
                }),
            ))
        }
}

/// Extending a sound hint log with one more sound pair keeps it sound,
/// also after further appends to the compacted store.
proof fn lemma_pairs_push(
    src: Db,
    mdb_pre: Db,
    mdb: Db,
    pairs: Seq<(Seq<u8>, KeyDirView)>,
    k: Seq<u8>,
    loc: KeyDirView,
)
    requires
        pairs_ok(src, mdb_pre, pairs),
        forall|loc2: KeyDirView, e2: EntryView|
            #[trigger] mdb_pre.loc_holds(loc2, e2) ==> mdb.loc_holds(loc2, e2),
        src.ctx.index@.contains_key(k),
        src.live_value(k) is Some ==> mdb.loc_holds(
            loc,
            (EntryView {
                key: txn_key_bytes(NON_COMMITTED, k),
                value: src.live_value(k)->Some_0,
                state: State::Active,
            }),
        ),
    ensures
        pairs_ok(src, mdb, pairs.push((k, loc))),
{
    reveal(pairs_ok);
    let pairs2 = pairs.push((k, loc));
    assert forall|i: int| 0 <= i < pairs2.len() implies {
        &&& src.ctx.index@.contains_key((#[trigger] pairs2[i]).0)
        &&& (src.live_value(pairs2[i].0) is Some ==> mdb.loc_holds(
            pairs2[i].1,
            (EntryView {
                key: txn_key_bytes(NON_COMMITTED, pairs2[i].0),
                value: src.live_value(pairs2[i].0)->Some_0,
                state: State::Active,
            }),
        ))
    } by {
        if i < pairs.len() {
            assert(pairs2[i] == pairs[i]);
            if src.live_value(pairs[i].0) is Some {
                assert(mdb_pre.loc_holds(
                    pairs[i].1,
                    (EntryView {
                        key: txn_key_bytes(NON_COMMITTED, pairs[i].0),
                        value: src.live_value(pairs[i].0)->Some_0,
                        state: State::Active,
                    }),
                ));
            }
        } else {
            assert(pairs2[i] == (k, loc));
        }
    }
}

/// The summed byte length of the first `k` segments of a run.
pub open spec fn seg_len_prefix(segs: Seq<FileHandle>, k: int) -> int
    decreases k,
{
    if k <= 0 {
        0
    } else {
        seg_len_prefix(segs, k - 1) + segs[k - 1].content@.len()
    }
}

/// The summed byte length of a whole run of segments.
pub open spec fn total_run_len(segs: Seq<FileHandle>) -> int {
    seg_len_prefix(segs, segs.len() as int)
}

/// A longer prefix never sums smaller.
proof fn lemma_seg_len_prefix_mono(segs: Seq<FileHandle>, a: int, b: int)
    requires
        0 <= a <= b,
    ensures
        seg_len_prefix(segs, a) <= seg_len_prefix(segs, b),
    decreases b,
{
    if a < b {
        lemma_seg_len_prefix_mono(segs, a, b - 1);
    }
}

/// What a merge candidate's locator pins down once the active segment is
/// freshly rotated and empty: a settled segment holds its checksummed,
/// active record, and the key reads back that record's value.
proof fn lemma_candidate_in_file(src: Db, k: Seq<u8>)
    requires
        src.wf(),
        merge_candidate(src, k),
        src.active_file.content@.len() == 0,
    ensures
        ({
            let loc = src.ctx.index@[k];
            let i = src.inactive_at(loc.file_id);
            &&& src.inactive_has(loc.file_id)
            &&& 0 <= i < src.inactive_files@.len()
            &&& src.inactive_files@[i].data.file_id == loc.file_id
            &&& src.seg_data(loc.file_id) == src.inactive_files@[i].content@
            &&& loc.file_id != src.active_file.data.file_id
            &&& rec_crc_ok(parse_record(src.seg_data(loc.file_id), loc.offset as nat)->Rec_0)
            &&& parse_record(src.seg_data(loc.file_id), loc.offset as nat)->Rec_0.state
                == State::Active
            &&& src.live_value(k) == Some(
                parse_record(src.seg_data(loc.file_id), loc.offset as nat)->Rec_0.value,
            )
        }),
{
    reveal(merge_candidate);
    let loc = src.ctx.index@[k];
    assert(src.lookup(k) == Some(loc));
    assert(src.read_spec(loc) is Ok);
    if loc.file_id == src.active_file.data.file_id {
        assert(parse_record(src.seg_data(loc.file_id), loc.offset as nat) is Eof);
        assert(false);
    }
    assert(src.inactive_has(loc.file_id));
    let i = src.inactive_at(loc.file_id);
    assert(0 <= i < src.inactive_files@.len() && src.inactive_files@[i].data.file_id
        == loc.file_id);
}

/// The compacted store holds nothing but the hint pairs: its log is clean
/// and reads as exactly one sequence-zero record per pair, in order, under
/// the pair's key and locator.
#[verifier::opaque]
pub open spec fn compact_log_matches(mdb: Db, pairs: Seq<(Seq<u8>, KeyDirView)>) -> bool {
    &&& mdb.log_clean()
    &&& seg_items(mdb.seg_run()).len() == pairs.len()
    &&& forall|j: int|
        0 <= j < pairs.len() ==> {
            let it = #[trigger] seg_items(mdb.seg_run())[j];
            &&& it.seq == NON_COMMITTED
            &&& it.ukey == pairs[j].0
            &&& it.loc == pairs[j].1
        }
}

/// The shorthand the scan invariants use: the key is already among the
/// hint pairs.
pub open spec fn paired(pairs: Seq<(Seq<u8>, KeyDirView)>, k: Seq<u8>) -> bool {
    exists|j: int| 0 <= j < pairs.len() && (#[trigger] pairs[j]).0 == k
}

/// When the walk of a segment stops — an unreadable, corrupt, oversized or
/// key-less record — every candidate of that segment the walk could still
/// owe has in fact been paired already.
proof fn lemma_scan_stopped(
    rotdb: Db,
    idx: int,
    data: Seq<u8>,
    offset: nat,
    pairs: Seq<(Seq<u8>, KeyDirView)>,
)
    requires
        rotdb.wf(),
        rotdb.active_file.content@.len() == 0,
        0 <= idx < rotdb.inactive_files@.len(),
        data == rotdb.inactive_files@[idx].content@,
        !(parse_record(data, offset) is Rec && rec_crc_ok(parse_record(data, offset)->Rec_0)
            && parse_record(data, offset)->Rec_1 <= u32::MAX && crate::batch::txn_parse(
            parse_record(data, offset)->Rec_0.key,
        ) is Some),
        forall|k: Seq<u8>|
            #[trigger] merge_candidate(rotdb, k) && rotdb.inactive_at(
                rotdb.ctx.index@[k].file_id,
            ) == idx ==> (merge_covers(data, offset, rotdb.ctx.index@[k].offset as nat) || paired(
                pairs,
                k,
            )),
    ensures
        forall|k: Seq<u8>|
            #[trigger] merge_candidate(rotdb, k) && rotdb.inactive_at(
                rotdb.ctx.index@[k].file_id,
            ) == idx ==> paired(pairs, k),
{
    assert forall|k: Seq<u8>|
        #[trigger] merge_candidate(rotdb, k) && rotdb.inactive_at(rotdb.ctx.index@[k].file_id)
            == idx implies paired(pairs, k) by {
        if !paired(pairs, k) {
            lemma_candidate_in_file(rotdb, k);
            let t = rotdb.ctx.index@[k].offset as nat;
            assert(merge_covers(data, offset, t));
            reveal(merge_covers);
            reveal(merge_candidate);
            assert(false);
        }
    }
}

/// One walked record keeps the scan honest: candidates pointing at it are
/// paired now, and the rest stay reachable by the walk from the next
/// record.
proof fn lemma_scan_advance(
    rotdb: Db,
    idx: int,
    data: Seq<u8>,
    offset: nat,
    size: nat,
    pairs_pre: Seq<(Seq<u8>, KeyDirView)>,
    pairs: Seq<(Seq<u8>, KeyDirView)>,
    fid: u32,
)
    requires
        rotdb.wf(),
        rotdb.active_file.content@.len() == 0,
        0 <= idx < rotdb.inactive_files@.len(),
        data == rotdb.inactive_files@[idx].content@,
        fid == rotdb.inactive_files@[idx].data.file_id,
        parse_record(data, offset) is Rec,
        parse_record(data, offset)->Rec_1 == size,
        rec_crc_ok(parse_record(data, offset)->Rec_0),
        size <= u32::MAX,
        crate::batch::txn_parse(parse_record(data, offset)->Rec_0.key) is Some,
        pairs.len() >= pairs_pre.len(),
        forall|j: int| 0 <= j < pairs_pre.len() ==> #[trigger] pairs[j] == pairs_pre[j],
        ({
            let k2 = crate::batch::txn_parse(parse_record(data, offset)->Rec_0.key)->Some_0.1;
            (rotdb.ctx.index@.contains_key(k2) && rotdb.ctx.index@[k2].file_id == fid
                && rotdb.ctx.index@[k2].offset == offset && k2.len() > 0) ==> paired(pairs, k2)
        }),
        forall|k: Seq<u8>|
            #[trigger] merge_candidate(rotdb, k) && rotdb.inactive_at(
                rotdb.ctx.index@[k].file_id,
            ) == idx ==> (merge_covers(data, offset, rotdb.ctx.index@[k].offset as nat) || paired(
                pairs_pre,
                k,
            )),
    ensures
        forall|k: Seq<u8>|
            #[trigger] merge_candidate(rotdb, k) && rotdb.inactive_at(
                rotdb.ctx.index@[k].file_id,
            ) == idx ==> (merge_covers(data, offset + size, rotdb.ctx.index@[k].offset as nat)
                || paired(pairs, k)),
{
    assert forall|k: Seq<u8>|
        #[trigger] merge_candidate(rotdb, k) && rotdb.inactive_at(rotdb.ctx.index@[k].file_id)
            == idx implies (merge_covers(data, offset + size, rotdb.ctx.index@[k].offset as nat)
        || paired(pairs, k)) by {
        if paired(pairs_pre, k) {
            let j = choose|j: int| 0 <= j < pairs_pre.len() && (#[trigger] pairs_pre[j]).0 == k;
            assert(pairs[j] == pairs_pre[j]);
            assert(paired(pairs, k));
        } else {
            lemma_candidate_in_file(rotdb, k);
            let t = rotdb.ctx.index@[k].offset as nat;
            assert(merge_covers(data, offset, t));
            if t == offset {
                reveal(merge_candidate);
                assert(paired(pairs, k));
            } else {
                reveal(merge_covers);
            }
        }
    }
}

/// A fresh, empty store the compaction writes into, sharing the source's
/// options.
fn merge_fresh_store(opts: &crate::options::Opts) -> (r: Db)
    requires
        crate::options::validate_spec(opts) is Ok,
    ensures
        r.wf(),
        r.file_id == crate::db::INITIAL_FILE_ID,
        r.sequence_number == 1,
        r.active_file.content@.len() == 0,
        r.inactive_files@.len() == 0,
        compact_log_matches(r, Seq::<(Seq<u8>, KeyDirView)>::empty()),
{
    let r = Db {
        ctx: Context::new(opts),
        active_file: FileHandle::new(crate::db::INITIAL_FILE_ID, Vec::new()),
        inactive_files: Vec::new(),
        file_id: crate::db::INITIAL_FILE_ID,
        sequence_number: 1,
    };
    proof {
        assert(r.wf());
        reveal(compact_log_matches);
        crate::db::lemma_seg_items_push(r.inactive_files@, r.active_file);
        assert(seg_items(r.inactive_files@) =~= Seq::<ScanItem>::empty());
        assert(crate::db::scan_records(r.active_file.data.file_id, r.active_file.content@, 0)
            =~= Seq::<ScanItem>::empty());
        assert(seg_items(r.seg_run()) =~= Seq::<ScanItem>::empty());
    }
    r
}

/// Packs a finished compaction for the shell, closing it with the encoded
/// merge-finished marker record.
fn merge_finish(merge_db: Db, hint: HintFile, unmerged_file_id: u32) -> (r: MergeOutput)
    ensures
        r.merge_db == merge_db,
        r.hint == hint,
        r.unmerged_file_id == unmerged_file_id,
        r.finished@ == record_bytes(
            State::Active,
            merge_finished_key_bytes(),
            decimal_bytes(unmerged_file_id as nat),
        ),
{
    let _synced = merge_db.sync();
    let _hsynced = hint.sync();
    let mut digits: Vec<u8> = Vec::new();
    encode_decimal(unmerged_file_id, &mut digits);
    proof {
        lemma_decimal_roundtrip(unmerged_file_id as nat);
    }
    let finished_entry = DataEntry::new(merge_finished_key(), digits, State::Active);
    let finished = match finished_entry.encode() {
        Ok(b) => b,
        Err(e) => {
            proof {
                assert(false);
            }
            let empty: Vec<u8> = Vec::new();
            empty
        },
    };
    MergeOutput { merge_db, hint, finished, unmerged_file_id }
}

/// Everything a completed merge hands to the shell: the compacted store
/// whose segments become the directory's new log, the hint log, the encoded
/// merge-finished record, and the id it names.
pub struct MergeOutput {
    /// The compacted store.
    pub merge_db: Db,
    /// The hint log pairing each rewritten key with its new locator.
    pub hint: HintFile,
    /// The encoded merge-finished record, ready to be written alone into
    /// its marker file.
    pub finished: Vec<u8>,
    /// The first segment id the merge did not cover: the id of the segment
    /// that became active when the merge began.
    pub unmerged_file_id: u32,
}

/// Appends one live record, re-keyed to sequence zero, to the compacted
/// store, and pairs it with a hint record.
#[verifier::rlimit(100)]
#[verifier::spinoff_prover]
fn merge_append_pair(
    entry: &DataEntry,
    user_key: Vec<u8>,
    merge_db: &mut Db,
    hint: &mut HintFile,
    Ghost(src): Ghost<Db>,
    Ghost(pairs): Ghost<Seq<(Seq<u8>, KeyDirView)>>,
    Ghost(src_size): Ghost<nat>,
) -> (r: (Result<(), Error>, Ghost<Seq<(Seq<u8>, KeyDirView)>>))
    requires
        old(merge_db).wf(),
        user_key@.len() > 0,
        user_key@.len() + 7 <= src_size,
        entry@.key == txn_key_bytes(NON_COMMITTED, user_key@),
        record_size(entry@.key, entry@.value) <= u32::MAX,
        src.ctx.index@.contains_key(user_key@),
        src.live_value(user_key@) is Some ==> entry@.value == src.live_value(user_key@)->Some_0
            && entry@.state == State::Active,
        old(hint).file.data.offset == old(hint).file.content@.len(),
        hint_items(old(hint).file.content@, 0) == pairs,
        hint_end(old(hint).file.content@, 0) == old(hint).file.content@.len(),
        pairs_ok(src, *old(merge_db), pairs),
    ensures
        final(merge_db).wf(),
        final(merge_db).file_id <= old(merge_db).file_id + 1,
        final(hint).file.data.offset == final(hint).file.content@.len(),
        final(hint).file.content@.len() <= old(hint).file.content@.len() + src_size + 36,
        hint_items(final(hint).file.content@, 0) == r.1@,
        hint_end(final(hint).file.content@, 0) == final(hint).file.content@.len(),
        pairs_ok(src, *final(merge_db), r.1@),
        r.1@.len() >= pairs.len(),
        forall|j: int| 0 <= j < pairs.len() ==> #[trigger] r.1@[j] == pairs[j],
        compact_log_matches(*old(merge_db), pairs) && r.0 is Ok ==> compact_log_matches(
            *final(merge_db),
            r.1@,
        ),
        match r.0 {
            Ok(()) => {
                &&& r.1@.len() == pairs.len() + 1
                &&& r.1@.last().0 == user_key@
            },
            Err(e) => {
                &&& e == Error::Unsupported(Reason::CounterExhausted)
                &&& (old(merge_db).file_id == u32::MAX || old(hint).file.content@.len() + src_size
                    + 36 > u64::MAX)
                &&& r.1@ == pairs
            },
        },
{
    proof {
        crate::varint::lemma_varint_len(0);
    }
    let ghost key_view = user_key@;
    let ghost mdb_pre = *merge_db;
    let new_loc = match merge_db.append_entry(entry) {
        Ok(l) => l,
        Err(e) => {
            proof {
                assert(entry@.key.len() > 0);
            }
            return (Err(e), Ghost(pairs));
        },
    };
    let ghost hint_pre = hint.file.content@;
    proof {
        crate::varint::lemma_varint_len_u64(new_loc@.file_id as nat);
        crate::varint::lemma_varint_len_u64(new_loc@.offset as nat);
        crate::varint::lemma_varint_len_u64(new_loc@.size as nat);
        crate::varint::lemma_varint_len_u64(key_view.len());
        crate::varint::lemma_varint_len(keydir_bytes(new_loc@).len());
        assert(keydir_bytes(new_loc@).len() <= 20);
        crate::entry::lemma_record_bytes_size(State::Active, key_view, keydir_bytes(new_loc@));
        assert(record_bytes(State::Active, key_view, keydir_bytes(new_loc@)).len() <= src_size
            + 36);
    }
    match hint.write_entry(user_key, &new_loc) {
        Ok(()) => {},
        Err(e) => {
            proof {
                lemma_pairs_unchanged(src, mdb_pre, *merge_db, pairs);
            }
            return (Err(e), Ghost(pairs));
        },
    }
    proof {
        lemma_hint_items_append(hint_pre, key_view, new_loc@, 0);
        lemma_pairs_push(src, mdb_pre, *merge_db, pairs, key_view, new_loc@);
        if compact_log_matches(mdb_pre, pairs) {
            reveal(compact_log_matches);
            crate::batch::lemma_txn_key_roundtrip(NON_COMMITTED, key_view);
            let pairs2 = pairs.push((key_view, new_loc@));
            let items2 = seg_items(merge_db.seg_run());
            assert(items2 == seg_items(mdb_pre.seg_run()).push(
                ScanItem {
                    seq: NON_COMMITTED,
                    ukey: key_view,
                    state: entry@.state,
                    loc: new_loc@,
                },
            ));
            assert forall|j: int| 0 <= j < pairs2.len() implies {
                let it = #[trigger] items2[j];
                &&& it.seq == NON_COMMITTED
                &&& it.ukey == pairs2[j].0
                &&& it.loc == pairs2[j].1
            } by {
                if j < pairs.len() {
                    assert(items2[j] == seg_items(mdb_pre.seg_run())[j]);
                    assert(pairs2[j] == pairs[j]);
                }
            }
        }
    }
    (Ok(()), Ghost(pairs.push((key_view, new_loc@))))
}

/// Copies one scanned record into the compacted store if the index still
/// points at it, pairing it with a hint record. Hands back whether the
/// scan of the segment goes on, and the grown list of hint pairs.
#[verifier::rlimit(100)]
#[verifier::spinoff_prover]
fn merge_copy_record(
    src: &Db,
    idx: usize,
    fid: u32,
    offset: u64,
    entry: DataEntry,
    merge_db: &mut Db,
    hint: &mut HintFile,
    Ghost(pairs): Ghost<Seq<(Seq<u8>, KeyDirView)>>,
) -> (r: (Result<bool, Error>, Ghost<Seq<(Seq<u8>, KeyDirView)>>))
    requires
        src.wf(),
        old(merge_db).wf(),
        idx < src.inactive_files@.len(),
        fid == src.inactive_files@[idx as int].data.file_id,
        ({
            let pr = parse_record(src.inactive_files@[idx as int].content@, offset as nat);
            &&& pr is Rec
            &&& pr->Rec_1 <= u32::MAX
            &&& entry@.key == pr->Rec_0.key
            &&& entry@.value == pr->Rec_0.value
            &&& entry@.state == pr->Rec_0.state
            &&& rec_crc_ok(pr->Rec_0)
        }),
        old(hint).file.data.offset == old(hint).file.content@.len(),
        hint_items(old(hint).file.content@, 0) == pairs,
        hint_end(old(hint).file.content@, 0) == old(hint).file.content@.len(),
        pairs_ok(*src, *old(merge_db), pairs),
    ensures
        final(merge_db).wf(),
        final(merge_db).file_id <= old(merge_db).file_id + 1,
        final(hint).file.data.offset == final(hint).file.content@.len(),
        final(hint).file.content@.len() <= old(hint).file.content@.len() + parse_record(
            src.inactive_files@[idx as int].content@,
            offset as nat,
        )->Rec_1 + 36,
        hint_items(final(hint).file.content@, 0) == r.1@,
        hint_end(final(hint).file.content@, 0) == final(hint).file.content@.len(),
        pairs_ok(*src, *final(merge_db), r.1@),
        r.1@.len() >= pairs.len(),
        forall|j: int| 0 <= j < pairs.len() ==> #[trigger] r.1@[j] == pairs[j],
        compact_log_matches(*old(merge_db), pairs) && r.0 is Ok ==> compact_log_matches(
            *final(merge_db),
            r.1@,
        ),
        match r.0 {
            Ok(cont) => {
                let pr = parse_record(src.inactive_files@[idx as int].content@, offset as nat);
                if cont {
                    &&& crate::batch::txn_parse(pr->Rec_0.key) is Some
                    &&& ({
                        let k = crate::batch::txn_parse(pr->Rec_0.key)->Some_0.1;
                        (src.ctx.index@.contains_key(k) && src.ctx.index@[k].file_id == fid
                            && src.ctx.index@[k].offset == offset && k.len() > 0) ==> exists|
                            j: int,
                        |
                            0 <= j < r.1@.len() && (#[trigger] r.1@[j]).0 == k
                    })
                } else {
                    &&& crate::batch::txn_parse(pr->Rec_0.key) is None
                    &&& r.1@ == pairs
                    &&& *final(merge_db) == *old(merge_db)
                    &&& *final(hint) == *old(hint)
                }
            },
            Err(e) => {
                &&& e == Error::Unsupported(Reason::CounterExhausted)
                &&& (old(merge_db).file_id == u32::MAX || old(hint).file.content@.len()
                    + parse_record(
                    src.inactive_files@[idx as int].content@,
                    offset as nat,
                )->Rec_1 + 36 > u64::MAX)
                &&& r.1@ == pairs
            },
        },
{
    let mut entry = entry;
    let ghost mut pairs = pairs;
    match decode_transaction_key(entry.get_key()) {
        Err(_) => {
            return (Ok(false), Ghost(pairs));
        },
        Ok((key, _seq)) => {
            let ghost rec_value = entry@.value;
            let ghost rec_state = entry@.state;
            let ghost key_view = key@;
            let found = src.ctx.index.get(&key);
            let live = match found {
                Some(loc) => loc.get_file_id() == fid && loc.get_offset() == offset,
                None => false,
            };
            if live && key.len() > 0 {
                proof {
                    src.lemma_inactive_at(idx as int);
                    match found {
                        Some(loc) => {
                            assert(loc@ == src.ctx.index@[key_view]);
                            assert(src.seg_data(loc@.file_id)
                                == src.inactive_files@[idx as int].content@);
                            if src.live_value(key_view) is Some {
                                assert(rec_state == State::Active);
                                assert(src.live_value(key_view) == Some(rec_value));
                            }
                        },
                        None => {
                            assert(false);
                        },
                    }
                }
                let user_key = copy_bytes(&key);
                let ghost rec_key = entry@.key;
                let ghost data_here = src.inactive_files@[idx as int].content@;
                let ghost src_size = parse_record(data_here, offset as nat)->Rec_1;
                entry.set_key(encode_transaction_key(key, NON_COMMITTED));
                proof {
                    crate::entry::lemma_parse_record_size(data_here, offset as nat);
                    lemma_rekeyed_record_smaller(rec_key, key_view, rec_value);
                    crate::varint::lemma_varint_parse_size(rec_key, 10);
                    crate::varint::lemma_varint_len(rec_key.len());
                    crate::varint::lemma_varint_len(rec_value.len());
                    assert(src_size >= rec_key.len() + 7);
                    assert(key_view.len() + 1 <= rec_key.len());
                }
                let (res, g2) = merge_append_pair(
                    &entry,
                    user_key,
                    merge_db,
                    hint,
                    Ghost(*src),
                    Ghost(pairs),
                    Ghost(src_size),
                );
                proof {
                    pairs = g2@;
                }
                match res {
                    Ok(()) => {
                        proof {
                            assert(pairs.last().0 == key_view);
                            assert(exists|j: int|
                                0 <= j < pairs.len() && (#[trigger] pairs[j]).0 == key_view) by {
                                assert(pairs[pairs.len() - 1].0 == key_view);
                            }
                        }
                    },
                    Err(e) => {
                        return (Err(e), Ghost(pairs));
                    },
                }
            }
            (Ok(true), Ghost(pairs))
        },
    }
}

/// Appends to the compacted store leave a sound hint log sound.
proof fn lemma_pairs_unchanged(src: Db, mdb_pre: Db, mdb: Db, pairs: Seq<(Seq<u8>, KeyDirView)>)
    requires
        pairs_ok(src, mdb_pre, pairs),
        forall|loc2: KeyDirView, e2: EntryView|
            #[trigger] mdb_pre.loc_holds(loc2, e2) ==> mdb.loc_holds(loc2, e2),
    ensures
        pairs_ok(src, mdb, pairs),
{
    reveal(pairs_ok);
    assert forall|i: int| 0 <= i < pairs.len() implies {
        &&& src.ctx.index@.contains_key((#[trigger] pairs[i]).0)
        &&& (src.live_value(pairs[i].0) is Some ==> mdb.loc_holds(
            pairs[i].1,
            (EntryView {
                key: txn_key_bytes(NON_COMMITTED, pairs[i].0),
                value: src.live_value(pairs[i].0)->Some_0,
                state: State::Active,
            }),
        ))
    } by {
        if src.live_value(pairs[i].0) is Some {
            assert(mdb_pre.loc_holds(
                pairs[i].1,
                (EntryView {
                    key: txn_key_bytes(NON_COMMITTED, pairs[i].0),
                    value: src.live_value(pairs[i].0)->Some_0,
                    state: State::Active,
                }),
            ));
        }
    }
}

impl Db {
    /// Compacts the store: seals the active segment, then copies every
    /// record the index still points at into a fresh store, with a hint
    /// record each, and closes the result with a merge-finished marker.
    /// The store itself keeps answering exactly as before.
    #[verifier::rlimit(100)]
    #[verifier::spinoff_prover]
    pub fn merge(&mut self) -> (r: Result<MergeOutput, Error>)
        requires
            old(self).wf(),
        ensures
            final(self).wf(),
            final(self).ctx.opts == old(self).ctx.opts,
            final(self).ctx.index@ == old(self).ctx.index@,
            final(self).sequence_number == old(self).sequence_number,
            forall|k: Seq<u8>| #[trigger] final(self).live_value(k) == old(self).live_value(k),
            match r {
                Ok(out) => {
                    &&& old(self).active_file.data.offset > 0 || old(
                        self,
                    ).inactive_files@.len() > 0
                    &&& out.merge_db.wf()
                    &&& out.unmerged_file_id == final(self).file_id
                    &&& out.finished@ == record_bytes(
                        State::Active,
                        merge_finished_key_bytes(),
                        decimal_bytes(out.unmerged_file_id as nat),
                    )
                    &&& pairs_ok(*final(self), out.merge_db, hint_items(out.hint.file.content@, 0))
                    &&& compact_log_matches(
                        out.merge_db,
                        hint_items(out.hint.file.content@, 0),
                    )
                    &&& forall|k: Seq<u8>|
                        #[trigger] merge_candidate(*final(self), k) ==> exists|j: int|
                            0 <= j < hint_items(out.hint.file.content@, 0).len()
                                && (#[trigger] hint_items(out.hint.file.content@, 0)[j]).0 == k
                },
                Err(e) => {
                    &&& (e == Error::Unsupported(Reason::MergeEmpty) <==> old(
                        self,
                    ).active_file.data.offset == 0 && old(self).inactive_files@.len() == 0)
                    &&& (e == Error::Unsupported(Reason::MergeEmpty) ==> *final(self) == *old(
                        self,
                    ))
                    &&& (e == Error::Unsupported(Reason::MergeEmpty) || e == Error::Unsupported(
                        Reason::CounterExhausted,
                    ))
                    &&& (e == Error::Unsupported(Reason::CounterExhausted) ==> old(self).file_id
                        == u32::MAX || total_run_len(old(self).seg_run()) >= u32::MAX as int)
                },
            },
            ({
                &&& (old(self).active_file.data.offset > 0 || old(self).inactive_files@.len() > 0)
                &&& old(self).file_id < u32::MAX
                &&& total_run_len(old(self).seg_run()) < u32::MAX as int
            }) ==> r is Ok,
    {
        if self.active_file.get_offset() == 0 && self.inactive_files.len() == 0 {
            return Err(Error::Unsupported(Reason::MergeEmpty));
        }
        match self.rotate_active_file() {
            Ok(()) => {},
            Err(e) => {
                return Err(e);
            },
        }
        let ghost rotdb = *self;
        let mut merge_db = merge_fresh_store(&self.ctx.opts);
        let mut hint = HintFile::new();
        let ghost mut pairs: Seq<(Seq<u8>, KeyDirView)> = Seq::empty();
        proof {
            assert(hint_items(hint.file.content@, 0) =~= pairs);
            assert(hint_end(hint.file.content@, 0) == 0);
            assert(pairs_ok(rotdb, merge_db, pairs)) by {
                reveal(pairs_ok);
            }
        }
        let ghost run = rotdb.inactive_files@;
        let ghost mut processed: int = 0;
        proof {
            assert(run == old(self).seg_run());
        }
        let mut idx: usize = 0;
        while idx < self.inactive_files.len()
            invariant
                *self == rotdb,
                rotdb.wf(),
                merge_db.wf(),
                rotdb.ctx == old(self).ctx,
                rotdb.sequence_number == old(self).sequence_number,
                rotdb.active_file.content@.len() == 0,
                run == rotdb.inactive_files@,
                run == old(self).seg_run(),
                forall|k: Seq<u8>| #[trigger] rotdb.live_value(k) == old(self).live_value(k),
                old(self).active_file.data.offset > 0 || old(self).inactive_files@.len() > 0,
                hint.file.data.offset == hint.file.content@.len(),
                hint_items(hint.file.content@, 0) == pairs,
                hint_end(hint.file.content@, 0) == hint.file.content@.len(),
                pairs_ok(rotdb, merge_db, pairs),
                compact_log_matches(merge_db, pairs),
                0 <= processed,
                merge_db.file_id as int <= processed,
                hint.file.content@.len() <= 37 * processed,
                processed <= seg_len_prefix(run, idx as int),
                idx <= run.len(),
                forall|k: Seq<u8>|
                    #[trigger] merge_candidate(rotdb, k) && 0 <= rotdb.inactive_at(
                        rotdb.ctx.index@[k].file_id,
                    ) < idx as int ==> paired(pairs, k),
            decreases rotdb.inactive_files@.len() - idx,
        {
            let flen = self.inactive_files[idx].content_bytes().len();
            let fid = self.inactive_files[idx].get_file_id();
            let ghost data_here = run[idx as int].content@;
            proof {
                assert forall|k: Seq<u8>|
                    #[trigger] merge_candidate(rotdb, k) && rotdb.inactive_at(
                        rotdb.ctx.index@[k].file_id,
                    ) == idx as int implies (merge_covers(
                    data_here,
                    0,
                    rotdb.ctx.index@[k].offset as nat,
                ) || paired(pairs, k)) by {
                    lemma_candidate_in_file(rotdb, k);
                    reveal(merge_candidate);
                }
            }
            let mut offset: u64 = 0;
            let mut scanning = true;
            while scanning
                invariant
                    *self == rotdb,
                    rotdb.wf(),
                    merge_db.wf(),
                    rotdb.ctx == old(self).ctx,
                    rotdb.sequence_number == old(self).sequence_number,
                    rotdb.active_file.content@.len() == 0,
                    run == rotdb.inactive_files@,
                    run == old(self).seg_run(),
                    forall|k: Seq<u8>| #[trigger] rotdb.live_value(k) == old(self).live_value(k),
                    old(self).active_file.data.offset > 0 || old(self).inactive_files@.len() > 0,
                    hint.file.data.offset == hint.file.content@.len(),
                    hint_items(hint.file.content@, 0) == pairs,
                    hint_end(hint.file.content@, 0) == hint.file.content@.len(),
                    pairs_ok(rotdb, merge_db, pairs),
                    compact_log_matches(merge_db, pairs),
                    0 <= processed,
                    merge_db.file_id as int <= processed,
                    hint.file.content@.len() <= 37 * processed,
                    processed <= seg_len_prefix(run, idx as int) + offset,
                    idx < run.len(),
                    fid == run[idx as int].data.file_id,
                    data_here == run[idx as int].content@,
                    flen == data_here.len(),
                    offset as nat <= flen,
                    forall|k: Seq<u8>|
                        #[trigger] merge_candidate(rotdb, k) && 0 <= rotdb.inactive_at(
                            rotdb.ctx.index@[k].file_id,
                        ) < idx as int ==> paired(pairs, k),
                    forall|k: Seq<u8>|
                        #[trigger] merge_candidate(rotdb, k) && rotdb.inactive_at(
                            rotdb.ctx.index@[k].file_id,
                        ) == idx as int ==> (merge_covers(
                            data_here,
                            offset as nat,
                            rotdb.ctx.index@[k].offset as nat,
                        ) || paired(pairs, k)),
                    !scanning ==> forall|k: Seq<u8>|
                        #[trigger] merge_candidate(rotdb, k) && rotdb.inactive_at(
                            rotdb.ctx.index@[k].file_id,
                        ) == idx as int ==> paired(pairs, k),
                decreases (flen - offset as nat) + (if scanning {
                    1int
                } else {
                    0int
                }),
            {
                let step = self.inactive_files[idx].extract_data_entry(offset);
                match step {
                    Err(_) => {
                        proof {
                            lemma_scan_stopped(rotdb, idx as int, data_here, offset as nat, pairs);
                        }
                        scanning = false;
                    },
                    Ok((entry, size)) => {
                        proof {
                            crate::entry::lemma_parse_record_size(data_here, offset as nat);
                        }
                        if size > u32::MAX as usize {
                            proof {
                                lemma_scan_stopped(
                                    rotdb,
                                    idx as int,
                                    data_here,
                                    offset as nat,
                                    pairs,
                                );
                            }
                            scanning = false;
                        } else {
                            let ghost pairs_pre = pairs;
                            let ghost mdb_pre = merge_db;
                            let ghost hint_pre_len = hint.file.content@.len() as int;
                            let (res, g2) = merge_copy_record(
                                self,
                                idx,
                                fid,
                                offset,
                                entry,
                                &mut merge_db,
                                &mut hint,
                                Ghost(pairs),
                            );
                            proof {
                                pairs = g2@;
                                assert forall|k: Seq<u8>|
                                    #[trigger] merge_candidate(rotdb, k) && 0
                                        <= rotdb.inactive_at(rotdb.ctx.index@[k].file_id)
                                        < idx as int implies paired(pairs, k) by {
                                    if paired(pairs_pre, k) {
                                        let j = choose|j: int|
                                            0 <= j < pairs_pre.len() && (
                                            #[trigger] pairs_pre[j]).0 == k;
                                        assert(pairs[j] == pairs_pre[j]);
                                    }
                                }
                            }
                            match res {
                                Err(e) => {
                                    proof {
                                        lemma_seg_len_prefix_mono(
                                            run,
                                            idx as int + 1,
                                            run.len() as int,
                                        );
                                        assert(seg_len_prefix(run, idx as int + 1)
                                            == seg_len_prefix(run, idx as int) + flen);
                                        assert(processed + size <= total_run_len(run));
                                        if mdb_pre.file_id == u32::MAX {
                                            assert(total_run_len(run) >= u32::MAX as int);
                                        } else {
                                            assert(hint_pre_len + size + 36 > u64::MAX);
                                            assert(total_run_len(run) >= u32::MAX as int);
                                        }
                                    }
                                    return Err(e);
                                },
                                Ok(true) => {
                                    proof {
                                        lemma_scan_advance(
                                            rotdb,
                                            idx as int,
                                            data_here,
                                            offset as nat,
                                            size as nat,
                                            pairs_pre,
                                            pairs,
                                            fid,
                                        );
                                        processed = processed + size;
                                    }
                                    offset = offset + size as u64;
                                },
                                Ok(false) => {
                                    proof {
                                        lemma_scan_stopped(
                                            rotdb,
                                            idx as int,
                                            data_here,
                                            offset as nat,
                                            pairs,
                                        );
                                    }
                                    scanning = false;
                                },
                            }
                        }
                    },
                }
            }
            proof {
                assert(seg_len_prefix(run, idx as int + 1) == seg_len_prefix(run, idx as int)
                    + flen);
            }
            idx = idx + 1;
        }
        let unmerged_file_id = self.file_id;
        let out = merge_finish(merge_db, hint, unmerged_file_id);
        proof {
            assert forall|k: Seq<u8>| #[trigger] merge_candidate(rotdb, k) implies exists|j: int|
                0 <= j < pairs.len() && (#[trigger] pairs[j]).0 == k by {
                lemma_candidate_in_file(rotdb, k);
                assert(rotdb.inactive_at(rotdb.ctx.index@[k].file_id)
                    < rotdb.inactive_files@.len());
                assert(paired(pairs, k));
            }
        }
        Ok(out)
    }
}

/// Reads the id a merge-finished marker names: the single record's value as
/// a decimal number. Anything unreadable, corrupt, or out of range reads as
/// no marker at all, and the shell then abandons the merge directory.
pub fn parse_merge_finished(content: &Vec<u8>) -> (r: Option<u32>)
    ensures
        match parse_record(content@, 0) {
            RecParse::Rec(rec, size) => {
                if rec_crc_ok(rec) && rec.value.len() >= 1 && all_digits(rec.value)
                    && decimal_value(rec.value) <= u32::MAX {
                    r == Some((decimal_value(rec.value) as u32))
                } else {
                    r is None
                }
            },
            _ => r is None,
        },
{
    let file = FileHandle::new(0, copy_bytes(content));
    let entry = match file.extract_data_entry(0) {
        Ok((e, _)) => e,
        Err(_) => {
            return None;
        },
    };
    crate::varint::parse_decimal(entry.get_value())
}

} // verus!
