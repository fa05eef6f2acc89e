//! Transactional write batches, and the transaction-scoped key codec.
//!
//! Every on-disk key is `varint(seq_no) || user_key`. Sequence number zero
//! marks a plain single-operation write; a non-zero number groups the
//! records of one batch, which a terminal committed marker makes visible.

use crate::entry::copy_bytes;
use crate::entry::record_size;
use crate::entry::EntryView;
use crate::entry::State;
use crate::db::seg_items;
use crate::db::ScanItem;
use crate::keydir::KeyDirEntry;
use crate::keydir::KeyDirView;
use crate::result::Error;
use crate::result::Reason;
use vstd::map::*;
use crate::result::IoKind;
use crate::varint::encode_varint;
use crate::varint::decode_varint;
use crate::varint::lemma_varint_len_u64;
use crate::varint::lemma_varint_parse_size;
use crate::varint::lemma_varint_roundtrip;
use crate::varint::varint_bytes;
use crate::varint::varint_parse;
use vstd::prelude::*;

verus! {

/// The on-disk form of a key written under a sequence number.
pub open spec fn txn_key_bytes(seq: u32, key: Seq<u8>) -> Seq<u8> {
    varint_bytes(seq as nat) + key
}

/// Splitting an on-disk key back into sequence number and user key.
/// Rejects keys whose prefix is unreadable or beyond the range of a
/// sequence number.
pub open spec fn txn_parse(key: Seq<u8>) -> Option<(u32, Seq<u8>)> {
    match varint_parse(key) {
        None => None,
        Some((v, k)) => {
            if v <= u32::MAX {
                Some(((v as u32), key.subrange(k as int, key.len() as int)))
            } else {
                None
            }
        },
    }
}

/// An encoded transaction key reads back as its parts.
pub proof fn lemma_txn_key_roundtrip(seq: u32, key: Seq<u8>)
    ensures
        txn_parse(txn_key_bytes(seq, key)) == Some((seq, key)),
{
    lemma_varint_len_u64(seq as nat);
    lemma_varint_roundtrip(seq as nat, key, 10);
    let s = txn_key_bytes(seq, key);
    assert(varint_parse(s) == Some((seq as nat, crate::varint::varint_len(seq as nat))));
    assert(s.subrange(crate::varint::varint_len(seq as nat) as int, s.len() as int) =~= key);
}

/// Prefixes a key with its sequence number.
pub fn encode_transaction_key(key: Vec<u8>, seq_no: u32) -> (r: Vec<u8>)
    ensures
        r@ == txn_key_bytes(seq_no, key@),
{
    let mut buf: Vec<u8> = Vec::new();
    encode_varint(seq_no as u64, &mut buf);
    crate::entry::append_bytes(&mut buf, key.as_slice());
    proof {
        assert(buf@ =~= txn_key_bytes(seq_no, key@));
    }
    buf
}

/// Splits an on-disk key into its user key and sequence number.
pub fn decode_transaction_key(key: &Vec<u8>) -> (r: Result<(Vec<u8>, u32), Error>)
    ensures
        match txn_parse(key@) {
            Some((seq, ukey)) => r is Ok && r->Ok_0.0@ == ukey && r->Ok_0.1 == seq,
            None => r == Err::<(Vec<u8>, u32), Error>(Error::Io(IoKind::UnexpectedEof)),
        },
{
    proof {
        assert(key@.subrange(0, key@.len() as int) =~= key@);
    }
    let (v, k) = match decode_varint(key.as_slice(), 0) {
        Some(x) => x,
        None => {
            return Err(Error::Io(IoKind::UnexpectedEof));
        },
    };
    if v > u32::MAX as u64 {
        return Err(Error::Io(IoKind::UnexpectedEof));
    }
    proof {
        lemma_varint_parse_size(key@, 10);
    }
    let rest = vstd::slice::slice_to_vec(vstd::slice::slice_subrange(key.as_slice(), k, key.len()));
    Ok((rest, v as u32))
}

// ---------------------------------------------------------------------------
// The write batch.
// ---------------------------------------------------------------------------

/// A buffered mutation: a put carries its value, a delete an empty one.
pub struct BatchItem {
    pub state: State,
    pub value: Seq<u8>,
}

/// The map a batch's parallel key, value and state vectors denote.
pub open spec fn pmap_of(
    ks: Seq<Seq<u8>>,
    vs: Seq<Seq<u8>>,
    ss: Seq<State>,
) -> Map<Seq<u8>, BatchItem>
    decreases ks.len(),
{
    if ks.len() == 0 || ks.len() != vs.len() || ks.len() != ss.len() {
        Map::empty()
    } else {
        pmap_of(ks.drop_last(), vs.drop_last(), ss.drop_last()).insert(
            ks.last(),
            BatchItem { state: ss.last(), value: vs.last() },
        )
    }
}

/// `pmap_of` binds exactly the keys that occur.
pub proof fn lemma_pmap_contains(ks: Seq<Seq<u8>>, vs: Seq<Seq<u8>>, ss: Seq<State>, k: Seq<u8>)
    requires
        ks.len() == vs.len(),
        ks.len() == ss.len(),
    ensures
        pmap_of(ks, vs, ss).contains_key(k) <==> exists|i: int|
            0 <= i < ks.len() && #[trigger] ks[i] == k,
    decreases ks.len(),
{
    if ks.len() > 0 {
        let kp = ks.drop_last();
        lemma_pmap_contains(kp, vs.drop_last(), ss.drop_last(), k);
        if pmap_of(ks, vs, ss).contains_key(k) {
            if k == ks.last() {
                assert(ks[ks.len() - 1] == k);
            } else {
                let i = choose|i: int| 0 <= i < kp.len() && #[trigger] kp[i] == k;
                assert(ks[i] == k);
            }
        }
        if exists|i: int| 0 <= i < ks.len() && #[trigger] ks[i] == k {
            let i = choose|i: int| 0 <= i < ks.len() && #[trigger] ks[i] == k;
            if i == ks.len() - 1 {
                assert(k == ks.last());
            } else {
                assert(kp[i] == k);
            }
        }
    }
}

/// With distinct keys, each position's mutation survives into the map.
pub proof fn lemma_pmap_at(ks: Seq<Seq<u8>>, vs: Seq<Seq<u8>>, ss: Seq<State>, i: int)
    requires
        ks.len() == vs.len(),
        ks.len() == ss.len(),
        forall|x: int, y: int| 0 <= x < y < ks.len() ==> #[trigger] ks[x] != #[trigger] ks[y],
        0 <= i < ks.len(),
    ensures
        pmap_of(ks, vs, ss).contains_key(ks[i]),
        pmap_of(ks, vs, ss)[ks[i]] == (BatchItem { state: ss[i], value: vs[i] }),
    decreases ks.len(),
{
    if i == ks.len() - 1 {
        assert(pmap_of(ks, vs, ss)[ks.last()] == (BatchItem {
            state: ss.last(),
            value: vs.last(),
        }));
    } else {
        lemma_pmap_at(ks.drop_last(), vs.drop_last(), ss.drop_last(), i);
        assert(ks.drop_last()[i] == ks[i]);
        assert(ks[i] != ks.last());
    }
}

/// Replacing the mutation at the position already holding `k` inserts the
/// new mutation into the map.
proof fn lemma_pmap_update(
    ks: Seq<Seq<u8>>,
    vs: Seq<Seq<u8>>,
    ss: Seq<State>,
    i: int,
    v: Seq<u8>,
    s: State,
)
    requires
        ks.len() == vs.len(),
        ks.len() == ss.len(),
        forall|x: int, y: int| 0 <= x < y < ks.len() ==> #[trigger] ks[x] != #[trigger] ks[y],
        0 <= i < ks.len(),
    ensures
        pmap_of(ks, vs.update(i, v), ss.update(i, s)) == pmap_of(ks, vs, ss).insert(
            ks[i],
            (BatchItem { state: s, value: v }),
        ),
{
    let m1 = pmap_of(ks, vs.update(i, v), ss.update(i, s));
    let m2 = pmap_of(ks, vs, ss).insert(ks[i], BatchItem { state: s, value: v });
    assert_maps_equal!(m1, m2, x => {
        lemma_pmap_contains(ks, vs.update(i, v), ss.update(i, s), x);
        lemma_pmap_contains(ks, vs, ss, x);
        if m1.contains_key(x) || m2.contains_key(x) {
            let j = choose|j: int| 0 <= j < ks.len() && #[trigger] ks[j] == x;
            lemma_pmap_at(ks, vs.update(i, v), ss.update(i, s), j);
            lemma_pmap_at(ks, vs, ss, j);
            if x == ks[i] {
                if j != i {
                    assert(ks[j] == ks[i]);
                    assert(false);
                }
            }
        }
    });
}

/// Removing the position holding `k` removes the binding from the map.
proof fn lemma_pmap_remove(ks: Seq<Seq<u8>>, vs: Seq<Seq<u8>>, ss: Seq<State>, i: int)
    requires
        ks.len() == vs.len(),
        ks.len() == ss.len(),
        forall|x: int, y: int| 0 <= x < y < ks.len() ==> #[trigger] ks[x] != #[trigger] ks[y],
        0 <= i < ks.len(),
    ensures
        forall|x: int, y: int|
            0 <= x < y < ks.remove(i).len() ==> #[trigger] ks.remove(i)[x] != #[trigger] ks.remove(
                i,
            )[y],
        pmap_of(ks.remove(i), vs.remove(i), ss.remove(i)) == pmap_of(ks, vs, ss).remove(ks[i]),
{
    let kr = ks.remove(i);
    assert forall|x: int, y: int| 0 <= x < y < kr.len() implies #[trigger] kr[x]
        != #[trigger] kr[y] by {
        let x2 = if x < i {
            x
        } else {
            x + 1
        };
        let y2 = if y < i {
            y
        } else {
            y + 1
        };
        assert(kr[x] == ks[x2]);
        assert(kr[y] == ks[y2]);
    }
    let m1 = pmap_of(kr, vs.remove(i), ss.remove(i));
    let m2 = pmap_of(ks, vs, ss).remove(ks[i]);
    assert_maps_equal!(m1, m2, x => {
        lemma_pmap_contains(kr, vs.remove(i), ss.remove(i), x);
        lemma_pmap_contains(ks, vs, ss, x);
        if m1.contains_key(x) {
            let j = choose|j: int| 0 <= j < kr.len() && #[trigger] kr[j] == x;
            lemma_pmap_at(kr, vs.remove(i), ss.remove(i), j);
            let j2 = if j < i { j } else { j + 1 };
            assert(ks[j2] == x);
            lemma_pmap_at(ks, vs, ss, j2);
            if x == ks[i] {
                assert(ks[j2] == ks[i]);
                assert(false);
            }
        }
        if m2.contains_key(x) {
            let j = choose|j: int| 0 <= j < ks.len() && #[trigger] ks[j] == x;
            lemma_pmap_at(ks, vs, ss, j);
            if j == i {
                assert(x == ks[i]);
                assert(false);
            }
            let j2 = if j < i { j } else { j - 1 };
            assert(kr[j2] == x);
            lemma_pmap_at(kr, vs.remove(i), ss.remove(i), j2);
        }
    });
}

/// Options of one batch.
pub struct WriteBatchOptions {
    /// The most pending mutations one commit may carry.
    pub max_batch_num: usize,
    /// Whether the commit flushes after its marker.
    pub sync_writes: bool,
}

/// A transactional batch of mutations, buffered until `commit` writes them
/// under one sequence number and a terminal marker.
pub struct WriteBatch {
    keys: Vec<Vec<u8>>,
    values: Vec<Vec<u8>>,
    states: Vec<State>,
    /// The options the batch was created with.
    pub opts: WriteBatchOptions,
}

impl WriteBatch {
    /// The options the batch carries, as contracts see them.
    pub closed spec fn opts_spec(&self) -> WriteBatchOptions {
        self.opts
    }

    /// The buffered keys, in storage order.
    pub closed spec fn key_seq(&self) -> Seq<Seq<u8>> {
        self.keys@.map(|i: int, k: Vec<u8>| k@)
    }

    /// The buffered values, in storage order.
    pub closed spec fn value_seq(&self) -> Seq<Seq<u8>> {
        self.values@.map(|i: int, v: Vec<u8>| v@)
    }

    /// The buffered states, in storage order.
    pub closed spec fn state_seq(&self) -> Seq<State> {
        self.states@
    }

    /// Well-formed: parallel vectors, one mutation per distinct key.
    pub open spec fn wf(&self) -> bool {
        &&& self.key_seq().len() == self.value_seq().len()
        &&& self.key_seq().len() == self.state_seq().len()
        &&& forall|x: int, y: int|
            0 <= x < y < self.key_seq().len() ==> #[trigger] self.key_seq()[x]
                != #[trigger] self.key_seq()[y]
        &&& forall|i: int| 0 <= i < self.key_seq().len() ==> #[trigger] self.key_seq()[i].len() > 0
    }

    /// The pending mutations, keyed by user key; the last write to a key
    /// wins.
    pub open spec fn pending(&self) -> Map<Seq<u8>, BatchItem> {
        pmap_of(self.key_seq(), self.value_seq(), self.state_seq())
    }

    /// How many mutations are pending.
    pub closed spec fn count(&self) -> nat {
        self.key_seq().len()
    }

    /// How many mutations are pending.
    pub fn len(&self) -> (r: usize)
        ensures
            r == self.count(),
    {
        self.keys.len()
    }

    /// The position buffering a key, if any.
    fn find(&self, key: &Vec<u8>) -> (r: Option<usize>)
        ensures
            match r {
                Some(i) => i < self.key_seq().len() && self.key_seq()[i as int] == key@,
                None => forall|i: int|
                    0 <= i < self.key_seq().len() ==> #[trigger] self.key_seq()[i] != key@,
            },
    {
        let mut i: usize = 0;
        while i < self.keys.len()
            invariant
                i <= self.key_seq().len(),
                self.key_seq().len() == self.keys@.len(),
                forall|j: int| 0 <= j < i ==> #[trigger] self.key_seq()[j] != key@,
            decreases self.keys@.len() - i,
        {
            proof {
                assert(self.key_seq()[i as int] == self.keys@[i as int]@);
            }
            let c = crate::index::cmp_keys(&self.keys[i], key);
            if c == 0 {
                return Some(i);
            }
            i = i + 1;
        }
        None
    }

    /// Buffers one mutation, replacing any pending one for the key.
    fn upsert(&mut self, key: Vec<u8>, value: Vec<u8>, state: State)
        requires
            old(self).wf(),
            key@.len() > 0,
        ensures
            final(self).wf(),
            final(self).pending() == old(self).pending().insert(
                key@,
                (BatchItem { state, value: value@ }),
            ),
            final(self).opts_spec() == old(self).opts_spec(),
            final(self).count() == old(self).count() + (if old(self).pending().contains_key(key@) {
                0int
            } else {
                1int
            }),
    {
        let ghost olds = *self;
        proof {
            lemma_pmap_contains(olds.key_seq(), olds.value_seq(), olds.state_seq(), key@);
        }
        match self.find(&key) {
            Some(i) => {
                proof {
                    lemma_pmap_at(olds.key_seq(), olds.value_seq(), olds.state_seq(), i as int);
                }
                let mut v = value;
                self.values.set_and_swap(i, &mut v);
                self.states[i] = state;
                proof {
                    assert(self.key_seq() =~= olds.key_seq());
                    assert(self.value_seq() =~= olds.value_seq().update(i as int, value@)) by {
                        assert forall|j: int|
                            0 <= j < self.value_seq().len() implies #[trigger] self.value_seq()[j]
                            == olds.value_seq().update(i as int, value@)[j] by {
                            if j != i {
                                assert(self.values@[j] == olds.values@[j]);
                            }
                        }
                    }
                    assert(self.state_seq() =~= olds.state_seq().update(i as int, state));
                    lemma_pmap_update(
                        olds.key_seq(),
                        olds.value_seq(),
                        olds.state_seq(),
                        i as int,
                        value@,
                        state,
                    );
                }
            },
            None => {
                self.keys.push(key);
                self.values.push(value);
                self.states.push(state);
                proof {
                    assert(self.key_seq() =~= olds.key_seq().push(key@));
                    assert(self.value_seq() =~= olds.value_seq().push(value@));
                    assert(self.state_seq() =~= olds.state_seq().push(state));
                    assert(self.key_seq().drop_last() =~= olds.key_seq());
                    assert(self.value_seq().drop_last() =~= olds.value_seq());
                    assert(self.state_seq().drop_last() =~= olds.state_seq());
                }
            },
        }
    }


    /// Buffers a put.
    pub fn put(&mut self, key: Vec<u8>, value: Vec<u8>) -> (r: Result<(), Error>)
        requires
            old(self).wf(),
        ensures
            final(self).wf(),
            final(self).opts_spec() == old(self).opts_spec(),
            match r {
                Ok(()) => {
                    &&& key@.len() > 0
                    &&& final(self).pending() == old(self).pending().insert(
                        key@,
                        (BatchItem { state: State::Active, value: value@ }),
                    )
                    &&& final(self).count() == old(self).count() + (if old(self).pending().contains_key(key@) {
                        0int
                    } else {
                        1int
                    })
                },
                Err(e) => {
                    &&& key@.len() == 0
                    &&& e == Error::Unsupported(Reason::KeyRequired)
                    &&& *final(self) == *old(self)
                },
            },
    {
        if key.len() == 0 {
            return Err(Error::Unsupported(Reason::KeyRequired));
        }
        self.upsert(key, value, State::Active);
        Ok(())
    }

    /// Buffers a delete. A key known neither to the store nor to the batch
    /// is a no-op; one known only to the batch is simply unbuffered; one the
    /// store knows gets a pending tombstone.
    pub fn delete(&mut self, db: &crate::db::Db, key: Vec<u8>) -> (r: Result<(), Error>)
        requires
            old(self).wf(),
            db.wf(),
        ensures
            final(self).wf(),
            final(self).opts_spec() == old(self).opts_spec(),
            match r {
                Ok(()) => {
                    &&& key@.len() > 0
                    &&& if db.ctx.index@.contains_key(key@) {
                        final(self).pending() == old(self).pending().insert(
                            key@,
                            (BatchItem { state: State::Inactive, value: Seq::<u8>::empty() }),
                        )
                    } else {
                        final(self).pending() == old(self).pending().remove(key@)
                    }
                },
                Err(e) => {
                    &&& key@.len() == 0
                    &&& e == Error::Unsupported(Reason::KeyRequired)
                    &&& *final(self) == *old(self)
                },
            },
    {
        if key.len() == 0 {
            return Err(Error::Unsupported(Reason::KeyRequired));
        }
        let ghost olds = *self;
        let in_store = match db.ctx.index.get(&key) {
            Some(_) => true,
            None => false,
        };
        if !in_store {
            proof {
                lemma_pmap_contains(olds.key_seq(), olds.value_seq(), olds.state_seq(), key@);
            }
            match self.find(&key) {
                Some(i) => {
                    proof {
                        lemma_pmap_at(olds.key_seq(), olds.value_seq(), olds.state_seq(), i as int);
                    }
                    self.keys.remove(i);
                    self.values.remove(i);
                    self.states.remove(i);
                    proof {
                        assert(self.key_seq() =~= olds.key_seq().remove(i as int));
                        assert(self.value_seq() =~= olds.value_seq().remove(i as int));
                        assert(self.state_seq() =~= olds.state_seq().remove(i as int));
                        lemma_pmap_remove(
                            olds.key_seq(),
                            olds.value_seq(),
                            olds.state_seq(),
                            i as int,
                        );
                    }
                },
                None => {
                    proof {
                        assert(olds.pending() =~= olds.pending().remove(key@));
                    }
                },
            }
            return Ok(());
        }
        self.upsert(key, Vec::new(), State::Inactive);
        Ok(())
    }
}

/// The reserved user key of a batch's terminal marker record.
pub open spec fn committed_key_bytes() -> Seq<u8> {
    seq![95u8, 95u8, 67u8, 79u8, 77u8, 77u8, 73u8, 84u8, 84u8, 69u8, 68u8, 95u8, 95u8]
}

/// The reserved user key of a batch's terminal marker record, as bytes.
fn committed_key() -> (r: Vec<u8>)
    ensures
        r@ == committed_key_bytes(),
{
    let mut k: Vec<u8> = Vec::new();
    k.push(95);
    k.push(95);
    k.push(67);
    k.push(79);
    k.push(77);
    k.push(77);
    k.push(73);
    k.push(84);
    k.push(84);
    k.push(69);
    k.push(68);
    k.push(95);
    k.push(95);
    proof {
        assert(k@ =~= committed_key_bytes());
    }
    k
}

impl crate::db::Db {
    /// A fresh, empty batch over this store.
    pub fn new_write_batch(&self, opts: WriteBatchOptions) -> (r: Result<WriteBatch, Error>)
        ensures
            match r {
                Ok(b) => {
                    &&& b.wf()
                    &&& b.pending() == Map::<Seq<u8>, BatchItem>::empty()
                    &&& b.count() == 0
                    &&& b.opts_spec() == opts
                },
                Err(_) => false,
            },
    {
        let b = WriteBatch { keys: Vec::new(), values: Vec::new(), states: Vec::new(), opts };
        proof {
            assert(b.key_seq() =~= Seq::<Seq<u8>>::empty());
            assert(b.value_seq() =~= Seq::<Seq<u8>>::empty());
            assert(b.state_seq() =~= Seq::<State>::empty());
        }
        Ok(b)
    }
}

impl WriteBatch {
    /// Writes the pending mutations under one fresh sequence number, closes
    /// them with a committed marker, and applies them to the index: each
    /// pending put then reads back its value, each pending delete reads as
    /// absent, and every other key reads as before. An empty batch commits
    /// to nothing; an overfull one is refused before anything is written.
    pub fn commit(&mut self, db: &mut crate::db::Db) -> (r: Result<(), Error>)
        requires
            old(self).wf(),
            old(db).wf(),
        ensures
            final(self).wf(),
            final(db).wf(),
            final(db).ctx.opts == old(db).ctx.opts,
            final(self).opts_spec() == old(self).opts_spec(),
            match r {
                Ok(()) => {
                    &&& old(self).count() <= old(self).opts_spec().max_batch_num
                    &&& final(self).pending() == Map::<Seq<u8>, BatchItem>::empty()
                    &&& (old(self).count() == 0 ==> *final(db) == *old(db))
                    &&& (old(self).count() > 0 ==> final(db).sequence_number == old(db).sequence_number + 1)
                    &&& forall|k: Seq<u8>|
                        old(self).pending().contains_key(k) && old(self).pending()[k].state
                            == State::Active ==> #[trigger] final(db).live_value(k) == Some(
                            old(self).pending()[k].value,
                        )
                    &&& forall|k: Seq<u8>|
                        old(self).pending().contains_key(k) && old(self).pending()[k].state
                            != State::Active ==> #[trigger] final(db).live_value(k)
                            == None::<Seq<u8>>
                    &&& forall|k: Seq<u8>|
                        !old(self).pending().contains_key(k) ==> #[trigger] final(db).live_value(k)
                            == old(db).live_value(k)
                    &&& (old(db).log_clean() && old(self).count() > 0 ==> final(db).log_clean()
                        && exists|batch: Seq<ScanItem>, mloc: KeyDirView|
                        #![trigger batch.len(), mloc.file_id]
                        {
                            &&& batch.len() == old(self).count()
                            &&& seg_items(final(db).seg_run()) == seg_items(old(db).seg_run())
                                + batch.push(
                                (ScanItem {
                                    seq: old(db).sequence_number,
                                    ukey: committed_key_bytes(),
                                    state: State::Committed,
                                    loc: mloc,
                                }),
                            )
                            &&& forall|x: int|
                                0 <= x < batch.len() ==> (#[trigger] batch[x]).seq == old(db).sequence_number && batch[x].ukey == old(self).key_seq()[x]
                                    && batch[x].state == old(self).state_seq()[x] && final(db).loc_holds(
                                    batch[x].loc,
                                    (EntryView {
                                        key: txn_key_bytes(
                                            old(db).sequence_number,
                                            old(self).key_seq()[x],
                                        ),
                                        value: old(self).value_seq()[x],
                                        state: old(self).state_seq()[x],
                                    }),
                                )
                        })
                },
                Err(e) => {
                    &&& *final(self) == *old(self)
                    &&& final(db).ctx.index@ == old(db).ctx.index@
                    &&& forall|k: Seq<u8>|
                        #[trigger] final(db).live_value(k) == old(db).live_value(k)
                    &&& (e == Error::Unsupported(Reason::BatchTooLarge) || e == Error::Unsupported(
                        Reason::CounterExhausted,
                    ) || e == Error::Unsupported(Reason::ValueTooLarge))
                    &&& (e == Error::Unsupported(Reason::BatchTooLarge) <==> old(self).count()
                        > old(self).opts_spec().max_batch_num)
                    &&& (e == Error::Unsupported(Reason::BatchTooLarge) ==> *final(db) == *old(db))
                    &&& (e == Error::Unsupported(Reason::CounterExhausted) ==> old(db).sequence_number == u32::MAX || old(db).file_id + old(self).count() + 1
                        > u32::MAX)
                    &&& (e == Error::Unsupported(Reason::CounterExhausted) && old(db).sequence_number == u32::MAX ==> *final(db) == *old(db))
                    &&& (e == Error::Unsupported(Reason::ValueTooLarge) ==> exists|x: int|
                        0 <= x < old(self).count() && record_size(
                            txn_key_bytes(
                                old(db).sequence_number,
                                #[trigger] old(self).key_seq()[x],
                            ),
                            old(self).value_seq()[x],
                        ) > u32::MAX)
                },
            },
            ({
                &&& old(self).count() <= old(self).opts_spec().max_batch_num
                &&& old(db).sequence_number < u32::MAX
                &&& old(db).file_id + old(self).count() + 1 <= u32::MAX
                &&& forall|x: int|
                    0 <= x < old(self).count() ==> record_size(
                        txn_key_bytes(old(db).sequence_number, #[trigger] old(self).key_seq()[x]),
                        old(self).value_seq()[x],
                    ) <= u32::MAX
            }) ==> r is Ok,
    {
        let ghost olds = *self;
        let ghost olddb = *db;
        if self.keys.len() == 0 {
            proof {
                assert(olds.pending() =~= Map::<Seq<u8>, BatchItem>::empty());
            }
            return Ok(());
        }
        if self.keys.len() > self.opts.max_batch_num {
            return Err(Error::Unsupported(Reason::BatchTooLarge));
        }
        if db.sequence_number == u32::MAX {
            return Err(Error::Unsupported(Reason::CounterExhausted));
        }
        let seq_no = db.sequence_number;
        db.sequence_number = seq_no + 1;
        let ghost ks = olds.key_seq();
        let ghost vs = olds.value_seq();
        let ghost ss = olds.state_seq();
        let ghost mut batch_items: Seq<ScanItem> = Seq::empty();
        proof {
            assert(seg_items(olddb.seg_run()) + batch_items =~= seg_items(olddb.seg_run()));
        }
        let mut locs: Vec<KeyDirEntry> = Vec::new();
        let mut i: usize = 0;
        while i < self.keys.len()
            invariant
                olds == *old(self),
                olddb == *old(db),
                *self == olds,
                self.wf(),
                ks == olds.key_seq(),
                vs == olds.value_seq(),
                ss == olds.state_seq(),
                ks.len() == self.keys@.len(),
                db.wf(),
                db.ctx.index@ == olddb.ctx.index@,
                db.ctx.opts == olddb.ctx.opts,
                db.sequence_number == olddb.sequence_number + 1,
                i <= ks.len(),
                locs@.len() == i,
                forall|x: int|
                    0 <= x < i ==> db.loc_holds(
                        (#[trigger] locs@[x])@,
                        (EntryView {
                            key: txn_key_bytes(seq_no, ks[x]),
                            value: vs[x],
                            state: ss[x],
                        }),
                    ),
                forall|k: Seq<u8>| #[trigger] db.live_value(k) == olddb.live_value(k),
                seq_no == olddb.sequence_number,
                olddb.sequence_number < u32::MAX,
                olds.count() <= olds.opts_spec().max_batch_num,
                db.file_id <= olddb.file_id + i,
                batch_items.len() == i,
                forall|x: int|
                    0 <= x < i ==> (#[trigger] batch_items[x]).seq == seq_no && batch_items[x].ukey
                        == ks[x] && batch_items[x].state == ss[x] && batch_items[x].loc
                        == locs@[x]@,
                olddb.log_clean() ==> db.log_clean() && seg_items(db.seg_run()) == seg_items(
                    olddb.seg_run(),
                ) + batch_items,
            decreases ks.len() - i,
        {
            let key = copy_bytes(&self.keys[i]);
            let value = copy_bytes(&self.values[i]);
            let state = self.states[i];
            proof {
                assert(ks[i as int] == self.keys@[i as int]@);
                assert(vs[i as int] == self.values@[i as int]@);
            }
            let entry = crate::entry::DataEntry::new(
                encode_transaction_key(key, seq_no),
                value,
                state,
            );
            proof {
                crate::varint::lemma_varint_len(seq_no as nat);
                crate::varint::lemma_varint_len_u64(seq_no as nat);
            }
            let ghost middb = *db;
            let loc = match db.append_entry(&entry) {
                Ok(l) => l,
                Err(e) => {
                    proof {
                        assert(entry@.key.len() > 0);
                        if e == Error::Unsupported(Reason::ValueTooLarge) {
                            assert(record_size(
                                txn_key_bytes(olddb.sequence_number, olds.key_seq()[i as int]),
                                olds.value_seq()[i as int],
                            ) > u32::MAX);
                        }
                        if e == Error::Unsupported(Reason::CounterExhausted) {
                            assert(middb.file_id == u32::MAX);
                            assert(olddb.file_id + ks.len() + 1 > u32::MAX);
                        }
                    }
                    return Err(e);
                },
            };
            locs.push(loc);
            proof {
                lemma_txn_key_roundtrip(seq_no, ks[i as int]);
                let item = ScanItem {
                    seq: seq_no,
                    ukey: ks[i as int],
                    state: ss[i as int],
                    loc: loc@,
                };
                if olddb.log_clean() {
                    assert(seg_items(db.seg_run()) =~= seg_items(olddb.seg_run())
                        + batch_items.push(item));
                }
                batch_items = batch_items.push(item);
            }
            i = i + 1;
        }
        let marker = crate::entry::DataEntry::new(
            encode_transaction_key(committed_key(), seq_no),
            Vec::new(),
            State::Committed,
        );
        let ghost middb2 = *db;
        proof {
            crate::varint::lemma_varint_len_u64(seq_no as nat);
            crate::varint::lemma_varint_len(marker@.key.len());
            crate::varint::lemma_varint_len(0);
            assert(marker@.key.len() <= 18);
            assert(record_size(marker@.key, marker@.value) <= 25);
        }
        let marker_loc = match db.append_entry(&marker) {
            Ok(l) => l,
            Err(e) => {
                proof {
                    assert(marker@.key.len() > 0);
                    if e == Error::Unsupported(Reason::CounterExhausted) {
                        assert(middb2.file_id == u32::MAX);
                        assert(olddb.file_id + ks.len() + 1 > u32::MAX);
                    }
                }
                return Err(e);
            },
        };
        let ghost marker_item = ScanItem {
            seq: seq_no,
            ukey: committed_key_bytes(),
            state: State::Committed,
            loc: marker_loc@,
        };
        proof {
            lemma_txn_key_roundtrip(seq_no, committed_key_bytes());
            if olddb.log_clean() {
                assert(seg_items(db.seg_run()) =~= seg_items(olddb.seg_run())
                    + batch_items.push(marker_item));
            }
        }
        if self.opts.sync_writes {
            let _synced = db.sync();
        }
        let ghost appdb = *db;
        let mut j: usize = 0;
        while j < self.keys.len()
            invariant
                olds == *old(self),
                olddb == *old(db),
                *self == olds,
                self.wf(),
                ks == olds.key_seq(),
                vs == olds.value_seq(),
                ss == olds.state_seq(),
                ks.len() == self.keys@.len(),
                locs@.len() == ks.len(),
                db.wf(),
                db.ctx.opts == appdb.ctx.opts,
                db.sequence_number == appdb.sequence_number,
                db.active_file == appdb.active_file,
                db.inactive_files == appdb.inactive_files,
                db.file_id == appdb.file_id,
                j <= ks.len(),
                forall|x: int|
                    0 <= x < ks.len() ==> appdb.loc_holds(
                        (#[trigger] locs@[x])@,
                        (EntryView {
                            key: txn_key_bytes(seq_no, ks[x]),
                            value: vs[x],
                            state: ss[x],
                        }),
                    ),
                forall|x: int|
                    0 <= x < j && ss[x] == State::Active ==> #[trigger] db.live_value(ks[x])
                        == Some(vs[x]),
                forall|x: int|
                    0 <= x < j && ss[x] != State::Active ==> #[trigger] db.live_value(ks[x])
                        == None::<Seq<u8>>,
                forall|k: Seq<u8>|
                    (forall|x: int| 0 <= x < ks.len() ==> #[trigger] ks[x] != k)
                        ==> #[trigger] db.live_value(k) == appdb.live_value(k),
                forall|k: Seq<u8>|
                    (forall|x: int| 0 <= x < j ==> #[trigger] ks[x] != k)
                        ==> #[trigger] db.live_value(k) == appdb.live_value(k),
            decreases ks.len() - j,
        {
            let ghost stepdb = *db;
            let key = copy_bytes(&self.keys[j]);
            let loc = locs[j];
            let is_put = match self.states[j] {
                State::Active => true,
                _ => false,
            };
            proof {
                assert(ks[j as int] == self.keys@[j as int]@);
                assert(stepdb.loc_holds(
                    locs@[j as int]@,
                    (EntryView {
                        key: txn_key_bytes(seq_no, ks[j as int]),
                        value: vs[j as int],
                        state: ss[j as int],
                    }),
                ));
            }
            if is_put {
                db.ctx.index.put(key, loc);
                proof {
                    db.lemma_index_only_update(stepdb, ks[j as int], loc@);
                    assert(db.live_value(ks[j as int]) == Some(vs[j as int])) by {
                        assert(db.ctx.index@[ks[j as int]] == loc@);
                        assert(db.seg_data(loc@.file_id) == stepdb.seg_data(loc@.file_id));
                    }
                }
            } else {
                db.ctx.index.delete(&key);
                proof {
                    db.lemma_index_only_remove(stepdb, ks[j as int]);
                }
            }
            proof {
                assert forall|x: int|
                    0 <= x < j + 1 && ss[x] == State::Active implies #[trigger] db.live_value(
                    ks[x],
                ) == Some(vs[x]) by {
                    if x < j {
                        assert(ks[x] != ks[j as int]);
                    }
                }
                assert forall|x: int|
                    0 <= x < j + 1 && ss[x] != State::Active implies #[trigger] db.live_value(
                    ks[x],
                ) == None::<Seq<u8>> by {
                    if x < j {
                        assert(ks[x] != ks[j as int]);
                    }
                }
            }
            j = j + 1;
        }
        self.keys = Vec::new();
        self.values = Vec::new();
        self.states = Vec::new();
        proof {
            assert(self.key_seq() =~= Seq::<Seq<u8>>::empty());
            assert(self.value_seq() =~= Seq::<Seq<u8>>::empty());
            assert(self.state_seq() =~= Seq::<State>::empty());
            assert(self.pending() =~= Map::<Seq<u8>, BatchItem>::empty());
            assert(db.seg_run() == appdb.seg_run());
            if olddb.log_clean() {
                assert(db.log_clean());
                assert(seg_items(db.seg_run()) == seg_items(olddb.seg_run())
                    + batch_items.push(marker_item));
                assert forall|x: int| 0 <= x < batch_items.len() implies (
                #[trigger] batch_items[x]).seq == olddb.sequence_number && batch_items[x].ukey
                    == ks[x] && batch_items[x].state == ss[x] && db.loc_holds(
                    batch_items[x].loc,
                    (EntryView {
                        key: txn_key_bytes(olddb.sequence_number, ks[x]),
                        value: vs[x],
                        state: ss[x],
                    }),
                ) by {
                    assert(appdb.loc_holds(
                        locs@[x]@,
                        (EntryView {
                            key: txn_key_bytes(seq_no, ks[x]),
                            value: vs[x],
                            state: ss[x],
                        }),
                    ));
                    assert(batch_items[x].loc == locs@[x]@);
                    assert(db.seg_exists(locs@[x]@.file_id) == appdb.seg_exists(
                        locs@[x]@.file_id,
                    ));
                }
                assert(batch_items.len() == olds.count());
                assert(marker_item.loc.file_id == marker_loc@.file_id);
            }
            assert forall|k: Seq<u8>|
                olds.pending().contains_key(k) && olds.pending()[k].state == State::Active implies
                #[trigger] db.live_value(k) == Some(olds.pending()[k].value) by {
                lemma_pmap_contains(ks, vs, ss, k);
                let x = choose|x: int| 0 <= x < ks.len() && #[trigger] ks[x] == k;
                lemma_pmap_at(ks, vs, ss, x);
            }
            assert forall|k: Seq<u8>|
                olds.pending().contains_key(k) && olds.pending()[k].state != State::Active implies
                #[trigger] db.live_value(k) == None::<Seq<u8>> by {
                lemma_pmap_contains(ks, vs, ss, k);
                let x = choose|x: int| 0 <= x < ks.len() && #[trigger] ks[x] == k;
                lemma_pmap_at(ks, vs, ss, x);
            }
            assert forall|k: Seq<u8>| !olds.pending().contains_key(k) implies #[trigger] db
                .live_value(k) == olddb.live_value(k) by {
                lemma_pmap_contains(ks, vs, ss, k);
            }
        }
        Ok(())
    }
}

} // verus!
