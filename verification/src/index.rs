//! The in-memory index: an ordered map from live user keys to locators.
//!
//! Both index modes share one verified ordered core, a pair of parallel
//! vectors sorted by key. The container behind the index interface is a
//! deliberate implementation choice; the interface and its contracts are
//! what the store depends on.

use crate::entry::copy_bytes;
use crate::keydir::KeyDirEntry;
use crate::keydir::KeyDirView;
use vstd::map::*;
use vstd::prelude::*;

verus! {

// ---------------------------------------------------------------------------
// Lexicographic order on byte strings.
// ---------------------------------------------------------------------------

/// Strict lexicographic order: a proper prefix comes first, otherwise the
/// first differing byte decides.
pub open spec fn lex_lt(a: Seq<u8>, b: Seq<u8>) -> bool
    decreases a.len(),
{
    if b.len() == 0 {
        false
    } else if a.len() == 0 {
        true
    } else if a[0] < b[0] {
        true
    } else if a[0] > b[0] {
        false
    } else {
        lex_lt(a.subrange(1, a.len() as int), b.subrange(1, b.len() as int))
    }
}

/// The order is asymmetric, and ordered strings differ.
pub proof fn lemma_lex_asym(a: Seq<u8>, b: Seq<u8>)
    ensures
        lex_lt(a, b) ==> !lex_lt(b, a) && a != b,
    decreases a.len(),
{
    if lex_lt(a, b) {
        if a.len() != 0 && b.len() != 0 && a[0] == b[0] {
            let at = a.subrange(1, a.len() as int);
            let bt = b.subrange(1, b.len() as int);
            lemma_lex_asym(at, bt);
            assert(a != b) by {
                if a == b {
                    assert(at =~= bt);
                }
            };
        }
    }
}

/// Any two byte strings are equal or ordered one way.
pub proof fn lemma_lex_total(a: Seq<u8>, b: Seq<u8>)
    ensures
        a == b || lex_lt(a, b) || lex_lt(b, a),
    decreases a.len(),
{
    if a.len() != 0 && b.len() != 0 && a[0] == b[0] {
        let at = a.subrange(1, a.len() as int);
        let bt = b.subrange(1, b.len() as int);
        lemma_lex_total(at, bt);
        if at == bt {
            assert forall|x: int| 0 <= x < a.len() implies a[x] == b[x] by {
                if x > 0 {
                    assert(at[x - 1] == a[x]);
                    assert(bt[x - 1] == b[x]);
                }
            }
            assert(a =~= b);
        }
    }
}

/// The order is transitive.
pub proof fn lemma_lex_trans(a: Seq<u8>, b: Seq<u8>, c: Seq<u8>)
    requires
        lex_lt(a, b),
        lex_lt(b, c),
    ensures
        lex_lt(a, c),
    decreases a.len(),
{
    if a.len() != 0 && c.len() != 0 {
        if a[0] == c[0] {
            assert(b.len() != 0);
            assert(a[0] == b[0] && b[0] == c[0]) by {
                if a[0] < b[0] || b[0] < c[0] {
                    assert(a[0] < c[0]);
                }
            };
            lemma_lex_trans(
                a.subrange(1, a.len() as int),
                b.subrange(1, b.len() as int),
                c.subrange(1, c.len() as int),
            );
        } else {
            assert(a[0] < c[0]) by {
                assert(b.len() != 0);
                assert(a[0] <= b[0] && b[0] <= c[0]);
            };
        }
    }
}

/// Equal prefixes leave the order to what follows them: the first
/// difference at `i` decides, a string that ends first comes first, and
/// strings that end together are equal.
pub proof fn lemma_lex_decide(a: Seq<u8>, b: Seq<u8>, i: int)
    requires
        0 <= i <= a.len(),
        i <= b.len(),
        a.subrange(0, i) == b.subrange(0, i),
    ensures
        (i < a.len() && i < b.len() && a[i] < b[i]) ==> lex_lt(a, b),
        (i < a.len() && i < b.len() && a[i] > b[i]) ==> lex_lt(b, a),
        (i == a.len() && i < b.len()) ==> lex_lt(a, b),
        (i == a.len() && i == b.len()) ==> a == b,
    decreases i,
{
    if i == 0 {
        if a.len() == 0 && b.len() == 0 {
            assert(a =~= b);
        }
    } else {
        assert(a[0] == b[0]) by {
            assert(a.subrange(0, i)[0] == a[0]);
            assert(b.subrange(0, i)[0] == b[0]);
        };
        let at = a.subrange(1, a.len() as int);
        let bt = b.subrange(1, b.len() as int);
        assert(at.subrange(0, i - 1) =~= bt.subrange(0, i - 1)) by {
            assert forall|j: int| 0 <= j < i - 1 implies #[trigger] at.subrange(0, i - 1)[j]
                == bt.subrange(0, i - 1)[j] by {
                assert(at[j] == a[j + 1]);
                assert(bt[j] == b[j + 1]);
                assert(a.subrange(0, i)[j + 1] == a[j + 1]);
                assert(b.subrange(0, i)[j + 1] == b[j + 1]);
            }
        };
        lemma_lex_decide(at, bt, i - 1);
        if i == a.len() && i == b.len() {
            assert(at == bt);
            assert forall|x: int| 0 <= x < a.len() implies a[x] == b[x] by {
                if x > 0 {
                    assert(at[x - 1] == a[x]);
                    assert(bt[x - 1] == b[x]);
                }
            }
            assert(a =~= b);
        }
    }
}

/// Three-way comparison of two byte strings.
pub fn cmp_keys(a: &Vec<u8>, b: &Vec<u8>) -> (r: i8)
    ensures
        r == -1 || r == 0 || r == 1,
        (r == -1) <==> lex_lt(a@, b@),
        (r == 0) <==> a@ == b@,
        (r == 1) <==> lex_lt(b@, a@),
{
    let alen = a.len();
    let blen = b.len();
    let mut i: usize = 0;
    while i < alen && i < blen
        invariant
            i <= alen,
            i <= blen,
            alen == a@.len(),
            blen == b@.len(),
            a@.subrange(0, i as int) == b@.subrange(0, i as int),
        decreases alen - i,
    {
        let x = a[i];
        let y = b[i];
        if x < y {
            proof {
                lemma_lex_decide(a@, b@, i as int);
                lemma_lex_asym(a@, b@);
            }
            return -1;
        }
        if x > y {
            proof {
                lemma_lex_decide(a@, b@, i as int);
                lemma_lex_asym(b@, a@);
            }
            return 1;
        }
        proof {
            assert(a@.subrange(0, i + 1) =~= b@.subrange(0, i + 1));
        }
        i = i + 1;
    }
    proof {
        lemma_lex_decide(a@, b@, i as int);
        lemma_lex_decide(b@, a@, i as int);
        lemma_lex_asym(a@, b@);
        lemma_lex_asym(b@, a@);
    }
    if alen < blen {
        return -1;
    }
    if alen > blen {
        return 1;
    }
    0
}

// ---------------------------------------------------------------------------
// The ordered core.
// ---------------------------------------------------------------------------

/// The views of a vector of byte-string keys.
pub open spec fn keys_of(v: Seq<Vec<u8>>) -> Seq<Seq<u8>> {
    v.map(|i: int, k: Vec<u8>| k@)
}

/// The views of a vector of locators.
pub open spec fn entries_of(v: Seq<KeyDirEntry>) -> Seq<KeyDirView> {
    v.map(|i: int, e: KeyDirEntry| e@)
}

/// Whether a key sequence is strictly ascending.
pub open spec fn sorted_keys(s: Seq<Seq<u8>>) -> bool {
    forall|i: int, j: int| 0 <= i < j < s.len() ==> lex_lt(#[trigger] s[i], #[trigger] s[j])
}

/// The first position of `keys` whose key is not below `key`.
fn lower_bound_vec(keys: &Vec<Vec<u8>>, key: &Vec<u8>) -> (r: usize)
    requires
        sorted_keys(keys_of(keys@)),
    ensures
        r <= keys@.len(),
        forall|i: int| 0 <= i < r ==> lex_lt(#[trigger] keys_of(keys@)[i], key@),
        forall|i: int| r <= i < keys@.len() ==> !lex_lt(#[trigger] keys_of(keys@)[i], key@),
{
    let ghost ks = keys_of(keys@);
    let mut lo: usize = 0;
    let mut hi: usize = keys.len();
    while lo < hi
        invariant
            lo <= hi <= keys@.len(),
            sorted_keys(ks),
            ks == keys_of(keys@),
            ks.len() == keys@.len(),
            forall|i: int| 0 <= i < lo ==> lex_lt(#[trigger] ks[i], key@),
            forall|i: int| hi <= i < ks.len() ==> !lex_lt(#[trigger] ks[i], key@),
        decreases hi - lo,
    {
        let mid = lo + (hi - lo) / 2;
        let c = cmp_keys(&keys[mid], key);
        proof {
            assert(ks[mid as int] == keys@[mid as int]@);
        }
        if c == -1 {
            proof {
                assert forall|i: int| 0 <= i < mid + 1 implies lex_lt(#[trigger] ks[i], key@) by {
                    if i < mid {
                        lemma_lex_trans(ks[i], ks[mid as int], key@);
                    }
                }
            }
            lo = mid + 1;
        } else {
            proof {
                assert forall|i: int| mid <= i < ks.len() implies !lex_lt(
                    #[trigger] ks[i],
                    key@,
                ) by {
                    if i > mid {
                        if lex_lt(ks[i], key@) {
                            lemma_lex_trans(ks[mid as int], ks[i], key@);
                        }
                    }
                }
            }
            hi = mid;
        }
    }
    lo
}

/// An ordered map from byte-string keys to locators, kept as two parallel
/// vectors sorted by key.
pub struct SortedKeydir {
    keys: Vec<Vec<u8>>,
    entries: Vec<KeyDirEntry>,
}

/// The map a pair of parallel key and locator sequences denotes; a later
/// binding of a key overrides an earlier one.
pub open spec fn map_of(ks: Seq<Seq<u8>>, es: Seq<KeyDirView>) -> Map<Seq<u8>, KeyDirView>
    decreases ks.len(),
{
    if ks.len() == 0 || ks.len() != es.len() {
        Map::empty()
    } else {
        map_of(ks.drop_last(), es.drop_last()).insert(ks.last(), es.last())
    }
}

/// `map_of` binds exactly the keys that occur.
pub proof fn lemma_map_of_contains(ks: Seq<Seq<u8>>, es: Seq<KeyDirView>, k: Seq<u8>)
    requires
        ks.len() == es.len(),
    ensures
        map_of(ks, es).contains_key(k) <==> exists|i: int|
            0 <= i < ks.len() && #[trigger] ks[i] == k,
    decreases ks.len(),
{
    if ks.len() > 0 {
        let kp = ks.drop_last();
        let ep = es.drop_last();
        lemma_map_of_contains(kp, ep, k);
        if map_of(ks, es).contains_key(k) {
            if k == ks.last() {
                assert(ks[ks.len() - 1] == k);
            } else {
                let i = choose|i: int| 0 <= i < kp.len() && #[trigger] kp[i] == k;
                assert(ks[i] == k);
            }
        }
        if exists|i: int| 0 <= i < ks.len() && #[trigger] ks[i] == k {
            let i = choose|i: int| 0 <= i < ks.len() && #[trigger] ks[i] == k;
            if i == ks.len() - 1 {
                assert(k == ks.last());
            } else {
                assert(kp[i] == k);
            }
        }
    }
}

/// With distinct keys, each position's binding survives into the map.
pub proof fn lemma_map_of_at(ks: Seq<Seq<u8>>, es: Seq<KeyDirView>, i: int)
    requires
        ks.len() == es.len(),
        forall|x: int, y: int|
            0 <= x < y < ks.len() ==> #[trigger] ks[x] != #[trigger] ks[y],
        0 <= i < ks.len(),
    ensures
        map_of(ks, es).contains_key(ks[i]),
        map_of(ks, es)[ks[i]] == es[i],
    decreases ks.len(),
{
    let kp = ks.drop_last();
    let ep = es.drop_last();
    if i == ks.len() - 1 {
        assert(map_of(ks, es)[ks.last()] == es.last());
    } else {
        lemma_map_of_at(kp, ep, i);
        assert(kp[i] == ks[i]);
        assert(ks[i] != ks.last());
    }
}

impl View for SortedKeydir {
    type V = Map<Seq<u8>, KeyDirView>;

    closed spec fn view(&self) -> Map<Seq<u8>, KeyDirView> {
        map_of(self.key_seq(), self.entry_seq())
    }
}

impl SortedKeydir {
    /// The keys, in storage order.
    pub closed spec fn key_seq(&self) -> Seq<Seq<u8>> {
        keys_of(self.keys@)
    }

    /// The locators, in storage order.
    pub closed spec fn entry_seq(&self) -> Seq<KeyDirView> {
        self.entries@.map(|i: int, e: KeyDirEntry| e@)
    }

    /// Well-formed: parallel vectors of one length, keys strictly sorted.
    pub open spec fn wf(&self) -> bool {
        &&& self.key_seq().len() == self.entry_seq().len()
        &&& forall|i: int, j: int|
            0 <= i < j < self.key_seq().len() ==> lex_lt(
                #[trigger] self.key_seq()[i],
                #[trigger] self.key_seq()[j],
            )
    }

    /// Sorted keys are distinct: one position per key.
    pub proof fn lemma_key_unique(&self, i: int, j: int)
        requires
            self.wf(),
            0 <= i < self.key_seq().len(),
            0 <= j < self.key_seq().len(),
            self.key_seq()[i] == self.key_seq()[j],
        ensures
            i == j,
    {
        if i < j {
            lemma_lex_asym(self.key_seq()[i], self.key_seq()[j]);
        }
        if j < i {
            lemma_lex_asym(self.key_seq()[j], self.key_seq()[i]);
        }
    }

    /// A position holding `k` pins down the map's answer for `k`.
    pub proof fn lemma_at_index(&self, i: int)
        requires
            self.wf(),
            0 <= i < self.key_seq().len(),
        ensures
            self@.contains_key(self.key_seq()[i]),
            self@[self.key_seq()[i]] == self.entry_seq()[i],
    {
        assert forall|x: int, y: int| 0 <= x < y < self.key_seq().len() implies
            #[trigger] self.key_seq()[x] != #[trigger] self.key_seq()[y] by {
            lemma_lex_asym(self.key_seq()[x], self.key_seq()[y]);
        }
        lemma_map_of_at(self.key_seq(), self.entry_seq(), i);
    }

    /// A key at no position is not in the map.
    pub proof fn lemma_absent(&self, k: Seq<u8>)
        requires
            self.wf(),
            forall|i: int| 0 <= i < self.key_seq().len() ==> #[trigger] self.key_seq()[i] != k,
        ensures
            !self@.contains_key(k),
    {
        lemma_map_of_contains(self.key_seq(), self.entry_seq(), k);
    }

    /// An empty index.
    pub fn new() -> (r: SortedKeydir)
        ensures
            r.wf(),
            r@ == Map::<Seq<u8>, KeyDirView>::empty(),
            r.key_seq().len() == 0,
    {
        let r = SortedKeydir { keys: Vec::new(), entries: Vec::new() };
        proof {
            assert(r.key_seq() =~= Seq::<Seq<u8>>::empty());
            assert(r.entry_seq() =~= Seq::<KeyDirView>::empty());
            assert(r@ =~= Map::<Seq<u8>, KeyDirView>::empty());
        }
        r
    }

    /// How many keys the index holds.
    pub fn len(&self) -> (r: usize)
        ensures
            r == self.key_seq().len(),
    {
        self.keys.len()
    }

    /// The first position whose key is not below `key`: every key before it
    /// is smaller, every key from it on is not.
    fn lower_bound(&self, key: &Vec<u8>) -> (r: usize)
        requires
            self.wf(),
        ensures
            r <= self.key_seq().len(),
            forall|i: int| 0 <= i < r ==> lex_lt(#[trigger] self.key_seq()[i], key@),
            forall|i: int|
                r <= i < self.key_seq().len() ==> !lex_lt(#[trigger] self.key_seq()[i], key@),
    {
        lower_bound_vec(&self.keys, key)
    }

    /// Looks a key up.
    pub fn get(&self, key: &Vec<u8>) -> (r: Option<KeyDirEntry>)
        requires
            self.wf(),
        ensures
            match r {
                Some(e) => self@.contains_key(key@) && e@ == self@[key@],
                None => !self@.contains_key(key@),
            },
    {
        let p = self.lower_bound(key);
        if p < self.keys.len() {
            let c = cmp_keys(&self.keys[p], key);
            proof {
                assert(self.key_seq()[p as int] == self.keys@[p as int]@);
            }
            if c == 0 {
                proof {
                    self.lemma_at_index(p as int);
                }
                return Some(self.entries[p]);
            }
        }
        proof {
            assert forall|i: int| 0 <= i < self.key_seq().len() implies #[trigger] self.key_seq()[i]
                != key@ by {
                if i >= p {
                    lemma_lex_total(self.key_seq()[i], key@);
                    if i > p && self.key_seq()[i] == key@ {
                        assert(lex_lt(self.key_seq()[p as int], self.key_seq()[i]));
                    }
                    lemma_lex_asym(key@, self.key_seq()[i]);
                } else {
                    lemma_lex_asym(self.key_seq()[i], key@);
                }
            }
            self.lemma_absent(key@);
        }
        None
    }

    /// Inserts or replaces a key, returning the locator it displaced.
    pub fn put(&mut self, key: Vec<u8>, entry: KeyDirEntry) -> (r: Option<KeyDirEntry>)
        requires
            old(self).wf(),
        ensures
            final(self).wf(),
            final(self)@ == old(self)@.insert(key@, entry@),
            match r {
                Some(e) => old(self)@.contains_key(key@) && e@ == old(self)@[key@]
                    && final(self).key_seq().len() == old(self).key_seq().len(),
                None => !old(self)@.contains_key(key@) && final(self).key_seq().len() == old(
                    self,
                ).key_seq().len() + 1,
            },
    {
        let ghost olds = *self;
        let p = self.lower_bound(&key);
        let mut found = false;
        if p < self.keys.len() {
            let c = cmp_keys(&self.keys[p], &key);
            proof {
                assert(self.key_seq()[p as int] == self.keys@[p as int]@);
            }
            if c == 0 {
                found = true;
            }
        }
        if found {
            proof {
                olds.lemma_at_index(p as int);
            }
            let prev = self.entries[p];
            self.entries[p] = entry;
            proof {
                assert(self.key_seq() =~= olds.key_seq());
                assert(self.entry_seq() =~= olds.entry_seq().update(p as int, entry@));
                lemma_put_update(olds, *self, key@, entry@, p as int);
            }
            Some(prev)
        } else {
            proof {
                assert forall|i: int| 0 <= i < olds.key_seq().len() implies
                    #[trigger] olds.key_seq()[i] != key@ by {
                    if i >= p {
                        lemma_lex_total(olds.key_seq()[i], key@);
                        if i > p && olds.key_seq()[i] == key@ {
                            assert(lex_lt(olds.key_seq()[p as int], olds.key_seq()[i]));
                        }
                        lemma_lex_asym(key@, olds.key_seq()[i]);
                    } else {
                        lemma_lex_asym(olds.key_seq()[i], key@);
                    }
                }
                olds.lemma_absent(key@);
            }
            self.keys.insert(p, key);
            self.entries.insert(p, entry);
            proof {
                assert(self.key_seq() =~= olds.key_seq().insert(p as int, key@));
                assert(self.entry_seq() =~= olds.entry_seq().insert(p as int, entry@));
                lemma_put_insert(olds, *self, key@, entry@, p as int);
            }
            None
        }
    }

    /// Removes a key, returning the locator it held.
    pub fn delete(&mut self, key: &Vec<u8>) -> (r: Option<KeyDirEntry>)
        requires
            old(self).wf(),
        ensures
            final(self).wf(),
            final(self)@ == old(self)@.remove(key@),
            match r {
                Some(e) => old(self)@.contains_key(key@) && e@ == old(self)@[key@]
                    && final(self).key_seq().len() + 1 == old(self).key_seq().len(),
                None => !old(self)@.contains_key(key@) && final(self).key_seq().len() == old(
                    self,
                ).key_seq().len(),
            },
    {
        let ghost olds = *self;
        let p = self.lower_bound(key);
        let mut found = false;
        if p < self.keys.len() {
            let c = cmp_keys(&self.keys[p], key);
            proof {
                assert(self.key_seq()[p as int] == self.keys@[p as int]@);
            }
            if c == 0 {
                found = true;
            }
        }
        if !found {
            proof {
                assert forall|i: int| 0 <= i < olds.key_seq().len() implies
                    #[trigger] olds.key_seq()[i] != key@ by {
                    if i >= p {
                        lemma_lex_total(olds.key_seq()[i], key@);
                        if i > p && olds.key_seq()[i] == key@ {
                            assert(lex_lt(olds.key_seq()[p as int], olds.key_seq()[i]));
                        }
                        lemma_lex_asym(key@, olds.key_seq()[i]);
                    } else {
                        lemma_lex_asym(olds.key_seq()[i], key@);
                    }
                }
                olds.lemma_absent(key@);
                assert(self@ =~= olds@.remove(key@));
            }
            return None;
        }
        proof {
            olds.lemma_at_index(p as int);
        }
        self.keys.remove(p);
        let prev = self.entries.remove(p);
        proof {
            assert(self.key_seq() =~= olds.key_seq().remove(p as int));
            assert(self.entry_seq() =~= olds.entry_seq().remove(p as int));
            lemma_delete_remove(olds, *self, key@, p as int);
        }
        Some(prev)
    }

    /// The keys in ascending order, as fresh vectors.
    pub fn list_keys(&self) -> (r: Vec<Vec<u8>>)
        requires
            self.wf(),
        ensures
            r@.len() == self.key_seq().len(),
            forall|i: int| 0 <= i < r@.len() ==> #[trigger] r@[i]@ == self.key_seq()[i],
    {
        let mut out: Vec<Vec<u8>> = Vec::new();
        let mut i: usize = 0;
        while i < self.keys.len()
            invariant
                i <= self.keys@.len(),
                self.key_seq().len() == self.keys@.len(),
                out@.len() == i,
                forall|j: int| 0 <= j < i ==> #[trigger] out@[j]@ == self.key_seq()[j],
            decreases self.keys@.len() - i,
        {
            let k = copy_bytes(&self.keys[i]);
            proof {
                assert(self.key_seq()[i as int] == self.keys@[i as int]@);
            }
            out.push(k);
            i = i + 1;
        }
        out
    }

    /// A snapshot of the contents, as fresh sorted vectors.
    pub fn snapshot(&self) -> (r: (Vec<Vec<u8>>, Vec<KeyDirEntry>))
        requires
            self.wf(),
        ensures
            r.0@.len() == self.key_seq().len(),
            r.1@.len() == self.entry_seq().len(),
            forall|i: int| 0 <= i < r.0@.len() ==> #[trigger] r.0@[i]@ == self.key_seq()[i],
            forall|i: int| 0 <= i < r.1@.len() ==> #[trigger] r.1@[i]@ == self.entry_seq()[i],
    {
        let ks = self.list_keys();
        let mut es: Vec<KeyDirEntry> = Vec::new();
        let mut i: usize = 0;
        while i < self.entries.len()
            invariant
                i <= self.entries@.len(),
                self.entry_seq().len() == self.entries@.len(),
                es@.len() == i,
                forall|j: int| 0 <= j < i ==> #[trigger] es@[j]@ == self.entry_seq()[j],
            decreases self.entries@.len() - i,
        {
            let e = self.entries[i];
            proof {
                assert(self.entry_seq()[i as int] == self.entries@[i as int]@);
            }
            es.push(e);
            i = i + 1;
        }
        (ks, es)
    }
}

/// Replacing the locator at the position already holding `k` inserts the
/// binding `k -> e` into the view.
proof fn lemma_put_update(olds: SortedKeydir, news: SortedKeydir, k: Seq<u8>, e: KeyDirView, p: int)
    requires
        olds.wf(),
        0 <= p < olds.key_seq().len(),
        olds.key_seq()[p] == k,
        news.key_seq() == olds.key_seq(),
        news.entry_seq() == olds.entry_seq().update(p, e),
    ensures
        news.wf(),
        news@ == olds@.insert(k, e),
{
    assert_maps_equal!(news@, olds@.insert(k, e), x => {
        lemma_map_of_contains(olds.key_seq(), olds.entry_seq(), x);
        lemma_map_of_contains(news.key_seq(), news.entry_seq(), x);
        if x == k {
            news.lemma_at_index(p);
        } else {
            if olds@.contains_key(x) {
                let i = choose|i: int| 0 <= i < olds.key_seq().len() && olds.key_seq()[i] == x;
                olds.lemma_at_index(i);
                news.lemma_at_index(i);
            }
            if news@.contains_key(x) {
                let i = choose|i: int| 0 <= i < news.key_seq().len() && news.key_seq()[i] == x;
                news.lemma_at_index(i);
                olds.lemma_at_index(i);
            }
        }
    });
}

/// Inserting `k` at its lower bound keeps the keys sorted and inserts the
/// binding `k -> e` into the view.
proof fn lemma_put_insert(olds: SortedKeydir, news: SortedKeydir, k: Seq<u8>, e: KeyDirView, p: int)
    requires
        olds.wf(),
        0 <= p <= olds.key_seq().len(),
        forall|i: int| 0 <= i < p ==> lex_lt(#[trigger] olds.key_seq()[i], k),
        forall|i: int|
            p <= i < olds.key_seq().len() ==> !lex_lt(#[trigger] olds.key_seq()[i], k),
        forall|i: int| 0 <= i < olds.key_seq().len() ==> #[trigger] olds.key_seq()[i] != k,
        news.key_seq() == olds.key_seq().insert(p, k),
        news.entry_seq() == olds.entry_seq().insert(p, e),
    ensures
        news.wf(),
        news@ == olds@.insert(k, e),
{
    let n = olds.key_seq().len();
    // Keys after the insertion point are strictly above k.
    assert forall|i: int| p <= i < n implies lex_lt(k, #[trigger] olds.key_seq()[i]) by {
        lemma_lex_total(olds.key_seq()[i], k);
    }
    // Sortedness of the new key sequence.
    assert forall|i: int, j: int| 0 <= i < j < news.key_seq().len() implies lex_lt(
        #[trigger] news.key_seq()[i],
        #[trigger] news.key_seq()[j],
    ) by {
        let ki = if i < p {
            olds.key_seq()[i]
        } else if i == p {
            k
        } else {
            olds.key_seq()[i - 1]
        };
        let kj = if j < p {
            olds.key_seq()[j]
        } else if j == p {
            k
        } else {
            olds.key_seq()[j - 1]
        };
        assert(news.key_seq()[i] == ki);
        assert(news.key_seq()[j] == kj);
        if i < p && j == p {
        } else if i == p && j > p {
        } else if i < p && j > p {
            lemma_lex_trans(olds.key_seq()[i], k, olds.key_seq()[j - 1]);
        }
    }
    assert(news.wf());
    assert_maps_equal!(news@, olds@.insert(k, e), x => {
        lemma_map_of_contains(olds.key_seq(), olds.entry_seq(), x);
        lemma_map_of_contains(news.key_seq(), news.entry_seq(), x);
        if x == k {
            assert(news.key_seq()[p] == k);
            news.lemma_at_index(p);
        } else {
            if olds@.contains_key(x) {
                let i = choose|i: int| 0 <= i < n && olds.key_seq()[i] == x;
                olds.lemma_at_index(i);
                let i2 = if i < p {
                    i
                } else {
                    i + 1
                };
                assert(news.key_seq()[i2] == x);
                news.lemma_at_index(i2);
            }
            if news@.contains_key(x) {
                let i = choose|i: int| 0 <= i < news.key_seq().len() && news.key_seq()[i] == x;
                news.lemma_at_index(i);
                let i2 = if i < p {
                    i
                } else {
                    i - 1
                };
                assert(olds.key_seq()[i2] == x);
                olds.lemma_at_index(i2);
            }
        }
    });
}

/// Removing the position holding `k` removes the binding `k` from the view.
proof fn lemma_delete_remove(olds: SortedKeydir, news: SortedKeydir, k: Seq<u8>, p: int)
    requires
        olds.wf(),
        0 <= p < olds.key_seq().len(),
        olds.key_seq()[p] == k,
        news.key_seq() == olds.key_seq().remove(p),
        news.entry_seq() == olds.entry_seq().remove(p),
    ensures
        news.wf(),
        news@ == olds@.remove(k),
{
    let n = olds.key_seq().len();
    assert forall|i: int, j: int| 0 <= i < j < news.key_seq().len() implies lex_lt(
        #[trigger] news.key_seq()[i],
        #[trigger] news.key_seq()[j],
    ) by {
        let ki = if i < p {
            olds.key_seq()[i]
        } else {
            olds.key_seq()[i + 1]
        };
        let kj = if j < p {
            olds.key_seq()[j]
        } else {
            olds.key_seq()[j + 1]
        };
        assert(news.key_seq()[i] == ki);
        assert(news.key_seq()[j] == kj);
    }
    assert(news.wf());
    assert_maps_equal!(news@, olds@.remove(k), x => {
        lemma_map_of_contains(olds.key_seq(), olds.entry_seq(), x);
        lemma_map_of_contains(news.key_seq(), news.entry_seq(), x);
        if news@.contains_key(x) {
            let i = choose|i: int| 0 <= i < news.key_seq().len() && news.key_seq()[i] == x;
            news.lemma_at_index(i);
            let i2 = if i < p {
                i
            } else {
                i + 1
            };
            assert(olds.key_seq()[i2] == x);
            olds.lemma_at_index(i2);
            if x == k {
                olds.lemma_key_unique(i2, p);
                assert(false);
            }
        }
        if olds@.contains_key(x) && x != k {
            let i = choose|i: int| 0 <= i < n && olds.key_seq()[i] == x;
            olds.lemma_at_index(i);
            assert(i != p);
            let i2 = if i < p {
                i
            } else {
                i - 1
            };
            assert(news.key_seq()[i2] == x);
            news.lemma_at_index(i2);
        }
    });
}

// ---------------------------------------------------------------------------
// The two index modes and their iterators.
// ---------------------------------------------------------------------------

/// The hash-flavoured index mode. In this sequential engine it runs on the
/// shared ordered core; its iterator hands keys out in sorted order, as a
/// hash container's iterator does after collecting and sorting its items.
pub struct HashMap {
    inner: SortedKeydir,
}

/// The ordered index mode, running on the shared ordered core.
pub struct BTree {
    inner: SortedKeydir,
}

/// An iterator over a sorted snapshot of the hash index.
pub struct HashMapIterator {
    keys: Vec<Vec<u8>>,
    entries: Vec<KeyDirEntry>,
    index: usize,
}

/// An iterator over a sorted snapshot of the ordered index.
pub struct BTreeIterator {
    keys: Vec<Vec<u8>>,
    entries: Vec<KeyDirEntry>,
    index: usize,
}

/// Walks a sorted snapshot of an index: forward steps, rewind, and seeking
/// the first key at or above a bound.
pub trait IndexIterator: Sized {
    /// The snapshot's keys, ascending.
    spec fn ikeys(&self) -> Seq<Seq<u8>>;

    /// The snapshot's locators, matching `ikeys` position by position.
    spec fn ientries(&self) -> Seq<KeyDirView>;

    /// The position of the next element to yield.
    spec fn ipos(&self) -> int;

    /// A sane snapshot: equal lengths, sorted keys, position in range.
    open spec fn iwf(&self) -> bool {
        &&& self.ikeys().len() == self.ientries().len()
        &&& 0 <= self.ipos() <= self.ikeys().len()
        &&& forall|i: int, j: int|
            0 <= i < j < self.ikeys().len() ==> lex_lt(
                #[trigger] self.ikeys()[i],
                #[trigger] self.ikeys()[j],
            )
    }

    /// Returns to the front of the snapshot.
    fn rewind(&mut self)
        requires
            old(self).iwf(),
        ensures
            final(self).iwf(),
            final(self).ikeys() == old(self).ikeys(),
            final(self).ientries() == old(self).ientries(),
            final(self).ipos() == 0,
    ;

    /// Moves to the first key not below `key`.
    fn seek(&mut self, key: Vec<u8>)
        requires
            old(self).iwf(),
        ensures
            final(self).iwf(),
            final(self).ikeys() == old(self).ikeys(),
            final(self).ientries() == old(self).ientries(),
            forall|i: int| 0 <= i < final(self).ipos() ==> lex_lt(#[trigger] final(self).ikeys()[i], key@),
            forall|i: int|
                final(self).ipos() <= i < final(self).ikeys().len() ==> !lex_lt(
                    #[trigger] final(self).ikeys()[i],
                    key@,
                ),
    ;

    /// Yields the element at the position and advances, or `None` at the end.
    fn next(&mut self) -> (r: Option<(Vec<u8>, KeyDirEntry)>)
        requires
            old(self).iwf(),
        ensures
            final(self).iwf(),
            final(self).ikeys() == old(self).ikeys(),
            final(self).ientries() == old(self).ientries(),
            match r {
                Some(p) => {
                    &&& old(self).ipos() < old(self).ikeys().len()
                    &&& p.0@ == old(self).ikeys()[old(self).ipos()]
                    &&& p.1@ == old(self).ientries()[old(self).ipos()]
                    &&& final(self).ipos() == old(self).ipos() + 1
                },
                None => {
                    &&& old(self).ipos() == old(self).ikeys().len()
                    &&& final(self).ipos() == old(self).ipos()
                },
            },
    ;
}

impl HashMap {
    /// An empty index.
    pub fn new() -> (r: HashMap)
        ensures
            r.wf(),
            r@ == Map::<Seq<u8>, KeyDirView>::empty(),
            r.count() == 0,
    {
        HashMap { inner: SortedKeydir::new() }
    }
}

impl View for HashMap {
    type V = Map<Seq<u8>, KeyDirView>;

    closed spec fn view(&self) -> Map<Seq<u8>, KeyDirView> {
        self.inner@
    }
}

impl View for BTree {
    type V = Map<Seq<u8>, KeyDirView>;

    closed spec fn view(&self) -> Map<Seq<u8>, KeyDirView> {
        self.inner@
    }
}

impl BTree {
    /// An empty index.
    pub fn new() -> (r: BTree)
        ensures
            r.wf(),
            r@ == Map::<Seq<u8>, KeyDirView>::empty(),
            r.count() == 0,
    {
        BTree { inner: SortedKeydir::new() }
    }
}

/// The index container a store runs on; dispatch is by variant.
pub enum IndexMode {
    HashMap(HashMap),
    BTree(BTree),
}

impl View for IndexMode {
    type V = Map<Seq<u8>, KeyDirView>;

    closed spec fn view(&self) -> Map<Seq<u8>, KeyDirView> {
        match self {
            IndexMode::HashMap(h) => h@,
            IndexMode::BTree(b) => b@,
        }
    }
}

/// An iterator over whichever index mode produced it.
pub enum IndexIteratorMode {
    HashMap(HashMapIterator),
    BTree(BTreeIterator),
}

impl HashMap {
    /// Well-formed: the core's invariant holds.
    pub closed spec fn wf(&self) -> bool {
        self.inner.wf()
    }

    /// The number of keys held.
    pub closed spec fn count(&self) -> nat {
        self.inner.key_seq().len()
    }

    /// How many keys the index holds.
    pub fn len(&self) -> (r: usize)
        ensures
            r == self.count(),
    {
        self.inner.len()
    }

    /// Inserts or replaces a key, returning the locator it displaced.
    pub fn put(&mut self, key: Vec<u8>, entry: KeyDirEntry) -> (r: Option<KeyDirEntry>)
        requires
            old(self).wf(),
        ensures
            final(self).wf(),
            final(self)@ == old(self)@.insert(key@, entry@),
            match r {
                Some(e) => old(self)@.contains_key(key@) && e@ == old(self)@[key@] && final(self).count() == old(self).count(),
                None => !old(self)@.contains_key(key@) && final(self).count() == old(self).count()
                    + 1,
            },
    {
        self.inner.put(key, entry)
    }

    /// Looks a key up.
    pub fn get(&self, key: &Vec<u8>) -> (r: Option<KeyDirEntry>)
        requires
            self.wf(),
        ensures
            match r {
                Some(e) => self@.contains_key(key@) && e@ == self@[key@],
                None => !self@.contains_key(key@),
            },
    {
        self.inner.get(key)
    }

    /// Removes a key, returning the locator it held.
    pub fn delete(&mut self, key: &Vec<u8>) -> (r: Option<KeyDirEntry>)
        requires
            old(self).wf(),
        ensures
            final(self).wf(),
            final(self)@ == old(self)@.remove(key@),
            match r {
                Some(e) => old(self)@.contains_key(key@) && e@ == old(self)@[key@] && final(self).count() + 1 == old(self).count(),
                None => !old(self)@.contains_key(key@) && final(self).count() == old(self).count(),
            },
    {
        self.inner.delete(key)
    }

    /// The keys in ascending order.
    pub fn list_keys(&self) -> (r: Vec<Vec<u8>>)
        requires
            self.wf(),
        ensures
            r@.len() == self.count(),
            sorted_keys(keys_of(r@)),
            forall|i: int| 0 <= i < r@.len() ==> self@.contains_key(#[trigger] r@[i]@),
            forall|k: Seq<u8>|
                self@.contains_key(k) ==> exists|i: int| 0 <= i < r@.len() && #[trigger] r@[i]@
                    == k,
    {
        let r = self.inner.list_keys();
        proof {
            lemma_listed_keys(&self.inner, r@);
        }
        r
    }

    /// A sorted snapshot of the contents, ready to iterate.
    pub fn iter(&self) -> (r: IndexIteratorMode)
        requires
            self.wf(),
        ensures
            match r {
                IndexIteratorMode::HashMap(it) => iter_matches(it.ikeys(), it.ientries(), self@)
                    && it.iwf() && it.ipos() == 0,
                IndexIteratorMode::BTree(_) => false,
            },
    {
        let (keys, entries) = self.inner.snapshot();
        let it = HashMapIterator { keys, entries, index: 0 };
        proof {
            lemma_snapshot_matches(&self.inner, it.ikeys(), it.ientries());
        }
        IndexIteratorMode::HashMap(it)
    }
}

impl BTree {
    /// Well-formed: the core's invariant holds.
    pub closed spec fn wf(&self) -> bool {
        self.inner.wf()
    }

    /// The number of keys held.
    pub closed spec fn count(&self) -> nat {
        self.inner.key_seq().len()
    }

    /// How many keys the index holds.
    pub fn len(&self) -> (r: usize)
        ensures
            r == self.count(),
    {
        self.inner.len()
    }

    /// Inserts or replaces a key, returning the locator it displaced.
    pub fn put(&mut self, key: Vec<u8>, entry: KeyDirEntry) -> (r: Option<KeyDirEntry>)
        requires
            old(self).wf(),
        ensures
            final(self).wf(),
            final(self)@ == old(self)@.insert(key@, entry@),
            match r {
                Some(e) => old(self)@.contains_key(key@) && e@ == old(self)@[key@] && final(self).count() == old(self).count(),
                None => !old(self)@.contains_key(key@) && final(self).count() == old(self).count()
                    + 1,
            },
    {
        self.inner.put(key, entry)
    }

    /// Looks a key up.
    pub fn get(&self, key: &Vec<u8>) -> (r: Option<KeyDirEntry>)
        requires
            self.wf(),
        ensures
            match r {
                Some(e) => self@.contains_key(key@) && e@ == self@[key@],
                None => !self@.contains_key(key@),
            },
    {
        self.inner.get(key)
    }

    /// Removes a key, returning the locator it held.
    pub fn delete(&mut self, key: &Vec<u8>) -> (r: Option<KeyDirEntry>)
        requires
            old(self).wf(),
        ensures
            final(self).wf(),
            final(self)@ == old(self)@.remove(key@),
            match r {
                Some(e) => old(self)@.contains_key(key@) && e@ == old(self)@[key@] && final(self).count() + 1 == old(self).count(),
                None => !old(self)@.contains_key(key@) && final(self).count() == old(self).count(),
            },
    {
        self.inner.delete(key)
    }

    /// The keys in ascending order.
    pub fn list_keys(&self) -> (r: Vec<Vec<u8>>)
        requires
            self.wf(),
        ensures
            r@.len() == self.count(),
            sorted_keys(keys_of(r@)),
            forall|i: int| 0 <= i < r@.len() ==> self@.contains_key(#[trigger] r@[i]@),
            forall|k: Seq<u8>|
                self@.contains_key(k) ==> exists|i: int| 0 <= i < r@.len() && #[trigger] r@[i]@
                    == k,
    {
        let r = self.inner.list_keys();
        proof {
            lemma_listed_keys(&self.inner, r@);
        }
        r
    }

    /// A sorted snapshot of the contents, ready to iterate.
    pub fn iter(&self) -> (r: IndexIteratorMode)
        requires
            self.wf(),
        ensures
            match r {
                IndexIteratorMode::BTree(it) => iter_matches(it.ikeys(), it.ientries(), self@)
                    && it.iwf() && it.ipos() == 0,
                IndexIteratorMode::HashMap(_) => false,
            },
    {
        let (keys, entries) = self.inner.snapshot();
        let it = BTreeIterator { keys, entries, index: 0 };
        proof {
            lemma_snapshot_matches(&self.inner, it.ikeys(), it.ientries());
        }
        IndexIteratorMode::BTree(it)
    }
}

/// Whether an iterator snapshot shows exactly the bindings of a map, in
/// ascending key order.
pub open spec fn iter_matches(
    ks: Seq<Seq<u8>>,
    es: Seq<KeyDirView>,
    m: Map<Seq<u8>, KeyDirView>,
) -> bool {
    &&& ks.len() == es.len()
    &&& sorted_keys(ks)
    &&& forall|i: int| 0 <= i < ks.len() ==> m.contains_key(#[trigger] ks[i])
    &&& forall|i: int| 0 <= i < ks.len() ==> m[#[trigger] ks[i]] == es[i]
    &&& forall|k: Seq<u8>| m.contains_key(k) ==> exists|i: int| 0 <= i < ks.len() && #[trigger] ks[i] == k
}

/// The keys a core lists are exactly its bindings.
proof fn lemma_listed_keys(m: &SortedKeydir, r: Seq<Vec<u8>>)
    requires
        m.wf(),
        r.len() == m.key_seq().len(),
        forall|i: int| 0 <= i < r.len() ==> #[trigger] r[i]@ == m.key_seq()[i],
    ensures
        sorted_keys(keys_of(r)),
        forall|i: int| 0 <= i < r.len() ==> m@.contains_key(#[trigger] r[i]@),
        forall|k: Seq<u8>|
            m@.contains_key(k) ==> exists|i: int| 0 <= i < r.len() && #[trigger] r[i]@ == k,
{
    assert forall|i: int, j: int| 0 <= i < j < keys_of(r).len() implies lex_lt(
        #[trigger] keys_of(r)[i],
        #[trigger] keys_of(r)[j],
    ) by {
        assert(keys_of(r)[i] == m.key_seq()[i]);
        assert(keys_of(r)[j] == m.key_seq()[j]);
    }
    assert forall|i: int| 0 <= i < r.len() implies m@.contains_key(#[trigger] r[i]@) by {
        m.lemma_at_index(i);
    }
    assert forall|k: Seq<u8>| m@.contains_key(k) implies exists|i: int|
        0 <= i < r.len() && #[trigger] r[i]@ == k by {
        lemma_map_of_contains(m.key_seq(), m.entry_seq(), k);
        let i = choose|i: int| 0 <= i < m.key_seq().len() && #[trigger] m.key_seq()[i] == k;
        assert(r[i]@ == k);
    }
}

/// A faithful snapshot of a core shows exactly its bindings.
proof fn lemma_snapshot_matches(m: &SortedKeydir, ks: Seq<Seq<u8>>, es: Seq<KeyDirView>)
    requires
        m.wf(),
        ks.len() == m.key_seq().len(),
        es.len() == m.entry_seq().len(),
        forall|i: int| 0 <= i < ks.len() ==> #[trigger] ks[i] == m.key_seq()[i],
        forall|i: int| 0 <= i < es.len() ==> #[trigger] es[i] == m.entry_seq()[i],
    ensures
        iter_matches(ks, es, m@),
{
    assert forall|i: int, j: int| 0 <= i < j < ks.len() implies lex_lt(
        #[trigger] ks[i],
        #[trigger] ks[j],
    ) by {
        assert(ks[i] == m.key_seq()[i]);
        assert(ks[j] == m.key_seq()[j]);
    }
    assert forall|i: int| 0 <= i < ks.len() implies m@.contains_key(#[trigger] ks[i])
        && m@[ks[i]] == es[i] by {
        m.lemma_at_index(i);
    }
    assert forall|k: Seq<u8>| m@.contains_key(k) implies exists|i: int|
        0 <= i < ks.len() && #[trigger] ks[i] == k by {
        lemma_map_of_contains(m.key_seq(), m.entry_seq(), k);
        let i = choose|i: int| 0 <= i < m.key_seq().len() && #[trigger] m.key_seq()[i] == k;
        assert(ks[i] == k);
    }
}

impl IndexIterator for HashMapIterator {
    closed spec fn ikeys(&self) -> Seq<Seq<u8>> {
        keys_of(self.keys@)
    }

    closed spec fn ientries(&self) -> Seq<KeyDirView> {
        entries_of(self.entries@)
    }

    closed spec fn ipos(&self) -> int {
        self.index as int
    }

    fn rewind(&mut self) {
        self.index = 0;
    }

    fn seek(&mut self, key: Vec<u8>) {
        self.index = lower_bound_vec(&self.keys, &key);
    }

    fn next(&mut self) -> (r: Option<(Vec<u8>, KeyDirEntry)>) {
        if self.index >= self.keys.len() {
            return None;
        }
        let k = copy_bytes(&self.keys[self.index]);
        let e = self.entries[self.index];
        proof {
            assert(self.ikeys()[self.index as int] == self.keys@[self.index as int]@);
            assert(self.ientries()[self.index as int] == self.entries@[self.index as int]@);
        }
        self.index = self.index + 1;
        Some((k, e))
    }
}

impl IndexIterator for BTreeIterator {
    closed spec fn ikeys(&self) -> Seq<Seq<u8>> {
        keys_of(self.keys@)
    }

    closed spec fn ientries(&self) -> Seq<KeyDirView> {
        entries_of(self.entries@)
    }

    closed spec fn ipos(&self) -> int {
        self.index as int
    }

    fn rewind(&mut self) {
        self.index = 0;
    }

    fn seek(&mut self, key: Vec<u8>) {
        self.index = lower_bound_vec(&self.keys, &key);
    }

    fn next(&mut self) -> (r: Option<(Vec<u8>, KeyDirEntry)>) {
        if self.index >= self.keys.len() {
            return None;
        }
        let k = copy_bytes(&self.keys[self.index]);
        let e = self.entries[self.index];
        proof {
            assert(self.ikeys()[self.index as int] == self.keys@[self.index as int]@);
            assert(self.ientries()[self.index as int] == self.entries@[self.index as int]@);
        }
        self.index = self.index + 1;
        Some((k, e))
    }
}

impl IndexMode {
    /// An empty index in the hash mode, the store's default container.
    pub fn new_hashmap() -> (r: IndexMode)
        ensures
            r.wf(),
            r@ == Map::<Seq<u8>, KeyDirView>::empty(),
            r.count() == 0,
    {
        IndexMode::HashMap(HashMap::new())
    }

    /// Well-formed: the chosen container's invariant holds.
    pub closed spec fn wf(&self) -> bool {
        match self {
            IndexMode::HashMap(h) => h.wf(),
            IndexMode::BTree(b) => b.wf(),
        }
    }

    /// The number of keys held.
    pub closed spec fn count(&self) -> nat {
        match self {
            IndexMode::HashMap(h) => h.count(),
            IndexMode::BTree(b) => b.count(),
        }
    }

    /// How many keys the index holds.
    pub fn len(&self) -> (r: usize)
        ensures
            r == self.count(),
    {
        match self {
            IndexMode::HashMap(h) => h.len(),
            IndexMode::BTree(b) => b.len(),
        }
    }

    /// Inserts or replaces a key, returning the locator it displaced.
    pub fn put(&mut self, key: Vec<u8>, entry: KeyDirEntry) -> (r: Option<KeyDirEntry>)
        requires
            old(self).wf(),
        ensures
            final(self).wf(),
            final(self)@ == old(self)@.insert(key@, entry@),
            match r {
                Some(e) => old(self)@.contains_key(key@) && e@ == old(self)@[key@] && final(self).count() == old(self).count(),
                None => !old(self)@.contains_key(key@) && final(self).count() == old(self).count()
                    + 1,
            },
    {
        match self {
            IndexMode::HashMap(h) => h.put(key, entry),
            IndexMode::BTree(b) => b.put(key, entry),
        }
    }

    /// Looks a key up.
    pub fn get(&self, key: &Vec<u8>) -> (r: Option<KeyDirEntry>)
        requires
            self.wf(),
        ensures
            match r {
                Some(e) => self@.contains_key(key@) && e@ == self@[key@],
                None => !self@.contains_key(key@),
            },
    {
        match self {
            IndexMode::HashMap(h) => h.get(key),
            IndexMode::BTree(b) => b.get(key),
        }
    }

    /// Removes a key, returning the locator it held.
    pub fn delete(&mut self, key: &Vec<u8>) -> (r: Option<KeyDirEntry>)
        requires
            old(self).wf(),
        ensures
            final(self).wf(),
            final(self)@ == old(self)@.remove(key@),
            match r {
                Some(e) => old(self)@.contains_key(key@) && e@ == old(self)@[key@] && final(self).count() + 1 == old(self).count(),
                None => !old(self)@.contains_key(key@) && final(self).count() == old(self).count(),
            },
    {
        match self {
            IndexMode::HashMap(h) => h.delete(key),
            IndexMode::BTree(b) => b.delete(key),
        }
    }

    /// The keys in ascending order.
    pub fn list_keys(&self) -> (r: Vec<Vec<u8>>)
        requires
            self.wf(),
        ensures
            r@.len() == self.count(),
            sorted_keys(keys_of(r@)),
            forall|i: int| 0 <= i < r@.len() ==> self@.contains_key(#[trigger] r@[i]@),
            forall|k: Seq<u8>|
                self@.contains_key(k) ==> exists|i: int| 0 <= i < r@.len() && #[trigger] r@[i]@
                    == k,
    {
        match self {
            IndexMode::HashMap(h) => h.list_keys(),
            IndexMode::BTree(b) => b.list_keys(),
        }
    }

    /// A sorted snapshot of the contents, ready to iterate.
    pub fn iter(&self) -> (r: IndexIteratorMode)
        requires
            self.wf(),
        ensures
            match r {
                IndexIteratorMode::HashMap(it) => iter_matches(it.ikeys(), it.ientries(), self@)
                    && it.iwf() && it.ipos() == 0,
                IndexIteratorMode::BTree(it) => iter_matches(it.ikeys(), it.ientries(), self@)
                    && it.iwf() && it.ipos() == 0,
            },
    {
        match self {
            IndexMode::HashMap(h) => h.iter(),
            IndexMode::BTree(b) => b.iter(),
        }
    }
}

} // verus!
