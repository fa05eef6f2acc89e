//! Verified integer codecs used by the record format.
//!
//! Three byte-level encodings appear in the log: length-delimited unsigned
//! varints (sizes and sequence numbers), big-endian `u32` (checksums), and
//! ASCII decimal (the merge-finished marker). Each has a specification-level
//! definition here, an executable codec proved against it, and round-trip
//! lemmas.

use vstd::prelude::*;

verus! {

// ---------------------------------------------------------------------------
// Unsigned varint (base-128, least significant group first).
// ---------------------------------------------------------------------------

/// The canonical varint encoding of `n`: groups of seven bits, least
/// significant first, continuation bit set on every byte but the last.
pub open spec fn varint_bytes(n: nat) -> Seq<u8>
    decreases n,
{
    if n < 128 {
        seq![n as u8]
    } else {
        seq![((n % 128) + 128) as u8] + varint_bytes(n / 128)
    }
}

/// Length of the canonical encoding of `n`.
pub open spec fn varint_len(n: nat) -> nat {
    varint_bytes(n).len()
}

/// Decoding a varint from the front of `s`, reading at most `fuel` bytes.
/// Yields the value and the number of bytes consumed.
pub open spec fn varint_parse_rec(s: Seq<u8>, fuel: nat) -> Option<(nat, nat)>
    decreases fuel,
{
    if fuel == 0 || s.len() == 0 {
        None
    } else if s[0] < 128 {
        Some((s[0] as nat, 1))
    } else {
        match varint_parse_rec(s.subrange(1, s.len() as int), (fuel - 1) as nat) {
            Some((v, k)) => Some(((s[0] - 128) as nat + 128 * v, k + 1)),
            None => None,
        }
    }
}

/// Decoding a varint from the front of `s`. A varint longer than ten bytes
/// is rejected, as every value below `2^64` fits in ten.
pub open spec fn varint_parse(s: Seq<u8>) -> Option<(nat, nat)> {
    varint_parse_rec(s, 10)
}

/// The canonical encoding is at least one byte, and short inputs encode short.
pub proof fn lemma_varint_len(n: nat)
    ensures
        1 <= varint_len(n),
        n < 128 ==> varint_len(n) == 1,
        n >= 128 ==> varint_len(n) == 1 + varint_len(n / 128),
    decreases n,
{
}

/// A smaller value never encodes longer.
pub proof fn lemma_varint_len_mono(m: nat, n: nat)
    requires
        m <= n,
    ensures
        varint_len(m) <= varint_len(n),
    decreases n,
{
    lemma_varint_len(m);
    lemma_varint_len(n);
    if m >= 128 {
        lemma_varint_len_mono(m / 128, n / 128);
    }
}

/// Values below `128^k` encode in at most `k` bytes.
pub proof fn lemma_varint_len_bound(n: nat, k: nat)
    requires
        k >= 1,
        n < pow128(k),
    ensures
        varint_len(n) <= k,
    decreases k,
{
    if n >= 128 {
        assert(pow128(k) == 128 * pow128((k - 1) as nat));
        assert(n / 128 < pow128((k - 1) as nat)) by {
            assert(n < 128 * pow128((k - 1) as nat));
        };
        lemma_varint_len_bound(n / 128, (k - 1) as nat);
    }
}

/// `128^k`, the exclusive upper bound of `k`-byte varints.
pub open spec fn pow128(k: nat) -> nat
    decreases k,
{
    if k == 0 {
        1
    } else {
        128 * pow128((k - 1) as nat)
    }
}

/// Every `u32` value encodes in at most five bytes, every `u64` in at most ten.
pub proof fn lemma_varint_len_u64(n: nat)
    requires
        n <= u64::MAX,
    ensures
        varint_len(n) <= 10,
        n <= u32::MAX ==> varint_len(n) <= 5,
{
    reveal_with_fuel(pow128, 11);
    assert(u64::MAX < pow128(10));
    assert(u32::MAX < pow128(5));
    lemma_varint_len_bound(n, 10);
    if n <= u32::MAX {
        lemma_varint_len_bound(n, 5);
    }
}

/// Parsing the canonical encoding of `n`, with anything after it, yields
/// exactly `n` and consumes exactly its length.
pub proof fn lemma_varint_roundtrip(n: nat, rest: Seq<u8>, fuel: nat)
    requires
        varint_len(n) <= fuel,
    ensures
        varint_parse_rec(varint_bytes(n) + rest, fuel) == Some((n, varint_len(n))),
    decreases n,
{
    let s = varint_bytes(n) + rest;
    if n < 128 {
        assert(s[0] == n as u8);
    } else {
        lemma_varint_len(n);
        assert(s[0] == ((n % 128) + 128) as u8);
        assert(s.subrange(1, s.len() as int) =~= varint_bytes(n / 128) + rest);
        lemma_varint_roundtrip(n / 128, rest, (fuel - 1) as nat);
        assert((s[0] - 128) as nat + 128 * (n / 128) == n);
    }
}

/// A successful parse consumes between one and `fuel` bytes, and yields a
/// value below `128^fuel`.
pub proof fn lemma_varint_parse_size(s: Seq<u8>, fuel: nat)
    ensures
        match varint_parse_rec(s, fuel) {
            Some((v, k)) => 1 <= k <= fuel && k <= s.len() && v < pow128(fuel),
            None => true,
        },
    decreases fuel,
{
    if fuel > 0 && s.len() > 0 {
        if s[0] < 128 {
            lemma_pow128_ge(fuel);
        } else {
            lemma_varint_parse_size(s.subrange(1, s.len() as int), (fuel - 1) as nat);
            assert(pow128(fuel) == 128 * pow128((fuel - 1) as nat));
        }
    }
}

/// `128^k` dominates 128 for positive `k`.
proof fn lemma_pow128_ge(k: nat)
    requires
        k >= 1,
    ensures
        pow128(k) >= 128,
    decreases k,
{
    if k == 1 {
        assert(pow128(0) == 1);
    } else {
        lemma_pow128_ge((k - 1) as nat);
    }
    assert(pow128(k) == 128 * pow128((k - 1) as nat));
}

/// A parse that succeeds is unchanged by bytes appended after the input.
pub proof fn lemma_varint_parse_extend(s: Seq<u8>, t: Seq<u8>, fuel: nat)
    requires
        s.len() <= t.len(),
        s == t.subrange(0, s.len() as int),
        varint_parse_rec(s, fuel) is Some,
    ensures
        varint_parse_rec(t, fuel) == varint_parse_rec(s, fuel),
    decreases fuel,
{
    assert(s.len() > 0);
    assert(t[0] == s[0]) by {
        assert(t.subrange(0, s.len() as int)[0] == t[0]);
    }
    if s[0] >= 128 {
        let st = s.subrange(1, s.len() as int);
        let tt = t.subrange(1, t.len() as int);
        assert(st == tt.subrange(0, st.len() as int)) by {
            assert forall|j: int| 0 <= j < st.len() implies #[trigger] st[j] == tt.subrange(
                0,
                st.len() as int,
            )[j] by {
                assert(st[j] == s[j + 1]);
                assert(tt[j] == t[j + 1]);
                assert(t.subrange(0, s.len() as int)[j + 1] == t[j + 1]);
            }
            assert(st =~= tt.subrange(0, st.len() as int));
        }
        lemma_varint_parse_extend(st, tt, (fuel - 1) as nat);
    }
}

/// A parse that succeeds within a prefix of the input already succeeds on
/// the prefix alone.
pub proof fn lemma_varint_parse_restrict(s: Seq<u8>, t: Seq<u8>, fuel: nat)
    requires
        s.len() <= t.len(),
        s == t.subrange(0, s.len() as int),
        varint_parse_rec(t, fuel) is Some,
        varint_parse_rec(t, fuel)->Some_0.1 <= s.len(),
    ensures
        varint_parse_rec(s, fuel) == varint_parse_rec(t, fuel),
    decreases fuel,
{
    lemma_varint_parse_size(t, fuel);
    assert(s.len() > 0);
    assert(s[0] == t[0]) by {
        assert(t.subrange(0, s.len() as int)[0] == t[0]);
    }
    if t[0] >= 128 {
        let st = s.subrange(1, s.len() as int);
        let tt = t.subrange(1, t.len() as int);
        lemma_varint_parse_size(tt, (fuel - 1) as nat);
        assert(st == tt.subrange(0, st.len() as int)) by {
            assert forall|j: int| 0 <= j < st.len() implies #[trigger] st[j] == tt.subrange(
                0,
                st.len() as int,
            )[j] by {
                assert(st[j] == s[j + 1]);
                assert(tt[j] == t[j + 1]);
                assert(t.subrange(0, s.len() as int)[j + 1] == t[j + 1]);
            }
            assert(st =~= tt.subrange(0, st.len() as int));
        }
        lemma_varint_parse_restrict(st, tt, (fuel - 1) as nat);
    }
}

/// Appends the varint encoding of `n` to `out`.
pub fn encode_varint(n: u64, out: &mut Vec<u8>)
    ensures
        final(out)@ == old(out)@ + varint_bytes(n as nat),
    decreases n,
{
    if n < 128 {
        out.push(n as u8);
        assert(out@ =~= old(out)@ + varint_bytes(n as nat));
    } else {
        out.push((n % 128 + 128) as u8);
        encode_varint(n / 128, out);
        assert(out@ =~= old(out)@ + varint_bytes(n as nat));
    }
}

/// The number of bytes `encode_varint` would append for `n`.
pub fn varint_size(n: u64) -> (r: usize)
    ensures
        r == varint_len(n as nat),
    decreases n,
{
    proof {
        lemma_varint_len_u64(n as nat);
    }
    if n < 128 {
        1
    } else {
        1 + varint_size(n / 128)
    }
}

/// Decodes a varint from `buf` starting at `start`, reading at most `fuel`
/// bytes. Mirrors `varint_parse_rec`, except that values above `u64::MAX`
/// are rejected.
fn decode_varint_rec(buf: &[u8], start: usize, fuel: u32) -> (r: Option<(u64, usize)>)
    requires
        start <= buf@.len(),
    ensures
        ({
            let tail = buf@.subrange(start as int, buf@.len() as int);
            match varint_parse_rec(tail, fuel as nat) {
                Some((v, k)) => {
                    if v <= u64::MAX {
                        r == Some((v as u64, k as usize))
                    } else {
                        r is None
                    }
                },
                None => r is None,
            }
        }),
    decreases fuel,
{
    let ghost tail = buf@.subrange(start as int, buf@.len() as int);
    if fuel == 0 || start >= buf.len() {
        None
    } else {
        let b = buf[start];
        proof {
            assert(tail[0] == buf@[start as int]);
            assert(tail.len() == buf@.len() - start);
        }
        if b < 128 {
            Some((b as u64, 1))
        } else {
            proof {
                assert(buf@.subrange(start + 1, buf@.len() as int) =~= tail.subrange(
                    1,
                    tail.len() as int,
                ));
                lemma_varint_parse_size(tail.subrange(1, tail.len() as int), (fuel - 1) as nat);
            }
            match decode_varint_rec(buf, start + 1, fuel - 1) {
                None => None,
                Some((v, k)) => {
                    if v >= 0x0200000000000000 {
                        // 128 * v no longer fits in a u64.
                        None
                    } else {
                        if k >= usize::MAX {
                            None
                        } else {
                            Some(((b - 128) as u64 + 128 * v, k + 1))
                        }
                    }
                },
            }
        }
    }
}

/// Decodes a varint from `buf` at `start` against the ten-byte format limit.
pub fn decode_varint(buf: &[u8], start: usize) -> (r: Option<(u64, usize)>)
    requires
        start <= buf@.len(),
    ensures
        ({
            let tail = buf@.subrange(start as int, buf@.len() as int);
            match varint_parse(tail) {
                Some((v, k)) => {
                    if v <= u64::MAX {
                        r == Some((v as u64, k as usize))
                    } else {
                        r is None
                    }
                },
                None => r is None,
            }
        }),
{
    decode_varint_rec(buf, start, 10)
}

// ---------------------------------------------------------------------------
// Big-endian u32.
// ---------------------------------------------------------------------------

/// The four big-endian bytes of `x`.
pub open spec fn be32_bytes(x: u32) -> Seq<u8> {
    seq![
        (x / 0x1000000) as u8,
        ((x / 0x10000) % 256) as u8,
        ((x / 256) % 256) as u8,
        (x % 256) as u8,
    ]
}

/// The value of four big-endian bytes.
pub open spec fn be32_value(b0: u8, b1: u8, b2: u8, b3: u8) -> u32 {
    (b0 * 0x1000000 + b1 * 0x10000 + b2 * 256 + b3) as u32
}

/// Reading back the four bytes of `x` yields `x`.
pub proof fn lemma_be32_roundtrip(x: u32)
    ensures
        be32_value(
            be32_bytes(x)[0],
            be32_bytes(x)[1],
            be32_bytes(x)[2],
            be32_bytes(x)[3],
        ) == x,
{
    assert((x / 0x1000000) * 0x1000000 + ((x / 0x10000) % 256) * 0x10000 + ((x / 256) % 256) * 256
        + x % 256 == x) by (nonlinear_arith);
}

/// Appends the big-endian bytes of `x` to `out`.
pub fn push_be32(out: &mut Vec<u8>, x: u32)
    ensures
        final(out)@ == old(out)@ + be32_bytes(x),
{
    out.push((x / 0x1000000) as u8);
    out.push(((x / 0x10000) % 256) as u8);
    out.push(((x / 256) % 256) as u8);
    out.push((x % 256) as u8);
    assert(out@ =~= old(out)@ + be32_bytes(x));
}

/// Reads a big-endian `u32` from `buf` at `start`.
pub fn read_be32(buf: &[u8], start: usize) -> (r: u32)
    requires
        start + 4 <= buf@.len(),
    ensures
        r == be32_value(
            buf@[start as int],
            buf@[start as int + 1],
            buf@[start as int + 2],
            buf@[start as int + 3],
        ),
{
    let b0 = buf[start] as u32;
    let b1 = buf[start + 1] as u32;
    let b2 = buf[start + 2] as u32;
    let b3 = buf[start + 3] as u32;
    b0 * 0x1000000 + b1 * 0x10000 + b2 * 256 + b3
}

// ---------------------------------------------------------------------------
// ASCII decimal (merge-finished marker payload).
// ---------------------------------------------------------------------------

/// The ASCII decimal digits of `n`, most significant first.
pub open spec fn decimal_bytes(n: nat) -> Seq<u8>
    decreases n,
{
    if n < 10 {
        seq![(48 + n) as u8]
    } else {
        decimal_bytes(n / 10) + seq![(48 + n % 10) as u8]
    }
}

/// The value of a digit string, given that every byte is an ASCII digit.
pub open spec fn decimal_value(s: Seq<u8>) -> nat
    decreases s.len(),
{
    if s.len() == 0 {
        0
    } else {
        decimal_value(s.drop_last()) * 10 + (s.last() - 48) as nat
    }
}

/// Whether every byte of `s` is an ASCII digit.
pub open spec fn all_digits(s: Seq<u8>) -> bool {
    forall|i: int| 0 <= i < s.len() ==> 48 <= #[trigger] s[i] <= 57
}

/// The decimal encoding reads back as its value.
pub proof fn lemma_decimal_roundtrip(n: nat)
    ensures
        decimal_bytes(n).len() >= 1,
        all_digits(decimal_bytes(n)),
        decimal_value(decimal_bytes(n)) == n,
    decreases n,
{
    if n < 10 {
        let s = decimal_bytes(n);
        assert(s =~= seq![(48 + n) as u8]);
        assert(s.drop_last() =~= Seq::<u8>::empty());
        assert(s[0] == (48 + n) as u8);
        assert(decimal_value(s) == decimal_value(s.drop_last()) * 10 + (s.last() - 48) as nat);
    } else {
        lemma_decimal_roundtrip(n / 10);
        let s = decimal_bytes(n);
        assert(s =~= decimal_bytes(n / 10) + seq![(48 + n % 10) as u8]);
        assert(s.drop_last() =~= decimal_bytes(n / 10));
        assert(s.last() == (48 + n % 10) as u8);
        assert(decimal_value(s) == decimal_value(s.drop_last()) * 10 + (s.last() - 48) as nat);
        assert(decimal_value(s) == (n / 10) * 10 + n % 10);
        assert forall|i: int| 0 <= i < s.len() implies 48 <= #[trigger] s[i] <= 57 by {
            if i < s.len() - 1 {
                assert(s[i] == decimal_bytes(n / 10)[i]);
            }
        }
    }
}

/// Appends the decimal digits of `n` to `out`.
pub fn encode_decimal(n: u32, out: &mut Vec<u8>)
    ensures
        final(out)@ == old(out)@ + decimal_bytes(n as nat),
    decreases n,
{
    if n < 10 {
        out.push(48 + n as u8);
        assert(out@ =~= old(out)@ + decimal_bytes(n as nat));
    } else {
        encode_decimal(n / 10, out);
        out.push(48 + (n % 10) as u8);
        assert(out@ =~= old(out)@ + decimal_bytes(n as nat));
    }
}

/// Parses `buf` as an unsigned decimal number. Rejects an empty string, any
/// non-digit byte, and values that do not fit in a `u32`.
pub fn parse_decimal(buf: &Vec<u8>) -> (r: Option<u32>)
    ensures
        match r {
            Some(v) => buf@.len() >= 1 && all_digits(buf@) && decimal_value(buf@) == v as nat,
            None => buf@.len() == 0 || !all_digits(buf@) || decimal_value(buf@) > u32::MAX,
        },
{
    if buf.len() == 0 {
        return None;
    }
    let mut value: u64 = 0;
    let mut i: usize = 0;
    while i < buf.len()
        invariant
            0 <= i <= buf@.len(),
            all_digits(buf@.subrange(0, i as int)),
            value == decimal_value(buf@.subrange(0, i as int)),
            value <= u32::MAX,
        decreases buf@.len() - i,
    {
        let b = buf[i];
        if b < 48 || b > 57 {
            assert(!all_digits(buf@));
            return None;
        }
        let next = value * 10 + (b - 48) as u64;
        proof {
            assert(buf@.subrange(0, i + 1).drop_last() =~= buf@.subrange(0, i as int));
            assert(buf@.subrange(0, i + 1).last() == buf@[i as int]);
        }
        if next > u32::MAX as u64 {
            proof {
                if all_digits(buf@) {
                    lemma_decimal_value_monotone(buf@.subrange(0, i + 1), buf@);
                }
            }
            return None;
        }
        value = next;
        i = i + 1;
    }
    proof {
        assert(buf@.subrange(0, buf@.len() as int) =~= buf@);
    }
    Some(value as u32)
}

/// A digit string's value only grows as digits are appended.
proof fn lemma_decimal_value_monotone(pre: Seq<u8>, s: Seq<u8>)
    requires
        pre.len() <= s.len(),
        pre =~= s.subrange(0, pre.len() as int),
        all_digits(s),
    ensures
        decimal_value(pre) <= decimal_value(s),
    decreases s.len() - pre.len(),
{
    if pre.len() < s.len() {
        let mid = s.subrange(0, pre.len() as int + 1);
        assert(mid.len() == pre.len() + 1);
        assert(mid.drop_last() =~= pre);
        assert(decimal_value(mid) == decimal_value(pre) * 10 + (mid.last() - 48) as nat);
        assert(mid =~= s.subrange(0, mid.len() as int));
        lemma_decimal_value_monotone(mid, s);
        assert(decimal_value(pre) <= decimal_value(pre) * 10 + (mid.last() - 48) as nat);
    } else {
        assert(s.subrange(0, pre.len() as int) =~= s);
    }
}

} // verus!
