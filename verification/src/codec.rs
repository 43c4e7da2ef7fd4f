use vstd::prelude::*;

use crate::account_state::LedgerEntry;
use crate::account_state::ProgramAccountState;
use crate::account_state::sorted_by_key;
use crate::errors::LedgerError;
use crate::keys::Key;
use crate::keys::key_lt;

verus! {

/// Bytes of one encoded entry: a 32-byte key and an 8-byte balance.
pub const ENTRY_BYTES: usize = 40;

/// Bytes of the header: a 1-byte flag and a 4-byte entry count.
pub const HEADER_BYTES: usize = 5;

/// The entry cardinality the fixed storage region is sized for.
pub const MAX_LEDGER_ENTRIES: usize = 25;

/// The exact length of the fixed storage region every ledger is encoded
/// into: header plus `MAX_LEDGER_ENTRIES` entries. A build-time parameter;
/// changing it invalidates previously persisted buffers.
pub const ACCOUNT_STATE_SPACE: usize = 5 + 25 * 40;

/// Byte `i` of the little-endian encoding of `x`.
pub open spec fn u64_byte(x: u64, i: int) -> u8 {
    ((x >> ((8 * i) as u64)) & 0xff) as u8
}

/// Byte `i` of the little-endian encoding of `x`.
pub open spec fn u32_byte(x: u32, i: int) -> u8 {
    ((x >> ((8 * i) as u32)) & 0xff) as u8
}

/// The value eight little-endian bytes stand for.
pub open spec fn u64_of_bytes(b0: u8, b1: u8, b2: u8, b3: u8, b4: u8, b5: u8, b6: u8, b7: u8) -> u64 {
    (b0 as u64) | ((b1 as u64) << 8u64) | ((b2 as u64) << 16u64) | ((b3 as u64) << 24u64) | ((b4
        as u64) << 32u64) | ((b5 as u64) << 40u64) | ((b6 as u64) << 48u64) | ((b7 as u64)
        << 56u64)
}

/// The value four little-endian bytes stand for.
pub open spec fn u32_of_bytes(b0: u8, b1: u8, b2: u8, b3: u8) -> u32 {
    (b0 as u32) | ((b1 as u32) << 8u32) | ((b2 as u32) << 16u32) | ((b3 as u32) << 24u32)
}

/// The 64-bit value encoded little-endian at offset `off` of `s`.
pub open spec fn spec_u64_at(s: Seq<u8>, off: int) -> u64 {
    u64_of_bytes(
        s[off],
        s[off + 1],
        s[off + 2],
        s[off + 3],
        s[off + 4],
        s[off + 5],
        s[off + 6],
        s[off + 7],
    )
}

/// The 32-bit value encoded little-endian at offset `off` of `s`.
pub open spec fn spec_u32_at(s: Seq<u8>, off: int) -> u32 {
    u32_of_bytes(s[off], s[off + 1], s[off + 2], s[off + 3])
}

/// Reassembling the little-endian bytes of `x` yields `x` back.
pub proof fn lemma_u64_le_round_trip(x: u64)
    ensures
        u64_of_bytes(
            u64_byte(x, 0),
            u64_byte(x, 1),
            u64_byte(x, 2),
            u64_byte(x, 3),
            u64_byte(x, 4),
            u64_byte(x, 5),
            u64_byte(x, 6),
            u64_byte(x, 7),
        ) == x,
{
    let b0 = u64_byte(x, 0);
    let b1 = u64_byte(x, 1);
    let b2 = u64_byte(x, 2);
    let b3 = u64_byte(x, 3);
    let b4 = u64_byte(x, 4);
    let b5 = u64_byte(x, 5);
    let b6 = u64_byte(x, 6);
    let b7 = u64_byte(x, 7);
    assert((b0 as u64) | ((b1 as u64) << 8u64) | ((b2 as u64) << 16u64) | ((b3 as u64) << 24u64)
        | ((b4 as u64) << 32u64) | ((b5 as u64) << 40u64) | ((b6 as u64) << 48u64) | ((b7 as u64)
        << 56u64) == x) by (bit_vector)
        requires
            b0 == ((x >> 0u64) & 0xff) as u8,
            b1 == ((x >> 8u64) & 0xff) as u8,
            b2 == ((x >> 16u64) & 0xff) as u8,
            b3 == ((x >> 24u64) & 0xff) as u8,
            b4 == ((x >> 32u64) & 0xff) as u8,
            b5 == ((x >> 40u64) & 0xff) as u8,
            b6 == ((x >> 48u64) & 0xff) as u8,
            b7 == ((x >> 56u64) & 0xff) as u8,
    ;
}

/// Reassembling the little-endian bytes of `x` yields `x` back.
pub proof fn lemma_u32_le_round_trip(x: u32)
    ensures
        u32_of_bytes(u32_byte(x, 0), u32_byte(x, 1), u32_byte(x, 2), u32_byte(x, 3)) == x,
{
    let b0 = u32_byte(x, 0);
    let b1 = u32_byte(x, 1);
    let b2 = u32_byte(x, 2);
    let b3 = u32_byte(x, 3);
    assert((b0 as u32) | ((b1 as u32) << 8u32) | ((b2 as u32) << 16u32) | ((b3 as u32) << 24u32)
        == x) by (bit_vector)
        requires
            b0 == ((x >> 0u32) & 0xff) as u8,
            b1 == ((x >> 8u32) & 0xff) as u8,
            b2 == ((x >> 16u32) & 0xff) as u8,
            b3 == ((x >> 24u32) & 0xff) as u8,
    ;
}

/// Byte `r` of one entry's encoding: the four key words, most significant
/// first, then the balance, each little-endian.
pub open spec fn entry_byte(e: LedgerEntry, r: int) -> u8 {
    if r < 8 {
        u64_byte(e.key.w0, r)
    } else if r < 16 {
        u64_byte(e.key.w1, r - 8)
    } else if r < 24 {
        u64_byte(e.key.w2, r - 16)
    } else if r < 32 {
        u64_byte(e.key.w3, r - 24)
    } else {
        u64_byte(e.balance, r - 32)
    }
}

/// The payload bytes a table occupies: header plus forty per entry.
pub open spec fn encoded_len(s: Seq<LedgerEntry>) -> int {
    5 + 40 * (s.len() as int)
}

/// Byte `i` of the full encoded image: the flag (1 for initialized, else 0),
/// the little-endian entry count, the entries in table order, then zero
/// padding out to the buffer's length.
pub open spec fn encoded_byte(inited: bool, s: Seq<LedgerEntry>, i: int) -> u8 {
    if i == 0 {
        if inited {
            1
        } else {
            0
        }
    } else if i < 5 {
        u32_byte(s.len() as u32, i - 1)
    } else if i < encoded_len(s) {
        entry_byte(s[(i - 5) / 40], (i - 5) % 40)
    } else {
        0
    }
}

/// The full image of a ledger in a buffer of length `len`: a function of the
/// flag, the table and the length alone, so re-encoding an unchanged ledger
/// always yields identical bytes.
pub open spec fn encoded_image(inited: bool, s: Seq<LedgerEntry>, len: int) -> Seq<u8> {
    Seq::new(len as nat, |i: int| encoded_byte(inited, s, i))
}

/// The entry encoded at byte offset `off` of `src`.
pub open spec fn entry_at(src: Seq<u8>, off: int) -> LedgerEntry {
    LedgerEntry {
        key: Key {
            w0: spec_u64_at(src, off),
            w1: spec_u64_at(src, off + 8),
            w2: spec_u64_at(src, off + 16),
            w3: spec_u64_at(src, off + 24),
        },
        balance: spec_u64_at(src, off + 32),
    }
}

/// The first `n` entries encoded after the header of `src`.
pub open spec fn decoded_entries(src: Seq<u8>, n: int) -> Seq<LedgerEntry> {
    Seq::new(n as nat, |i: int| entry_at(src, 5 + 40 * i))
}

/// What strict decoding reads out of a buffer: `None` exactly when the buffer
/// is truncated, carries a flag byte other than 0 or 1, declares an entry
/// count implying more bytes than are present, or lists entries out of strict
/// key order.
pub open spec fn spec_decode(src: Seq<u8>) -> Option<(bool, Seq<LedgerEntry>)> {
    if src.len() < 5 {
        None
    } else if src[0] != 0 && src[0] != 1 {
        None
    } else {
        let n = spec_u32_at(src, 1) as int;
        if src.len() < 5 + 40 * n {
            None
        } else {
            let s = decoded_entries(src, n);
            if sorted_by_key(s) {
                Some((src[0] == 1, s))
            } else {
                None
            }
        }
    }
}

/// A count fits the buffer exactly when it is at most the entry capacity of
/// the bytes past the header.
proof fn lemma_fits_check(n: int, len: int)
    requires
        0 <= n,
        5 <= len,
    ensures
        n <= (len - 5) / 40 <==> 5 + 40 * n <= len,
{
    vstd::arithmetic::div_mod::lemma_fundamental_div_mod(len - 5, 40);
    vstd::arithmetic::div_mod::lemma_mod_division_less_than_divisor(len - 5, 40);
}

/// Byte `5 + 40 * i + r` of an image is byte `r` of entry `i`.
proof fn lemma_encoded_entry_byte(inited: bool, s: Seq<LedgerEntry>, i: int, r: int)
    requires
        0 <= i < s.len(),
        0 <= r < 40,
    ensures
        encoded_byte(inited, s, 5 + 40 * i + r) == entry_byte(s[i], r),
{
    vstd::arithmetic::div_mod::lemma_fundamental_div_mod_converse(40 * i + r, 40, i, r);
}

/// Appends the eight little-endian bytes of `x`.
fn push_u64_le(out: &mut Vec<u8>, x: u64)
    requires
        old(out).len() + 8 <= usize::MAX,
    ensures
        final(out)@.len() == old(out)@.len() + 8,
        forall|m: int| 0 <= m < old(out)@.len() ==> final(out)@[m] == old(out)@[m],
        forall|k: int| 0 <= k < 8 ==> final(out)@[old(out)@.len() + k] == u64_byte(x, k),
{
    out.push(((x >> 0u64) & 0xff) as u8);
    out.push(((x >> 8u64) & 0xff) as u8);
    out.push(((x >> 16u64) & 0xff) as u8);
    out.push(((x >> 24u64) & 0xff) as u8);
    out.push(((x >> 32u64) & 0xff) as u8);
    out.push(((x >> 40u64) & 0xff) as u8);
    out.push(((x >> 48u64) & 0xff) as u8);
    out.push(((x >> 56u64) & 0xff) as u8);
}

/// Appends the four little-endian bytes of `x`.
fn push_u32_le(out: &mut Vec<u8>, x: u32)
    requires
        old(out).len() + 4 <= usize::MAX,
    ensures
        final(out)@.len() == old(out)@.len() + 4,
        forall|m: int| 0 <= m < old(out)@.len() ==> final(out)@[m] == old(out)@[m],
        forall|k: int| 0 <= k < 4 ==> final(out)@[old(out)@.len() + k] == u32_byte(x, k),
{
    out.push(((x >> 0u32) & 0xff) as u8);
    out.push(((x >> 8u32) & 0xff) as u8);
    out.push(((x >> 16u32) & 0xff) as u8);
    out.push(((x >> 24u32) & 0xff) as u8);
}

/// Reads the 64-bit value encoded little-endian at offset `off`.
pub(crate) fn read_u64_at(src: &Vec<u8>, off: usize) -> (x: u64)
    requires
        off + 8 <= src.len(),
    ensures
        x == spec_u64_at(src@, off as int),
{
    (src[off] as u64) | ((src[off + 1] as u64) << 8u64) | ((src[off + 2] as u64) << 16u64) | ((
    src[off + 3] as u64) << 24u64) | ((src[off + 4] as u64) << 32u64) | ((src[off + 5] as u64)
        << 40u64) | ((src[off + 6] as u64) << 48u64) | ((src[off + 7] as u64) << 56u64)
}

/// Reads the 32-bit value encoded little-endian at offset `off`.
fn read_u32_at(src: &Vec<u8>, off: usize) -> (x: u32)
    requires
        off + 4 <= src.len(),
    ensures
        x == spec_u32_at(src@, off as int),
{
    (src[off] as u32) | ((src[off + 1] as u32) << 8u32) | ((src[off + 2] as u32) << 16u32) | ((
    src[off + 3] as u32) << 24u32)
}

impl Key {
    /// A key from 32 raw identity bytes: four little-endian words, most
    /// significant word first.
    pub fn from_bytes(b: &Vec<u8>) -> (k: Key)
        requires
            b@.len() == 32,
        ensures
            k.w0 == spec_u64_at(b@, 0),
            k.w1 == spec_u64_at(b@, 8),
            k.w2 == spec_u64_at(b@, 16),
            k.w3 == spec_u64_at(b@, 24),
    {
        Key {
            w0: read_u64_at(b, 0),
            w1: read_u64_at(b, 8),
            w2: read_u64_at(b, 16),
            w3: read_u64_at(b, 24),
        }
    }
}

/// Word `w` of one entry's encoding: the key words, then the balance.
pub open spec fn entry_word(e: LedgerEntry, w: int) -> u64 {
    if w == 0 {
        e.key.w0
    } else if w == 1 {
        e.key.w1
    } else if w == 2 {
        e.key.w2
    } else if w == 3 {
        e.key.w3
    } else {
        e.balance
    }
}

/// Word `w` of entry `i` reads back out of the image unchanged.
proof fn lemma_word_round_trip(inited: bool, s: Seq<LedgerEntry>, len: int, i: int, w: int)
    requires
        0 <= i < s.len(),
        encoded_len(s) <= len,
        0 <= w <= 4,
    ensures
        spec_u64_at(encoded_image(inited, s, len), 5 + 40 * i + 8 * w) == entry_word(s[i], w),
{
    let img = encoded_image(inited, s, len);
    let off = 5 + 40 * i + 8 * w;
    lemma_encoded_entry_byte(inited, s, i, 8 * w + 0);
    lemma_encoded_entry_byte(inited, s, i, 8 * w + 1);
    lemma_encoded_entry_byte(inited, s, i, 8 * w + 2);
    lemma_encoded_entry_byte(inited, s, i, 8 * w + 3);
    lemma_encoded_entry_byte(inited, s, i, 8 * w + 4);
    lemma_encoded_entry_byte(inited, s, i, 8 * w + 5);
    lemma_encoded_entry_byte(inited, s, i, 8 * w + 6);
    lemma_encoded_entry_byte(inited, s, i, 8 * w + 7);
    assert(img[off + 0] == u64_byte(entry_word(s[i], w), 0));
    assert(img[off + 1] == u64_byte(entry_word(s[i], w), 1));
    assert(img[off + 2] == u64_byte(entry_word(s[i], w), 2));
    assert(img[off + 3] == u64_byte(entry_word(s[i], w), 3));
    assert(img[off + 4] == u64_byte(entry_word(s[i], w), 4));
    assert(img[off + 5] == u64_byte(entry_word(s[i], w), 5));
    assert(img[off + 6] == u64_byte(entry_word(s[i], w), 6));
    assert(img[off + 7] == u64_byte(entry_word(s[i], w), 7));
    lemma_u64_le_round_trip(entry_word(s[i], w));
}

/// Entry `i` reads back out of the image unchanged.
proof fn lemma_entry_round_trip(inited: bool, s: Seq<LedgerEntry>, len: int, i: int)
    requires
        0 <= i < s.len(),
        encoded_len(s) <= len,
    ensures
        entry_at(encoded_image(inited, s, len), 5 + 40 * i) == s[i],
{
    lemma_word_round_trip(inited, s, len, i, 0);
    lemma_word_round_trip(inited, s, len, i, 1);
    lemma_word_round_trip(inited, s, len, i, 2);
    lemma_word_round_trip(inited, s, len, i, 3);
    lemma_word_round_trip(inited, s, len, i, 4);
}

/// Round-trip: decoding the encoded image of any well-formed ledger that fits
/// its buffer yields exactly the flag and all entries back, under the fixed
/// key ordering.
pub proof fn lemma_round_trip(inited: bool, s: Seq<LedgerEntry>, len: int)
    requires
        sorted_by_key(s),
        encoded_len(s) <= len,
        s.len() <= u32::MAX,
    ensures
        spec_decode(encoded_image(inited, s, len)) == Some((inited, s)),
{
    let img = encoded_image(inited, s, len);
    assert(spec_u32_at(img, 1) == s.len() as u32) by {
        assert(img[1] == u32_byte(s.len() as u32, 0));
        assert(img[2] == u32_byte(s.len() as u32, 1));
        assert(img[3] == u32_byte(s.len() as u32, 2));
        assert(img[4] == u32_byte(s.len() as u32, 3));
        lemma_u32_le_round_trip(s.len() as u32);
    }
    let n = spec_u32_at(img, 1) as int;
    assert forall|i: int| 0 <= i < s.len() implies decoded_entries(img, n)[i] == s[i] by {
        lemma_entry_round_trip(inited, s, len, i);
    }
    assert(decoded_entries(img, n) =~= s);
}

/// Idempotent re-encode: the image is a function of the flag, the table and
/// the buffer length alone, so encoding the same unchanged ledger twice into
/// the same-size buffer yields identical bytes, whatever the buffer held
/// before each encode.
pub proof fn lemma_encode_deterministic(
    inited: bool,
    s: Seq<LedgerEntry>,
    len: int,
    b1: Seq<u8>,
    b2: Seq<u8>,
)
    requires
        b1 == encoded_image(inited, s, len),
        b2 == encoded_image(inited, s, len),
    ensures
        b1 == b2,
{
}

impl ProgramAccountState {
    /// Encode: writes this ledger's full image — flag, entry count, entries in
    /// key order, zero padding — over the whole of `dst`. Fails with
    /// `InvalidData`, leaving `dst` untouched, exactly when the payload would
    /// not fit `dst` or the entry count would not fit its 4-byte field; that
    /// failure signals a storage region undersized for the ledger, not a
    /// recoverable runtime condition.
    #[verifier::loop_isolation(false)]
    pub fn pack_into_slice(&self, dst: &mut Vec<u8>) -> (r: Result<(), LedgerError>)
        ensures
            final(dst)@.len() == old(dst)@.len(),
            r is Ok <==> (encoded_len(self.table()) <= old(dst)@.len() && self.table().len()
                <= u32::MAX),
            r is Err ==> r == Err::<(), LedgerError>(LedgerError::InvalidData) && final(dst)@
                == old(dst)@,
            r is Ok ==> final(dst)@ == encoded_image(self.inited(), self.table(), old(dst)@.len() as int),
    {
        let ghost f = self.inited();
        let ghost s = self.table();
        proof {
            self.lemma_parts();
        }
        let n = self.entries.len();
        let len = dst.len();
        if len < 5 {
            return Err(LedgerError::InvalidData);
        }
        proof {
            lemma_fits_check(n as int, len as int);
        }
        if n > (len - 5) / 40 || n > 0xffff_ffffusize {
            return Err(LedgerError::InvalidData);
        }
        let mut out: Vec<u8> = Vec::new();
        let flag: u8 = if self.is_initialized {
            1
        } else {
            0
        };
        out.push(flag);
        push_u32_le(&mut out, n as u32);
        assert forall|b: int| 0 <= b < 5 implies out@[b] == encoded_byte(f, s, b) by {
            if b > 0 {
                assert(out@[b] == u32_byte(n as u32, b - 1));
            }
        }
        let mut i: usize = 0;
        while i < n
            invariant
                i <= n,
                out@.len() == 5 + 40 * (i as int),
                forall|b: int| 0 <= b < out@.len() ==> out@[b] == encoded_byte(f, s, b),
            decreases n - i,
        {
            let e = self.entries[i];
            let ghost olen = out@.len() as int;
            push_u64_le(&mut out, e.key.w0);
            let ghost o1 = out@;
            push_u64_le(&mut out, e.key.w1);
            let ghost o2 = out@;
            push_u64_le(&mut out, e.key.w2);
            let ghost o3 = out@;
            push_u64_le(&mut out, e.key.w3);
            let ghost o4 = out@;
            push_u64_le(&mut out, e.balance);
            proof {
                assert forall|b: int| 0 <= b < out@.len() implies out@[b] == encoded_byte(
                    f,
                    s,
                    b,
                ) by {
                    if b >= olen {
                        let r = b - olen;
                        lemma_encoded_entry_byte(f, s, i as int, r);
                        if r < 8 {
                            assert(o1[b] == u64_byte(e.key.w0, r));
                            assert(o2[b] == o1[b] && o3[b] == o2[b] && o4[b] == o3[b] && out@[b]
                                == o4[b]);
                        } else if r < 16 {
                            assert(o2[b] == u64_byte(e.key.w1, r - 8));
                            assert(o3[b] == o2[b] && o4[b] == o3[b] && out@[b] == o4[b]);
                        } else if r < 24 {
                            assert(o3[b] == u64_byte(e.key.w2, r - 16));
                            assert(o4[b] == o3[b] && out@[b] == o4[b]);
                        } else if r < 32 {
                            assert(o4[b] == u64_byte(e.key.w3, r - 24));
                            assert(out@[b] == o4[b]);
                        } else {
                            assert(out@[b] == u64_byte(e.balance, r - 32));
                        }
                    }
                }
            }
            i = i + 1;
        }
        while out.len() < len
            invariant
                5 + 40 * (n as int) <= out@.len() <= len as int,
                forall|b: int| 0 <= b < out@.len() ==> out@[b] == encoded_byte(f, s, b),
            decreases len - out.len(),
        {
            out.push(0);
        }
        let mut k: usize = 0;
        while k < len
            invariant
                k <= len,
                dst@.len() == len as int,
                forall|m: int| 0 <= m < k ==> dst@[m] == out@[m],
            decreases len - k,
        {
            dst[k] = out[k];
            k = k + 1;
        }
        proof {
            assert(dst@ =~= encoded_image(f, s, len as int));
        }
        Ok(())
    }

    /// Strict decode: parses the flag and the entry sequence back out of
    /// `src`, accepting exactly the buffers some ledger image explains (with
    /// trailing bytes ignored) and rejecting every truncated, malformed or
    /// out-of-order buffer with `InvalidData`.
    #[verifier::loop_isolation(false)]
    pub fn unpack_from_slice(src: &Vec<u8>) -> (r: Result<ProgramAccountState, LedgerError>)
        ensures
            r is Ok <==> spec_decode(src@) is Some,
            (r matches Ok(st) ==> spec_decode(src@) == Some((st.inited(), st.table()))
                && st.wf()),
            r is Err ==> r == Err::<ProgramAccountState, LedgerError>(LedgerError::InvalidData),
    {
        let len = src.len();
        if len < 5 {
            return Err(LedgerError::InvalidData);
        }
        let flag = src[0];
        if flag != 0 && flag != 1 {
            return Err(LedgerError::InvalidData);
        }
        let n32 = read_u32_at(src, 1);
        let n = n32 as usize;
        let ghost nn = spec_u32_at(src@, 1) as int;
        proof {
            lemma_fits_check(nn, len as int);
        }
        if n > (len - 5) / 40 {
            return Err(LedgerError::InvalidData);
        }
        let ghost sfull = decoded_entries(src@, nn);
        let mut entries: Vec<LedgerEntry> = Vec::new();
        let mut i: usize = 0;
        while i < n
            invariant
                i <= n,
                entries@.len() == i as int,
                forall|j: int| 0 <= j < i ==> entries@[j] == sfull[j],
                sorted_by_key(entries@),
            decreases n - i,
        {
            let off = 5 + 40 * i;
            let w0 = read_u64_at(src, off);
            let w1 = read_u64_at(src, off + 8);
            let w2 = read_u64_at(src, off + 16);
            let w3 = read_u64_at(src, off + 24);
            let bal = read_u64_at(src, off + 32);
            let e = LedgerEntry { key: Key { w0, w1, w2, w3 }, balance: bal };
            proof {
                assert(e == sfull[i as int]);
            }
            if i > 0 {
                let prev = entries[i - 1];
                if !prev.key.less_than(&e.key) {
                    proof {
                        assert(!sorted_by_key(sfull)) by {
                            if sorted_by_key(sfull) {
                                assert(key_lt(sfull[i - 1].key, sfull[i as int].key));
                            }
                        }
                    }
                    return Err(LedgerError::InvalidData);
                }
                proof {
                    assert forall|j: int| 0 <= j < i implies key_lt(
                        #[trigger] entries@[j].key,
                        e.key,
                    ) by {
                        if j < i - 1 {
                            assert(key_lt(entries@[j].key, entries@[i - 1].key));
                        }
                    }
                }
            }
            let ghost before = entries@;
            entries.push(e);
            proof {
                assert forall|p: int, q: int| 0 <= p < q < entries@.len() implies key_lt(
                    entries@[p].key,
                    entries@[q].key,
                ) by {
                    if q < i as int {
                        assert(entries@[p] == before[p] && entries@[q] == before[q]);
                    } else {
                        assert(entries@[q] == e && entries@[p] == before[p]);
                    }
                }
            }
            i = i + 1;
        }
        proof {
            assert(entries@ =~= sfull);
        }
        let st = ProgramAccountState { is_initialized: flag == 1, entries };
        proof {
            st.lemma_parts();
        }
        Ok(st)
    }

    /// Tolerant decode, for a storage region that may never have been written:
    /// a buffer whose flag byte is absent or not 1 stands for a genuinely
    /// fresh ledger — uninitialized and empty — while a buffer already marked
    /// initialized must decode strictly, so a corrupt non-empty region is
    /// still rejected with `InvalidData` rather than silently emptied.
    pub fn unpack_unchecked(src: &Vec<u8>) -> (r: Result<ProgramAccountState, LedgerError>)
        ensures
            (src@.len() == 0 || src@[0] != 1) ==> r is Ok,
            (src@.len() == 0 || src@[0] != 1) ==> (r matches Ok(st) ==> !st.inited()
                && st.table() == Seq::<LedgerEntry>::empty()),
            (src@.len() > 0 && src@[0] == 1) ==> (r is Ok <==> spec_decode(src@) is Some),
            (src@.len() > 0 && src@[0] == 1) ==> (r matches Ok(st) ==> spec_decode(src@)
                == Some((st.inited(), st.table()))),
            (r matches Ok(st) ==> st.wf()),
            r is Err ==> r == Err::<ProgramAccountState, LedgerError>(LedgerError::InvalidData),
    {
        if src.len() == 0 || src[0] != 1 {
            Ok(ProgramAccountState::new())
        } else {
            ProgramAccountState::unpack_from_slice(src)
        }
    }
}

} // verus!
