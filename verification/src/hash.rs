//! The DictHash of the preamble: a 64-bit MurmurHash3 of the schema header.
//!
//! The variant is MurmurHash3_x64_128 with seed 0, of which the first 64-bit
//! half (`h1`) is the DictHash.

use vstd::prelude::*;
use crate::decoder::{
    has_schema, le_u64, read_u64, schema_header_bytes, schema_header_end_of, spec_decode,
};

verus! {

pub const C1: u64 = 0x87c3_7b91_1142_53d5;
pub const C2: u64 = 0x4cf5_ad43_2745_937f;

pub open spec fn rotl27(x: u64) -> u64 {
    (x << 27u64) | (x >> 37u64)
}

pub open spec fn rotl31(x: u64) -> u64 {
    (x << 31u64) | (x >> 33u64)
}

pub open spec fn rotl33(x: u64) -> u64 {
    (x << 33u64) | (x >> 31u64)
}

/// The first lane's key mix.
pub open spec fn mix_k1(k: u64) -> u64 {
    rotl31(k.wrapping_mul(C1)).wrapping_mul(C2)
}

/// The second lane's key mix.
pub open spec fn mix_k2(k: u64) -> u64 {
    rotl33(k.wrapping_mul(C2)).wrapping_mul(C1)
}

/// The final avalanche of one lane.
pub open spec fn fmix64(k: u64) -> u64 {
    let a = k ^ (k >> 33u64);
    let b = a.wrapping_mul(0xff51_afd7_ed55_8ccd);
    let c = b ^ (b >> 33u64);
    let e = c.wrapping_mul(0xc4ce_b9fe_1a85_ec53);
    e ^ (e >> 33u64)
}

/// One 16-byte block `(k1, k2)` folded into the state `(h1, h2)`.
pub open spec fn block_step(h: (u64, u64), k1: u64, k2: u64) -> (u64, u64) {
    let a = rotl27(h.0 ^ mix_k1(k1)).wrapping_add(h.1);
    let h1 = a.wrapping_mul(5).wrapping_add(0x52dc_e729);
    let b = rotl31(h.1 ^ mix_k2(k2)).wrapping_add(h1);
    let h2 = b.wrapping_mul(5).wrapping_add(0x3849_5ab5);
    (h1, h2)
}

/// The state after the first `n` whole blocks of `b`.
pub open spec fn hash_blocks(b: Seq<u8>, n: nat) -> (u64, u64)
    decreases n,
{
    if n == 0 {
        (0, 0)
    } else {
        block_step(
            hash_blocks(b, (n - 1) as nat),
            le_u64(b, 16 * (n - 1)) as u64,
            le_u64(b, 16 * (n - 1) + 8) as u64,
        )
    }
}

/// The little-endian value of the `cnt` bytes of `b` from `start`.
pub open spec fn tail_word(b: Seq<u8>, start: int, cnt: int) -> int
    decreases cnt,
{
    if cnt <= 0 {
        0
    } else {
        b[start] + 256 * tail_word(b, start + 1, cnt - 1)
    }
}

pub open spec fn byte_bound(cnt: int) -> int
    decreases cnt,
{
    if cnt <= 0 {
        1
    } else {
        256 * byte_bound(cnt - 1)
    }
}

/// MurmurHash3_x64_128 of `b` with seed 0: the first half `h1`.
pub open spec fn murmur3_h1(b: Seq<u8>) -> u64 {
    let nblocks = b.len() / 16;
    let t: int = (b.len() % 16) as int;
    let base: int = 16 * nblocks as int;
    let h = hash_blocks(b, nblocks);
    let k1 = tail_word(b, base, if t > 8 { 8 } else { t }) as u64;
    let k2 = tail_word(b, base + 8, t - 8) as u64;
    let h2a = if t > 8 { h.1 ^ mix_k2(k2) } else { h.1 };
    let h1a = if t > 0 { h.0 ^ mix_k1(k1) } else { h.0 };
    let len = b.len() as u64;
    let h1b = h1a ^ len;
    let h2b = h2a ^ len;
    let h1c = h1b.wrapping_add(h2b);
    let h2c = h2b.wrapping_add(h1c);
    fmix64(h1c).wrapping_add(fmix64(h2c))
}

proof fn lemma_tail_word_bound(b: Seq<u8>, start: int, cnt: int)
    requires
        0 <= start,
        start + cnt <= b.len(),
    ensures
        0 <= tail_word(b, start, cnt) < byte_bound(cnt),
    decreases cnt,
{
    if cnt > 0 {
        lemma_tail_word_bound(b, start + 1, cnt - 1);
    }
}

fn fmix64_exec(k: u64) -> (r: u64)
    ensures
        r == fmix64(k),
{
    let a = k ^ (k >> 33u64);
    let b = a.wrapping_mul(0xff51_afd7_ed55_8ccd);
    let c = b ^ (b >> 33u64);
    let e = c.wrapping_mul(0xc4ce_b9fe_1a85_ec53);
    e ^ (e >> 33u64)
}

fn mix_k1_exec(k: u64) -> (r: u64)
    ensures
        r == mix_k1(k),
{
    let a = k.wrapping_mul(C1);
    ((a << 31u64) | (a >> 33u64)).wrapping_mul(C2)
}

fn mix_k2_exec(k: u64) -> (r: u64)
    ensures
        r == mix_k2(k),
{
    let a = k.wrapping_mul(C2);
    ((a << 33u64) | (a >> 31u64)).wrapping_mul(C1)
}

/// The little-endian value of `cnt` (at most eight) bytes from `start`.
fn read_tail_word(b: &[u8], start: usize, cnt: usize) -> (r: u64)
    requires
        cnt <= 8,
        start + cnt <= b@.len(),
        b@.len() <= isize::MAX,
    ensures
        r as int == tail_word(b@, start as int, cnt as int),
{
    let mut k: u64 = 0;
    let mut j: usize = cnt;
    proof {
        reveal_with_fuel(byte_bound, 9);
    }
    assert(byte_bound(0) == 1);
    while j > 0
        invariant
            j <= cnt <= 8,
            start + cnt <= b@.len(),
            b@.len() <= isize::MAX,
            k as int == tail_word(b@, start + j, cnt - j),
            k < byte_bound(cnt - j),
            byte_bound(7) == 0x100_0000_0000_0000,
            forall|m: int| 0 <= m < 8 ==> #[trigger] byte_bound(m + 1) == 256 * byte_bound(m),
            forall|m: int| 0 <= m <= 7 ==> #[trigger] byte_bound(m) <= byte_bound(7),
        decreases j,
    {
        assert(byte_bound(cnt - j) <= 0x100_0000_0000_0000);
        let byte = b[start + j - 1];
        assert(k < 0x100_0000_0000_0000);
        assert(k * 256 + 255 < 0x1_0000_0000_0000_0000) by (nonlinear_arith)
            requires
                k < 0x100_0000_0000_0000,
        ;
        k = k * 256 + byte as u64;
        j = j - 1;
        assert(byte_bound(cnt - j) == 256 * byte_bound(cnt - j - 1));
    }
    k
}

/// MurmurHash3_x64_128 with seed 0 of `b`, first half: the DictHash of a
/// schema header whose bytes are `b`.
pub fn murmur3_64(b: &[u8]) -> (h: u64)
    requires
        b@.len() <= isize::MAX,
    ensures
        h == murmur3_h1(b@),
{
    let len = b.len();
    let nblocks = len / 16;
    let mut h1: u64 = 0;
    let mut h2: u64 = 0;
    let mut i: usize = 0;
    while i < nblocks
        invariant
            nblocks == b@.len() / 16,
            len == b@.len(),
            i <= nblocks,
            (h1, h2) == hash_blocks(b@, i as nat),
        decreases nblocks - i,
    {
        let k1 = read_u64(b, 16 * i);
        let k2 = read_u64(b, 16 * i + 8);
        let a = ((h1 ^ mix_k1_exec(k1)) << 27u64) | ((h1 ^ mix_k1_exec(k1)) >> 37u64);
        let n1 = a.wrapping_add(h2).wrapping_mul(5).wrapping_add(0x52dc_e729);
        let c = ((h2 ^ mix_k2_exec(k2)) << 31u64) | ((h2 ^ mix_k2_exec(k2)) >> 33u64);
        let n2 = c.wrapping_add(n1).wrapping_mul(5).wrapping_add(0x3849_5ab5);
        h1 = n1;
        h2 = n2;
        i = i + 1;
    }
    let t = len % 16;
    let base = 16 * nblocks;
    if t > 8 {
        proof {
            lemma_tail_word_bound(b@, base + 8, t - 8);
        }
        let k2 = read_tail_word(b, base + 8, t - 8);
        h2 = h2 ^ mix_k2_exec(k2);
    }
    if t > 0 {
        let c1 = if t > 8 {
            8
        } else {
            t
        };
        let k1 = read_tail_word(b, base, c1);
        h1 = h1 ^ mix_k1_exec(k1);
    }
    let l = len as u64;
    h1 = h1 ^ l;
    h2 = h2 ^ l;
    h1 = h1.wrapping_add(h2);
    h2 = h2.wrapping_add(h1);
    fmix64_exec(h1).wrapping_add(fmix64_exec(h2))
}

/// The final partial block of `b` (its last `b.len() % 16` bytes), padded
/// with zero bytes to sixteen.
pub open spec fn padded_tail(b: Seq<u8>) -> Seq<u8> {
    Seq::new(
        16,
        |i: int|
            if 16 * (b.len() / 16) + i < b.len() {
                b[16 * (b.len() / 16) + i]
            } else {
                0u8
            },
    )
}

proof fn lemma_tail_word_pad(b: Seq<u8>, start: int, c: int, p: Seq<u8>, off: int, m: int)
    requires
        0 <= c <= m,
        forall|i: int| 0 <= i < c ==> #[trigger] p[off + i] == b[start + i],
        forall|i: int| c <= i < m ==> #[trigger] p[off + i] == 0,
    ensures
        tail_word(b, start, c) == tail_word(p, off, m),
    decreases m,
{
    if m > 0 {
        if c > 0 {
            assert(p[off + 0] == b[start + 0]);
            assert forall|i: int| 0 <= i < c - 1 implies #[trigger] p[off + 1 + i] == b[start + 1 + i] by {
                assert(p[off + (i + 1)] == b[start + (i + 1)]);
            }
            assert forall|i: int| c - 1 <= i < m - 1 implies #[trigger] p[off + 1 + i] == 0 by {
                assert(p[off + (i + 1)] == 0);
            }
            lemma_tail_word_pad(b, start + 1, c - 1, p, off + 1, m - 1);
        } else {
            assert(p[off + 0] == 0);
            assert forall|i: int| 0 <= i < m - 1 implies #[trigger] p[off + 1 + i] == 0 by {
                assert(p[off + (i + 1)] == 0);
            }
            lemma_tail_word_pad(b, start, 0, p, off + 1, m - 1);
        }
    }
}

proof fn lemma_le_u64_is_tail_word(p: Seq<u8>, off: int)
    requires
        0 <= off,
        off + 8 <= p.len(),
    ensures
        le_u64(p, off) == tail_word(p, off, 8),
{
    reveal_with_fuel(tail_word, 9);
}

/// The tail of the input is hashed as its final partial block padded with
/// zero bytes to sixteen: bytes 0..8 of that block are the first tail word
/// and bytes 8..16 the second, so every byte of the input, the last ones of a
/// partial block included, is mixed into the DictHash.
pub proof fn lemma_murmur3_tail_block(b: Seq<u8>)
    ensures
        murmur3_h1(b) == ({
            let h = hash_blocks(b, b.len() / 16);
            let p = padded_tail(b);
            let h1a = h.0 ^ mix_k1(le_u64(p, 0) as u64);
            let h2a = h.1 ^ mix_k2(le_u64(p, 8) as u64);
            let len = b.len() as u64;
            let h1c = (h1a ^ len).wrapping_add(h2a ^ len);
            let h2c = (h2a ^ len).wrapping_add(h1c);
            fmix64(h1c).wrapping_add(fmix64(h2c))
        }),
{
    let n = b.len() / 16;
    let t: int = (b.len() % 16) as int;
    let base: int = 16 * n as int;
    let p = padded_tail(b);
    assert(base + t == b.len());
    let c1: int = if t > 8 { 8 } else { t };
    let c2: int = if t > 8 { t - 8 } else { 0 };
    lemma_tail_word_pad(b, base, c1, p, 0, 8);
    lemma_tail_word_pad(b, base + 8, c2, p, 8, 8);
    lemma_le_u64_is_tail_word(p, 0);
    lemma_le_u64_is_tail_word(p, 8);
    assert(mix_k1(0) == 0 && mix_k2(0) == 0) by {
        assert(0u64.wrapping_mul(C1) == 0u64);
        assert(0u64.wrapping_mul(C2) == 0u64);
        assert(((0u64 << 31u64) | (0u64 >> 33u64)) == 0u64) by (bit_vector);
        assert(((0u64 << 33u64) | (0u64 >> 31u64)) == 0u64) by (bit_vector);
    }
    assert(forall|x: u64| x ^ 0u64 == x) by (bit_vector);
}

/// Whether the preamble's DictHash is the hash of the schema header:
/// `None` when the file has no schema header to hash.
pub open spec fn dict_hash_check(d: Seq<u8>) -> Option<bool> {
    if has_schema(d) {
        Some(murmur3_h1(schema_header_bytes(d)) as int == le_u64(d, 8))
    } else {
        None
    }
}

/// Recomputes the DictHash of a file that decodes and compares it with the
/// one in its preamble.
pub fn check_dict_hash(data: &[u8]) -> (r: Option<bool>)
    requires
        data@.len() <= isize::MAX,
        spec_decode(data@) is Ok,
    ensures
        r == dict_hash_check(data@),
{
    let len = data.len();
    let flags = crate::decoder::read_u16(data, 6);
    if !((flags / 2) % 2 == 1 && 32 < len) {
        return None;
    }
    let end = schema_header_end_of(data);
    let header = &data[32..end];
    assert(header@ =~= schema_header_bytes(data@));
    let h = murmur3_64(header);
    let stored = read_u64(data, 8);
    Some(h == stored)
}

} // verus!
