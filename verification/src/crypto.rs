//! SHA-256 (FIPS 180-4) and unkeyed BLAKE2b (RFC 7693), written out in
//! full so that they work the same on the host and on the device.

use vstd::prelude::*;

verus! {

// ---------------------------------------------------------------------------
// SHA-256
// ---------------------------------------------------------------------------

/// The SHA-256 round constants.
pub const SHA256_K: [u32; 64] = [
    0x428a2f98u32, 0x71374491, 0xb5c0fbcf, 0xe9b5dba5,
    0x3956c25b, 0x59f111f1, 0x923f82a4, 0xab1c5ed5,
    0xd807aa98, 0x12835b01, 0x243185be, 0x550c7dc3,
    0x72be5d74, 0x80deb1fe, 0x9bdc06a7, 0xc19bf174,
    0xe49b69c1, 0xefbe4786, 0x0fc19dc6, 0x240ca1cc,
    0x2de92c6f, 0x4a7484aa, 0x5cb0a9dc, 0x76f988da,
    0x983e5152, 0xa831c66d, 0xb00327c8, 0xbf597fc7,
    0xc6e00bf3, 0xd5a79147, 0x06ca6351, 0x14292967,
    0x27b70a85, 0x2e1b2138, 0x4d2c6dfc, 0x53380d13,
    0x650a7354, 0x766a0abb, 0x81c2c92e, 0x92722c85,
    0xa2bfe8a1, 0xa81a664b, 0xc24b8b70, 0xc76c51a3,
    0xd192e819, 0xd6990624, 0xf40e3585, 0x106aa070,
    0x19a4c116, 0x1e376c08, 0x2748774c, 0x34b0bcb5,
    0x391c0cb3, 0x4ed8aa4a, 0x5b9cca4f, 0x682e6ff3,
    0x748f82ee, 0x78a5636f, 0x84c87814, 0x8cc70208,
    0x90befffa, 0xa4506ceb, 0xbef9a3f7, 0xc67178f2,
];

/// The SHA-256 initial hash value.
pub const SHA256_H0: [u32; 8] = [
    0x6a09e667u32, 0xbb67ae85, 0x3c6ef372, 0xa54ff53a,
    0x510e527f, 0x9b05688c, 0x1f83d9ab, 0x5be0cd19,
];

pub open spec fn ch(x: u32, y: u32, z: u32) -> u32 {
    (x & y) ^ (!x & z)
}

pub open spec fn maj(x: u32, y: u32, z: u32) -> u32 {
    (x & y) ^ (x & z) ^ (y & z)
}

/// Σ0: rotations right by 2, 13 and 22.
pub open spec fn big_sigma0(x: u32) -> u32 {
    ((x >> 2u32) | (x << 30u32)) ^ ((x >> 13u32) | (x << 19u32)) ^ ((x >> 22u32) | (x << 10u32))
}

/// Σ1: rotations right by 6, 11 and 25.
pub open spec fn big_sigma1(x: u32) -> u32 {
    ((x >> 6u32) | (x << 26u32)) ^ ((x >> 11u32) | (x << 21u32)) ^ ((x >> 25u32) | (x << 7u32))
}

/// σ0: rotations right by 7 and 18, shift right by 3.
pub open spec fn small_sigma0(x: u32) -> u32 {
    ((x >> 7u32) | (x << 25u32)) ^ ((x >> 18u32) | (x << 14u32)) ^ (x >> 3u32)
}

/// σ1: rotations right by 17 and 19, shift right by 10.
pub open spec fn small_sigma1(x: u32) -> u32 {
    ((x >> 17u32) | (x << 15u32)) ^ ((x >> 19u32) | (x << 13u32)) ^ (x >> 10u32)
}

fn ch_exec(x: u32, y: u32, z: u32) -> (r: u32)
    ensures
        r == ch(x, y, z),
{
    (x & y) ^ (!x & z)
}

fn maj_exec(x: u32, y: u32, z: u32) -> (r: u32)
    ensures
        r == maj(x, y, z),
{
    (x & y) ^ (x & z) ^ (y & z)
}

fn big_sigma0_exec(x: u32) -> (r: u32)
    ensures
        r == big_sigma0(x),
{
    ((x >> 2u32) | (x << 30u32)) ^ ((x >> 13u32) | (x << 19u32)) ^ ((x >> 22u32) | (x << 10u32))
}

fn big_sigma1_exec(x: u32) -> (r: u32)
    ensures
        r == big_sigma1(x),
{
    ((x >> 6u32) | (x << 26u32)) ^ ((x >> 11u32) | (x << 21u32)) ^ ((x >> 25u32) | (x << 7u32))
}

fn small_sigma0_exec(x: u32) -> (r: u32)
    ensures
        r == small_sigma0(x),
{
    ((x >> 7u32) | (x << 25u32)) ^ ((x >> 18u32) | (x << 14u32)) ^ (x >> 3u32)
}

fn small_sigma1_exec(x: u32) -> (r: u32)
    ensures
        r == small_sigma1(x),
{
    ((x >> 17u32) | (x << 15u32)) ^ ((x >> 19u32) | (x << 13u32)) ^ (x >> 10u32)
}

/// The big-endian word at byte `i` of `b`.
pub open spec fn be_word(b: Seq<u8>, i: int) -> u32 {
    ((b[i] as u32) << 24u32) | ((b[i + 1] as u32) << 16u32) | ((b[i + 2] as u32) << 8u32) | (
    b[i + 3] as u32)
}

/// Word `t` of the message schedule of a 64-byte block.
pub open spec fn sched(block: Seq<u8>, t: int) -> u32
    decreases t,
{
    if t < 16 {
        be_word(block, 4 * t)
    } else {
        small_sigma1(sched(block, t - 2)).wrapping_add(sched(block, t - 7)).wrapping_add(
            small_sigma0(sched(block, t - 15)),
        ).wrapping_add(sched(block, t - 16))
    }
}

/// Round `t` applied to the working variables `s` (a..h) with schedule word `w`.
pub open spec fn sha_round(s: Seq<u32>, t: int, w: u32) -> Seq<u32> {
    let t1 = s[7].wrapping_add(big_sigma1(s[4])).wrapping_add(ch(s[4], s[5], s[6])).wrapping_add(
        SHA256_K@[t],
    ).wrapping_add(w);
    let t2 = big_sigma0(s[0]).wrapping_add(maj(s[0], s[1], s[2]));
    seq![t1.wrapping_add(t2), s[0], s[1], s[2], s[3].wrapping_add(t1), s[4], s[5], s[6]]
}

/// The working variables after the first `t` rounds on a block.
pub open spec fn sha_rounds(h: Seq<u32>, block: Seq<u8>, t: int) -> Seq<u32>
    decreases t,
{
    if t <= 0 {
        h
    } else {
        sha_round(sha_rounds(h, block, t - 1), t - 1, sched(block, t - 1))
    }
}

/// The hash value after compressing one 64-byte block into `h`.
pub open spec fn sha_compress(h: Seq<u32>, block: Seq<u8>) -> Seq<u32> {
    let v = sha_rounds(h, block, 64);
    Seq::new(8, |i: int| h[i].wrapping_add(v[i]))
}

/// The eight big-endian bytes of a 64-bit value.
pub open spec fn be_bytes64(v: u64) -> Seq<u8> {
    seq![
        (v >> 56u64) as u8,
        (v >> 48u64) as u8,
        (v >> 40u64) as u8,
        (v >> 32u64) as u8,
        (v >> 24u64) as u8,
        (v >> 16u64) as u8,
        (v >> 8u64) as u8,
        v as u8
    ]
}

/// The four big-endian bytes of a 32-bit value.
pub open spec fn be_bytes32(v: u32) -> Seq<u8> {
    seq![(v >> 24u32) as u8, (v >> 16u32) as u8, (v >> 8u32) as u8, v as u8]
}

/// The number of zero bytes that pad a message of `n` bytes.
pub open spec fn sha_zero_pad(n: nat) -> nat {
    let r = n % 64;
    if r < 56 {
        (55 - r) as nat
    } else {
        (119 - r) as nat
    }
}

/// The padded message: the data, a `0x80` byte, zeros, and the bit length
/// as a big-endian 64-bit number, a multiple of 64 bytes in all.
pub open spec fn sha_pad(data: Seq<u8>) -> Seq<u8> {
    data + seq![0x80u8] + Seq::new(sha_zero_pad(data.len()), |i: int| 0u8) + be_bytes64(
        (data.len() * 8) as u64,
    )
}

/// The hash value after the first `n` blocks of `m`.
pub open spec fn sha_blocks(m: Seq<u8>, n: nat) -> Seq<u32>
    decreases n,
{
    if n == 0 {
        SHA256_H0@
    } else {
        sha_compress(sha_blocks(m, (n - 1) as nat), m.subrange(64 * (n - 1), (64 * n) as int))
    }
}

/// The bytes of a hash value, each word big-endian.
pub open spec fn words_be(h: Seq<u32>) -> Seq<u8> {
    Seq::new(32, |i: int| be_bytes32(h[i / 4])[i % 4])
}

/// The SHA-256 digest of `data`.
pub open spec fn sha256_spec(data: Seq<u8>) -> Seq<u8> {
    let m = sha_pad(data);
    words_be(sha_blocks(m, m.len() / 64))
}

/// Compress one 64-byte block into the hash value `state`.
fn sha_compress_exec(state: &mut Vec<u32>, block: &[u8])
    requires
        old(state)@.len() == 8,
        block@.len() == 64,
    ensures
        final(state)@ == sha_compress(old(state)@, block@),
{
    let mut w: Vec<u32> = Vec::new();
    let mut t: usize = 0;
    while t < 16
        invariant
            block@.len() == 64,
            t <= 16,
            w@.len() == t,
            forall|j: int| 0 <= j < t ==> w@[j] == sched(block@, j),
        decreases 16 - t,
    {
        let word = ((block[4 * t] as u32) << 24u32) | ((block[4 * t + 1] as u32) << 16u32) | ((block[4
            * t + 2] as u32) << 8u32) | (block[4 * t + 3] as u32);
        w.push(word);
        t = t + 1;
    }
    while t < 64
        invariant
            block@.len() == 64,
            16 <= t <= 64,
            w@.len() == t,
            forall|j: int| 0 <= j < t ==> w@[j] == sched(block@, j),
        decreases 64 - t,
    {
        let word = small_sigma1_exec(w[t - 2]).wrapping_add(w[t - 7]).wrapping_add(
            small_sigma0_exec(w[t - 15]),
        ).wrapping_add(w[t - 16]);
        w.push(word);
        t = t + 1;
    }
    let ghost h0 = state@;
    let mut a = state[0];
    let mut b = state[1];
    let mut c = state[2];
    let mut d = state[3];
    let mut e = state[4];
    let mut f = state[5];
    let mut g = state[6];
    let mut h = state[7];
    proof {
        assert(seq![a, b, c, d, e, f, g, h] =~= sha_rounds(h0, block@, 0));
    }
    let mut i: usize = 0;
    while i < 64
        invariant
            w@.len() == 64,
            forall|j: int| 0 <= j < 64 ==> w@[j] == sched(block@, j),
            i <= 64,
            seq![a, b, c, d, e, f, g, h] == sha_rounds(h0, block@, i as int),
        decreases 64 - i,
    {
        let t1 = h.wrapping_add(big_sigma1_exec(e)).wrapping_add(ch_exec(e, f, g)).wrapping_add(
            SHA256_K[i],
        ).wrapping_add(w[i]);
        let t2 = big_sigma0_exec(a).wrapping_add(maj_exec(a, b, c));
        let ghost prev = seq![a, b, c, d, e, f, g, h];
        h = g;
        g = f;
        f = e;
        e = d.wrapping_add(t1);
        d = c;
        c = b;
        b = a;
        a = t1.wrapping_add(t2);
        proof {
            assert(seq![a, b, c, d, e, f, g, h] =~= sha_round(prev, i as int, sched(block@, i as int)));
        }
        i = i + 1;
    }
    let ghost v = seq![a, b, c, d, e, f, g, h];
    state.set(0, state[0].wrapping_add(a));
    state.set(1, state[1].wrapping_add(b));
    state.set(2, state[2].wrapping_add(c));
    state.set(3, state[3].wrapping_add(d));
    state.set(4, state[4].wrapping_add(e));
    state.set(5, state[5].wrapping_add(f));
    state.set(6, state[6].wrapping_add(g));
    state.set(7, state[7].wrapping_add(h));
    proof {
        assert(state@ =~= Seq::new(8, |k: int| h0[k].wrapping_add(v[k])));
    }
}

/// The digest bytes of a hash value.
fn words_to_bytes(h: &Vec<u32>) -> (r: [u8; 32])
    requires
        h@.len() == 8,
    ensures
        r@ == words_be(h@),
{
    let mut out = [0u8; 32];
    let mut i: usize = 0;
    while i < 8
        invariant
            h@.len() == 8,
            i <= 8,
            out@.len() == 32,
            forall|j: int| 0 <= j < 4 * i ==> out@[j] == #[trigger] be_bytes32(h@[j / 4])[j % 4],
        decreases 8 - i,
    {
        let w = h[i];
        out[4 * i] = #[verifier::truncate] ((w >> 24u32) as u8);
        out[4 * i + 1] = #[verifier::truncate] ((w >> 16u32) as u8);
        out[4 * i + 2] = #[verifier::truncate] ((w >> 8u32) as u8);
        out[4 * i + 3] = #[verifier::truncate] (w as u8);
        proof {
            assert forall|j: int| 0 <= j < 4 * (i + 1) implies out@[j] == #[trigger] be_bytes32(
                h@[j / 4],
            )[j % 4] by {
                if j >= 4 * i {
                    assert(j / 4 == i);
                }
            }
        }
        i = i + 1;
    }
    proof {
        assert(out@ =~= words_be(h@));
    }
    out
}

/// The padded tail of a message: the bytes of `sha_pad(data)` from `offset`,
/// where fewer than 64 bytes of data are left; one or two blocks.
fn sha_tail(data: &[u8], offset: usize, nb: Ghost<nat>) -> (buf: Vec<u8>)
    requires
        offset <= data@.len(),
        data@.len() - offset < 64,
        offset == 64 * nb@,
        data@.len() * 8 <= u64::MAX,
    ensures
        buf@ == sha_pad(data@).subrange(offset as int, sha_pad(data@).len() as int),
        buf@.len() == 64 || buf@.len() == 128,
{
    let ghost m = sha_pad(data@);
    let n = data.len();
    let remaining = n - offset;
    proof {
        assert(n % 64 == remaining) by (nonlinear_arith)
            requires
                n == 64 * nb@ + remaining,
                remaining < 64,
        ;
    }
    let zeros: usize = if remaining < 56 {
        55 - remaining
    } else {
        119 - remaining
    };
    let bit_len = (n as u64) * 8;
    let mut buf: Vec<u8> = Vec::new();
    let mut i: usize = 0;
    while i < remaining
        invariant
            n == data@.len(),
            offset + remaining == n,
            i <= remaining,
            buf@ == data@.subrange(offset as int, offset + i),
        decreases remaining - i,
    {
        buf.push(data[offset + i]);
        proof {
            assert(data@.subrange(offset as int, offset + i + 1) =~= data@.subrange(
                offset as int,
                offset + i,
            ).push(data@[offset + i]));
        }
        i = i + 1;
    }
    buf.push(0x80u8);
    let ghost with_mark = buf@;
    let mut z: usize = 0;
    while z < zeros
        invariant
            z <= zeros,
            buf@ == with_mark + Seq::new(z as nat, |q: int| 0u8),
        decreases zeros - z,
    {
        buf.push(0u8);
        proof {
            assert(buf@ =~= with_mark + Seq::new((z + 1) as nat, |q: int| 0u8));
        }
        z = z + 1;
    }
    let ghost with_zeros = buf@;
    buf.push(#[verifier::truncate] ((bit_len >> 56u64) as u8));
    buf.push(#[verifier::truncate] ((bit_len >> 48u64) as u8));
    buf.push(#[verifier::truncate] ((bit_len >> 40u64) as u8));
    buf.push(#[verifier::truncate] ((bit_len >> 32u64) as u8));
    buf.push(#[verifier::truncate] ((bit_len >> 24u64) as u8));
    buf.push(#[verifier::truncate] ((bit_len >> 16u64) as u8));
    buf.push(#[verifier::truncate] ((bit_len >> 8u64) as u8));
    buf.push(#[verifier::truncate] (bit_len as u8));
    proof {
        assert(buf@ =~= with_zeros + be_bytes64(bit_len));
        assert(bit_len == (data@.len() * 8) as u64);
        assert(with_zeros =~= data@.subrange(offset as int, n as int) + seq![0x80u8] + Seq::new(
            sha_zero_pad(n as nat),
            |q: int| 0u8,
        ));
        assert(buf@ =~= m.subrange(offset as int, m.len() as int));
    }
    buf
}

/// Compute the SHA-256 digest of `data`, returning 32 bytes.
pub fn sha256(data: &[u8]) -> (r: [u8; 32])
    requires
        data@.len() * 8 <= u64::MAX,
    ensures
        r@ == sha256_spec(data@),
{
    let ghost m = sha_pad(data@);
    let mut state: Vec<u32> = Vec::new();
    let mut k: usize = 0;
    while k < 8
        invariant
            k <= 8,
            state@ == SHA256_H0@.subrange(0, k as int),
        decreases 8 - k,
    {
        state.push(SHA256_H0[k]);
        proof {
            assert(SHA256_H0@.subrange(0, k + 1) =~= SHA256_H0@.subrange(0, k as int).push(
                SHA256_H0@[k as int],
            ));
        }
        k = k + 1;
    }
    proof {
        assert(SHA256_H0@.subrange(0, 8) =~= SHA256_H0@);
    }
    let n = data.len();
    let mut offset: usize = 0;
    let ghost mut nb: nat = 0;
    while n - offset >= 64
        invariant
            n == data@.len(),
            m == sha_pad(data@),
            m.len() > n,
            offset == 64 * nb,
            offset <= n,
            state@.len() == 8,
            state@ == sha_blocks(m, nb),
        decreases n - offset,
    {
        let block = &data[offset..offset + 64];
        proof {
            assert(block@ =~= m.subrange((64 * nb) as int, (64 * (nb + 1)) as int));
        }
        sha_compress_exec(&mut state, block);
        offset = offset + 64;
        proof {
            nb = nb + 1;
        }
    }
    let buf = sha_tail(data, offset, Ghost(nb));
    let first = &buf[0..64];
    proof {
        assert(first@ =~= m.subrange((64 * nb) as int, (64 * (nb + 1)) as int));
        nb = nb + 1;
    }
    sha_compress_exec(&mut state, first);
    assert(state@ == sha_blocks(m, nb));
    if buf.len() == 128 {
        let second = &buf[64..128];
        proof {
            assert(second@ =~= m.subrange((64 * nb) as int, (64 * (nb + 1)) as int));
            nb = nb + 1;
        }
        sha_compress_exec(&mut state, second);
        assert(state@ == sha_blocks(m, nb));
    }
    assert(state@ == sha_blocks(m, nb));
    proof {
        assert(m.len() == 64 * nb);
        assert(m.len() / 64 == nb);
    }
    words_to_bytes(&state)
}


// ---------------------------------------------------------------------------
// BLAKE2b
// ---------------------------------------------------------------------------

/// The BLAKE2b initialisation vector.
pub const BLAKE2B_IV: [u64; 8] = [
    0x6a09e667f3bcc908u64, 0xbb67ae8584caa73b,
    0x3c6ef372fe94f82b, 0xa54ff53a5f1d36f1,
    0x510e527fade682d1, 0x9b05688c2b3e6c1f,
    0x1f83d9abfb41bd6b, 0x5be0cd19137e2179,
];

/// The BLAKE2b message word permutations, one row of 16 per round (rows repeat after 10).
pub const BLAKE2B_SIGMA: [usize; 160] = [
    0usize, 1, 2, 3, 4, 5, 6, 7, 8, 9, 10, 11, 12, 13, 14, 15,
    14, 10, 4, 8, 9, 15, 13, 6, 1, 12, 0, 2, 11, 7, 5, 3,
    11, 8, 12, 0, 5, 2, 15, 13, 10, 14, 3, 6, 7, 1, 9, 4,
    7, 9, 3, 1, 13, 12, 11, 14, 2, 6, 5, 10, 4, 0, 15, 8,
    9, 0, 5, 7, 2, 4, 10, 15, 14, 1, 11, 12, 6, 8, 3, 13,
    2, 12, 6, 10, 0, 11, 8, 3, 4, 13, 7, 5, 15, 14, 1, 9,
    12, 5, 1, 15, 14, 13, 4, 10, 0, 7, 6, 3, 9, 2, 8, 11,
    13, 11, 7, 14, 12, 1, 3, 9, 5, 0, 15, 4, 8, 6, 2, 10,
    6, 15, 14, 9, 11, 3, 0, 8, 12, 2, 13, 7, 1, 4, 10, 5,
    10, 2, 8, 4, 7, 6, 1, 5, 15, 11, 9, 14, 3, 12, 13, 0,
];

/// Every entry of the permutation table names one of the 16 message words.
pub proof fn lemma_sigma_in_range()
    ensures
        forall|k: int| 0 <= k < 160 ==> BLAKE2B_SIGMA@[k] < 16,
{
}


pub open spec fn rotr32(x: u64) -> u64 {
    (x >> 32u64) | (x << 32u64)
}

pub open spec fn rotr24(x: u64) -> u64 {
    (x >> 24u64) | (x << 40u64)
}

pub open spec fn rotr16(x: u64) -> u64 {
    (x >> 16u64) | (x << 48u64)
}

pub open spec fn rotr63(x: u64) -> u64 {
    (x >> 63u64) | (x << 1u64)
}

/// The mixing function G on words `a`, `b`, `c`, `d` of `v` with message words `x`, `y`.
pub open spec fn b2_g(v: Seq<u64>, a: int, b: int, c: int, d: int, x: u64, y: u64) -> Seq<u64> {
    let v1 = v.update(a, v[a].wrapping_add(v[b]).wrapping_add(x));
    let v2 = v1.update(d, rotr32(v1[d] ^ v1[a]));
    let v3 = v2.update(c, v2[c].wrapping_add(v2[d]));
    let v4 = v3.update(b, rotr24(v3[b] ^ v3[c]));
    let v5 = v4.update(a, v4[a].wrapping_add(v4[b]).wrapping_add(y));
    let v6 = v5.update(d, rotr16(v5[d] ^ v5[a]));
    let v7 = v6.update(c, v6[c].wrapping_add(v6[d]));
    v7.update(b, rotr63(v7[b] ^ v7[c]))
}

/// Entry `j` of the permutation of round `r`.
pub open spec fn sigma(r: int, j: int) -> int {
    BLAKE2B_SIGMA@[16 * (r % 10) + j] as int
}

/// Round `r` of the compression on the work vector `v` with message words `m`.
pub open spec fn b2_round(v: Seq<u64>, m: Seq<u64>, r: int) -> Seq<u64> {
    let v = b2_g(v, 0, 4, 8, 12, m[sigma(r, 0)], m[sigma(r, 1)]);
    let v = b2_g(v, 1, 5, 9, 13, m[sigma(r, 2)], m[sigma(r, 3)]);
    let v = b2_g(v, 2, 6, 10, 14, m[sigma(r, 4)], m[sigma(r, 5)]);
    let v = b2_g(v, 3, 7, 11, 15, m[sigma(r, 6)], m[sigma(r, 7)]);
    let v = b2_g(v, 0, 5, 10, 15, m[sigma(r, 8)], m[sigma(r, 9)]);
    let v = b2_g(v, 1, 6, 11, 12, m[sigma(r, 10)], m[sigma(r, 11)]);
    let v = b2_g(v, 2, 7, 8, 13, m[sigma(r, 12)], m[sigma(r, 13)]);
    b2_g(v, 3, 4, 9, 14, m[sigma(r, 14)], m[sigma(r, 15)])
}

/// The work vector after the first `r` rounds.
pub open spec fn b2_rounds(v: Seq<u64>, m: Seq<u64>, r: int) -> Seq<u64>
    decreases r,
{
    if r <= 0 {
        v
    } else {
        b2_round(b2_rounds(v, m, r - 1), m, r - 1)
    }
}

/// The little-endian word at byte `i` of `b`.
pub open spec fn le_word64(b: Seq<u8>, i: int) -> u64 {
    (b[i] as u64) | ((b[i + 1] as u64) << 8u64) | ((b[i + 2] as u64) << 16u64) | ((b[i + 3] as u64)
        << 24u64) | ((b[i + 4] as u64) << 32u64) | ((b[i + 5] as u64) << 40u64) | ((b[i + 6] as u64)
        << 48u64) | ((b[i + 7] as u64) << 56u64)
}

/// The work vector at the start of a compression: the hash value, the IV,
/// the byte counter folded into words 12 and 13, and word 14 inverted for
/// the last block.
pub open spec fn b2_init_v(h: Seq<u64>, t: u128, last: bool) -> Seq<u64> {
    let v = h + BLAKE2B_IV@;
    let v = v.update(12, v[12] ^ (t as u64));
    let v = v.update(13, v[13] ^ ((t >> 64u128) as u64));
    if last {
        v.update(14, v[14] ^ 0xFFFF_FFFF_FFFF_FFFFu64)
    } else {
        v
    }
}

/// The hash value after compressing a 128-byte block with byte counter `t`.
pub open spec fn b2_compress(h: Seq<u64>, block: Seq<u8>, t: u128, last: bool) -> Seq<u64> {
    let m = Seq::new(16, |i: int| le_word64(block, 8 * i));
    let v = b2_rounds(b2_init_v(h, t, last), m, 12);
    Seq::new(8, |i: int| h[i] ^ v[i] ^ v[i + 8])
}

/// The number of blocks compressed before the last one (which may be full).
pub open spec fn b2_full_blocks(n: nat) -> nat {
    if n > 128 {
        ((n - 1) / 128) as nat
    } else {
        0
    }
}

/// The parameter block folded into the IV: digest length `nn`, no key, fanout and depth 1.
pub open spec fn b2_param_h(nn: nat) -> Seq<u64> {
    BLAKE2B_IV@.update(0, BLAKE2B_IV@[0] ^ (0x01010000u64 ^ (nn as u64)))
}

/// The hash value after the first `k` blocks of `data`.
pub open spec fn b2_blocks(h0: Seq<u64>, data: Seq<u8>, k: nat) -> Seq<u64>
    decreases k,
{
    if k == 0 {
        h0
    } else {
        b2_compress(
            b2_blocks(h0, data, (k - 1) as nat),
            data.subrange(128 * (k - 1), (128 * k) as int),
            (128 * k) as u128,
            false,
        )
    }
}

/// The final hash value for `data` with digest length `nn`.
pub open spec fn b2_hash(data: Seq<u8>, nn: nat) -> Seq<u64> {
    let k = b2_full_blocks(data.len());
    let h = b2_blocks(b2_param_h(nn), data, k);
    let rest = data.subrange((128 * k) as int, data.len() as int);
    let last = rest + Seq::new((128 - rest.len()) as nat, |i: int| 0u8);
    b2_compress(h, last, data.len() as u128, true)
}

/// The 64 bytes of a hash value, each word little-endian.
pub open spec fn le_bytes_of(h: Seq<u64>) -> Seq<u8> {
    Seq::new(64, |i: int| (h[i / 8] >> ((8 * (i % 8)) as u64)) as u8)
}

/// The BLAKE2b digest of `data` with `nn` bytes of output (no key).
pub open spec fn blake2b_spec(data: Seq<u8>, nn: nat) -> Seq<u8> {
    le_bytes_of(b2_hash(data, nn)).take(nn as int)
}

fn b2_g_exec(v: &mut Vec<u64>, a: usize, b: usize, c: usize, d: usize, x: u64, y: u64)
    requires
        old(v)@.len() == 16,
        a < 16,
        b < 16,
        c < 16,
        d < 16,
    ensures
        final(v)@ == b2_g(old(v)@, a as int, b as int, c as int, d as int, x, y),
{
    let va = v[a].wrapping_add(v[b]).wrapping_add(x);
    v.set(a, va);
    let t = v[d] ^ v[a];
    v.set(d, (t >> 32u64) | (t << 32u64));
    let vc = v[c].wrapping_add(v[d]);
    v.set(c, vc);
    let t = v[b] ^ v[c];
    v.set(b, (t >> 24u64) | (t << 40u64));
    let va = v[a].wrapping_add(v[b]).wrapping_add(y);
    v.set(a, va);
    let t = v[d] ^ v[a];
    v.set(d, (t >> 16u64) | (t << 48u64));
    let vc = v[c].wrapping_add(v[d]);
    v.set(c, vc);
    let t = v[b] ^ v[c];
    v.set(b, (t >> 63u64) | (t << 1u64));
}

fn b2_round_exec(v: &mut Vec<u64>, m: &Vec<u64>, r: usize)
    requires
        old(v)@.len() == 16,
        m@.len() == 16,
    ensures
        final(v)@ == b2_round(old(v)@, m@, r as int),
{
    proof {
        lemma_sigma_in_range();
    }
    let row = 16 * (r % 10);
    b2_g_exec(v, 0, 4, 8, 12, m[BLAKE2B_SIGMA[row]], m[BLAKE2B_SIGMA[row + 1]]);
    b2_g_exec(v, 1, 5, 9, 13, m[BLAKE2B_SIGMA[row + 2]], m[BLAKE2B_SIGMA[row + 3]]);
    b2_g_exec(v, 2, 6, 10, 14, m[BLAKE2B_SIGMA[row + 4]], m[BLAKE2B_SIGMA[row + 5]]);
    b2_g_exec(v, 3, 7, 11, 15, m[BLAKE2B_SIGMA[row + 6]], m[BLAKE2B_SIGMA[row + 7]]);
    b2_g_exec(v, 0, 5, 10, 15, m[BLAKE2B_SIGMA[row + 8]], m[BLAKE2B_SIGMA[row + 9]]);
    b2_g_exec(v, 1, 6, 11, 12, m[BLAKE2B_SIGMA[row + 10]], m[BLAKE2B_SIGMA[row + 11]]);
    b2_g_exec(v, 2, 7, 8, 13, m[BLAKE2B_SIGMA[row + 12]], m[BLAKE2B_SIGMA[row + 13]]);
    b2_g_exec(v, 3, 4, 9, 14, m[BLAKE2B_SIGMA[row + 14]], m[BLAKE2B_SIGMA[row + 15]]);
}

fn b2_compress_exec(h: &mut Vec<u64>, block: &[u8], t: u128, last: bool)
    requires
        old(h)@.len() == 8,
        block@.len() == 128,
    ensures
        final(h)@ == b2_compress(old(h)@, block@, t, last),
{
    let mut m: Vec<u64> = Vec::new();
    let mut i: usize = 0;
    while i < 16
        invariant
            block@.len() == 128,
            i <= 16,
            m@.len() == i,
            forall|j: int| 0 <= j < i ==> m@[j] == le_word64(block@, 8 * j),
        decreases 16 - i,
    {
        let k = 8 * i;
        let w = (block[k] as u64) | ((block[k + 1] as u64) << 8u64) | ((block[k + 2] as u64)
            << 16u64) | ((block[k + 3] as u64) << 24u64) | ((block[k + 4] as u64) << 32u64) | ((
        block[k + 5] as u64) << 40u64) | ((block[k + 6] as u64) << 48u64) | ((block[k + 7] as u64)
            << 56u64);
        m.push(w);
        i = i + 1;
    }
    proof {
        assert(m@ =~= Seq::new(16, |j: int| le_word64(block@, 8 * j)));
    }
    let ghost h0 = h@;
    let mut v: Vec<u64> = Vec::new();
    let mut j: usize = 0;
    while j < 8
        invariant
            h@ == h0,
            h0.len() == 8,
            j <= 8,
            v@ == h0.subrange(0, j as int),
        decreases 8 - j,
    {
        v.push(h[j]);
        proof {
            assert(h0.subrange(0, j + 1) =~= h0.subrange(0, j as int).push(h0[j as int]));
        }
        j = j + 1;
    }
    let mut j: usize = 0;
    while j < 8
        invariant
            h0.len() == 8,
            j <= 8,
            v@ == h0 + BLAKE2B_IV@.subrange(0, j as int),
        decreases 8 - j,
    {
        v.push(BLAKE2B_IV[j]);
        proof {
            assert(h0 + BLAKE2B_IV@.subrange(0, j + 1) =~= (h0 + BLAKE2B_IV@.subrange(0, j as int)).push(
                BLAKE2B_IV@[j as int],
            ));
        }
        j = j + 1;
    }
    proof {
        assert(BLAKE2B_IV@.subrange(0, 8) =~= BLAKE2B_IV@);
    }
    let v12 = v[12] ^ (#[verifier::truncate] (t as u64));
    v.set(12, v12);
    let v13 = v[13] ^ (#[verifier::truncate] ((t >> 64u128) as u64));
    v.set(13, v13);
    if last {
        let v14 = v[14] ^ 0xFFFF_FFFF_FFFF_FFFFu64;
        v.set(14, v14);
    }
    let ghost v0 = v@;
    assert(v0 == b2_init_v(h0, t, last));
    let mut r: usize = 0;
    while r < 12
        invariant
            m@.len() == 16,
            r <= 12,
            v@.len() == 16,
            v@ == b2_rounds(v0, m@, r as int),
        decreases 12 - r,
    {
        b2_round_exec(&mut v, &m, r);
        r = r + 1;
    }
    let ghost vf = v@;
    let mut q: usize = 0;
    while q < 8
        invariant
            h0.len() == 8,
            vf.len() == 16,
            v@ == vf,
            q <= 8,
            h@.len() == 8,
            forall|k: int| q <= k < 8 ==> h@[k] == h0[k],
            forall|k: int| 0 <= k < q ==> h@[k] == h0[k] ^ vf[k] ^ vf[k + 8],
        decreases 8 - q,
    {
        let nv = h[q] ^ v[q] ^ v[q + 8];
        h.set(q, nv);
        q = q + 1;
    }
    proof {
        assert(h@ =~= Seq::new(8, |k: int| h0[k] ^ vf[k] ^ vf[k + 8]));
    }
}

/// The initial hash value for digest length `nn`.
fn b2_init_h(nn: usize) -> (h: Vec<u64>)
    requires
        nn <= 64,
    ensures
        h@ == b2_param_h(nn as nat),
{
    let mut h: Vec<u64> = Vec::new();
    let mut j: usize = 0;
    while j < 8
        invariant
            j <= 8,
            h@ == BLAKE2B_IV@.subrange(0, j as int),
        decreases 8 - j,
    {
        h.push(BLAKE2B_IV[j]);
        proof {
            assert(BLAKE2B_IV@.subrange(0, j + 1) =~= BLAKE2B_IV@.subrange(0, j as int).push(
                BLAKE2B_IV@[j as int],
            ));
        }
        j = j + 1;
    }
    proof {
        assert(BLAKE2B_IV@.subrange(0, 8) =~= BLAKE2B_IV@);
    }
    let h0 = h[0] ^ (0x01010000u64 ^ (nn as u64));
    h.set(0, h0);
    proof {
        assert(h@ =~= b2_param_h(nn as nat));
    }
    h
}

/// The last block: the data from `offset` on, zero-padded to 128 bytes.
fn b2_last_block(data: &[u8], offset: usize) -> (last: Vec<u8>)
    requires
        offset <= data@.len(),
        data@.len() - offset <= 128,
    ensures
        last@ == data@.subrange(offset as int, data@.len() as int) + Seq::new(
            (128 - (data@.len() - offset)) as nat,
            |q: int| 0u8,
        ),
        last@.len() == 128,
{
    let n = data.len();
    let remaining = n - offset;
    let mut last: Vec<u8> = Vec::new();
    let mut i: usize = 0;
    while i < remaining
        invariant
            n == data@.len(),
            offset + remaining == n,
            i <= remaining,
            last@ == data@.subrange(offset as int, offset + i),
        decreases remaining - i,
    {
        last.push(data[offset + i]);
        proof {
            assert(data@.subrange(offset as int, offset + i + 1) =~= data@.subrange(
                offset as int,
                offset + i,
            ).push(data@[offset + i]));
        }
        i = i + 1;
    }
    let ghost rest = last@;
    while i < 128
        invariant
            remaining <= i <= 128,
            last@ == rest + Seq::new((i - remaining) as nat, |q: int| 0u8),
        decreases 128 - i,
    {
        last.push(0u8);
        proof {
            assert(last@ =~= rest + Seq::new((i + 1 - remaining) as nat, |q: int| 0u8));
        }
        i = i + 1;
    }
    last
}

/// The 64 little-endian bytes of a hash value.
fn b2_bytes(h: &Vec<u64>) -> (bytes: Vec<u8>)
    requires
        h@.len() == 8,
    ensures
        bytes@ == le_bytes_of(h@),
{
    let mut bytes: Vec<u8> = Vec::new();
    let mut w: usize = 0;
    while w < 8
        invariant
            h@.len() == 8,
            w <= 8,
            bytes@.len() == 8 * w,
            forall|q: int| 0 <= q < 8 * w ==> bytes@[q] == #[trigger] le_bytes_of(h@)[q],
        decreases 8 - w,
    {
        let word = h[w];
        let mut b: usize = 0;
        while b < 8
            invariant
                h@.len() == 8,
                word == h@[w as int],
                w < 8,
                b <= 8,
                bytes@.len() == 8 * w + b,
                forall|q: int| 0 <= q < 8 * w + b ==> bytes@[q] == #[trigger] le_bytes_of(h@)[q],
            decreases 8 - b,
        {
            bytes.push(#[verifier::truncate] ((word >> ((8 * b) as u64)) as u8));
            proof {
                let q = 8 * w + b;
                assert(q / 8 == w && q % 8 == b);
            }
            b = b + 1;
        }
        w = w + 1;
    }
    proof {
        assert(bytes@ =~= le_bytes_of(h@));
    }
    bytes
}

/// Compute the BLAKE2b hash of `data` into `out` (1 to 64 bytes, no key),
/// as RFC 7693 defines it with the output length `out.len()`.
pub fn blake2b(data: &[u8], out: &mut [u8])
    requires
        1 <= old(out)@.len() <= 64,
    ensures
        final(out)@ == blake2b_spec(data@, old(out)@.len()),
{
    let nn = out.len();
    let mut h = b2_init_h(nn);
    let ghost hp = h@;
    let n = data.len();
    let full_blocks: usize = if n > 128 {
        (n - 1) / 128
    } else {
        0
    };
    proof {
        if n > 128 {
            assert(128 * full_blocks <= n - 1 && n - 1 < 128 * full_blocks + 128) by (nonlinear_arith)
                requires
                    full_blocks == (n - 1) / 128,
                    n > 128,
            ;
        }
    }
    let mut offset: usize = 0;
    let mut k: usize = 0;
    while k < full_blocks
        invariant
            n == data@.len(),
            full_blocks == b2_full_blocks(n as nat),
            128 * full_blocks <= n,
            k <= full_blocks,
            offset == 128 * k,
            h@.len() == 8,
            h@ == b2_blocks(hp, data@, k as nat),
        decreases full_blocks - k,
    {
        let block = &data[offset..offset + 128];
        offset = offset + 128;
        b2_compress_exec(&mut h, block, offset as u128, false);
        k = k + 1;
        proof {
            assert(block@ =~= data@.subrange(128 * (k - 1), (128 * k) as int));
        }
    }
    let last = b2_last_block(data, offset);
    b2_compress_exec(&mut h, last.as_slice(), n as u128, true);
    assert(h@ == b2_hash(data@, nn as nat));
    let bytes = b2_bytes(&h);
    let mut q: usize = 0;
    while q < nn
        invariant
            nn == old(out)@.len(),
            out@.len() == nn,
            nn <= 64,
            bytes@.len() == 64,
            q <= nn,
            forall|p: int| 0 <= p < q ==> out@[p] == bytes@[p],
        decreases nn - q,
    {
        out[q] = bytes[q];
        q = q + 1;
    }
    proof {
        assert(out@ =~= bytes@.take(nn as int));
    }
}

/// Compute a single-byte BLAKE2b hash of `data`.
pub fn blake2b_1(data: &[u8]) -> (r: u8)
    ensures
        seq![r] == blake2b_spec(data@, 1),
{
    let mut out = [0u8; 1];
    blake2b(data, &mut out);
    assert(out@ =~= seq![out[0]]);
    out[0]
}
} // verus!
