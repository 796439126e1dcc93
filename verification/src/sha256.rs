//! SHA-256.
use crate::sha::{Digest, Sha};
use vstd::prelude::*;

verus! {

/// The number of words of a block.
pub const BLOCK_WORDS: usize = 16;

/// The number of bytes of a block.
pub const BLOCK_BYTES: usize = 64;

/// The number of rounds, and of words in a message schedule.
pub const ROUNDS: usize = 64;

/// The constants added in the rounds.
pub open spec fn round_constants() -> Seq<u32> {
    seq![
        0x428a2f98u32, 0x71374491, 0xb5c0fbcf, 0xe9b5dba5, 0x3956c25b, 0x59f111f1, 0x923f82a4, 0xab1c5ed5,
        0xd807aa98, 0x12835b01, 0x243185be, 0x550c7dc3, 0x72be5d74, 0x80deb1fe, 0x9bdc06a7, 0xc19bf174,
        0xe49b69c1, 0xefbe4786, 0x0fc19dc6, 0x240ca1cc, 0x2de92c6f, 0x4a7484aa, 0x5cb0a9dc, 0x76f988da,
        0x983e5152, 0xa831c66d, 0xb00327c8, 0xbf597fc7, 0xc6e00bf3, 0xd5a79147, 0x06ca6351, 0x14292967,
        0x27b70a85, 0x2e1b2138, 0x4d2c6dfc, 0x53380d13, 0x650a7354, 0x766a0abb, 0x81c2c92e, 0x92722c85,
        0xa2bfe8a1, 0xa81a664b, 0xc24b8b70, 0xc76c51a3, 0xd192e819, 0xd6990624, 0xf40e3585, 0x106aa070,
        0x19a4c116, 0x1e376c08, 0x2748774c, 0x34b0bcb5, 0x391c0cb3, 0x4ed8aa4a, 0x5b9cca4f, 0x682e6ff3,
        0x748f82ee, 0x78a5636f, 0x84c87814, 0x8cc70208, 0x90befffa, 0xa4506ceb, 0xbef9a3f7, 0xc67178f2,
    ]
}

/// The digest that hashing starts from.
pub open spec fn initial_digest() -> Digest {
    Digest {
        words: [
            0x6a09e667, 0xbb67ae85, 0x3c6ef372, 0xa54ff53a, 0x510e527f, 0x9b05688c, 0x1f83d9ab, 0x5be0cd19,
        ],
    }
}

/// `x` rotated to the right by `n` bits.
pub open spec fn rotated(x: u32, n: u32) -> u32 {
    (x >> n) | (x << ((32 - n) as u32))
}

/// Word `t` of the schedule of a block.
pub open spec fn schedule(block: Seq<u32>, t: nat) -> u32
    decreases t,
{
    if t < 16 {
        block[t as int]
    } else {
        let (w2, w7) = (schedule(block, (t - 2) as nat), schedule(block, (t - 7) as nat));
        let (w15, w16) = (schedule(block, (t - 15) as nat), schedule(block, (t - 16) as nat));
        let s0 = rotated(w15, 7) ^ rotated(w15, 18) ^ (w15 >> 3u32);
        let s1 = rotated(w2, 17) ^ rotated(w2, 19) ^ (w2 >> 10u32);
        w16.wrapping_add(s0).wrapping_add(w7).wrapping_add(s1)
    }
}

/// The working variables of a compression.
#[derive(Clone, Copy)]
pub struct Working {
    pub a: u32,
    pub b: u32,
    pub c: u32,
    pub d: u32,
    pub e: u32,
    pub f: u32,
    pub g: u32,
    pub h: u32,
}

impl Working {
    pub open spec fn spec_new(digest: Digest) -> Self {
        Working {
            a: digest.words[0],
            b: digest.words[1],
            c: digest.words[2],
            d: digest.words[3],
            e: digest.words[4],
            f: digest.words[5],
            g: digest.words[6],
            h: digest.words[7],
        }
    }

    /// After a round with constant `k` and schedule word `w`.
    pub open spec fn stepped(self, k: u32, w: u32) -> Self {
        let (a, e) = (self.a, self.e);
        let s1 = rotated(e, 6) ^ rotated(e, 11) ^ rotated(e, 25);
        let choice = (e & self.f) ^ ((!e) & self.g);
        let t1 = self.h.wrapping_add(s1).wrapping_add(choice).wrapping_add(k).wrapping_add(w);
        let s0 = rotated(a, 2) ^ rotated(a, 13) ^ rotated(a, 22);
        let majority = (a & self.b) ^ (a & self.c) ^ (self.b & self.c);
        let t2 = s0.wrapping_add(majority);
        Working {
            a: t1.wrapping_add(t2),
            b: a,
            c: self.b,
            d: self.c,
            e: self.d.wrapping_add(t1),
            f: e,
            g: self.f,
            h: self.g,
        }
    }

    /// After the first `t` rounds on `block`.
    pub open spec fn rounds(self, block: Seq<u32>, t: nat) -> Self
        decreases t,
    {
        if t == 0 {
            self
        } else {
            self.rounds(block, (t - 1) as nat).stepped(round_constants()[t - 1], schedule(block, (t - 1) as nat))
        }
    }

    /// Added to the digest that the compression started from.
    pub open spec fn added_to(self, digest: Digest) -> Digest {
        Digest {
            words: [
                digest.words[0].wrapping_add(self.a),
                digest.words[1].wrapping_add(self.b),
                digest.words[2].wrapping_add(self.c),
                digest.words[3].wrapping_add(self.d),
                digest.words[4].wrapping_add(self.e),
                digest.words[5].wrapping_add(self.f),
                digest.words[6].wrapping_add(self.g),
                digest.words[7].wrapping_add(self.h),
            ],
        }
    }
}

/// `digest` after a block of sixteen words has been compressed into it.
pub open spec fn compressed(digest: Digest, block: Seq<u32>) -> Digest {
    Working::spec_new(digest).rounds(block, ROUNDS as nat).added_to(digest)
}

/// Block `k` of a message of words, which is continued by zeros.
pub open spec fn word_block(words: Seq<u32>, k: int) -> Seq<u32> {
    Seq::new(
        BLOCK_WORDS as nat,
        |j: int|
            if BLOCK_WORDS * k + j < words.len() {
                words[BLOCK_WORDS * k + j]
            } else {
                0u32
            },
    )
}

/// The digest after the first `k` blocks of a message of words.
pub open spec fn words_hashed(words: Seq<u32>, k: nat) -> Digest
    decreases k,
{
    if k == 0 {
        initial_digest()
    } else {
        compressed(words_hashed(words, (k - 1) as nat), word_block(words, k - 1))
    }
}

/// The number of blocks of a padded message of `len` bytes.
pub open spec fn padded_blocks(len: nat) -> nat {
    len / 64 + if len % 64 < 56 {
        1nat
    } else {
        2nat
    }
}

/// The length of a message of `len` bytes in bits.
pub open spec fn bit_length(len: nat) -> u64 {
    ((8 * len) % 0x1_0000_0000_0000_0000) as u64
}

/// Byte `p` of a padded message: the message, a one bit, zeros, and the length
/// in bits as a big-endian number of eight bytes.
pub open spec fn padded_byte(bytes: Seq<u8>, p: int) -> u8 {
    let total = 64 * padded_blocks(bytes.len());
    if p < bytes.len() {
        bytes[p]
    } else if p == bytes.len() {
        0x80
    } else if p < total - 8 {
        0
    } else {
        (bit_length(bytes.len()) >> ((8 * (total - 1 - p)) as u64)) as u8
    }
}

/// Block `k` of a padded message, as big-endian words.
pub open spec fn byte_block(bytes: Seq<u8>, k: int) -> Seq<u32> {
    Seq::new(
        BLOCK_WORDS as nat,
        |j: int|
            big_endian(
                padded_byte(bytes, 64 * k + 4 * j),
                padded_byte(bytes, 64 * k + 4 * j + 1),
                padded_byte(bytes, 64 * k + 4 * j + 2),
                padded_byte(bytes, 64 * k + 4 * j + 3),
            ),
    )
}

/// The word with the given bytes, most significant first.
pub open spec fn big_endian(b0: u8, b1: u8, b2: u8, b3: u8) -> u32 {
    (b0 * 0x100_0000 + b1 * 0x1_0000 + b2 * 0x100 + b3) as u32
}

/// The digest after the first `k` blocks of a padded message.
pub open spec fn bytes_hashed(bytes: Seq<u8>, k: nat) -> Digest
    decreases k,
{
    if k == 0 {
        initial_digest()
    } else {
        compressed(bytes_hashed(bytes, (k - 1) as nat), byte_block(bytes, k - 1))
    }
}

fn rotate(x: u32, n: u32) -> (r: u32)
    requires
        0 < n < 32,
    ensures
        r == rotated(x, n),
{
    (x >> n) | (x << (32 - n))
}

/// Extends a block to its schedule.
fn expand(block: &[u32]) -> (w: Vec<u32>)
    requires
        block@.len() == BLOCK_WORDS,
    ensures
        w@.len() == ROUNDS,
        forall|t: int| 0 <= t < ROUNDS ==> #[trigger] w@[t] == schedule(block@, t as nat),
{
    let mut w: Vec<u32> = Vec::new();
    let mut t: usize = 0;
    while t < ROUNDS
        invariant
            t <= ROUNDS,
            block@.len() == BLOCK_WORDS,
            w@.len() == t,
            forall|i: int| 0 <= i < t ==> #[trigger] w@[i] == schedule(block@, i as nat),
        decreases ROUNDS - t,
    {
        let next: u32 = if t < BLOCK_WORDS {
            block[t]
        } else {
            let (w2, w15) = (w[t - 2], w[t - 15]);
            let s0 = rotate(w15, 7) ^ rotate(w15, 18) ^ (w15 >> 3u32);
            let s1 = rotate(w2, 17) ^ rotate(w2, 19) ^ (w2 >> 10u32);
            w[t - 16].wrapping_add(s0).wrapping_add(w[t - 7]).wrapping_add(s1)
        };
        assert(next == schedule(block@, t as nat));
        w.push(next);
        t = t + 1;
    }
    w
}

impl Working {
    fn new(digest: &Digest) -> (r: Self)
        ensures
            r == Self::spec_new(*digest),
    {
        Working {
            a: digest.words[0],
            b: digest.words[1],
            c: digest.words[2],
            d: digest.words[3],
            e: digest.words[4],
            f: digest.words[5],
            g: digest.words[6],
            h: digest.words[7],
        }
    }

    fn step(self, k: u32, w: u32) -> (r: Self)
        ensures
            r == self.stepped(k, w),
    {
        let (a, e) = (self.a, self.e);
        let s1 = rotate(e, 6) ^ rotate(e, 11) ^ rotate(e, 25);
        let choice = (e & self.f) ^ ((!e) & self.g);
        let t1 = self.h.wrapping_add(s1).wrapping_add(choice).wrapping_add(k).wrapping_add(w);
        let s0 = rotate(a, 2) ^ rotate(a, 13) ^ rotate(a, 22);
        let majority = (a & self.b) ^ (a & self.c) ^ (self.b & self.c);
        let t2 = s0.wrapping_add(majority);
        Working {
            a: t1.wrapping_add(t2),
            b: a,
            c: self.b,
            d: self.c,
            e: self.d.wrapping_add(t1),
            f: e,
            g: self.f,
            h: self.g,
        }
    }

    fn add_to(self, digest: &Digest) -> (r: Digest)
        ensures
            r == self.added_to(*digest),
    {
        Digest {
            words: [
                digest.words[0].wrapping_add(self.a),
                digest.words[1].wrapping_add(self.b),
                digest.words[2].wrapping_add(self.c),
                digest.words[3].wrapping_add(self.d),
                digest.words[4].wrapping_add(self.e),
                digest.words[5].wrapping_add(self.f),
                digest.words[6].wrapping_add(self.g),
                digest.words[7].wrapping_add(self.h),
            ],
        }
    }
}

/// Compresses a block into a digest.
pub fn compress(digest: &Digest, block: &[u32]) -> (r: Digest)
    requires
        block@.len() == BLOCK_WORDS,
    ensures
        r == compressed(*digest, block@),
{
    let k: [u32; 64] = [
        0x428a2f98, 0x71374491, 0xb5c0fbcf, 0xe9b5dba5, 0x3956c25b, 0x59f111f1, 0x923f82a4, 0xab1c5ed5,
        0xd807aa98, 0x12835b01, 0x243185be, 0x550c7dc3, 0x72be5d74, 0x80deb1fe, 0x9bdc06a7, 0xc19bf174,
        0xe49b69c1, 0xefbe4786, 0x0fc19dc6, 0x240ca1cc, 0x2de92c6f, 0x4a7484aa, 0x5cb0a9dc, 0x76f988da,
        0x983e5152, 0xa831c66d, 0xb00327c8, 0xbf597fc7, 0xc6e00bf3, 0xd5a79147, 0x06ca6351, 0x14292967,
        0x27b70a85, 0x2e1b2138, 0x4d2c6dfc, 0x53380d13, 0x650a7354, 0x766a0abb, 0x81c2c92e, 0x92722c85,
        0xa2bfe8a1, 0xa81a664b, 0xc24b8b70, 0xc76c51a3, 0xd192e819, 0xd6990624, 0xf40e3585, 0x106aa070,
        0x19a4c116, 0x1e376c08, 0x2748774c, 0x34b0bcb5, 0x391c0cb3, 0x4ed8aa4a, 0x5b9cca4f, 0x682e6ff3,
        0x748f82ee, 0x78a5636f, 0x84c87814, 0x8cc70208, 0x90befffa, 0xa4506ceb, 0xbef9a3f7, 0xc67178f2,
    ];
    assert(k@ =~= round_constants());
    let w = expand(block);
    let start = Working::new(digest);
    let mut working = start;
    let mut t: usize = 0;
    while t < ROUNDS
        invariant
            t <= ROUNDS,
            k@ == round_constants(),
            w@.len() == ROUNDS,
            forall|i: int| 0 <= i < ROUNDS ==> #[trigger] w@[i] == schedule(block@, i as nat),
            working == start.rounds(block@, t as nat),
        decreases ROUNDS - t,
    {
        working = working.step(k[t], w[t]);
        t = t + 1;
    }
    working.add_to(digest)
}

/// The digest that hashing starts from.
fn start_digest() -> (r: Digest)
    ensures
        r == initial_digest(),
{
    Digest {
        words: [
            0x6a09e667, 0xbb67ae85, 0x3c6ef372, 0xa54ff53a, 0x510e527f, 0x9b05688c, 0x1f83d9ab, 0x5be0cd19,
        ],
    }
}

/// Byte `p` of a padded message of `total` bytes.
fn pad(bytes: &[u8], p: u128, total: u128) -> (r: u8)
    requires
        total == 64 * padded_blocks(bytes@.len()),
        p < total,
    ensures
        r == padded_byte(bytes@, p as int),
{
    let len: u128 = bytes.len() as u128;
    if p < len {
        bytes[p as usize]
    } else if p == len {
        0x80
    } else if p < total - 8 {
        0
    } else {
        let bits: u64 = ((8 * len) % 0x1_0000_0000_0000_0000) as u64;
        let shift: u64 = (8 * (total - 1 - p)) as u64;
        (bits >> shift) as u8
    }
}

fn from_big_endian(b0: u8, b1: u8, b2: u8, b3: u8) -> (r: u32)
    ensures
        r == big_endian(b0, b1, b2, b3),
{
    b0 as u32 * 0x100_0000 + b1 as u32 * 0x1_0000 + b2 as u32 * 0x100 + b3 as u32
}

/// The hash function.
#[derive(Clone, Copy)]
pub struct Sha256;

impl Sha for Sha256 {
    /// The standard hash of a string of bytes.
    open spec fn spec_hash_bytes(self, bytes: Seq<u8>) -> Digest {
        bytes_hashed(bytes, padded_blocks(bytes.len()))
    }

    /// The compression of all blocks, the last one filled up with zeros.
    open spec fn spec_hash_words(self, words: Seq<u32>) -> Digest {
        words_hashed(words, (words.len() + 15) / 16)
    }

    /// The compression of one block that holds both digests.
    open spec fn spec_hash_pair(self, a: Digest, b: Digest) -> Digest {
        compressed(initial_digest(), a.words@ + b.words@)
    }

    fn hash_bytes(&self, bytes: &[u8]) -> (r: Digest) {
        let len: usize = bytes.len();
        let blocks: u128 = (len / 64) as u128 + (if len % 64 < 56 {
            1
        } else {
            2
        });
        let mut digest = start_digest();
        let mut k: u128 = 0;
        while k < blocks
            invariant
                k <= blocks,
                blocks == padded_blocks(bytes@.len()),
                blocks <= 0x1_0000_0000_0000_0000,
                digest == bytes_hashed(bytes@, k as nat),
            decreases blocks - k,
        {
            let mut block: Vec<u32> = Vec::new();
            let mut j: usize = 0;
            while j < BLOCK_WORDS
                invariant
                    j <= BLOCK_WORDS,
                    k < blocks,
                    blocks == padded_blocks(bytes@.len()),
                    blocks <= 0x1_0000_0000_0000_0000,
                    block@ == byte_block(bytes@, k as int).take(j as int),
                decreases BLOCK_WORDS - j,
            {
                let total: u128 = 64 * blocks;
                let p: u128 = 64 * k + 4 * (j as u128);
                let word: u32 = from_big_endian(
                    pad(bytes, p, total),
                    pad(bytes, p + 1, total),
                    pad(bytes, p + 2, total),
                    pad(bytes, p + 3, total),
                );
                block.push(word);
                assert(block@ =~= byte_block(bytes@, k as int).take(j + 1));
                j = j + 1;
            }
            assert(block@ =~= byte_block(bytes@, k as int));
            digest = compress(&digest, block.as_slice());
            k = k + 1;
        }
        digest
    }

    fn hash_raw_pod_slice(&self, words: &[u32]) -> (r: Digest) {
        let len: usize = words.len();
        let blocks: usize = len / BLOCK_WORDS + (if len % BLOCK_WORDS == 0 {
            0
        } else {
            1
        });
        let mut digest = start_digest();
        let mut k: usize = 0;
        while k < blocks
            invariant
                k <= blocks,
                len == words@.len(),
                blocks == (len + 15) / 16,
                digest == words_hashed(words@, k as nat),
            decreases blocks - k,
        {
            let mut block: Vec<u32> = Vec::new();
            let mut j: usize = 0;
            while j < BLOCK_WORDS
                invariant
                    j <= BLOCK_WORDS,
                    k < blocks,
                    len == words@.len(),
                    blocks == (len + 15) / 16,
                    block@ == word_block(words@, k as int).take(j as int),
                decreases BLOCK_WORDS - j,
            {
                let word: u32 = if j < len - BLOCK_WORDS * k {
                    words[BLOCK_WORDS * k + j]
                } else {
                    0
                };
                block.push(word);
                assert(block@ =~= word_block(words@, k as int).take(j + 1));
                j = j + 1;
            }
            assert(block@ =~= word_block(words@, k as int));
            digest = compress(&digest, block.as_slice());
            k = k + 1;
        }
        digest
    }

    fn hash_pair(&self, a: &Digest, b: &Digest) -> (r: Digest) {
        let mut block: Vec<u32> = Vec::new();
        let ghost both = a.words@ + b.words@;
        let mut j: usize = 0;
        while j < BLOCK_WORDS
            invariant
                j <= BLOCK_WORDS,
                both == a.words@ + b.words@,
                block@ == both.take(j as int),
            decreases BLOCK_WORDS - j,
        {
            let word: u32 = if j < 8 {
                a.words[j]
            } else {
                b.words[j - 8]
            };
            block.push(word);
            assert(block@ =~= both.take(j + 1));
            j = j + 1;
        }
        assert(block@ =~= both);
        compress(&start_digest(), block.as_slice())
    }
}

} // verus!
