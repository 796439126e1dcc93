//! Hashing.
use vstd::prelude::*;

verus! {

/// The number of words of a digest.
pub const DIGEST_WORDS: usize = 8;

/// The result of hashing.
#[derive(Clone, Copy)]
pub struct Digest {
    pub words: [u32; 8],
}

/// A hash function.
pub trait Sha: Sized + Copy {
    spec fn spec_hash_bytes(self, bytes: Seq<u8>) -> Digest;

    spec fn spec_hash_words(self, words: Seq<u32>) -> Digest;

    spec fn spec_hash_pair(self, a: Digest, b: Digest) -> Digest;

    /// Hashes a string of bytes.
    fn hash_bytes(&self, bytes: &[u8]) -> (r: Digest)
        ensures
            r == self.spec_hash_bytes(bytes@),
    ;

    /// Hashes the words that represent a slice in memory.
    fn hash_raw_pod_slice(&self, words: &[u32]) -> (r: Digest)
        ensures
            r == self.spec_hash_words(words@),
    ;

    /// Hashes two digests into one.
    fn hash_pair(&self, a: &Digest, b: &Digest) -> (r: Digest)
        ensures
            r == self.spec_hash_pair(*a, *b),
    ;
}

/// The exclusive or of two digests, word by word.
pub open spec fn xored(a: Digest, b: Digest) -> Digest {
    Digest {
        words: [
            a.words[0] ^ b.words[0],
            a.words[1] ^ b.words[1],
            a.words[2] ^ b.words[2],
            a.words[3] ^ b.words[3],
            a.words[4] ^ b.words[4],
            a.words[5] ^ b.words[5],
            a.words[6] ^ b.words[6],
            a.words[7] ^ b.words[7],
        ],
    }
}

/// Combines two digests by exclusive or.
pub fn xor_digests(a: &Digest, b: &Digest) -> (r: Digest)
    ensures
        r == xored(*a, *b),
{
    Digest {
        words: [
            a.words[0] ^ b.words[0],
            a.words[1] ^ b.words[1],
            a.words[2] ^ b.words[2],
            a.words[3] ^ b.words[3],
            a.words[4] ^ b.words[4],
            a.words[5] ^ b.words[5],
            a.words[6] ^ b.words[6],
            a.words[7] ^ b.words[7],
        ],
    }
}

} // verus!
