//! The prover's side of the interactive protocol: what has been written to
//! the proof, and the randomness that follows from what has been committed.
use crate::field::{draw_elem, elem_drawn, Elem, RngCore};
use crate::sha::{xor_digests, xored, Digest, Sha, DIGEST_WORDS};
use vstd::prelude::*;

verus! {

/// A stream of words drawn from a pool of hashed commitments.
pub struct ShaRng<S: Sha> {
    pub sha: S,
    pub pool0: Digest,
    pub pool1: Digest,
    pub pool_used: usize,
}

/// The bytes the first pool is seeded with.
pub open spec fn seed0() -> Seq<u8> {
    seq![72u8, 101, 108, 108, 111]
}

/// The bytes the second pool is seeded with.
pub open spec fn seed1() -> Seq<u8> {
    seq![87u8, 111, 114, 108, 100]
}

impl<S: Sha> ShaRng<S> {
    /// The stream before anything has been committed.
    pub open spec fn spec_new(sha: S) -> Self {
        ShaRng {
            sha,
            pool0: sha.spec_hash_bytes(seed0()),
            pool1: sha.spec_hash_bytes(seed1()),
            pool_used: 0,
        }
    }

    /// The stream after the pools have been hashed once more.
    pub open spec fn stepped(self) -> Self {
        let pool0 = self.sha.spec_hash_pair(self.pool0, self.pool1);
        ShaRng { sha: self.sha, pool0, pool1: self.sha.spec_hash_pair(pool0, self.pool1), pool_used: 0 }
    }

    /// The stream after `digest` has been mixed into it.
    pub open spec fn mixed(self, digest: Digest) -> Self {
        (ShaRng { pool0: xored(self.pool0, digest), ..self }).stepped()
    }

    /// Seeds a stream.
    pub fn new(sha: &S) -> (r: Self)
        ensures
            r == Self::spec_new(*sha),
    {
        let hello: [u8; 5] = [72, 101, 108, 108, 111];
        let world: [u8; 5] = [87, 111, 114, 108, 100];
        assert(hello@ =~= seed0());
        assert(world@ =~= seed1());
        ShaRng {
            sha: *sha,
            pool0: sha.hash_bytes(hello.as_slice()),
            pool1: sha.hash_bytes(world.as_slice()),
            pool_used: 0,
        }
    }

    fn step(&mut self)
        ensures
            *final(self) == old(self).stepped(),
    {
        self.pool0 = self.sha.hash_pair(&self.pool0, &self.pool1);
        self.pool1 = self.sha.hash_pair(&self.pool0, &self.pool1);
        self.pool_used = 0;
    }

    /// Makes the rest of the stream depend on `digest`.
    pub fn mix(&mut self, digest: &Digest)
        ensures
            *final(self) == old(self).mixed(*digest),
    {
        self.pool0 = xor_digests(&self.pool0, digest);
        self.step();
    }
}

impl<S: Sha> RngCore for ShaRng<S> {
    open spec fn spec_next(self) -> (u32, Self) {
        let ready = if self.pool_used >= DIGEST_WORDS {
            self.stepped()
        } else {
            self
        };
        (
            ready.pool0.words[ready.pool_used as int],
            ShaRng { pool_used: (ready.pool_used + 1) as usize, ..ready },
        )
    }

    fn next_u32(&mut self) -> (word: u32) {
        if self.pool_used >= DIGEST_WORDS {
            self.step();
        }
        let word = self.pool0.words[self.pool_used];
        self.pool_used = self.pool_used + 1;
        word
    }
}

/// The words that stand for a sequence of elements in a proof.
pub open spec fn words_of<E: Elem>(elems: Seq<E>) -> Seq<u32>
    decreases elems.len(),
{
    if elems.len() == 0 {
        Seq::empty()
    } else {
        words_of(elems.drop_last()) + elems.last().spec_words()
    }
}

/// The words that represent a sequence of elements in memory.
pub open spec fn raw_words_of<E: Elem>(elems: Seq<E>) -> Seq<u32>
    decreases elems.len(),
{
    if elems.len() == 0 {
        Seq::empty()
    } else {
        raw_words_of(elems.drop_last()) + elems.last().spec_raw_words()
    }
}

/// Collects the words that represent `slice` in memory.
pub fn raw_words<E: Elem>(slice: &[E]) -> (words: Vec<u32>)
    ensures
        words@ == raw_words_of(slice@),
{
    let mut words: Vec<u32> = Vec::new();
    let mut i: usize = 0;
    assert(slice@.take(0) =~= Seq::<E>::empty());
    while i < slice.len()
        invariant
            i <= slice@.len(),
            words@ == raw_words_of(slice@.take(i as int)),
        decreases slice@.len() - i,
    {
        let mut more = slice[i].to_raw_words();
        words.append(&mut more);
        assert(slice@.take(i + 1).drop_last() =~= slice@.take(i as int));
        i = i + 1;
    }
    assert(slice@.take(i as int) =~= slice@);
    words
}

/// What a prover has said so far: the words written to the proof, and the
/// randomness determined by the commitments made.
pub struct Transcript<S: Sha> {
    pub proof: Seq<u32>,
    pub rng: ShaRng<S>,
}

impl<S: Sha> Transcript<S> {
    pub open spec fn spec_new(sha: S) -> Self {
        Transcript { proof: Seq::empty(), rng: ShaRng::spec_new(sha) }
    }

    /// After `words` have been written to the proof.
    pub open spec fn written(self, words: Seq<u32>) -> Self {
        Transcript { proof: self.proof + words, ..self }
    }

    /// After `digest` has been committed to.
    pub open spec fn committed(self, digest: Digest) -> Self {
        Transcript { rng: self.rng.mixed(digest), ..self }
    }

    /// The challenge drawn next.
    pub open spec fn challenge<E: Elem>(self) -> E {
        elem_drawn::<E, ShaRng<S>>(self.rng).0
    }

    /// After that challenge has been drawn.
    pub open spec fn challenged<E: Elem>(self) -> Self {
        Transcript { rng: elem_drawn::<E, ShaRng<S>>(self.rng).1, ..self }
    }
}

/// Writing to the proof does not influence the randomness: only commitments do.
pub proof fn law_writing_keeps_challenges<S: Sha, E: Elem>(t: Transcript<S>, words: Seq<u32>)
    ensures
        t.written(words).challenge::<E>() == t.challenge::<E>(),
        t.written(words).challenged::<E>().proof == t.challenged::<E>().proof + words,
{
}

/// A proof under construction.
pub struct WriteIOP<S: Sha> {
    pub proof: Vec<u32>,
    pub rng: ShaRng<S>,
}

impl<S: Sha> View for WriteIOP<S> {
    type V = Transcript<S>;

    open spec fn view(&self) -> Transcript<S> {
        Transcript { proof: self.proof@, rng: self.rng }
    }
}

impl<S: Sha> WriteIOP<S> {
    /// Starts an empty proof.
    pub fn new(sha: &S) -> (r: Self)
        ensures
            r@ == Transcript::spec_new(*sha),
    {
        WriteIOP { proof: Vec::new(), rng: ShaRng::new(sha) }
    }

    /// Writes the words of a digest to the proof.
    pub fn write_digest(&mut self, digest: &Digest)
        ensures
            final(self)@ == old(self)@.written(digest.words@),
    {
        let ghost before = self.proof@;
        let mut i: usize = 0;
        while i < DIGEST_WORDS
            invariant
                i <= DIGEST_WORDS,
                self.rng == old(self).rng,
                self.proof@ == before + digest.words@.take(i as int),
            decreases DIGEST_WORDS - i,
        {
            self.proof.push(digest.words[i]);
            assert(self.proof@ =~= before + digest.words@.take(i + 1));
            i = i + 1;
        }
        assert(digest.words@.take(8) =~= digest.words@);
    }

    /// Writes field elements to the proof.
    pub fn write_field_elem_slice<E: Elem>(&mut self, slice: &[E])
        ensures
            final(self)@ == old(self)@.written(words_of(slice@)),
    {
        let ghost before = self.proof@;
        let mut i: usize = 0;
        assert(slice@.take(0) =~= Seq::<E>::empty());
        assert(self.proof@ =~= before + words_of(slice@.take(0)));
        while i < slice.len()
            invariant
                i <= slice@.len(),
                self.rng == old(self).rng,
                self.proof@ == before + words_of(slice@.take(i as int)),
            decreases slice@.len() - i,
        {
            let mut more = slice[i].to_u32_words();
            self.proof.append(&mut more);
            assert(slice@.take(i + 1).drop_last() =~= slice@.take(i as int));
            assert(self.proof@ =~= before + words_of(slice@.take(i + 1)));
            i = i + 1;
        }
        assert(slice@.take(i as int) =~= slice@);
    }

    /// Commits to a digest: all later randomness depends on it.
    pub fn commit(&mut self, digest: &Digest)
        ensures
            final(self)@ == old(self)@.committed(*digest),
    {
        self.rng.mix(digest);
    }

    /// Draws a challenge.
    pub fn random<E: Elem>(&mut self) -> (r: E)
        ensures
            r == old(self)@.challenge::<E>(),
            final(self)@ == old(self)@.challenged::<E>(),
    {
        draw_elem::<E, ShaRng<S>>(&mut self.rng)
    }
}

} // verus!
