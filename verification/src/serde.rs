//! Serialization of values to 32-bit words, and back.
//!
//! Data travels between host and guest as words. [`to_vec`] turns a value into
//! words and [`from_slice`] turns words into a value; what is written by the
//! one is read back by the other.
//!
//! - An integer of 32 bits is one word; one of 64 bits is two, the low word
//!   first.
//! - A string is its length in bytes, followed by the bytes of its UTF-8
//!   encoding, packed into words with the first byte lowest and padded with
//!   zeros.
//! - A sequence is its length, followed by its elements. A map
//!   ([`crate::entry_map::EntryMap`]) is the sequence of its entries.
//! - A pair is its first component, followed by its second.
use vstd::arithmetic::div_mod::{lemma_fundamental_div_mod, lemma_fundamental_div_mod_converse};
use vstd::arithmetic::power2::{lemma2_to64, lemma_pow2_pos, lemma_pow2_strictly_increases, pow2};
use vstd::prelude::*;
use vstd::utf8::{decode_utf8, encode_utf8, encode_utf8_decode_utf8, encode_utf8_valid_utf8, valid_utf8};

verus! {

/// The least multiple of `align` that is at least `addr`.
pub open spec fn aligned(addr: nat, align: nat) -> nat {
    ((addr + align - 1) / align as int * align) as nat
}

/// Aligning gives a multiple of the alignment less than one alignment above
/// the address, and aligning that again changes nothing.
pub proof fn law_aligned(addr: nat, align: nat)
    requires
        align > 0,
    ensures
        aligned(addr, align) % align == 0,
        addr <= aligned(addr, align) < addr + align,
        aligned(aligned(addr, align), align) == aligned(addr, align),
{
    let (x, a) = (addr + align - 1, align as int);
    let q = x / a;
    lemma_fundamental_div_mod(x, a);
    assert(a * q == q * a) by (nonlinear_arith);
    assert(q >= 0) by (nonlinear_arith)
        requires
            x >= 0,
            a > 0,
            q == x / a,
    ;
    assert(q * a >= 0) by (nonlinear_arith)
        requires
            q >= 0,
            a > 0,
    ;
    lemma_fundamental_div_mod_converse(q * a, a, q, 0);
    lemma_fundamental_div_mod_converse(q * a + align - 1, a, q, align - 1);
}

/// No multiple of the alignment lies between an address and its alignment.
pub proof fn law_aligned_least(addr: nat, align: nat, multiple: nat)
    requires
        align > 0,
        multiple % align == 0,
        multiple >= addr,
    ensures
        aligned(addr, align) <= multiple,
{
    law_aligned(addr, align);
    let (r, a) = (aligned(addr, align) as int, align as int);
    let (q, k) = (r / a, multiple as int / a);
    lemma_fundamental_div_mod(r, a);
    lemma_fundamental_div_mod(multiple as int, a);
    assert(a * q <= a * k) by (nonlinear_arith)
        requires
            a > 0,
            a * q < a * k + a,
    ;
}

/// Align the given address `addr` upwards to alignment `align`.
///
/// Requires that `align` is a power of two.
pub fn align_up(addr: usize, align: usize) -> (r: usize)
    requires
        exists|bits: nat| align == #[trigger] pow2(bits),
        addr + (align - 1) <= usize::MAX,
    ensures
        r == aligned(addr as nat, align as nat),
{
    proof {
        let bits = choose|bits: nat| align == #[trigger] pow2(bits);
        lemma_pow2_pos(bits);
        let x: usize = (addr + align - 1) as usize;
        let mask: usize = (align - 1) as usize;
        assert((x & !mask) + (x & mask) == x) by (bit_vector);
        lemma2_to64();
        if bits > usize::BITS {
            lemma_pow2_strictly_increases(usize::BITS as nat, bits);
        }
        vstd::bits::lemma_usize_low_bits_mask_is_mod(x, bits);
        lemma_fundamental_div_mod(x as int, align as int);
        assert(align * (x as int / align as int) == (x as int / align as int) * align) by (nonlinear_arith);
    }
    (addr + (align - 1)) & !(align - 1)
}

/// Why words could not be turned into a value, or a value into words.
#[derive(Clone, Copy, Debug, PartialEq, Eq, Structural)]
pub enum Error {
    /// The words end before the value does.
    UnexpectedEnd,
    /// The bytes of a string are not UTF-8.
    BadUtf8,
    /// A length does not fit its word.
    BadLength,
    /// The words do not fit the buffer.
    BufferFull,
}

/// The longest string, in bytes, that can be padded whatever the width of the
/// machine's addresses.
pub const MAX_STRING_BYTES: u32 = 0xffff_fffb;

/// A value that can be turned into words.
pub trait Serialize: DeepView {
    /// All lengths fit their words.
    spec fn encodable(v: Self::V) -> bool;

    /// The words that stand for a value.
    spec fn encoded(v: Self::V) -> Seq<u32>;

    /// Appends the words of this value. Where it fails, some of them may have
    /// been appended.
    fn serialize(&self, out: &mut Vec<u32>) -> (r: Result<(), Error>)
        ensures
            old(out)@.is_prefix_of(final(out)@),
            Self::encodable(self.deep_view()) ==> r is Ok && final(out)@ == old(out)@ + Self::encoded(
                self.deep_view(),
            ),
            !Self::encodable(self.deep_view()) ==> r == Err::<(), Error>(Error::BadLength),
    ;
}

/// Words that are being read.
pub struct Deserializer<'a> {
    pub words: &'a [u32],
    pub pos: usize,
}

impl<'a> Deserializer<'a> {
    pub open spec fn wf(&self) -> bool {
        self.pos <= self.words@.len()
    }

    /// The words yet to be read.
    pub open spec fn rest(&self) -> Seq<u32> {
        self.words@.skip(self.pos as int)
    }

    /// Starts to read `words`.
    pub fn new(words: &'a [u32]) -> (r: Self)
        ensures
            r.wf(),
            r.rest() == words@,
    {
        assert(words@.skip(0) =~= words@);
        Deserializer { words, pos: 0 }
    }

    /// Reads one word.
    pub fn read_word(&mut self) -> (r: Result<u32, Error>)
        requires
            old(self).wf(),
        ensures
            final(self).wf(),
            final(self).words@ == old(self).words@,
            old(self).rest().len() == 0 ==> r == Err::<u32, Error>(Error::UnexpectedEnd) && final(self).pos == old(
                self,
            ).pos,
            old(self).rest().len() > 0 ==> r == Ok::<u32, Error>(old(self).rest()[0]) && final(self).rest() == old(
                self,
            ).rest().skip(1),
    {
        if self.pos >= self.words.len() {
            return Err(Error::UnexpectedEnd);
        }
        let word = self.words[self.pos];
        self.pos = self.pos + 1;
        assert(self.rest() =~= old(self).rest().skip(1));
        Ok(word)
    }
}

/// A value that can be read from words.
pub trait Deserialize: DeepView + Sized {
    /// The value that the words begin with, and how many of them it takes.
    spec fn decoded(words: Seq<u32>) -> Result<(Self::V, nat), Error>;

    /// A value takes no more words than there are.
    proof fn lemma_decoded_len(words: Seq<u32>)
        ensures
            Self::decoded(words) matches Ok((v, n)) ==> n <= words.len(),
    ;

    /// Reads one value. Where it fails, some words may have been read.
    fn deserialize<'a>(d: &mut Deserializer<'a>) -> (r: Result<Self, Error>)
        requires
            old(d).wf(),
        ensures
            final(d).wf(),
            final(d).words@ == old(d).words@,
            match Self::decoded(old(d).rest()) {
                Ok((v, n)) => r matches Ok(value) && value.deep_view() == v && final(d).rest() == old(d).rest().skip(
                    n as int,
                ),
                Err(e) => r matches Err(error) && error == e,
            },
    ;
}

/// A value that is read back as it was written.
pub trait Serde: Serialize + Deserialize {
    /// The words of a value, followed by any others, are read as that value.
    proof fn law_reads_back(v: Self::V, more: Seq<u32>)
        requires
            Self::encodable(v),
        ensures
            Self::decoded(Self::encoded(v) + more) == Ok::<(Self::V, nat), Error>((v, Self::encoded(v).len())),
    ;
}

impl Serialize for u32 {
    open spec fn encodable(v: u32) -> bool {
        true
    }

    open spec fn encoded(v: u32) -> Seq<u32> {
        seq![v]
    }

    fn serialize(&self, out: &mut Vec<u32>) -> (r: Result<(), Error>) {
        out.push(*self);
        assert(out@ =~= old(out)@ + seq![*self]);
        Ok(())
    }
}

impl Deserialize for u32 {
    open spec fn decoded(words: Seq<u32>) -> Result<(u32, nat), Error> {
        if words.len() == 0 {
            Err(Error::UnexpectedEnd)
        } else {
            Ok((words[0], 1))
        }
    }

    proof fn lemma_decoded_len(words: Seq<u32>) {
    }

    fn deserialize<'a>(d: &mut Deserializer<'a>) -> (r: Result<u32, Error>) {
        d.read_word()
    }
}

impl Serde for u32 {
    proof fn law_reads_back(v: u32, more: Seq<u32>) {
    }
}

impl Serialize for u64 {
    open spec fn encodable(v: u64) -> bool {
        true
    }

    open spec fn encoded(v: u64) -> Seq<u32> {
        seq![(v % 0x1_0000_0000) as u32, (v / 0x1_0000_0000) as u32]
    }

    fn serialize(&self, out: &mut Vec<u32>) -> (r: Result<(), Error>) {
        out.push((*self % 0x1_0000_0000) as u32);
        out.push((*self / 0x1_0000_0000) as u32);
        assert(out@ =~= old(out)@ + Self::encoded(*self));
        Ok(())
    }
}

impl Deserialize for u64 {
    open spec fn decoded(words: Seq<u32>) -> Result<(u64, nat), Error> {
        if words.len() < 2 {
            Err(Error::UnexpectedEnd)
        } else {
            Ok(((words[0] + words[1] * 0x1_0000_0000) as u64, 2))
        }
    }

    proof fn lemma_decoded_len(words: Seq<u32>) {
    }

    fn deserialize<'a>(d: &mut Deserializer<'a>) -> (r: Result<u64, Error>) {
        let low = match d.read_word() {
            Ok(word) => word,
            Err(e) => return Err(e),
        };
        let high = match d.read_word() {
            Ok(word) => word,
            Err(e) => return Err(e),
        };
        assert(d.rest() =~= old(d).rest().skip(2));
        Ok(low as u64 + high as u64 * 0x1_0000_0000)
    }
}

impl Serde for u64 {
    proof fn law_reads_back(v: u64, more: Seq<u32>) {
    }
}

impl<A: Serialize, B: Serialize> Serialize for (A, B) {
    open spec fn encodable(v: (A::V, B::V)) -> bool {
        A::encodable(v.0) && B::encodable(v.1)
    }

    open spec fn encoded(v: (A::V, B::V)) -> Seq<u32> {
        A::encoded(v.0) + B::encoded(v.1)
    }

    fn serialize(&self, out: &mut Vec<u32>) -> (r: Result<(), Error>) {
        match self.0.serialize(out) {
            Ok(()) => {},
            Err(e) => return Err(e),
        }
        match self.1.serialize(out) {
            Ok(()) => {},
            Err(e) => return Err(e),
        }
        assert(out@ =~= old(out)@ + Self::encoded(self.deep_view()));
        Ok(())
    }
}

impl<A: Deserialize, B: Deserialize> Deserialize for (A, B) {
    open spec fn decoded(words: Seq<u32>) -> Result<((A::V, B::V), nat), Error> {
        match A::decoded(words) {
            Err(e) => Err(e),
            Ok((a, m)) => match B::decoded(words.skip(m as int)) {
                Err(e) => Err(e),
                Ok((b, n)) => Ok(((a, b), m + n)),
            },
        }
    }

    proof fn lemma_decoded_len(words: Seq<u32>) {
        A::lemma_decoded_len(words);
        if let Ok((a, m)) = A::decoded(words) {
            B::lemma_decoded_len(words.skip(m as int));
        }
    }

    fn deserialize<'a>(d: &mut Deserializer<'a>) -> (r: Result<(A, B), Error>) {
        proof {
            A::lemma_decoded_len(d.rest());
        }
        let a = match A::deserialize(d) {
            Ok(a) => a,
            Err(e) => return Err(e),
        };
        let ghost middle = d.rest();
        proof {
            B::lemma_decoded_len(middle);
        }
        let b = match B::deserialize(d) {
            Ok(b) => b,
            Err(e) => return Err(e),
        };
        proof {
            let (m, n) = (A::decoded(old(d).rest())->Ok_0.1, B::decoded(middle)->Ok_0.1);
            assert(old(d).rest().skip(m as int).skip(n as int) =~= old(d).rest().skip((m + n) as int));
        }
        Ok((a, b))
    }
}

impl<A: Serde, B: Serde> Serde for (A, B) {
    proof fn law_reads_back(v: (A::V, B::V), more: Seq<u32>) {
        let (a, b) = (A::encoded(v.0), B::encoded(v.1));
        assert(a + b + more =~= a + (b + more));
        A::law_reads_back(v.0, b + more);
        assert((a + (b + more)).skip(a.len() as int) =~= b + more);
        B::law_reads_back(v.1, more);
    }
}

/// The words of several values.
pub open spec fn all_encoded<T: Serialize>(s: Seq<T::V>) -> Seq<u32>
    decreases s.len(),
{
    if s.len() == 0 {
        Seq::empty()
    } else {
        all_encoded::<T>(s.drop_last()) + T::encoded(s.last())
    }
}

/// The `n` values that the words begin with, and how many words they take.
pub open spec fn all_decoded<T: Deserialize>(words: Seq<u32>, n: nat) -> Result<(Seq<T::V>, nat), Error>
    decreases n,
{
    if n == 0 {
        Ok((Seq::empty(), 0))
    } else {
        match all_decoded::<T>(words, (n - 1) as nat) {
            Err(e) => Err(e),
            Ok((s, used)) => match T::decoded(words.skip(used as int)) {
                Err(e) => Err(e),
                Ok((v, more)) => Ok((s.push(v), used + more)),
            },
        }
    }
}

pub proof fn lemma_all_decoded_len<T: Deserialize>(words: Seq<u32>, n: nat)
    ensures
        all_decoded::<T>(words, n) matches Ok((s, used)) ==> used <= words.len() && s.len() == n,
    decreases n,
{
    if n > 0 {
        lemma_all_decoded_len::<T>(words, (n - 1) as nat);
        if let Ok((s, used)) = all_decoded::<T>(words, (n - 1) as nat) {
            T::lemma_decoded_len(words.skip(used as int));
        }
    }
}

/// Once a value cannot be read, neither can a longer sequence.
pub proof fn lemma_all_decoded_fails<T: Deserialize>(words: Seq<u32>, m: nat, n: nat)
    requires
        m <= n,
        all_decoded::<T>(words, m) is Err,
    ensures
        all_decoded::<T>(words, n) is Err,
        all_decoded::<T>(words, n)->Err_0 == all_decoded::<T>(words, m)->Err_0,
    decreases n,
{
    if m < n {
        lemma_all_decoded_fails::<T>(words, m, (n - 1) as nat);
    }
}

pub proof fn lemma_all_reads_back<T: Serde>(s: Seq<T::V>, more: Seq<u32>)
    requires
        forall|i: int| 0 <= i < s.len() ==> T::encodable(#[trigger] s[i]),
    ensures
        all_decoded::<T>(all_encoded::<T>(s) + more, s.len()) == Ok::<(Seq<T::V>, nat), Error>(
            (s, all_encoded::<T>(s).len()),
        ),
    decreases s.len(),
{
    if s.len() > 0 {
        let (init, last) = (s.drop_last(), s.last());
        let (a, b) = (all_encoded::<T>(init), T::encoded(last));
        assert(T::encodable(s[s.len() - 1]));
        assert(a + b + more =~= a + (b + more));
        lemma_all_reads_back::<T>(init, b + more);
        assert((a + (b + more)).skip(a.len() as int) =~= b + more);
        T::law_reads_back(last, more);
        assert(init.push(last) =~= s);
    } else {
        assert(s =~= Seq::<T::V>::empty());
    }
}

impl<T: Serialize> Serialize for Vec<T> {
    open spec fn encodable(v: Seq<T::V>) -> bool {
        &&& v.len() <= u32::MAX
        &&& forall|i: int| 0 <= i < v.len() ==> T::encodable(#[trigger] v[i])
    }

    open spec fn encoded(v: Seq<T::V>) -> Seq<u32> {
        seq![v.len() as u32] + all_encoded::<T>(v)
    }

    fn serialize(&self, out: &mut Vec<u32>) -> (r: Result<(), Error>) {
        let ghost v = self.deep_view();
        let n: usize = self.len();
        if n > u32::MAX as usize {
            return Err(Error::BadLength);
        }
        out.push(n as u32);
        let ghost start = out@;
        let mut i: usize = 0;
        assert(v.take(0) =~= Seq::<T::V>::empty());
        assert(out@ =~= start + all_encoded::<T>(v.take(0)));
        while i < n
            invariant
                i <= n,
                n == self@.len(),
                v == self.deep_view(),
                forall|j: int| 0 <= j < i ==> T::encodable(#[trigger] v[j]),
                old(out)@.is_prefix_of(start),
                out@ == start + all_encoded::<T>(v.take(i as int)),
            decreases n - i,
        {
            assert(v[i as int] == self@[i as int].deep_view());
            match self[i].serialize(out) {
                Ok(()) => {},
                Err(e) => {
                    assert(!T::encodable(v[i as int]));
                    return Err(e);
                },
            }
            assert(v.take(i + 1).drop_last() =~= v.take(i as int));
            assert(out@ =~= start + all_encoded::<T>(v.take(i + 1)));
            i = i + 1;
        }
        assert(v.take(n as int) =~= v);
        assert(out@ =~= old(out)@ + Self::encoded(v));
        Ok(())
    }
}

impl<T: Deserialize> Deserialize for Vec<T> {
    open spec fn decoded(words: Seq<u32>) -> Result<(Seq<T::V>, nat), Error> {
        if words.len() == 0 {
            Err(Error::UnexpectedEnd)
        } else {
            match all_decoded::<T>(words.skip(1), words[0] as nat) {
                Err(e) => Err(e),
                Ok((s, used)) => Ok((s, 1 + used)),
            }
        }
    }

    proof fn lemma_decoded_len(words: Seq<u32>) {
        if words.len() > 0 {
            lemma_all_decoded_len::<T>(words.skip(1), words[0] as nat);
        }
    }

    fn deserialize<'a>(d: &mut Deserializer<'a>) -> (r: Result<Vec<T>, Error>) {
        let ghost words = d.rest();
        let n = match d.read_word() {
            Ok(word) => word,
            Err(e) => return Err(e),
        };
        let ghost start = d.rest();
        let mut values: Vec<T> = Vec::new();
        let ghost mut used: nat = 0;
        let mut i: u32 = 0;
        assert(values.deep_view() =~= Seq::<T::V>::empty());
        assert(start.skip(0) =~= start);
        while i < n
            invariant
                i <= n,
                d.wf(),
                d.words@ == old(d).words@,
                words.len() > 0,
                n == words[0],
                start == words.skip(1),
                words == old(d).rest(),
                used <= start.len(),
                d.rest() == start.skip(used as int),
                all_decoded::<T>(start, i as nat) == Ok::<(Seq<T::V>, nat), Error>((values.deep_view(), used)),
            decreases n - i,
        {
            let ghost here = d.rest();
            proof {
                T::lemma_decoded_len(here);
            }
            let value = match T::deserialize(d) {
                Ok(value) => value,
                Err(e) => {
                    proof {
                        assert(all_decoded::<T>(start, (i + 1) as nat) is Err);
                        lemma_all_decoded_fails::<T>(start, (i + 1) as nat, n as nat);
                    }
                    return Err(e);
                },
            };
            let ghost before = values.deep_view();
            values.push(value);
            proof {
                let more = T::decoded(here)->Ok_0.1;
                assert(values.deep_view() =~= before.push(value.deep_view()));
                assert(start.skip(used as int).skip(more as int) =~= start.skip((used + more) as int));
                used = used + more;
            }
            i = i + 1;
        }
        proof {
            assert(start.skip(used as int) =~= words.skip((1 + used) as int));
        }
        Ok(values)
    }
}

impl<T: Serde> Serde for Vec<T> {
    proof fn law_reads_back(v: Seq<T::V>, more: Seq<u32>) {
        let words = Self::encoded(v) + more;
        assert(words.skip(1) =~= all_encoded::<T>(v) + more);
        lemma_all_reads_back::<T>(v, more);
    }
}

/// Byte `i` of a string that is continued by zeros.
pub open spec fn byte_at(bytes: Seq<u8>, i: int) -> u8 {
    if i < bytes.len() {
        bytes[i]
    } else {
        0
    }
}

/// The word that holds four bytes, the first one lowest.
pub open spec fn little_endian(b0: u8, b1: u8, b2: u8, b3: u8) -> u32 {
    (b0 + b1 * 0x100 + b2 * 0x1_0000 + b3 * 0x100_0000) as u32
}

/// Byte `j` of a word, the lowest one being the first.
pub open spec fn byte_of(word: u32, j: int) -> u8 {
    (if j == 0 {
        word % 0x100
    } else if j == 1 {
        (word / 0x100) % 0x100
    } else if j == 2 {
        (word / 0x1_0000) % 0x100
    } else {
        word / 0x100_0000
    }) as u8
}

/// The number of words that hold `n` bytes.
pub open spec fn word_count(n: nat) -> nat {
    aligned(n, 4) / 4
}

/// Bytes packed into words.
pub open spec fn packed(bytes: Seq<u8>) -> Seq<u32> {
    Seq::new(
        word_count(bytes.len()),
        |i: int|
            little_endian(
                byte_at(bytes, 4 * i),
                byte_at(bytes, 4 * i + 1),
                byte_at(bytes, 4 * i + 2),
                byte_at(bytes, 4 * i + 3),
            ),
    )
}

/// The first `n` bytes held by words.
pub open spec fn unpacked(words: Seq<u32>, n: nat) -> Seq<u8> {
    Seq::new(n, |i: int| byte_of(words[i / 4], i % 4))
}

/// The bytes of a word are those it was made of.
pub proof fn lemma_bytes_of_word(b0: u8, b1: u8, b2: u8, b3: u8)
    ensures
        byte_of(little_endian(b0, b1, b2, b3), 0) == b0,
        byte_of(little_endian(b0, b1, b2, b3), 1) == b1,
        byte_of(little_endian(b0, b1, b2, b3), 2) == b2,
        byte_of(little_endian(b0, b1, b2, b3), 3) == b3,
{
    let w = b0 + b1 * 0x100 + b2 * 0x1_0000 + b3 * 0x100_0000;
    let high1 = b1 + b2 * 0x100 + b3 * 0x1_0000;
    let high2 = b2 + b3 * 0x100;
    lemma_fundamental_div_mod_converse(w, 0x100, high1, b0 as int);
    lemma_fundamental_div_mod_converse(high1, 0x100, high2, b1 as int);
    lemma_fundamental_div_mod_converse(w, 0x1_0000, high2, b0 + b1 * 0x100);
    lemma_fundamental_div_mod_converse(high2, 0x100, b3 as int, b2 as int);
    lemma_fundamental_div_mod_converse(w, 0x100_0000, b3 as int, b0 + b1 * 0x100 + b2 * 0x1_0000);
}

/// What is packed is unpacked again.
pub proof fn law_unpacks(bytes: Seq<u8>)
    ensures
        unpacked(packed(bytes), bytes.len()) == bytes,
{
    law_aligned(bytes.len(), 4);
    assert forall|i: int| 0 <= i < bytes.len() implies #[trigger] unpacked(packed(bytes), bytes.len())[i]
        == bytes[i] by {
        let k = i / 4;
        let (b0, b1) = (byte_at(bytes, 4 * k), byte_at(bytes, 4 * k + 1));
        let (b2, b3) = (byte_at(bytes, 4 * k + 2), byte_at(bytes, 4 * k + 3));
        assert(packed(bytes)[k] == little_endian(b0, b1, b2, b3));
        lemma_bytes_of_word(b0, b1, b2, b3);
    }
    assert(unpacked(packed(bytes), bytes.len()) =~= bytes);
}

impl Serialize for String {
    open spec fn encodable(v: Seq<char>) -> bool {
        encode_utf8(v).len() <= MAX_STRING_BYTES
    }

    open spec fn encoded(v: Seq<char>) -> Seq<u32> {
        let bytes = encode_utf8(v);
        seq![bytes.len() as u32] + packed(bytes)
    }

    fn serialize(&self, out: &mut Vec<u32>) -> (r: Result<(), Error>) {
        let bytes = self.as_str().as_bytes();
        let n: usize = bytes.len();
        if n > MAX_STRING_BYTES as usize {
            return Err(Error::BadLength);
        }
        proof {
            lemma2_to64();
            law_aligned(n as nat, 4);
        }
        let count: usize = align_up(n, 4) / 4;
        out.push(n as u32);
        let ghost start = out@;
        let mut i: usize = 0;
        while i < count
            invariant
                i <= count,
                n == bytes@.len(),
                n <= MAX_STRING_BYTES,
                count == word_count(n as nat),
                4 * count < n + 4,
                out@ == start + packed(bytes@).take(i as int),
            decreases count - i,
        {
            let at: usize = 4 * i;
            let b0: u8 = bytes[at];
            let b1: u8 = if at + 1 < n {
                bytes[at + 1]
            } else {
                0
            };
            let b2: u8 = if at + 2 < n {
                bytes[at + 2]
            } else {
                0
            };
            let b3: u8 = if at + 3 < n {
                bytes[at + 3]
            } else {
                0
            };
            out.push(b0 as u32 + b1 as u32 * 0x100 + b2 as u32 * 0x1_0000 + b3 as u32 * 0x100_0000);
            assert(out@ =~= start + packed(bytes@).take(i + 1));
            i = i + 1;
        }
        assert(out@ =~= old(out)@ + Self::encoded(self@));
        Ok(())
    }
}

/// Calls `String::from_utf8`, which succeeds on exactly the valid UTF-8
/// encodings and gives the string that is encoded.
#[verifier::external_body]
fn string_from_utf8(bytes: Vec<u8>) -> (r: Option<String>)
    ensures
        r is Some == valid_utf8(bytes@),
        r matches Some(s) ==> s@ == decode_utf8(bytes@),
{
    String::from_utf8(bytes).ok()
}

impl Deserialize for String {
    open spec fn decoded(words: Seq<u32>) -> Result<(Seq<char>, nat), Error> {
        if words.len() == 0 {
            Err(Error::UnexpectedEnd)
        } else if words[0] > MAX_STRING_BYTES {
            Err(Error::BadLength)
        } else {
            let count = word_count(words[0] as nat);
            let bytes = unpacked(words.skip(1), words[0] as nat);
            if words.len() < 1 + count {
                Err(Error::UnexpectedEnd)
            } else if !valid_utf8(bytes) {
                Err(Error::BadUtf8)
            } else {
                Ok((decode_utf8(bytes), 1 + count))
            }
        }
    }

    proof fn lemma_decoded_len(words: Seq<u32>) {
    }

    fn deserialize<'a>(d: &mut Deserializer<'a>) -> (r: Result<String, Error>) {
        let ghost words = d.rest();
        let length = match d.read_word() {
            Ok(word) => word,
            Err(e) => return Err(e),
        };
        if length > MAX_STRING_BYTES {
            return Err(Error::BadLength);
        }
        let ghost body = d.rest();
        let n: usize = length as usize;
        proof {
            lemma2_to64();
            law_aligned(n as nat, 4);
        }
        let count: usize = align_up(n, 4) / 4;
        let total: usize = d.words.len();
        assert(body.len() == total - d.pos);
        assert(words.len() == 1 + body.len());
        if total - d.pos < count {
            return Err(Error::UnexpectedEnd);
        }
        let mut bytes: Vec<u8> = Vec::new();
        let mut i: usize = 0;
        while i < n
            invariant
                i <= n,
                n <= 4 * count,
                d.pos <= total,
                total == d.words@.len(),
                d.words@ == old(d).words@,
                d.rest() == body,
                body.len() == total - d.pos,
                body.len() >= count,
                bytes@ == unpacked(body, n as nat).take(i as int),
            decreases n - i,
        {
            assert(d.rest()[i as int / 4] == d.words@[d.pos + i / 4]);
            let word: u32 = d.words[d.pos + i / 4];
            let j: usize = i % 4;
            let byte: u32 = if j == 0 {
                word % 0x100
            } else if j == 1 {
                (word / 0x100) % 0x100
            } else if j == 2 {
                (word / 0x1_0000) % 0x100
            } else {
                word / 0x100_0000
            };
            bytes.push(byte as u8);
            assert(bytes@ =~= unpacked(body, n as nat).take(i + 1));
            i = i + 1;
        }
        assert(bytes@ =~= unpacked(body, n as nat));
        match string_from_utf8(bytes) {
            Some(s) => {
                d.pos = d.pos + count;
                assert(d.rest() =~= body.skip(count as int));
                assert(body.skip(count as int) =~= words.skip((1 + count) as int));
                Ok(s)
            },
            None => Err(Error::BadUtf8),
        }
    }
}

impl Serde for String {
    proof fn law_reads_back(v: Seq<char>, more: Seq<u32>) {
        let bytes = encode_utf8(v);
        let words = Self::encoded(v) + more;
        law_aligned(bytes.len(), 4);
        law_unpacks(bytes);
        assert(unpacked(words.skip(1), bytes.len()) =~= unpacked(packed(bytes), bytes.len()));
        encode_utf8_valid_utf8(v);
        encode_utf8_decode_utf8(v);
    }
}

/// Serializes a value to words.
pub fn to_vec<T: Serialize>(value: &T) -> (r: Result<Vec<u32>, Error>)
    ensures
        T::encodable(value.deep_view()) ==> r is Ok && r->Ok_0@ == T::encoded(value.deep_view()),
        !T::encodable(value.deep_view()) ==> r == Err::<Vec<u32>, Error>(Error::BadLength),
{
    let mut out: Vec<u32> = Vec::new();
    match value.serialize(&mut out) {
        Ok(()) => {
            assert(Seq::<u32>::empty() + T::encoded(value.deep_view()) =~= T::encoded(value.deep_view()));
            Ok(out)
        },
        Err(e) => Err(e),
    }
}

/// Serializes a value to words, in a vector that has room for `capacity` words
/// from the start.
pub fn to_vec_with_capacity<T: Serialize>(value: &T, capacity: usize) -> (r: Result<Vec<u32>, Error>)
    ensures
        T::encodable(value.deep_view()) ==> r is Ok && r->Ok_0@ == T::encoded(value.deep_view()),
        !T::encodable(value.deep_view()) ==> r == Err::<Vec<u32>, Error>(Error::BadLength),
{
    let mut out: Vec<u32> = Vec::with_capacity(capacity);
    match value.serialize(&mut out) {
        Ok(()) => {
            assert(Seq::<u32>::empty() + T::encoded(value.deep_view()) =~= T::encoded(value.deep_view()));
            Ok(out)
        },
        Err(e) => Err(e),
    }
}

/// Serializes a value to the front of a buffer, and returns the number of
/// words written.
pub fn to_slice<T: Serialize>(value: &T, buf: &mut [u32]) -> (r: Result<usize, Error>)
    ensures
        final(buf)@.len() == old(buf)@.len(),
        !T::encodable(value.deep_view()) ==> r == Err::<usize, Error>(Error::BadLength) && final(buf)@ == old(buf)@,
        T::encodable(value.deep_view()) && T::encoded(value.deep_view()).len() > old(buf)@.len() ==> r == Err::<
            usize,
            Error,
        >(Error::BufferFull) && final(buf)@ == old(buf)@,
        T::encodable(value.deep_view()) && T::encoded(value.deep_view()).len() <= old(buf)@.len() ==> {
            &&& r is Ok
            &&& r->Ok_0 == T::encoded(value.deep_view()).len()
            &&& final(buf)@ == T::encoded(value.deep_view()) + old(buf)@.skip(r->Ok_0 as int)
        },
{
    let ghost before = buf@;
    let words = match to_vec(value) {
        Ok(words) => words,
        Err(e) => return Err(e),
    };
    let n: usize = words.len();
    if n > buf.len() {
        return Err(Error::BufferFull);
    }
    let mut i: usize = 0;
    while i < n
        invariant
            i <= n,
            n == words@.len(),
            n <= buf@.len(),
            buf@.len() == before.len(),
            buf@ == words@.take(i as int) + before.skip(i as int),
        decreases n - i,
    {
        buf[i] = words[i];
        i = i + 1;
        assert(buf@ =~= words@.take(i as int) + before.skip(i as int));
    }
    assert(words@.take(n as int) =~= words@);
    Ok(n)
}

/// Deserializes the value that words begin with. Words after it are ignored.
pub fn from_slice<T: Deserialize>(words: &[u32]) -> (r: Result<T, Error>)
    ensures
        match T::decoded(words@) {
            Ok((v, n)) => r matches Ok(value) && value.deep_view() == v,
            Err(e) => r matches Err(error) && error == e,
        },
{
    let mut d = Deserializer::new(words);
    T::deserialize(&mut d)
}

/// What [`to_vec`] writes of a value, [`from_slice`] reads as that value.
pub proof fn law_round_trip<T: Serde>(v: T::V)
    requires
        T::encodable(v),
    ensures
        T::decoded(T::encoded(v)) == Ok::<(T::V, nat), Error>((v, T::encoded(v).len())),
{
    T::law_reads_back(v, Seq::empty());
    assert(T::encoded(v) + Seq::empty() =~= T::encoded(v));
}

/// Values that are written alike are the same.
pub proof fn law_encoding_is_injective<T: Serde>(v: T::V, w: T::V)
    requires
        T::encodable(v),
        T::encodable(w),
        T::encoded(v) == T::encoded(w),
    ensures
        v == w,
{
    law_round_trip::<T>(v);
    law_round_trip::<T>(w);
}

} // verus!
