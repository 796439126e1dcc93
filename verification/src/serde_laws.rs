//! What the words of a value are, which values have words, and which words
//! are read as a value.
use crate::entry_map::{collected, entries_map, inserted, keys_differ, lemma_place, place, EntryMap, Key};
use crate::serde::{all_decoded, all_encoded, byte_of, packed, unpacked};
use crate::serde::{law_aligned, law_unpacks, lemma_all_decoded_fails, lemma_all_decoded_len, lemma_all_reads_back};
use crate::serde::{lemma_bytes_of_word, Deserialize, Error, Serde, Serialize};
use vstd::arithmetic::power2::{lemma2_to64, pow2};
use vstd::prelude::*;
use vstd::utf8::{decode_utf8_encode_utf8, encode_utf8, valid_utf8};
use vstd::utf8::{encode_utf8_decode_utf8, encode_utf8_valid_utf8};

verus! {

/// Every integer has words: one of 32 bits is its own word, one of 64 bits is
/// the sum of its first word and `2^32` times its second.
pub proof fn law_integers_are_written(v: u32, w: u64)
    ensures
        u32::encodable(v),
        u32::encoded(v) == seq![v],
        u64::encodable(w),
        u64::encoded(w).len() == 2,
        u64::encoded(w)[0] + u64::encoded(w)[1] * 0x1_0000_0000 == w,
{
}

/// An integer is read wherever there are words enough for it.
pub proof fn law_integers_are_read(words: Seq<u32>)
    ensures
        words.len() >= 1 ==> u32::decoded(words) == Ok::<(u32, nat), Error>((words[0], 1)),
        words.len() == 0 ==> u32::decoded(words) == Err::<(u32, nat), Error>(Error::UnexpectedEnd),
        words.len() >= 2 ==> (u64::decoded(words) matches Ok((v, n)) && n == 2 && v == words[0] + words[1]
            * 0x1_0000_0000),
        words.len() < 2 ==> u64::decoded(words) == Err::<(u64, nat), Error>(Error::UnexpectedEnd),
{
}

/// A pair has words if and only if both components have, and they follow each
/// other.
pub proof fn law_pairs_are_written<A: Serialize, B: Serialize>(a: A::V, b: B::V)
    ensures
        <(A, B)>::encodable((a, b)) <==> A::encodable(a) && B::encodable(b),
        <(A, B)>::encoded((a, b)) == A::encoded(a) + B::encoded(b),
{
}

/// A sequence has words if and only if its elements have and its length fits a
/// word: none is too long before that.
pub proof fn law_sequences_can_be_written<T: Serialize>(v: Seq<T::V>)
    ensures
        Vec::<T>::encodable(v) <==> {
            &&& v.len() <= 0xffff_ffff
            &&& forall|i: int| 0 <= i < v.len() ==> T::encodable(#[trigger] v[i])
        },
{
}

/// The words of a sequence are its length, and those of all its elements in
/// their order.
pub proof fn law_sequences_are_written<T: Serialize>(v: Seq<T::V>)
    requires
        v.len() <= 0xffff_ffff,
    ensures
        Vec::<T>::encoded(v).len() > 0,
        Vec::<T>::encoded(v)[0] == v.len(),
        Vec::<T>::encoded(v).skip(1) == Seq::new(v.len(), |i: int| T::encoded(v[i])).flatten(),
{
    lemma_all_encoded_is_flat::<T>(v);
    assert(Vec::<T>::encoded(v).skip(1) =~= all_encoded::<T>(v));
}

proof fn lemma_all_encoded_is_flat<T: Serialize>(v: Seq<T::V>)
    ensures
        all_encoded::<T>(v) == Seq::new(v.len(), |i: int| T::encoded(v[i])).flatten(),
    decreases v.len(),
{
    let pieces = Seq::new(v.len(), |i: int| T::encoded(v[i]));
    if v.len() > 0 {
        let init = v.drop_last();
        let before = Seq::new(init.len(), |i: int| T::encoded(init[i]));
        lemma_all_encoded_is_flat::<T>(init);
        before.lemma_flatten_push(T::encoded(v.last()));
        assert(pieces =~= before.push(T::encoded(v.last())));
    } else {
        assert(pieces.len() == 0);
    }
}

/// The bytes of the text that a string of words holds, its length apart.
pub open spec fn holds_bytes(words: Seq<u32>, bytes: Seq<u8>) -> bool {
    forall|i: int|
        0 <= i < bytes.len() ==> #[trigger] bytes[i] == (words[1 + i / 4] as int / pow2((8 * (i % 4)) as nat) as int)
            % 256
}

/// A text has words if and only if its bytes are no more than can be padded.
pub proof fn law_text_can_be_written(v: Seq<char>)
    ensures
        String::encodable(v) <==> encode_utf8(v).len() <= 0xffff_fffb,
{
}

proof fn lemma_byte_of(word: u32, j: int)
    requires
        0 <= j < 4,
    ensures
        byte_of(word, j) == (word as int / pow2((8 * j) as nat) as int) % 256,
{
    lemma2_to64();
    if j == 0 {
        assert(word as int / 1 == word as int);
    }
}

/// The words of a text are the number of its bytes, and its bytes, four to a
/// word, the first one lowest; the last word is filled up with zeros.
pub proof fn law_text_is_written(v: Seq<char>)
    requires
        encode_utf8(v).len() <= 0xffff_fffb,
    ensures
        ({
            let bytes = encode_utf8(v);
            let words = String::encoded(v);
            &&& words.len() == 1 + (bytes.len() + 3) / 4
            &&& words[0] == bytes.len()
            &&& holds_bytes(words, bytes)
            &&& forall|i: int|
                bytes.len() <= i < 4 * (words.len() - 1) ==> (#[trigger] words[1 + i / 4] as int / pow2(
                    (8 * (i % 4)) as nat,
                ) as int) % 256 == 0
        }),
{
    let bytes = encode_utf8(v);
    let words = String::encoded(v);
    law_aligned(bytes.len(), 4);
    assert forall|i: int| 0 <= i < 4 * (words.len() - 1) implies (#[trigger] words[1 + i / 4] as int / pow2(
        (8 * (i % 4)) as nat,
    ) as int) % 256 == crate::serde::byte_at(bytes, i) by {
        let k = i / 4;
        let (b0, b1) = (crate::serde::byte_at(bytes, 4 * k), crate::serde::byte_at(bytes, 4 * k + 1));
        let (b2, b3) = (crate::serde::byte_at(bytes, 4 * k + 2), crate::serde::byte_at(bytes, 4 * k + 3));
        assert(words[1 + k] == packed(bytes)[k]);
        lemma_bytes_of_word(b0, b1, b2, b3);
        lemma_byte_of(words[1 + k], i % 4);
    }
    assert forall|i: int| 0 <= i < bytes.len() implies #[trigger] bytes[i] == (words[1 + i / 4] as int / pow2(
        (8 * (i % 4)) as nat,
    ) as int) % 256 by {
        assert(i < 4 * (words.len() - 1));
        assert((words[1 + i / 4] as int / pow2((8 * (i % 4)) as nat) as int) % 256 == crate::serde::byte_at(bytes, i));
    }
}

/// Reading gives all of a text: whatever its length, the number of its bytes
/// followed by its packed bytes is read as that text, and as nothing after it.
pub proof fn law_text_is_read(v: Seq<char>, more: Seq<u32>)
    requires
        encode_utf8(v).len() <= 0xffff_fffb,
    ensures
        String::decoded(seq![encode_utf8(v).len() as u32] + packed(encode_utf8(v)) + more) == Ok::<
            (Seq<char>, nat),
            Error,
        >((v, 1 + (encode_utf8(v).len() + 3) / 4)),
{
    let bytes = encode_utf8(v);
    let words = seq![bytes.len() as u32] + packed(bytes) + more;
    law_aligned(bytes.len(), 4);
    law_unpacks(bytes);
    assert(unpacked(words.skip(1), bytes.len()) =~= unpacked(packed(bytes), bytes.len()));
    encode_utf8_valid_utf8(v);
    encode_utf8_decode_utf8(v);
}

/// Which words are read as a text: those that begin with a length and hold that
/// many bytes of UTF-8. What is read encodes to exactly those bytes.
pub proof fn law_words_are_read_as_text(words: Seq<u32>, bytes: Seq<u8>)
    requires
        words.len() > 0 ==> bytes.len() == words[0],
        words.len() >= 1 + (bytes.len() + 3) / 4 ==> holds_bytes(words, bytes),
    ensures
        ({
            let count = (bytes.len() + 3) / 4;
            let read = String::decoded(words);
            if words.len() == 0 {
                read == Err::<(Seq<char>, nat), Error>(Error::UnexpectedEnd)
            } else if bytes.len() > 0xffff_fffb {
                read == Err::<(Seq<char>, nat), Error>(Error::BadLength)
            } else if words.len() < 1 + count {
                read == Err::<(Seq<char>, nat), Error>(Error::UnexpectedEnd)
            } else if !valid_utf8(bytes) {
                read == Err::<(Seq<char>, nat), Error>(Error::BadUtf8)
            } else {
                read matches Ok((v, n)) && n == 1 + count && encode_utf8(v) == bytes
            }
        }),
{
    if words.len() > 0 {
        law_aligned(bytes.len(), 4);
        if bytes.len() <= 0xffff_fffb && words.len() >= 1 + (bytes.len() + 3) / 4 {
            let read = unpacked(words.skip(1), bytes.len());
            assert forall|i: int| 0 <= i < bytes.len() implies #[trigger] read[i] == bytes[i] by {
                lemma_byte_of(words[1 + i / 4], i % 4);
            }
            assert(read =~= bytes);
            if valid_utf8(bytes) {
                decode_utf8_encode_utf8(bytes);
            }
        }
    }
}

/// Where a value is read from the words, they begin with the words of that
/// value.
pub open spec fn read_as_written<T: Serde>(words: Seq<u32>) -> bool {
    T::decoded(words) matches Ok((v, n)) ==> {
        &&& n <= words.len()
        &&& T::encodable(v)
        &&& T::encoded(v) == words.take(n as int)
    }
}

/// No words but those of a value are read as it.
pub open spec fn reads_only_what_is_written<T: Serde>() -> bool {
    forall|words: Seq<u32>| #[trigger] read_as_written::<T>(words)
}

/// Fewer words than a value has are refused.
pub open spec fn refuses_truncated_words<T: Serde>() -> bool {
    forall|v: T::V, k: int|
        T::encodable(v) && 0 <= k < T::encoded(v).len() ==> #[trigger] T::decoded(T::encoded(v).take(k)) == Err::<
            (T::V, nat),
            Error,
        >(Error::UnexpectedEnd)
}

/// The words of an integer are the only ones that are read as it, and all of
/// them are needed.
pub proof fn law_integers_have_one_encoding()
    ensures
        reads_only_what_is_written::<u32>(),
        reads_only_what_is_written::<u64>(),
        refuses_truncated_words::<u32>(),
        refuses_truncated_words::<u64>(),
{
    assert forall|words: Seq<u32>| #[trigger] read_as_written::<u32>(words) by {
        if u32::decoded(words) is Ok {
            assert(seq![words[0]] =~= words.take(1));
        }
    }
    assert forall|words: Seq<u32>| #[trigger] read_as_written::<u64>(words) by {
        if u64::decoded(words) is Ok {
            let (low, high) = (words[0] as int, words[1] as int);
            vstd::arithmetic::div_mod::lemma_fundamental_div_mod_converse(
                low + high * 0x1_0000_0000,
                0x1_0000_0000,
                high,
                low,
            );
            assert(u64::encoded(u64::decoded(words)->Ok_0.0) =~= words.take(2));
        }
    }
}

/// The same of pairs of such values.
pub proof fn law_pairs_have_one_encoding<A: Serde, B: Serde>()
    ensures
        reads_only_what_is_written::<A>() && reads_only_what_is_written::<B>() ==> reads_only_what_is_written::<
            (A, B),
        >(),
        refuses_truncated_words::<A>() && refuses_truncated_words::<B>() ==> refuses_truncated_words::<(A, B)>(),
{
    if reads_only_what_is_written::<A>() && reads_only_what_is_written::<B>() {
        assert forall|words: Seq<u32>| #[trigger] read_as_written::<(A, B)>(words) by {
            if <(A, B)>::decoded(words) is Ok {
                let (a, m) = A::decoded(words)->Ok_0;
                assert(read_as_written::<A>(words));
                let rest = words.skip(m as int);
                let (b, k) = B::decoded(rest)->Ok_0;
                assert(read_as_written::<B>(rest));
                assert(words.take(m as int) + rest.take(k as int) =~= words.take((m + k) as int));
            }
        }
    }
    if refuses_truncated_words::<A>() && refuses_truncated_words::<B>() {
        assert forall|v: (A::V, B::V), k: int|
            <(A, B)>::encodable(v) && 0 <= k < <(A, B)>::encoded(v).len() implies #[trigger] <(A, B)>::decoded(
            <(A, B)>::encoded(v).take(k),
        ) == Err::<((A::V, B::V), nat), Error>(Error::UnexpectedEnd) by {
            let (a, b) = (A::encoded(v.0), B::encoded(v.1));
            if k < a.len() {
                assert((a + b).take(k) =~= a.take(k));
                assert(A::decoded(A::encoded(v.0).take(k)) == Err::<(A::V, nat), Error>(Error::UnexpectedEnd));
            } else {
                let m = k - a.len();
                assert((a + b).take(k) =~= a + b.take(m));
                A::law_reads_back(v.0, b.take(m));
                assert((a + b.take(m)).skip(a.len() as int) =~= b.take(m));
                assert(B::decoded(B::encoded(v.1).take(m)) == Err::<(B::V, nat), Error>(Error::UnexpectedEnd));
            }
        }
    }
}

proof fn lemma_all_read_only_what_is_written<T: Serde>(words: Seq<u32>, n: nat)
    requires
        reads_only_what_is_written::<T>(),
    ensures
        all_decoded::<T>(words, n) matches Ok((s, used)) ==> {
            &&& used <= words.len()
            &&& s.len() == n
            &&& forall|i: int| 0 <= i < s.len() ==> T::encodable(#[trigger] s[i])
            &&& all_encoded::<T>(s) == words.take(used as int)
        },
    decreases n,
{
    if n > 0 {
        lemma_all_read_only_what_is_written::<T>(words, (n - 1) as nat);
        lemma_all_decoded_len::<T>(words, n);
        if let Ok((s, used)) = all_decoded::<T>(words, n) {
            let (init, before) = all_decoded::<T>(words, (n - 1) as nat)->Ok_0;
            let rest = words.skip(before as int);
            let (v, more) = T::decoded(rest)->Ok_0;
            assert(read_as_written::<T>(rest));
            assert(s == init.push(v));
            assert(s.drop_last() =~= init);
            assert(words.take(before as int) + rest.take(more as int) =~= words.take(used as int));
        }
    } else {
        assert(words.take(0) =~= Seq::<u32>::empty());
    }
}

proof fn lemma_all_refuse_truncated_words<T: Serde>(s: Seq<T::V>, m: int)
    requires
        refuses_truncated_words::<T>(),
        forall|i: int| 0 <= i < s.len() ==> T::encodable(#[trigger] s[i]),
        0 <= m < all_encoded::<T>(s).len(),
    ensures
        all_decoded::<T>(all_encoded::<T>(s).take(m), s.len()) == Err::<(Seq<T::V>, nat), Error>(Error::UnexpectedEnd),
    decreases s.len(),
{
    let (init, last) = (s.drop_last(), s.last());
    let (a, b) = (all_encoded::<T>(init), T::encoded(last));
    assert(T::encodable(s[s.len() - 1]));
    if m < a.len() {
        lemma_all_refuse_truncated_words::<T>(init, m);
        assert((a + b).take(m) =~= a.take(m));
    } else {
        let k = m - a.len();
        assert((a + b).take(m) =~= a + b.take(k));
        lemma_all_reads_back::<T>(init, b.take(k));
        assert((a + b.take(k)).skip(a.len() as int) =~= b.take(k));
        assert(T::decoded(T::encoded(last).take(k)) == Err::<(T::V, nat), Error>(Error::UnexpectedEnd));
    }
}

/// The same of sequences of such values.
pub proof fn law_sequences_have_one_encoding<T: Serde>()
    ensures
        reads_only_what_is_written::<T>() ==> reads_only_what_is_written::<Vec<T>>(),
        refuses_truncated_words::<T>() ==> refuses_truncated_words::<Vec<T>>(),
{
    if reads_only_what_is_written::<T>() {
        assert forall|words: Seq<u32>| #[trigger] read_as_written::<Vec<T>>(words) by {
            if Vec::<T>::decoded(words) is Ok {
                lemma_all_read_only_what_is_written::<T>(words.skip(1), words[0] as nat);
                let (v, used) = all_decoded::<T>(words.skip(1), words[0] as nat)->Ok_0;
                assert(seq![words[0]] + words.skip(1).take(used as int) =~= words.take((1 + used) as int));
            }
        }
    }
    if refuses_truncated_words::<T>() {
        assert forall|v: Seq<T::V>, k: int|
            Vec::<T>::encodable(v) && 0 <= k < Vec::<T>::encoded(v).len() implies #[trigger] Vec::<T>::decoded(
            Vec::<T>::encoded(v).take(k),
        ) == Err::<(Seq<T::V>, nat), Error>(Error::UnexpectedEnd) by {
            if k > 0 {
                lemma_all_refuse_truncated_words::<T>(v, k - 1);
                assert(Vec::<T>::encoded(v).take(k).skip(1) =~= all_encoded::<T>(v).take(k - 1));
            }
        }
    }
}

/// Fewer words than a text has are refused.
pub proof fn law_truncated_text_is_refused()
    ensures
        refuses_truncated_words::<String>(),
{
    assert forall|v: Seq<char>, k: int|
        String::encodable(v) && 0 <= k < String::encoded(v).len() implies #[trigger] String::decoded(
        String::encoded(v).take(k),
    ) == Err::<(Seq<char>, nat), Error>(Error::UnexpectedEnd) by {
        law_aligned(encode_utf8(v).len(), 4);
    }
}

/// Where a component of a pair, or an element of a sequence, cannot be read,
/// the whole cannot, for the reason that comes first.
pub proof fn law_errors_are_passed_on<A: Serde, B: Deserialize>(s: Seq<A::V>, n: u32, rest: Seq<u32>)
    requires
        forall|i: int| 0 <= i < s.len() ==> A::encodable(#[trigger] s[i]),
    ensures
        A::decoded(rest) matches Err(e) ==> <(A, B)>::decoded(rest) == Err::<((A::V, B::V), nat), Error>(e),
        A::decoded(rest) matches Err(e) ==> s.len() < n ==> Vec::<A>::decoded(
            seq![n] + Seq::new(s.len(), |i: int| A::encoded(s[i])).flatten() + rest,
        ) == Err::<(Seq<A::V>, nat), Error>(e),
        B::decoded(rest) matches Err(e) ==> s.len() == 1 ==> <(A, B)>::decoded(A::encoded(s[0]) + rest) == Err::<
            ((A::V, B::V), nat),
            Error,
        >(e),
        Vec::<A>::decoded(Seq::empty()) == Err::<(Seq<A::V>, nat), Error>(Error::UnexpectedEnd),
{
    let before = Seq::new(s.len(), |i: int| A::encoded(s[i])).flatten();
    lemma_all_encoded_is_flat::<A>(s);
    if let Err(e) = A::decoded(rest) {
        if s.len() < n {
            let words = seq![n] + before + rest;
            assert(words.skip(1) =~= before + rest);
            lemma_all_reads_back::<A>(s, rest);
            assert((before + rest).skip(before.len() as int) =~= rest);
            assert(all_decoded::<A>(before + rest, s.len() + 1) is Err);
            lemma_all_decoded_fails::<A>(before + rest, s.len() + 1, n as nat);
        }
    }
    if s.len() == 1 {
        A::law_reads_back(s[0], rest);
        assert((A::encoded(s[0]) + rest).skip(A::encoded(s[0]).len() as int) =~= rest);
    }
}

/// A map has words if and only if the sequence of its entries has, and they are
/// the same.
pub proof fn law_maps_are_written<K: Key + Serialize, V: Serialize>(s: Seq<(K::V, V::V)>)
    requires
        keys_differ(s),
    ensures
        EntryMap::<K, V>::encodable(s) <==> {
            &&& s.len() <= 0xffff_ffff
            &&& forall|i: int| 0 <= i < s.len() ==> K::encodable(#[trigger] s[i].0) && V::encodable(s[i].1)
        },
        EntryMap::<K, V>::encoded(s) == Vec::<(K, V)>::encoded(s),
{
    if EntryMap::<K, V>::encodable(s) {
        assert forall|i: int| 0 <= i < s.len() implies K::encodable(#[trigger] s[i].0) && V::encodable(s[i].1) by {
            assert(<(K, V)>::encodable(s[i]));
        }
    }
}

/// Entry `i` is the last one with its key.
pub open spec fn prevails<K, V>(s: Seq<(K, V)>, i: int) -> bool {
    &&& 0 <= i < s.len()
    &&& forall|j: int| i < j < s.len() ==> (#[trigger] s[j]).0 != s[i].0
}

/// What is read as a map has, for every key that occurs among the entries, the
/// last value that occurs with it, and no other keys.
pub proof fn law_later_entries_prevail<K, V>(s: Seq<(K, V)>)
    ensures
        forall|i: int| #[trigger] prevails(s, i) ==> collected(s).contains(s[i]),
        forall|p: int|
            0 <= p < collected(s).len() ==> exists|i: int| #[trigger] prevails(s, i) && s[i] == #[trigger] collected(
                s,
            )[p],
        forall|i: int| #[trigger] prevails(s, i) ==> entries_map(s).contains_pair(s[i].0, s[i].1),
        forall|key: K| #[trigger]
            entries_map(s).contains_key(key) ==> exists|i: int| #[trigger] prevails(s, i) && s[i].0 == key,
    decreases s.len(),
{
    if s.len() > 0 {
        let (init, last) = (s.drop_last(), s.last());
        let (before, after) = (collected(init), collected(s));
        law_later_entries_prevail(init);
        crate::entry_map::law_collected_is_the_map(init);
        lemma_place(before, last.0);
        let at = if place(before, last.0) < before.len() {
            place(before, last.0) as int
        } else {
            before.len() as int
        };
        assert(after == inserted(before, last.0, last.1));
        assert(after[at] == last);
        assert(prevails(s, s.len() - 1));
        assert forall|i: int| #[trigger] prevails(s, i) implies {
            &&& after.contains(s[i])
            &&& entries_map(s).contains_pair(s[i].0, s[i].1)
        } by {
            if i < s.len() - 1 {
                assert(prevails(init, i)) by {
                    assert forall|j: int| i < j < init.len() implies (#[trigger] init[j]).0 != init[i].0 by {
                        assert(s[j].0 != s[i].0);
                    }
                }
                assert(before.contains(init[i]));
                let p = choose|p: int| 0 <= p < before.len() && before[p] == init[i];
                assert(s[s.len() - 1].0 != s[i].0);
                assert(p != at);
                assert(after[p] == s[i]);
                assert(entries_map(init).contains_pair(init[i].0, init[i].1));
            }
        }
        assert forall|p: int| 0 <= p < after.len() implies exists|i: int| #[trigger] prevails(s, i) && s[i]
            == #[trigger] after[p] by {
            if p == at {
                assert(s[s.len() - 1] == after[p]);
            } else {
                assert(after[p] == before[p]);
                let i = choose|i: int| #[trigger] prevails(init, i) && init[i] == before[p];
                assert(prevails(init, i) && init[i] == before[p]);
                assert(before[p].0 != last.0) by {
                    if place(before, last.0) < before.len() {
                        assert(before[at].0 == last.0);
                    } else {
                        assert(before[p].0 != last.0);
                    }
                }
                assert(prevails(s, i)) by {
                    assert forall|j: int| i < j < s.len() implies (#[trigger] s[j]).0 != s[i].0 by {
                        if j < s.len() - 1 {
                            assert(init[j].0 != init[i].0);
                        }
                    }
                }
                assert(s[i] == after[p]);
            }
        }
        assert forall|key: K| #[trigger] entries_map(s).contains_key(key) implies exists|i: int|
            #[trigger] prevails(s, i) && s[i].0 == key by {
            if key == last.0 {
                assert(s[s.len() - 1].0 == key);
            } else {
                assert(entries_map(init).contains_key(key));
                let i = choose|i: int| #[trigger] prevails(init, i) && init[i].0 == key;
                assert(prevails(s, i)) by {
                    assert forall|j: int| i < j < s.len() implies (#[trigger] s[j]).0 != s[i].0 by {
                        if j < s.len() - 1 {
                            assert(init[j].0 != init[i].0);
                        }
                    }
                }
                assert(s[i].0 == key);
            }
        }
    }
}

/// A map is read where the sequence of its entries is: it takes the same words
/// and holds what prevails among them.
pub proof fn law_maps_are_read<K: Key + Deserialize, V: Deserialize>(words: Seq<u32>)
    ensures
        match Vec::<(K, V)>::decoded(words) {
            Ok((s, n)) => EntryMap::<K, V>::decoded(words) matches Ok((m, k)) && {
                &&& k == n
                &&& keys_differ(m)
                &&& forall|i: int| #[trigger] prevails(s, i) ==> m.contains(s[i])
                &&& forall|p: int|
                    0 <= p < m.len() ==> exists|i: int| #[trigger] prevails(s, i) && s[i] == #[trigger] m[p]
            },
            Err(e) => EntryMap::<K, V>::decoded(words) == Err::<(Seq<(K::V, V::V)>, nat), Error>(e),
        },
{
    if let Ok((s, n)) = Vec::<(K, V)>::decoded(words) {
        law_later_entries_prevail(s);
        crate::entry_map::law_collected_is_the_map(s);
    }
}

} // verus!
