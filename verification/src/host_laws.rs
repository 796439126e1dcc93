//! What the host computes with: the field and its extension, the hash function,
//! and the circuit that combines all polynomials.
use crate::baby_bear::{number, BabyBearElem, BabyBearExtElem};
use crate::circuit::{values_at, CombiningCircuit};
use crate::cpu::CpuHal;
use crate::field::{Elem, ExtElem, RootsOfUnity};
use crate::hal::{matrix_row, EvalCheck, Hal};
use crate::iop::raw_words_of;
use crate::poly::eval;
use crate::prover::ProverState;
use crate::sha::{Digest, Sha};
use crate::sha256::{byte_block, bytes_hashed, compressed, initial_digest, padded_blocks, padded_byte};
use crate::sha256::{word_block, words_hashed, Sha256};
use crate::transform::{lemma_chunk_bounds, lemma_position, lifted};
use vstd::arithmetic::div_mod::lemma_fundamental_div_mod_converse;
use vstd::arithmetic::power2::pow2;
use vstd::prelude::*;

verus! {

/// The operations of the field are those of the integers, up to multiples of
/// the modulus.
pub proof fn law_field_computes_modulo_the_prime(a: BabyBearElem, b: BabyBearElem, n: u64)
    ensures
        a.spec_add(b).value as int == (a.value + b.value) % 2013265921,
        a.spec_sub(b).value as int == (a.value - b.value) % 2013265921,
        a.spec_mul(b).value as int == (a.value * b.value) % 2013265921,
        BabyBearElem::spec_from_u64(n).value as int == n as int % 2013265921,
        BabyBearElem::spec_zero().value == 0,
        BabyBearElem::spec_one().value == 1,
{
}

/// Each root of unity is the square of the next one, and the last one is known.
pub proof fn law_roots_are_squares(k: nat)
    requires
        k < 27,
    ensures
        BabyBearElem::spec_rou_fwd(k) == BabyBearElem::spec_rou_fwd(k + 1).spec_mul(
            BabyBearElem::spec_rou_fwd(k + 1),
        ),
        BabyBearElem::spec_rou_fwd(27).value == 137,
        BabyBearElem::spec_max_rou_po2() == 27,
{
}

/// An element is written as its number, and one of the extension as those of
/// its coordinates.
pub proof fn law_elements_are_written_as_numbers(a: BabyBearElem, x: BabyBearExtElem)
    ensures
        a.spec_words() == seq![a.value],
        a.spec_raw_words() == seq![a.value],
        x.spec_words() == seq![x.c0.value, x.c1.value, x.c2.value, x.c3.value],
        x.spec_raw_words() == x.spec_words(),
        BabyBearExtElem::spec_ext_size() == 4,
        x.spec_subelems() == seq![x.c0, x.c1, x.c2, x.c3],
{
}

/// A random element is the residue of the number whose digits are six random
/// words, and one of the extension has its coordinates drawn one after the
/// other.
pub proof fn law_elements_are_drawn(words: Seq<u32>, word: u32)
    ensures
        BabyBearElem::spec_draw_size() == 6,
        BabyBearExtElem::spec_draw_size() == 24,
        BabyBearElem::spec_from_draw(Seq::empty()).value == 0,
        BabyBearElem::spec_from_draw(words.push(word)).value as int == (BabyBearElem::spec_from_draw(words).value
            * 0x1_0000_0000 + word) % 2013265921,
        words.len() == 24 ==> BabyBearExtElem::spec_from_draw(words).spec_subelems() == Seq::new(
            4,
            |e: int| BabyBearElem::spec_from_draw(words.subrange(6 * e, 6 * e + 6)),
        ),
{
    assert(number(Seq::<u32>::empty()) == 0);
    assert(words.push(word).drop_last() =~= words);
    crate::baby_bear::lemma_next_digit(number(words), word);
    if words.len() == 24 {
        let stated = Seq::new(4, |e: int| BabyBearElem::spec_from_draw(words.subrange(6 * e, 6 * e + 6)));
        assert(BabyBearExtElem::spec_from_draw(words).spec_subelems() =~= stated);
    }
}

/// The extension adjoins a fourth root of `-11`: multiplying by it moves the
/// coordinates up by one, and the last one around with that factor. Elements of
/// the field scale all coordinates.
pub proof fn law_extension_adjoins_a_root(x: BabyBearExtElem, root: BabyBearExtElem, a: BabyBearElem)
    requires
        root.c0.value == 0,
        root.c1.value == 1,
        root.c2.value == 0,
        root.c3.value == 0,
    ensures
        x.spec_mul(root).c0.value as int == (-11 * x.c3.value) % 2013265921,
        x.spec_mul(root).c1.value as int == x.c0.value as int % 2013265921,
        x.spec_mul(root).c2.value as int == x.c1.value as int % 2013265921,
        x.spec_mul(root).c3.value as int == x.c2.value as int % 2013265921,
        x.spec_mul(BabyBearExtElem::spec_from_subfield(a)).spec_subelems() == seq![
            x.c0.spec_mul(a),
            x.c1.spec_mul(a),
            x.c2.spec_mul(a),
            x.c3.spec_mul(a),
        ],
{
}

/// Hashing words compresses them block by block: a block appended to whole
/// blocks is compressed into their digest, filled up with zeros where it is not
/// full. Without words, the digest is the one that hashing starts from.
pub proof fn law_hashing_absorbs_blocks(words: Seq<u32>, more: Seq<u32>, block: Seq<u32>)
    requires
        words.len() % 16 == 0,
        0 < more.len() <= 16,
        block.len() == 16,
        forall|i: int|
            0 <= i < 16 ==> #[trigger] block[i] == if i < more.len() {
                more[i]
            } else {
                0u32
            },
    ensures
        Sha256.spec_hash_words(words + more) == compressed(Sha256.spec_hash_words(words), block),
        Sha256.spec_hash_words(Seq::empty()) == initial_digest(),
{
    let k = words.len() / 16;
    let all = words + more;
    assert((all.len() + 15) / 16 == k + 1);
    assert((words.len() + 15) / 16 == k);
    assert(word_block(all, k as int) =~= block);
    lemma_blocks_of_a_prefix(words, more, k);
    assert(words_hashed(Seq::empty(), 0) == initial_digest());
}

proof fn lemma_blocks_of_a_prefix(words: Seq<u32>, more: Seq<u32>, k: nat)
    requires
        16 * k <= words.len(),
    ensures
        words_hashed(words + more, k) == words_hashed(words, k),
    decreases k,
{
    if k > 0 {
        lemma_blocks_of_a_prefix(words, more, (k - 1) as nat);
        assert(word_block(words + more, k - 1) =~= word_block(words, k - 1));
    }
}

/// Two digests are hashed as the words of both.
pub proof fn law_pairs_are_hashed_as_words(a: Digest, b: Digest)
    ensures
        Sha256.spec_hash_pair(a, b) == Sha256.spec_hash_words(a.words@ + b.words@),
{
    let both = a.words@ + b.words@;
    let none = Seq::<u32>::empty();
    law_hashing_absorbs_blocks(none, both, both);
    assert(none + both =~= both);
}

/// The host hashes rows by their numbers, and digests in pairs.
pub proof fn law_host_hashes_rows_and_pairs<S: Sha>(hal: CpuHal<S>, row: Seq<BabyBearElem>, a: Digest, b: Digest)
    ensures
        hal.spec_hash_row(row) == hal.sha.spec_hash_words(Seq::new(row.len(), |i: int| row[i].value)),
        hal.spec_hash_pair(a, b) == hal.sha.spec_hash_pair(a, b),
{
    lemma_raw_words_are_values(row);
}

proof fn lemma_raw_words_are_values(row: Seq<BabyBearElem>)
    ensures
        raw_words_of(row) == Seq::new(row.len(), |i: int| row[i].value),
    decreases row.len(),
{
    if row.len() > 0 {
        lemma_raw_words_are_values(row.drop_last());
    }
    assert(raw_words_of(row) =~= Seq::new(row.len(), |i: int| row[i].value));
}

/// Bytes are hashed as the big-endian words of the padded message: the bytes, a
/// one bit, as few zeros as fill a block, and the length in bits.
pub proof fn law_bytes_are_padded(bytes: Seq<u8>, message: Seq<u8>, words: Seq<u32>)
    requires
        8 * bytes.len() <= u64::MAX,
        message.len() % 64 == 0,
        bytes.len() + 9 <= message.len() < bytes.len() + 9 + 64,
        forall|i: int|
            0 <= i < message.len() ==> #[trigger] message[i] == if i < bytes.len() {
                bytes[i] as int
            } else if i == bytes.len() {
                0x80
            } else if i < message.len() - 8 {
                0
            } else {
                (8 * bytes.len()) as int / pow2((8 * (message.len() - 1 - i)) as nat) as int % 256
            },
        words.len() == message.len() / 4,
        forall|j: int|
            0 <= j < words.len() ==> #[trigger] words[j] == message[4 * j] * 0x100_0000 + message[4 * j + 1] * 0x1_0000
                + message[4 * j + 2] * 0x100 + message[4 * j + 3],
    ensures
        Sha256.spec_hash_bytes(bytes) == Sha256.spec_hash_words(words),
{
    let blocks = padded_blocks(bytes.len());
    assert(message.len() == 64 * blocks);
    assert(words.len() == 16 * blocks);
    assert((words.len() + 15) / 16 == blocks);
    assert forall|i: int| 0 <= i < message.len() implies #[trigger] message[i] == padded_byte(bytes, i) by {
        if i > bytes.len() && i >= message.len() - 8 {
            let len = crate::sha256::bit_length(bytes.len());
            let s = (8 * (message.len() - 1 - i)) as u64;
            assert(len == 8 * bytes.len());
            vstd::bits::lemma_u64_shr_is_div(len, s);
            let high: u64 = len >> s;
            assert(high as u8 == high % 256) by (bit_vector);
        }
    }
    lemma_padded_blocks(bytes, message, words, blocks);
}

proof fn lemma_padded_blocks(bytes: Seq<u8>, message: Seq<u8>, words: Seq<u32>, k: nat)
    requires
        64 * k <= message.len(),
        forall|i: int| 0 <= i < message.len() ==> #[trigger] message[i] == padded_byte(bytes, i),
        words.len() == message.len() / 4,
        forall|j: int|
            0 <= j < words.len() ==> #[trigger] words[j] == message[4 * j] * 0x100_0000 + message[4 * j + 1] * 0x1_0000
                + message[4 * j + 2] * 0x100 + message[4 * j + 3],
    ensures
        words_hashed(words, k) == bytes_hashed(bytes, k),
    decreases k,
{
    if k > 0 {
        let b = k - 1;
        lemma_padded_blocks(bytes, message, words, b as nat);
        assert forall|j: int| 0 <= j < 16 implies word_block(words, b)[j] == byte_block(bytes, b)[j] by {
            let at = 16 * b + j;
            assert(words[at] == message[4 * at] * 0x100_0000 + message[4 * at + 1] * 0x1_0000 + message[4 * at + 2]
                * 0x100 + message[4 * at + 3]);
            assert(message[4 * at] == padded_byte(bytes, 64 * b + 4 * j));
            assert(message[4 * at + 1] == padded_byte(bytes, 64 * b + 4 * j + 1));
            assert(message[4 * at + 2] == padded_byte(bytes, 64 * b + 4 * j + 2));
            assert(message[4 * at + 3] == padded_byte(bytes, 64 * b + 4 * j + 3));
        }
        assert(word_block(words, b) =~= byte_block(bytes, b));
    }
}

/// The values of all polynomials of a group at point `i` of a domain of `n`
/// points.
pub open spec fn point_values<E>(group: Seq<E>, n: nat, i: int) -> Seq<E> {
    Seq::new(group.len() / n, |c: int| group[c * n + i])
}

proof fn lemma_values_of_all_groups<E>(groups: Seq<Seq<E>>, n: nat, k: nat, i: int)
    requires
        k <= groups.len(),
    ensures
        values_at(groups, n, k, i) == Seq::new(
            k,
            |g: int| point_values(groups[g], n, i),
        ).flatten(),
    decreases k,
{
    let pieces = Seq::new(k, |g: int| point_values(groups[g], n, i));
    if k > 0 {
        let j = (k - 1) as nat;
        lemma_values_of_all_groups(groups, n, j, i);
        let before = Seq::new(j, |g: int| point_values(groups[g], n, i));
        let last = point_values(groups[j as int], n, i);
        before.lemma_flatten_push(last);
        assert(last =~= matrix_row(groups[j as int], n, i));
        assert(pieces =~= before.push(last));
    } else {
        assert(pieces.len() == 0);
    }
}

/// The combining circuit accepts whatever has been committed.
pub proof fn law_circuit_accepts_all_groups<H: Hal, S: Sha>(st: ProverState<H, S>, globals: Seq<Seq<H::Elem>>)
    requires
        st.wf(),
        st.complete(),
    ensures
        <CombiningCircuit as EvalCheck<H>>::accepts(
            &CombiningCircuit,
            st.group_values(),
            globals,
            st.po2->0,
            st.cycles,
        ),
{
    let n = st.cycles * 4;
    assert forall|g: int| 0 <= g < st.group_values().len() implies (#[trigger] st.group_values()[g]).len() % n == 0 by {
        assert(st.groups[g] is Some);
        let group = st.groups[g]->0;
        assert(group.wf());
        lemma_fundamental_div_mod_converse((group.count * n) as int, n as int, group.count as int, 0);
    }
}

/// The combining circuit takes at every point of the domain the value of the
/// polynomial in the mixing challenge whose coefficients are the values of all
/// committed polynomials there, group by group.
pub proof fn law_circuit_combines_all_values<H: Hal>(
    groups: Seq<Seq<H::Elem>>,
    globals: Seq<Seq<H::Elem>>,
    poly_mix: H::ExtElem,
    po2: nat,
    steps: nat,
    e: int,
    i: int,
)
    requires
        0 <= e < H::ExtElem::spec_ext_size(),
        0 <= i < 4 * steps,
    ensures
        ({
            let n = 4 * steps;
            let values = Seq::new(
                groups.len(),
                |g: int| point_values(groups[g], n, i),
            ).flatten();
            let check = <CombiningCircuit as EvalCheck<H>>::check_values(
                &CombiningCircuit,
                groups,
                globals,
                poly_mix,
                po2,
                steps,
            );
            check[e * n + i] == eval(lifted::<H::ExtElem>(values), poly_mix).spec_subelems()[e]
        }),
{
    let n = 4 * steps;
    lemma_values_of_all_groups(groups, n, groups.len(), i);
    lemma_chunk_bounds(H::ExtElem::spec_ext_size(), n, e);
    lemma_position(n, e, i);
    assert(steps * 4 == n);
}

} // verus!
