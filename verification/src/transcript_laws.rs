//! What a prover writes and commits to, step by step: the stream of
//! randomness, the trees, and what every query opens.
use crate::field::{elem_drawn, pow, words_drawn, Elem, ExtElem, RngCore, RootsOfUnity};
use crate::fri::{extended, final_coeffs, final_sent, fri_committed, fri_proved, layers_opened, queries_answered, Layer};
use crate::hal::{folded, matrix_row, Hal};
use crate::iop::{raw_words_of, words_of, ShaRng, Transcript};
use crate::merkle::{layer_words, node, path_words, row_opened, sibling, top_size, tree_committed};
use crate::poly::eval;
use crate::poly_group::Group;
use crate::prover::{all_opened, groups_opened, ProverState};
use crate::sha::{xored, Digest, Sha};
use crate::transform::{bit_reverse, bit_reversed, chunk, lemma_bit_reverse_bound};
use crate::transform::{lemma_chunk_bounds, lemma_log2_pow2, lemma_position, log2};
use vstd::arithmetic::div_mod::{lemma_div_denominator, lemma_mod_mod};
use vstd::arithmetic::power2::{lemma2_to64, lemma_pow2_adds, lemma_pow2_pos, lemma_pow2_strictly_increases};
use vstd::arithmetic::power2::{lemma_pow2_unfold, pow2};
use vstd::prelude::*;

verus! {

/// Drawing words can be interrupted: what is drawn afterwards follows what was
/// drawn before. One word is the next one of the stream.
pub proof fn law_draws_follow_each_other<R: RngCore>(rng: R, m: nat, n: nat)
    ensures
        words_drawn(rng, m + n).0 == words_drawn(rng, m).0 + words_drawn(words_drawn(rng, m).1, n).0,
        words_drawn(rng, m + n).1 == words_drawn(words_drawn(rng, m).1, n).1,
        words_drawn(rng, 1) == (seq![rng.spec_next().0], rng.spec_next().1),
        words_drawn(rng, m).0.len() == m,
    decreases n,
{
    lemma_drawn_len(rng, m);
    reveal_with_fuel(words_drawn, 2);
    assert(Seq::<u32>::empty().push(rng.spec_next().0) =~= seq![rng.spec_next().0]);
    let middle = words_drawn(rng, m).1;
    if n > 0 {
        let k = (n - 1) as nat;
        law_draws_follow_each_other(rng, m, k);
        assert((m + n - 1) as nat == m + k);
        assert(words_drawn(rng, m + n).0 =~= words_drawn(rng, m).0 + words_drawn(middle, n).0);
    } else {
        assert(words_drawn(rng, m).0 + words_drawn(middle, 0).0 =~= words_drawn(rng, m).0);
    }
}

proof fn lemma_drawn_len<R: RngCore>(rng: R, m: nat)
    ensures
        words_drawn(rng, m).0.len() == m,
    decreases m,
{
    if m > 0 {
        lemma_drawn_len(rng, (m - 1) as nat);
    }
}

/// A challenge is the element that the next words of the stream determine, and
/// drawing it writes nothing.
pub proof fn law_challenges_are_drawn<S: Sha, E: Elem>(t: Transcript<S>)
    ensures
        t.challenge::<E>() == E::spec_from_draw(words_drawn(t.rng, E::spec_draw_size()).0),
        t.challenged::<E>().rng == words_drawn(t.rng, E::spec_draw_size()).1,
        t.challenged::<E>().proof == t.proof,
{
}

/// The stream gives the words of its first pool one after the other, and hashes
/// the pools once more when they are used up.
pub proof fn law_stream_gives_its_pool<S: Sha>(rng: ShaRng<S>)
    ensures
        rng.pool_used < 8 ==> rng.spec_next() == (
            rng.pool0.words[rng.pool_used as int],
            ShaRng { pool_used: (rng.pool_used + 1) as usize, ..rng },
        ),
        rng.pool_used >= 8 ==> ({
            let first = rng.sha.spec_hash_pair(rng.pool0, rng.pool1);
            rng.spec_next() == (
                first.words[0],
                ShaRng {
                    sha: rng.sha,
                    pool0: first,
                    pool1: rng.sha.spec_hash_pair(first, rng.pool1),
                    pool_used: 1,
                },
            )
        }),
{
}

/// Mixing in a digest makes both pools, and so all words that follow, depend on
/// it: the first pool is hashed after the digest has been added to it bit by
/// bit, and the second one after the first.
pub proof fn law_mixing_depends_on_the_digest<S: Sha>(rng: ShaRng<S>, digest: Digest, sum: Digest)
    requires
        forall|i: int| 0 <= i < 8 ==> #[trigger] sum.words[i] == rng.pool0.words[i] ^ digest.words[i],
    ensures
        rng.mixed(digest).sha == rng.sha,
        rng.mixed(digest).pool0 == rng.sha.spec_hash_pair(sum, rng.pool1),
        rng.mixed(digest).pool1 == rng.sha.spec_hash_pair(rng.mixed(digest).pool0, rng.pool1),
        rng.mixed(digest).pool_used == 0,
{
    assert(sum.words =~= xored(rng.pool0, digest).words);
}

/// A proof starts empty, with pools seeded by the bytes of `Hello` and `World`.
pub proof fn law_transcripts_start_empty<S: Sha>(sha: S)
    ensures
        Transcript::<S>::spec_new(sha).proof.len() == 0,
        Transcript::<S>::spec_new(sha).rng.sha == sha,
        Transcript::<S>::spec_new(sha).rng.pool0 == sha.spec_hash_bytes(seq![0x48u8, 0x65, 0x6c, 0x6c, 0x6f]),
        Transcript::<S>::spec_new(sha).rng.pool1 == sha.spec_hash_bytes(seq![0x57u8, 0x6f, 0x72, 0x6c, 0x64]),
        Transcript::<S>::spec_new(sha).rng.pool_used == 0,
{
}

/// Writing appends and changes nothing else; committing mixes in the digest and
/// writes nothing.
pub proof fn law_writing_and_committing<S: Sha>(t: Transcript<S>, words: Seq<u32>, digest: Digest)
    ensures
        t.written(words).proof == t.proof + words,
        t.written(words).rng == t.rng,
        t.committed(digest).proof == t.proof,
        t.committed(digest).rng == t.rng.mixed(digest),
{
}

/// Elements are written one after the other.
pub proof fn law_elements_are_written_in_order<E: Elem>(elems: Seq<E>)
    ensures
        words_of(elems) == Seq::new(elems.len(), |i: int| elems[i].spec_words()).flatten(),
        raw_words_of(elems) == Seq::new(elems.len(), |i: int| elems[i].spec_raw_words()).flatten(),
    decreases elems.len(),
{
    let plain = Seq::new(elems.len(), |i: int| elems[i].spec_words());
    let raw = Seq::new(elems.len(), |i: int| elems[i].spec_raw_words());
    if elems.len() > 0 {
        let (init, last) = (elems.drop_last(), elems.last());
        law_elements_are_written_in_order(init);
        let plain_init = Seq::new(init.len(), |i: int| init[i].spec_words());
        let raw_init = Seq::new(init.len(), |i: int| init[i].spec_raw_words());
        plain_init.lemma_flatten_push(last.spec_words());
        raw_init.lemma_flatten_push(last.spec_raw_words());
        assert(plain =~= plain_init.push(last.spec_words()));
        assert(raw =~= raw_init.push(last.spec_raw_words()));
    } else {
        assert(plain.len() == 0 && raw.len() == 0);
    }
}

/// A leaf of the tree is the digest of all entries of its row.
pub proof fn law_leaves_hash_the_rows<H: Hal>(hal: H, matrix: Seq<H::Elem>, rows: nat, r: nat, row: Seq<H::Elem>)
    requires
        r < rows,
        row.len() == matrix.len() / rows,
        forall|c: int| 0 <= c < row.len() ==> #[trigger] row[c] == matrix[c * rows + r],
    ensures
        node(hal, matrix, rows, rows + r) == hal.spec_hash_row(row),
{
    assert(row =~= matrix_row(matrix, rows, r as int));
}

/// Every other node is the digest of its two children, in their order.
pub proof fn law_nodes_hash_their_children<H: Hal>(hal: H, matrix: Seq<H::Elem>, rows: nat, i: nat)
    requires
        1 <= i < rows,
    ensures
        node(hal, matrix, rows, i) == hal.spec_hash_pair(
            node(hal, matrix, rows, 2 * i),
            node(hal, matrix, rows, 2 * i + 1),
        ),
{
}

/// The layer that is written in full is the largest one above the leaves with no
/// more nodes than there are queries. Only a tree of a single node has no layer
/// above the leaves, and is written itself.
pub proof fn law_top_layer(n: nat) -> (t: nat)
    ensures
        top_size(pow2(n)) == pow2(t),
        pow2(t) <= 50,
        n > 0 ==> t < n,
        n == 0 ==> t == 0,
        forall|j: nat| j < n && #[trigger] pow2(j) <= 50 ==> pow2(j) <= pow2(t),
{
    lemma2_to64();
    let t: nat = if n == 0 {
        0
    } else if n <= 6 {
        (n - 1) as nat
    } else {
        5
    };
    if n > 6 {
        lemma_pow2_strictly_increases(6, n);
    } else if n > 0 {
        lemma_pow2_unfold(n);
        if n < 6 {
            lemma_pow2_strictly_increases(n, 6);
            if n < 5 {
                lemma_pow2_strictly_increases(n, 5);
            }
        }
        if n > 1 {
            lemma_pow2_strictly_increases(1, n);
        }
    }
    assert forall|j: nat| j < n && #[trigger] pow2(j) <= 50 implies pow2(j) <= pow2(t) by {
        if j > 5 {
            if j > 6 {
                lemma_pow2_strictly_increases(6, j);
            }
        } else if j < t {
            lemma_pow2_strictly_increases(j, t);
        }
    }
    t
}

/// The words of a layer are those of its nodes in their order, eight for each.
pub proof fn law_layers_are_written_in_order<H: Hal>(hal: H, matrix: Seq<H::Elem>, rows: nat, from: nat, to: nat)
    requires
        from <= to,
    ensures
        layer_words(hal, matrix, rows, from, to).len() == 8 * (to - from),
        layer_words(hal, matrix, rows, from, to) == Seq::new(
            (to - from) as nat,
            |j: int| node(hal, matrix, rows, (from + j) as nat).words@,
        ).flatten(),
    decreases to,
{
    let pieces = Seq::new((to - from) as nat, |j: int| node(hal, matrix, rows, (from + j) as nat).words@);
    if from < to {
        let last = (to - 1) as nat;
        law_layers_are_written_in_order(hal, matrix, rows, from, last);
        let before = Seq::new((last - from) as nat, |j: int| node(hal, matrix, rows, (from + j) as nat).words@);
        before.lemma_flatten_push(node(hal, matrix, rows, last).words@);
        assert(pieces =~= before.push(node(hal, matrix, rows, last).words@));
    } else {
        assert(pieces.len() == 0);
    }
}

/// The neighbour of a node: the other child of its parent.
pub open spec fn neighbour(i: nat) -> nat {
    if i % 2 == 0 {
        i + 1
    } else {
        (i - 1) as nat
    }
}

proof fn lemma_path_words<H: Hal>(hal: H, matrix: Seq<H::Elem>, rows: nat, i: nat, levels: nat)
    requires
        top_size(rows) > 0,
        pow2(levels) * top_size(rows) <= i < 2 * (pow2(levels) * top_size(rows)),
    ensures
        path_words(hal, matrix, rows, i).len() == 8 * levels,
        path_words(hal, matrix, rows, i) == Seq::new(
            levels,
            |j: int| node(hal, matrix, rows, neighbour(i / pow2(j as nat))).words@,
        ).flatten(),
    decreases levels,
{
    let top = top_size(rows);
    let pieces = Seq::new(levels, |j: int| node(hal, matrix, rows, neighbour(i / pow2(j as nat))).words@);
    lemma2_to64();
    if levels == 0 {
        assert(pow2(0) * top == top) by (nonlinear_arith)
            requires
                pow2(0) == 1,
        ;
        assert(pieces.len() == 0);
    } else {
        let l = (levels - 1) as nat;
        let up = i / 2;
        lemma_pow2_unfold(levels);
        lemma_pow2_pos(l);
        let p = pow2(l);
        assert(pow2(levels) * top == 2 * (p * top)) by (nonlinear_arith)
            requires
                pow2(levels) == 2 * p,
        ;
        assert(p * top >= top) by (nonlinear_arith)
            requires
                p >= 1,
        ;
        lemma_path_words(hal, matrix, rows, up, l);
        let rest = Seq::new(l, |j: int| node(hal, matrix, rows, neighbour(up / pow2(j as nat))).words@);
        assert forall|j: int| 0 <= j < l implies pieces.drop_first()[j] == rest[j] by {
            lemma_pow2_unfold((j + 1) as nat);
            lemma_pow2_pos(j as nat);
            lemma_div_denominator(i as int, 2, pow2(j as nat) as int);
            assert(i / pow2((j + 1) as nat) == up / pow2(j as nat));
        }
        assert(pieces.drop_first() =~= rest);
        assert(i / 1 == i);
        assert(sibling(i) == neighbour(i));
        assert(pieces.first() == node(hal, matrix, rows, neighbour(i)).words@);
    }
}

/// What follows an opened row are the neighbours on the way from its leaf up to
/// the layer that was written in full, one for each layer in between.
pub proof fn law_paths_hold_all_neighbours<H: Hal>(hal: H, matrix: Seq<H::Elem>, n: nat, t: nat, r: nat)
    requires
        top_size(pow2(n)) == pow2(t),
        t <= n,
        r < pow2(n),
    ensures
        path_words(hal, matrix, pow2(n), pow2(n) + r).len() == 8 * (n - t),
        path_words(hal, matrix, pow2(n), pow2(n) + r) == Seq::new(
            (n - t) as nat,
            |j: int| node(hal, matrix, pow2(n), neighbour((pow2(n) + r) / pow2(j as nat))).words@,
        ).flatten(),
{
    lemma_pow2_adds((n - t) as nat, t);
    lemma_pow2_pos(t);
    lemma_path_words(hal, matrix, pow2(n), pow2(n) + r, (n - t) as nat);
}

/// Committing to a tree writes its top layer and commits to its root: all that
/// is drawn afterwards depends on the root.
pub proof fn law_trees_are_committed_by_their_root<H: Hal, S: Sha>(
    hal: H,
    t: Transcript<S>,
    matrix: Seq<H::Elem>,
    rows: nat,
)
    ensures
        tree_committed(hal, t, matrix, rows).rng == t.rng.mixed(node(hal, matrix, rows, 1)),
        tree_committed(hal, t, matrix, rows).proof.len() == t.proof.len() + 8 * top_size(rows),
        tree_committed(hal, t, matrix, rows).proof == t.proof + Seq::new(
            top_size(rows),
            |j: int| node(hal, matrix, rows, (top_size(rows) + j) as nat).words@,
        ).flatten(),
{
    law_layers_are_written_in_order(hal, matrix, rows, top_size(rows), 2 * top_size(rows));
}

/// Opening a row writes all its entries and the way up from its leaf, and
/// influences no randomness.
pub proof fn law_opened_rows_are_written<H: Hal, S: Sha>(
    hal: H,
    t: Transcript<S>,
    matrix: Seq<H::Elem>,
    rows: nat,
    r: nat,
)
    ensures
        row_opened(hal, t, matrix, rows, r).rng == t.rng,
        row_opened(hal, t, matrix, rows, r).proof == t.proof + (words_of(
            Seq::new(matrix.len() / rows, |c: int| matrix[c * rows + r]),
        ) + path_words(hal, matrix, rows, rows + r)),
{
    let row = Seq::new(matrix.len() / rows, |c: int| matrix[c * rows + r]);
    assert(row =~= matrix_row(matrix, rows, r as int));
    assert(row_opened(hal, t, matrix, rows, r).proof =~= t.proof + (words_of(row) + path_words(
        hal,
        matrix,
        rows,
        rows + r,
    )));
}

/// The values that a group is committed to by: those of each of its polynomials
/// at all powers of the root of the evaluation domain, which has four points for
/// each coefficient.
pub proof fn law_groups_are_evaluated<H: Hal>(group: Group<H>, k: int, i: int)
    requires
        group.wf(),
        0 <= k < group.count,
        0 <= i < 4 * group.size,
    ensures
        group.values().len() == group.count * (4 * group.size),
        group.values()[k * (4 * group.size) + i] == eval(
            chunk(group.coeffs, group.size, k),
            pow(H::Elem::spec_rou_fwd(log2(group.size) + 2), i as nat),
        ),
{
    let domain = 4 * group.size;
    lemma2_to64();
    lemma_pow2_adds(log2(group.size), 2);
    lemma_log2_pow2(log2(group.size) + 2);
    lemma_chunk_bounds(group.count, domain, k);
    lemma_position(domain, k, i);
    assert(group.size * 4 == domain);
}

/// Committing a group commits to it: the top layer of the tree over its values
/// is written, the root is mixed into the randomness, and the group is kept.
/// Nothing else changes. This holds whatever the length of the trace.
pub proof fn law_committing_a_group_commits_its_root<H: Hal, S: Sha>(
    st: ProverState<H, S>,
    g: int,
    buf: Seq<H::Elem>,
)
    ensures
        ({
            let after = st.group_committed(g, buf);
            let values = st.group_of(g, buf).values();
            let rows = st.cycles * 4;
            &&& after.iop.rng == st.iop.rng.mixed(node(st.hal, values, rows, 1))
            &&& after.iop.proof.len() == st.iop.proof.len() + 8 * top_size(rows)
            &&& after.iop.proof == st.iop.proof + Seq::new(
                top_size(rows),
                |j: int| node(st.hal, values, rows, (top_size(rows) + j) as nat).words@,
            ).flatten()
            &&& after.groups == st.groups.update(g, Some(st.group_of(g, buf)))
            &&& after.hal == st.hal
            &&& after.sha == st.sha
            &&& after.taps == st.taps
            &&& after.cycles == st.cycles
            &&& after.po2 == st.po2
        }),
{
    law_trees_are_committed_by_their_root(st.hal, st.iop, st.group_of(g, buf).values(), st.cycles * 4);
}

/// The words by which a group is opened at a position: its values there, and
/// the way up from their leaf.
pub open spec fn opening_words<H: Hal>(hal: H, group: Group<H>, pos: nat) -> Seq<u32> {
    let rows = group.size * 4;
    words_of(Seq::new(group.values().len() / rows, |c: int| group.values()[c * rows + pos])) + path_words(
        hal,
        group.values(),
        rows,
        rows + pos,
    )
}

/// A group is opened by the value of each of its polynomials at the power of
/// the root that belongs to the position, followed by the way up from its leaf.
pub proof fn law_groups_are_opened_by_their_values<H: Hal>(hal: H, group: Group<H>, pos: nat)
    requires
        group.wf(),
        pos < 4 * group.size,
    ensures
        opening_words(hal, group, pos) == Seq::new(
            group.count,
            |k: int|
                eval(
                    chunk(group.coeffs, group.size, k),
                    pow(H::Elem::spec_rou_fwd(log2(group.size) + 2), pos),
                ).spec_words(),
        ).flatten() + path_words(hal, group.values(), 4 * group.size, 4 * group.size + pos),
{
    let rows = group.size * 4;
    let row = Seq::new(group.values().len() / rows, |c: int| group.values()[c * rows + pos]);
    let points = Seq::new(
        group.count,
        |k: int|
            eval(
                chunk(group.coeffs, group.size, k),
                pow(H::Elem::spec_rou_fwd(log2(group.size) + 2), pos),
            ).spec_words(),
    );
    law_groups_are_evaluated(group, 0, pos as int);
    vstd::arithmetic::div_mod::lemma_fundamental_div_mod_converse(
        (group.count * rows) as int,
        rows as int,
        group.count as int,
        0,
    );
    law_elements_are_written_in_order(row);
    assert forall|k: int| 0 <= k < group.count implies row[k].spec_words() == points[k] by {
        law_groups_are_evaluated(group, k, pos as int);
    }
    assert(Seq::new(row.len(), |i: int| row[i].spec_words()) =~= points);
}

proof fn lemma_groups_opened<H: Hal, S: Sha>(hal: H, t: Transcript<S>, groups: Seq<Group<H>>, k: nat, pos: nat)
    requires
        k <= groups.len(),
    ensures
        groups_opened(hal, t, groups, k, pos).rng == t.rng,
        groups_opened(hal, t, groups, k, pos).proof == t.proof + Seq::new(
            k,
            |g: int| opening_words(hal, groups[g], pos),
        ).flatten(),
    decreases k,
{
    let pieces = Seq::new(k, |g: int| opening_words(hal, groups[g], pos));
    if k > 0 {
        let j = (k - 1) as nat;
        lemma_groups_opened(hal, t, groups, j, pos);
        let before = Seq::new(j, |g: int| opening_words(hal, groups[g], pos));
        let words = opening_words(hal, groups[j as int], pos);
        before.lemma_flatten_push(words);
        assert(pieces =~= before.push(words));
        let group = groups[j as int];
        law_opened_rows_are_written(
            hal,
            groups_opened(hal, t, groups, j, pos),
            group.values(),
            group.size * 4,
            pos,
        );
        assert(t.proof + before.flatten() + words =~= t.proof + (before.flatten() + words));
    } else {
        assert(pieces.len() == 0);
        assert(t.proof + Seq::<u32>::empty() =~= t.proof);
    }
}

/// Every query opens every group: the words of all groups are written in the
/// order of the groups, however many there are, and those of the check group
/// after them. No randomness is influenced.
pub proof fn law_every_group_is_opened<H: Hal, S: Sha>(
    hal: H,
    t: Transcript<S>,
    groups: Seq<Group<H>>,
    check: Group<H>,
    pos: nat,
)
    ensures
        all_opened(hal, t, groups, check, pos).rng == t.rng,
        all_opened(hal, t, groups, check, pos).proof == t.proof + Seq::new(
            groups.len(),
            |g: int| opening_words(hal, groups[g], pos),
        ).flatten() + opening_words(hal, check, pos),
{
    let t1 = groups_opened(hal, t, groups, groups.len(), pos);
    lemma_groups_opened(hal, t, groups, groups.len(), pos);
    law_opened_rows_are_written(hal, t1, check.values(), check.size * 4, pos);
}

/// What a query adds to the proof holds the words of each single group.
pub proof fn law_no_group_is_left_out<H: Hal, S: Sha>(
    hal: H,
    t: Transcript<S>,
    groups: Seq<Group<H>>,
    check: Group<H>,
    pos: nat,
    g: int,
) -> (at: int)
    requires
        0 <= g < groups.len(),
    ensures
        t.proof.len() <= at,
        at + opening_words(hal, groups[g], pos).len() + opening_words(hal, check, pos).len() <= all_opened(
            hal,
            t,
            groups,
            check,
            pos,
        ).proof.len(),
        all_opened(hal, t, groups, check, pos).proof.subrange(
            at,
            at + opening_words(hal, groups[g], pos).len(),
        ) == opening_words(hal, groups[g], pos),
{
    let pieces = Seq::new(groups.len(), |i: int| opening_words(hal, groups[i], pos));
    let words = opening_words(hal, groups[g], pos);
    let last = opening_words(hal, check, pos);
    let before = pieces.take(g).flatten();
    let after = pieces.skip(g + 1).flatten();
    law_every_group_is_opened(hal, t, groups, check, pos);
    assert(pieces =~= pieces.take(g).push(words) + pieces.skip(g + 1));
    pieces.take(g).lemma_flatten_push(words);
    vstd::seq_lib::lemma_flatten_concat(pieces.take(g).push(words), pieces.skip(g + 1));
    let at = (t.proof.len() + before.len()) as int;
    assert((t.proof + (before + words + after) + last).subrange(at, at + words.len()) =~= words);
    at
}

/// The words by which a layer is opened at a row.
pub open spec fn layer_opening_words<H: Hal>(hal: H, layer: Layer<H>, row: nat) -> Seq<u32> {
    words_of(Seq::new(layer.matrix.len() / layer.rows, |c: int| layer.matrix[c * layer.rows + row])) + path_words(
        hal,
        layer.matrix,
        layer.rows,
        layer.rows + row,
    )
}

/// The number of rows of each layer is a multiple of that of the next one.
pub open spec fn layers_nest<H: Hal>(layers: Seq<Layer<H>>) -> bool {
    &&& forall|i: int| 0 <= i < layers.len() ==> (#[trigger] layers[i]).rows > 0
    &&& forall|i: int, j: int|
        0 <= i < j < layers.len() ==> (#[trigger] layers[i]).rows % (#[trigger] layers[j]).rows == 0
}

/// Every query opens every layer, at the row that the position falls on when
/// the domain is wrapped around the layer.
pub proof fn law_every_layer_is_opened<H: Hal, S: Sha>(hal: H, t: Transcript<S>, layers: Seq<Layer<H>>, pos: nat)
    requires
        layers_nest(layers),
    ensures
        layers_opened(hal, t, layers, pos).rng == t.rng,
        layers_opened(hal, t, layers, pos).proof == t.proof + Seq::new(
            layers.len(),
            |i: int| layer_opening_words(hal, layers[i], pos % layers[i].rows),
        ).flatten(),
    decreases layers.len(),
{
    let pieces = Seq::new(layers.len(), |i: int| layer_opening_words(hal, layers[i], pos % layers[i].rows));
    if layers.len() == 0 {
        assert(pieces.len() == 0);
        assert(t.proof + Seq::<u32>::empty() =~= t.proof);
    } else {
        let (first, rest) = (layers[0], layers.drop_first());
        let row = pos % first.rows;
        assert(layers[0].rows > 0);
        let t1 = row_opened(hal, t, first.matrix, first.rows, row);
        assert(layers_nest(rest)) by {
            assert forall|i: int| 0 <= i < rest.len() implies (#[trigger] rest[i]).rows > 0 by {
                assert(layers[i + 1].rows > 0);
            }
            assert forall|i: int, j: int| 0 <= i < j < rest.len() implies (#[trigger] rest[i]).rows % (
            #[trigger] rest[j]).rows == 0 by {
                assert(layers[i + 1].rows % layers[j + 1].rows == 0);
            }
        }
        law_every_layer_is_opened(hal, t1, rest, row);
        law_opened_rows_are_written(hal, t, first.matrix, first.rows, row);
        let below = Seq::new(rest.len(), |i: int| layer_opening_words(hal, rest[i], row % rest[i].rows));
        assert forall|i: int| 0 <= i < rest.len() implies pieces.drop_first()[i] == below[i] by {
            let (a, b) = (layers[0].rows as int, layers[i + 1].rows as int);
            assert(layers[i + 1].rows > 0);
            assert(layers[0].rows % layers[i + 1].rows == 0);
            vstd::arithmetic::div_mod::lemma_fundamental_div_mod(a, b);
            let q = a / b;
            assert(q > 0) by (nonlinear_arith)
                requires
                    a == b * q,
                    a > 0,
                    b > 0,
            ;
            lemma_mod_mod(pos as int, b, q);
            assert(row % rest[i].rows == pos % rest[i].rows);
        }
        assert(pieces.drop_first() =~= below);
        let words = layer_opening_words(hal, first, row);
        assert(pieces.first() == words);
        assert(t.proof + words + below.flatten() =~= t.proof + (words + below.flatten()));
    }
}

/// A polynomial that is too long to be sent is committed to: the root of its
/// tree decides the challenge by which it is folded to a sixteenth. One that is
/// short enough is left as it is.
pub proof fn law_long_polynomials_are_folded<H: Hal, S: Sha>(
    hal: H,
    t: Transcript<S>,
    coeffs: Seq<H::Elem>,
    n: nat,
)
    ensures
        n <= 256 ==> ({
            let f = fri_committed(hal, t, coeffs, n);
            f.t == t && f.layers.len() == 0 && f.coeffs == coeffs && f.size == n
        }),
        n > 256 ==> ({
            let f = fri_committed(hal, t, coeffs, n);
            let (matrix, rows) = (extended::<H>(coeffs, n), 4 * n / 16);
            let written = Seq::new(
                top_size(rows),
                |j: int| node(hal, matrix, rows, (top_size(rows) + j) as nat).words@,
            ).flatten();
            let (mix, rng) = elem_drawn::<H::ExtElem, ShaRng<S>>(t.rng.mixed(node(hal, matrix, rows, 1)));
            let rest = fri_committed(
                hal,
                Transcript { proof: t.proof + written, rng },
                folded(coeffs, mix, n / 16),
                n / 16,
            );
            &&& f.t == rest.t
            &&& f.coeffs == rest.coeffs
            &&& f.size == rest.size
            &&& f.layers == seq![Layer::<H> { matrix, rows }] + rest.layers
        }),
{
    if n > 256 {
        let (matrix, rows) = (extended::<H>(coeffs, n), 4 * n / 16);
        law_trees_are_committed_by_their_root(hal, t, matrix, rows);
    }
}

/// The layers of a folding nest, so that one position is opened in all of them.
pub proof fn law_layers_of_a_folding_nest<H: Hal, S: Sha>(
    hal: H,
    t: Transcript<S>,
    coeffs: Seq<H::Elem>,
    k: nat,
)
    ensures
        layers_nest(fri_committed(hal, t, coeffs, pow2(k)).layers),
        forall|i: int|
            0 <= i < fri_committed(hal, t, coeffs, pow2(k)).layers.len() ==> pow2(k) % (#[trigger] fri_committed(
                hal,
                t,
                coeffs,
                pow2(k),
            ).layers[i]).rows == 0,
    decreases k,
{
    let n = pow2(k);
    lemma2_to64();
    let f = fri_committed(hal, t, coeffs, n);
    if n > 256 {
        if k < 8 {
            lemma_pow2_strictly_increases(k, 8);
        }
        assert(k > 8);
        let l = (k - 4) as nat;
        lemma_pow2_adds(l, 4);
        lemma_pow2_pos(l);
        let m = pow2(l);
        assert(n == 16 * m && n / 16 == m);
        let layer = crate::fri::layer_of::<H>(coeffs, n);
        assert(layer.rows == 4 * m);
        let t1 = tree_committed(hal, t, layer.matrix, layer.rows);
        let c1 = folded(coeffs, t1.challenge::<H::ExtElem>(), m);
        let rest = fri_committed(hal, t1.challenged::<H::ExtElem>(), c1, m);
        law_layers_of_a_folding_nest(hal, t1.challenged::<H::ExtElem>(), c1, l);
        assert(f.layers =~= seq![layer] + rest.layers);
        assert forall|i: int| 0 <= i < f.layers.len() implies (#[trigger] f.layers[i]).rows > 0 && n % f.layers[i].rows
            == 0 by {
            if i > 0 {
                let rows = rest.layers[i - 1].rows;
                assert(f.layers[i] == rest.layers[i - 1]);
                assert(rest.layers[i - 1].rows > 0);
                assert(m % rows == 0);
                lemma_multiple_divides(16, m as int, rows as int);
            } else {
                lemma_multiple_divides(4, (4 * m) as int, (4 * m) as int);
            }
        }
        assert forall|i: int, j: int| 0 <= i < j < f.layers.len() implies (#[trigger] f.layers[i]).rows % (
        #[trigger] f.layers[j]).rows == 0 by {
            assert(f.layers[j] == rest.layers[j - 1]);
            assert(rest.layers[j - 1].rows > 0);
            if i > 0 {
                assert(f.layers[i] == rest.layers[i - 1]);
            } else {
                assert(m % rest.layers[j - 1].rows == 0);
                lemma_multiple_divides(4, m as int, rest.layers[j - 1].rows as int);
            }
        }
    }
}

proof fn lemma_multiple_divides(c: int, m: int, d: int)
    requires
        d > 0,
        m % d == 0,
    ensures
        (c * m) % d == 0,
{
    vstd::arithmetic::div_mod::lemma_fundamental_div_mod(m, d);
    let q = m / d;
    assert(c * m == (c * q) * d) by (nonlinear_arith)
        requires
            m == d * q,
    ;
    vstd::arithmetic::div_mod::lemma_fundamental_div_mod_converse(c * m, d, c * q, 0);
}

/// The values of a polynomial over the extension: those of each of its
/// coordinates at all powers of the root of the evaluation domain.
pub proof fn law_folded_polynomials_are_evaluated<H: Hal>(coeffs: Seq<H::Elem>, n: nat, e: int, i: int)
    requires
        n > 0,
        0 <= e < H::ExtElem::spec_ext_size(),
        0 <= i < 4 * n,
    ensures
        extended::<H>(coeffs, n).len() == H::ExtElem::spec_ext_size() * (4 * n),
        extended::<H>(coeffs, n)[e * (4 * n) + i] == eval(
            bit_reversed(chunk(coeffs, n, e)),
            pow(H::Elem::spec_rou_fwd(log2(4 * n)), i as nat),
        ),
{
    lemma_chunk_bounds(H::ExtElem::spec_ext_size(), 4 * n, e);
    lemma_position(4 * n, e, i);
    assert(n * 4 == 4 * n);
}

/// The last polynomial is sent in full, in natural order, and its digest is
/// committed to.
pub proof fn law_last_polynomial_is_sent<H: Hal, S: Sha>(
    t: Transcript<S>,
    coeffs: Seq<H::Elem>,
    k: nat,
    natural: Seq<H::Elem>,
)
    requires
        natural.len() == H::ExtElem::spec_ext_size() * pow2(k),
        forall|e: int, i: int|
            0 <= e < H::ExtElem::spec_ext_size() && 0 <= i < pow2(k) ==> #[trigger] natural[e * pow2(k) + i]
                == coeffs[e * pow2(k) + bit_reverse(k, i as nat)],
        coeffs.len() == natural.len(),
    ensures
        final_sent::<H, S>(t, coeffs, pow2(k)).proof == t.proof + words_of(natural),
        final_sent::<H, S>(t, coeffs, pow2(k)).rng == t.rng.mixed(t.rng.sha.spec_hash_words(raw_words_of(natural))),
{
    let n = pow2(k);
    let ext = H::ExtElem::spec_ext_size();
    lemma_log2_pow2(k);
    let sent = final_coeffs::<H>(coeffs, n);
    assert forall|j: int| 0 <= j < natural.len() implies sent[j] == natural[j] by {
        crate::transform::lemma_position_bounds(ext, n, j);
        let (e, i) = (j / n as int, j % n as int);
        lemma_chunk_bounds(ext, n, e);
        lemma_bit_reverse_bound(k, i as nat);
        assert(natural[e * n + i] == coeffs[e * n + bit_reverse(k, i as nat)]);
        assert(chunk(coeffs, n, e).len() == n);
    }
    assert(sent =~= natural);
}

/// Fifty queries are answered, one after the other. Each draws a word, which
/// decides the position, and opens that position everywhere.
pub proof fn law_fifty_queries_are_answered<H: Hal, S: Sha>(
    hal: H,
    opened: spec_fn(Transcript<S>, nat) -> Transcript<S>,
    t: Transcript<S>,
    coeffs: Seq<H::Elem>,
    n: nat,
) -> (steps: Seq<Transcript<S>>)
    ensures
        ({
            let f = fri_committed(hal, t, coeffs, n);
            &&& steps.len() == 51
            &&& steps[0] == final_sent::<H, S>(f.t, f.coeffs, f.size)
            &&& steps[50] == fri_proved(hal, opened, t, coeffs, n)
            &&& forall|q: int|
                0 <= q < 50 ==> {
                    let (word, rng) = (#[trigger] steps[q]).rng.spec_next();
                    let pos = word as nat % (4 * n);
                    steps[q + 1] == layers_opened(
                        hal,
                        opened(Transcript { proof: steps[q].proof, rng }, pos),
                        f.layers,
                        pos,
                    )
                }
        }),
{
    let f = fri_committed(hal, t, coeffs, n);
    let sent = final_sent::<H, S>(f.t, f.coeffs, f.size);
    let steps = Seq::new(51, |q: int| queries_answered(hal, opened, n * 4, sent, f.layers, q as nat));
    assert forall|q: int| 0 <= q < 50 implies {
        let (word, rng) = (#[trigger] steps[q]).rng.spec_next();
        let pos = word as nat % (4 * n);
        steps[q + 1] == layers_opened(hal, opened(Transcript { proof: steps[q].proof, rng }, pos), f.layers, pos)
    } by {
        assert(n * 4 == 4 * n);
        let k = (q + 1) as nat;
        assert(queries_answered(hal, opened, n * 4, sent, f.layers, k) == crate::fri::query_answered(
            hal,
            opened,
            n * 4,
            queries_answered(hal, opened, n * 4, sent, f.layers, (k - 1) as nat),
            f.layers,
        ));
    }
    steps
}

/// A new prover has written nothing, committed to nothing, and has a place for
/// every group.
pub proof fn law_provers_start_empty<H: Hal, S: Sha>(hal: H, sha: S, taps: crate::taps::Taps)
    requires
        taps.group_begin.len() > 0,
    ensures
        ({
            let st = ProverState::<H, S>::initial(hal, sha, taps);
            &&& st.hal == hal
            &&& st.sha == sha
            &&& st.taps == taps
            &&& st.iop.proof.len() == 0
            &&& st.iop.rng.sha == sha
            &&& st.iop.rng.pool0 == sha.spec_hash_bytes(seq![0x48u8, 0x65, 0x6c, 0x6c, 0x6f])
            &&& st.iop.rng.pool1 == sha.spec_hash_bytes(seq![0x57u8, 0x6f, 0x72, 0x6c, 0x64])
            &&& st.iop.rng.pool_used == 0
            &&& st.groups.len() == taps.group_begin.len() - 1
            &&& forall|g: int| 0 <= g < st.groups.len() ==> (#[trigger] st.groups[g]) is None
            &&& st.cycles == 0
            &&& st.po2 is None
        }),
{
}

/// The transcript of a proof: the challenge for the constraints follows what
/// was committed, the point of the openings follows the root of the check group,
/// the challenge that mixes the polynomials follows the digest of all that is
/// opened, and the proximity proof follows that. What is written are the top
/// layer of the check group and all that is opened.
pub proof fn law_proofs_are_bound_to_what_is_committed<H: Hal, S: Sha>(st: ProverState<H, S>, check: Group<H>)
    ensures
        ({
            let o = st.opening(check);
            let rows = 4 * st.cycles;
            let top = Seq::new(
                top_size(rows),
                |j: int| node(st.hal, check.values(), rows, (top_size(rows) + j) as nat).words@,
            ).flatten();
            let (poly_mix, r0) = elem_drawn::<H::ExtElem, ShaRng<S>>(st.iop.rng);
            let (z, r1) = elem_drawn::<H::ExtElem, ShaRng<S>>(r0.mixed(node(st.hal, check.values(), rows, 1)));
            let (mix, r2) = elem_drawn::<H::ExtElem, ShaRng<S>>(
                r1.mixed(st.sha.spec_hash_words(raw_words_of(o.u()))),
            );
            &&& st.poly_mix() == poly_mix
            &&& o.z == z
            &&& st.mix(check) == mix
            &&& st.proved(check) == fri_proved(
                st.hal,
                |t: Transcript<S>, pos: nat| all_opened(st.hal, t, st.committed(), check, pos),
                Transcript { proof: st.iop.proof + top + words_of(o.u()), rng: r2 },
                o.final_poly(mix),
                st.cycles,
            )
        }),
{
    law_trees_are_committed_by_their_root(
        st.hal,
        st.iop.challenged::<H::ExtElem>(),
        check.values(),
        4 * st.cycles,
    );
    assert(st.cycles * 4 == 4 * st.cycles);
}

/// What is opened are all committed groups, each as it was committed.
pub proof fn law_all_committed_groups_are_opened<H: Hal, S: Sha>(st: ProverState<H, S>, check: Group<H>, g: int)
    requires
        st.complete(),
        0 <= g < st.groups.len(),
    ensures
        st.opening(check).taps == st.taps,
        st.opening(check).check == check,
        st.opening(check).size == st.cycles,
        st.opening(check).groups == st.committed(),
        st.committed().len() == st.groups.len(),
        st.groups[g] == Some(st.committed()[g]),
        st.group_values().len() == st.groups.len(),
        st.group_values()[g] == st.committed()[g].values(),
{
    assert(st.groups[g] is Some);
}

} // verus!
