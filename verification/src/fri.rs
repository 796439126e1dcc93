//! The proximity proof: a polynomial is folded, committed to and queried until
//! what is left of it can be sent in full.
use crate::field::{Elem, ExtElem, RngCore, RootsOfUnity};
use crate::hal::{folded, Buffer, Hal};
use crate::hal::{FRI_FOLD, FRI_FOLD_PO2, FRI_MIN_DEGREE, INV_RATE, INV_RATE_PO2, QUERIES};
use crate::iop::{raw_words, raw_words_of, words_of, Transcript, WriteIOP};
use crate::merkle::{row_opened, tree_committed, MerkleTreeProver};
use crate::sha::Sha;
use crate::transform::{bit_reversed, chunk, evaluated, is_power_of_two, joined};
use crate::transform::{lemma_holds_polys, lemma_log2_pow2, log2};
use vstd::arithmetic::div_mod::lemma_fundamental_div_mod_converse;
use vstd::arithmetic::power2::{lemma_pow2_adds, lemma_pow2_strictly_increases, pow2};
use vstd::prelude::*;

verus! {

/// What else a query opens besides the folded polynomials.
pub trait QueryProver<H: Hal, S: Sha> {
    /// Openings for the accelerator `hal` can be given.
    spec fn ready(&self, hal: H) -> bool;

    /// The number of positions that can be queried.
    spec fn domain(&self) -> nat;

    /// The transcript after position `pos` has been opened.
    spec fn opened(&self, hal: H, t: Transcript<S>, pos: nat) -> Transcript<S>;

    /// Opens position `pos`.
    fn open(&self, hal: &H, iop: &mut WriteIOP<S>, pos: usize)
        requires
            self.ready(*hal),
            pos < self.domain(),
        ensures
            final(iop)@ == self.opened(*hal, old(iop)@, pos as nat),
    ;
}

/// A matrix that has been committed to row by row.
pub struct Layer<H: Hal> {
    pub matrix: Seq<H::Elem>,
    pub rows: nat,
}

/// How far the folding has come.
pub struct Folding<H: Hal, S: Sha> {
    pub t: Transcript<S>,
    pub layers: Seq<Layer<H>>,
    /// The polynomial left, by coordinate in bit-reversed order.
    pub coeffs: Seq<H::Elem>,
    pub size: nat,
}

/// The values of the polynomial with `n` coefficients on the evaluation domain.
pub open spec fn extended<H: Hal>(coeffs: Seq<H::Elem>, n: nat) -> Seq<H::Elem> {
    joined(
        H::ExtElem::spec_ext_size(),
        n * INV_RATE as nat,
        |e: int| evaluated(chunk(coeffs, n, e), n * INV_RATE as nat),
    )
}

/// The layer that a polynomial with `n` coefficients is committed in.
pub open spec fn layer_of<H: Hal>(coeffs: Seq<H::Elem>, n: nat) -> Layer<H> {
    Layer { matrix: extended::<H>(coeffs, n), rows: n * INV_RATE as nat / FRI_FOLD as nat }
}

/// Commits to the polynomial and folds it, until it is small.
pub open spec fn fri_committed<H: Hal, S: Sha>(
    hal: H,
    t: Transcript<S>,
    coeffs: Seq<H::Elem>,
    n: nat,
) -> Folding<H, S>
    decreases n,
{
    if n <= FRI_MIN_DEGREE {
        Folding { t, layers: Seq::empty(), coeffs, size: n }
    } else {
        let layer = layer_of::<H>(coeffs, n);
        let t1 = tree_committed(hal, t, layer.matrix, layer.rows);
        let mix = t1.challenge::<H::ExtElem>();
        let m = n / FRI_FOLD as nat;
        let rest = fri_committed(hal, t1.challenged::<H::ExtElem>(), folded(coeffs, mix, m), m);
        Folding { layers: seq![layer] + rest.layers, ..rest }
    }
}

/// The last polynomial, lowest degree first.
pub open spec fn final_coeffs<H: Hal>(coeffs: Seq<H::Elem>, n: nat) -> Seq<H::Elem> {
    joined(H::ExtElem::spec_ext_size(), n, |e: int| bit_reversed(chunk(coeffs, n, e)))
}

/// The transcript after the last polynomial has been sent.
pub open spec fn final_sent<H: Hal, S: Sha>(t: Transcript<S>, coeffs: Seq<H::Elem>, n: nat) -> Transcript<S> {
    let natural = final_coeffs::<H>(coeffs, n);
    let sent = t.written(words_of(natural));
    sent.committed(sent.rng.sha.spec_hash_words(raw_words_of(natural)))
}

/// The transcript after position `pos` has been opened in all
/// layers, each time reduced to the size of the layer.
pub open spec fn layers_opened<H: Hal, S: Sha>(
    hal: H,
    t: Transcript<S>,
    layers: Seq<Layer<H>>,
    pos: nat,
) -> Transcript<S>
    decreases layers.len(),
{
    if layers.len() == 0 {
        t
    } else {
        let group = pos % layers[0].rows;
        layers_opened(
            hal,
            row_opened(hal, t, layers[0].matrix, layers[0].rows, group),
            layers.drop_first(),
            group,
        )
    }
}

/// The transcript after one position has been drawn and opened everywhere.
pub open spec fn query_answered<H: Hal, S: Sha>(
    hal: H,
    opened: spec_fn(Transcript<S>, nat) -> Transcript<S>,
    domain: nat,
    t: Transcript<S>,
    layers: Seq<Layer<H>>,
) -> Transcript<S> {
    let (word, rng) = t.rng.spec_next();
    let pos = word as nat % domain;
    layers_opened(hal, opened(Transcript { rng, ..t }, pos), layers, pos)
}

/// The transcript after `k` queries.
pub open spec fn queries_answered<H: Hal, S: Sha>(
    hal: H,
    opened: spec_fn(Transcript<S>, nat) -> Transcript<S>,
    domain: nat,
    t: Transcript<S>,
    layers: Seq<Layer<H>>,
    k: nat,
) -> Transcript<S>
    decreases k,
{
    if k == 0 {
        t
    } else {
        query_answered(
            hal,
            opened,
            domain,
            queries_answered(hal, opened, domain, t, layers, (k - 1) as nat),
            layers,
        )
    }
}

/// The transcript after the whole proximity proof for the polynomial with `n`
/// coefficients, where `opened` says what else a query opens.
pub open spec fn fri_proved<H: Hal, S: Sha>(
    hal: H,
    opened: spec_fn(Transcript<S>, nat) -> Transcript<S>,
    t: Transcript<S>,
    coeffs: Seq<H::Elem>,
    n: nat,
) -> Transcript<S> {
    let f = fri_committed(hal, t, coeffs, n);
    queries_answered(
        hal,
        opened,
        n * INV_RATE as nat,
        final_sent::<H, S>(f.t, f.coeffs, f.size),
        f.layers,
        QUERIES as nat,
    )
}

/// The trees of the folding rounds are those of the layers.
pub open spec fn trees_match<H: Hal>(hal: H, trees: Seq<MerkleTreeProver<H>>, layers: Seq<Layer<H>>) -> bool {
    &&& trees.len() == layers.len()
    &&& forall|i: int|
        0 <= i < trees.len() ==> {
            &&& (#[trigger] trees[i]).wf(hal)
            &&& trees[i].matrix.contents() == layers[i].matrix
            &&& trees[i].rows == layers[i].rows
        }
}

/// Commits to one polynomial, and folds it by a challenge that depends on the
/// commitment.
fn fri_round<H: Hal, S: Sha>(hal: &H, iop: &mut WriteIOP<S>, coeffs: &H::BufferElem, size: usize) -> (r: (
    H::BufferElem,
    MerkleTreeProver<H>,
))
    requires
        size > FRI_MIN_DEGREE,
        is_power_of_two(size as nat),
        coeffs.contents().len() == H::ExtElem::spec_ext_size() * size,
        log2(size as nat) + INV_RATE_PO2 <= H::Elem::spec_max_rou_po2(),
        H::ExtElem::spec_ext_size() * (size * INV_RATE) <= usize::MAX,
        2 * (size * INV_RATE) <= usize::MAX,
    ensures
        ({
            let layer = layer_of::<H>(coeffs.contents(), size as nat);
            let t1 = tree_committed(*hal, old(iop)@, layer.matrix, layer.rows);
            let mix = t1.challenge::<H::ExtElem>();
            &&& trees_match(*hal, seq![r.1], seq![layer])
            &&& final(iop)@ == t1.challenged::<H::ExtElem>()
            &&& r.0.contents() == folded(coeffs.contents(), mix, size as nat / FRI_FOLD as nat)
        }),
{
    let ext: usize = H::ExtElem::ext_size();
    let domain: usize = size * INV_RATE;
    let ghost k = log2(size as nat);
    let ghost layer = layer_of::<H>(coeffs.contents(), size as nat);
    let small: usize = size / FRI_FOLD;
    let rows: usize = domain / FRI_FOLD;
    proof {
        H::ExtElem::law_ext_size();
        lemma_fold_sizes(size as nat, ext as nat);
        lemma_holds_polys(ext as nat, k);
        lemma_holds_polys(ext as nat, k + 2);
        lemma_fundamental_div_mod_converse((ext * small) as int, ext as int, small as int, 0);
    }
    let mut values = hal.alloc_elem("evaluated", ext * domain);
    hal.batch_expand_into_evaluate_ntt(&mut values, coeffs, ext, INV_RATE_PO2);
    assert(values.contents() =~= layer.matrix);
    let tree = MerkleTreeProver::new(hal, values, rows, FRI_FOLD * ext);
    tree.commit(hal, iop);
    let fold_mix = iop.random::<H::ExtElem>();
    let mut out_coeffs = hal.alloc_elem("out_coeffs", ext * small);
    hal.fri_fold(&mut out_coeffs, coeffs, &fold_mix);
    (out_coeffs, tree)
}

/// The sizes met in one round of folding.
proof fn lemma_fold_sizes(size: nat, ext: nat)
    requires
        size > FRI_MIN_DEGREE,
        is_power_of_two(size),
        1 <= ext <= 0xffff,
        ext * (size * INV_RATE) <= usize::MAX,
    ensures
        size == pow2(log2(size)),
        log2(size) > FRI_FOLD_PO2,
        pow2(log2(size) + 2) == size * INV_RATE,
        size / FRI_FOLD as nat == pow2((log2(size) - FRI_FOLD_PO2) as nat),
        size == FRI_FOLD * (size / FRI_FOLD as nat),
        size * INV_RATE / FRI_FOLD as int == pow2((log2(size) - 2) as nat),
        is_power_of_two(size / FRI_FOLD as nat),
        is_power_of_two((size * INV_RATE / FRI_FOLD as int) as nat),
        log2(size / FRI_FOLD as nat) == log2(size) - FRI_FOLD_PO2,
        0 < size / FRI_FOLD as nat,
        0 < size * INV_RATE / FRI_FOLD as int,
        ext * (size * INV_RATE) == (FRI_FOLD * ext) * (size * INV_RATE / FRI_FOLD as int),
        ext * size == FRI_FOLD * (ext * (size / FRI_FOLD as nat)),
        ext <= ext * (size / FRI_FOLD as nat),
        ext * (size / FRI_FOLD as nat) <= ext * size <= usize::MAX,
        (FRI_FOLD * ext) <= usize::MAX,
{
    let k = log2(size);
    vstd::arithmetic::power2::lemma2_to64();
    if k < 9 {
        if k < 8 {
            lemma_pow2_strictly_increases(k, 8);
        }
        assert(false);
    }
    let l = (k - 4) as nat;
    lemma_pow2_adds(k, 2);
    lemma_pow2_adds(l, 4);
    lemma_pow2_adds(l, 2);
    lemma_log2_pow2(l);
    lemma_log2_pow2((k - 2) as nat);
    let s = pow2(l);
    assert(size == 16 * s && size / 16 == s && size * 4 / 16 == 4 * s);
    assert(ext * (size * 4) == (16 * ext) * (4 * s)) by (nonlinear_arith)
        requires
            size == 16 * s,
    ;
    assert(ext * size == 16 * (ext * s)) by (nonlinear_arith)
        requires
            size == 16 * s,
    ;
    assert(ext <= ext * s) by (nonlinear_arith)
        requires
            s >= 1,
    ;
    assert(ext * size <= ext * (size * 4)) by (nonlinear_arith);
}

/// Opens position `pos` in each layer in turn.
fn open_layers<H: Hal, S: Sha>(
    hal: &H,
    iop: &mut WriteIOP<S>,
    trees: &Vec<MerkleTreeProver<H>>,
    Ghost(layers): Ghost<Seq<Layer<H>>>,
    pos: usize,
)
    requires
        trees_match(*hal, trees@, layers),
    ensures
        final(iop)@ == layers_opened(*hal, old(iop)@, layers, pos as nat),
{
    let mut pos: usize = pos;
    let ghost start = pos as nat;
    let mut i: usize = 0;
    assert(layers.skip(0) =~= layers);
    while i < trees.len()
        invariant
            i <= trees@.len(),
            trees_match(*hal, trees@, layers),
            layers_opened(*hal, iop@, layers.skip(i as int), pos as nat) == layers_opened(
                *hal,
                old(iop)@,
                layers,
                start,
            ),
        decreases trees@.len() - i,
    {
        assert(trees@[i as int].wf(*hal));
        let group: usize = pos % trees[i].rows;
        let _row = trees[i].prove(hal, iop, group);
        pos = group;
        assert(layers.skip(i as int).drop_first() =~= layers.skip(i + 1));
        i = i + 1;
    }
    assert(layers.skip(i as int).len() == 0);
}

/// Proves that the polynomial with `size` coefficients over the extension,
/// given by coordinate in bit-reversed order, has that many coefficients.
pub fn fri_prove<H: Hal, S: Sha, Q: QueryProver<H, S>>(
    hal: &H,
    iop: &mut WriteIOP<S>,
    coeffs: H::BufferElem,
    size: usize,
    inner: &Q,
)
    requires
        size > 0,
        is_power_of_two(size as nat),
        coeffs.contents().len() == H::ExtElem::spec_ext_size() * size,
        log2(size as nat) + INV_RATE_PO2 <= H::Elem::spec_max_rou_po2(),
        H::ExtElem::spec_ext_size() * (size * INV_RATE) <= usize::MAX,
        2 * (size * INV_RATE) <= usize::MAX,
        inner.ready(*hal),
        inner.domain() == size * INV_RATE,
    ensures
        final(iop)@ == fri_proved(
            *hal,
            |t: Transcript<S>, pos: nat| inner.opened(*hal, t, pos),
            old(iop)@,
            coeffs.contents(),
            size as nat,
        ),
{
    let ext: usize = H::ExtElem::ext_size();
    let orig_domain: usize = size * INV_RATE;
    let ghost whole = fri_committed(*hal, iop@, coeffs.contents(), size as nat);
    let mut trees: Vec<MerkleTreeProver<H>> = Vec::new();
    let mut coeffs = coeffs;
    let mut size: usize = size;
    let ghost mut layers: Seq<Layer<H>> = Seq::empty();
    assert(layers + whole.layers =~= whole.layers);
    while size > FRI_MIN_DEGREE
        invariant
            size > 0,
            ext == H::ExtElem::spec_ext_size(),
            is_power_of_two(size as nat),
            coeffs.contents().len() == ext * size,
            log2(size as nat) + INV_RATE_PO2 <= H::Elem::spec_max_rou_po2(),
            ext * (size * INV_RATE) <= usize::MAX,
            2 * (size * INV_RATE) <= usize::MAX,
            trees_match(*hal, trees@, layers),
            ({
                let rest = fri_committed(*hal, iop@, coeffs.contents(), size as nat);
                &&& whole.t == rest.t
                &&& whole.layers == layers + rest.layers
                &&& whole.coeffs == rest.coeffs
                &&& whole.size == rest.size
            }),
        decreases size,
    {
        let ghost layer = layer_of::<H>(coeffs.contents(), size as nat);
        let ghost rest = fri_committed(*hal, iop@, coeffs.contents(), size as nat);
        proof {
            H::ExtElem::law_ext_size();
            lemma_fold_sizes(size as nat, ext as nat);
            let s = size as nat / FRI_FOLD as nat;
            assert(ext * (s * 4) <= ext * (size * 4)) by (nonlinear_arith)
                requires
                    s <= size,
            ;
        }
        let (smaller, tree) = fri_round(hal, iop, &coeffs, size);
        let ghost old_trees = trees@;
        trees.push(tree);
        proof {
            assert(trees_match(*hal, trees@, layers.push(layer))) by {
                assert forall|i: int| 0 <= i < trees@.len() implies {
                    &&& (#[trigger] trees@[i]).wf(*hal)
                    &&& trees@[i].matrix.contents() == layers.push(layer)[i].matrix
                    &&& trees@[i].rows == layers.push(layer)[i].rows
                } by {
                    if i < old_trees.len() {
                        assert(old_trees[i].wf(*hal));
                    } else {
                        assert(seq![tree][0].wf(*hal));
                    }
                }
            }
            let next = fri_committed(*hal, iop@, smaller.contents(), size as nat / FRI_FOLD as nat);
            assert(layers + (seq![layer] + next.layers) =~= layers.push(layer) + next.layers);
            layers = layers.push(layer);
        }
        coeffs = smaller;
        size = size / FRI_FOLD;
    }
    assert(layers + Seq::<Layer<H>>::empty() =~= layers);
    proof {
        H::ExtElem::law_ext_size();
        lemma_holds_polys(ext as nat, log2(size as nat));
    }
    let ghost last = coeffs.contents();
    let ghost last_size = size as nat;
    hal.batch_bit_reverse(&mut coeffs, ext);
    assert(coeffs.contents() =~= final_coeffs::<H>(last, last_size));
    let natural = coeffs.to_vec();
    iop.write_field_elem_slice(natural.as_slice());
    let words = raw_words(natural.as_slice());
    let digest = iop.rng.sha.hash_raw_pod_slice(words.as_slice());
    iop.commit(&digest);
    let ghost sent = iop@;
    let ghost opened = |t: Transcript<S>, pos: nat| inner.opened(*hal, t, pos);
    let mut query: usize = 0;
    while query < QUERIES
        invariant
            query <= QUERIES,
            orig_domain > 0,
            trees_match(*hal, trees@, layers),
            inner.ready(*hal),
            inner.domain() == orig_domain,
            opened == (|t: Transcript<S>, pos: nat| inner.opened(*hal, t, pos)),
            iop@ == queries_answered(*hal, opened, orig_domain as nat, sent, layers, query as nat),
        decreases QUERIES - query,
    {
        let word = iop.rng.next_u32();
        let pos: usize = word as usize % orig_domain;
        inner.open(hal, iop, pos);
        open_layers(hal, iop, &trees, Ghost(layers), pos);
        query = query + 1;
    }
}

} // verus!
