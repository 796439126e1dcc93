//! What holds of the prover as a whole.
use crate::baby_bear::BabyBearElem;
use crate::baby_bear_field::law_extension_divides_all;
use crate::cpu::CpuHal;
use crate::deep::{check_size, Opening};
use crate::exactness::{law_openings_divide, lemma_numerators, lemma_numerators_len};
use crate::field::{divides_all, lemma_mul_one, pow, reduced, Elem, ExtElem, RngCore, RootsOfUnity};
use crate::fri::{final_sent, fri_committed, layers_opened, queries_answered, Layer};
use crate::hal::{by_coordinate, column_sum, columns_summed, folded, folded_coeff, from_coordinates, read_poly};
use crate::hal::{EvalCheck, Hal, FRI_FOLD, FRI_FOLD_PO2, FRI_MIN_DEGREE, INV_RATE, INV_RATE_PO2, QUERIES};
use crate::iop::Transcript;
use crate::merkle::{row_opened, tree_committed};
use crate::poly::{lemma_eval_plus_scaled, lemma_eval_reduced, lemma_eval_zeros, plus_scaled, zeros};
use crate::poly::{divides_exactly, eval, lemma_quotient, lemma_quotient_by_all, quotient, vanishing};
use crate::poly_group::Group;
use crate::prover::{all_opened, column_coeffs, groups_opened, ProverState};
use crate::roots::{law_interpolation_is_exact, roots_match};
use crate::sha::Sha;
use crate::transform::{bit_reverse, bit_reversed, chunk, interpolated, joined, shifted, stride};
use crate::transform::{law_shift_substitutes, law_strides_are_contiguous, law_strides_recombine};
use crate::transform::{is_power_of_two, lemma_bit_reverse_bound, lemma_bit_reverse_involutive, lemma_chunk_bounds};
use crate::transform::{lemma_chunk_of_joined, lemma_log2_pow2, lemma_position, log2};
use vstd::arithmetic::div_mod::lemma_fundamental_div_mod_converse;
use vstd::arithmetic::power2::{lemma_pow2_adds, pow2};
use vstd::prelude::*;

verus! {

/// The opening of a complete prover is well formed.
proof fn lemma_opening_wf<H: Hal, S: Sha, E: EvalCheck<H>>(
    st: ProverState<H, S>,
    eval: E,
    globals: Seq<Seq<H::Elem>>,
)
    requires
        st.wf(),
        st.complete(),
    ensures
        st.opening(st.check_group(eval, globals)).wf(),
{
    let check = st.check_group(eval, globals);
    let o = st.opening(check);
    H::ExtElem::law_ext_size();
    lemma_log2_pow2(st.po2->0);
    assert forall|g: int| 0 <= g < o.groups.len() implies {
        &&& (#[trigger] o.groups[g]).wf()
        &&& o.groups[g].count == o.taps.group_size(g)
        &&& o.groups[g].size == o.size
    } by {
        assert(st.groups[g] is Some);
    }
}

/// Once all groups have been committed, the proof exists: provided that the
/// taps are consistent and no combination is opened twice at the same point,
/// nothing that was committed can make a division leave a remainder.
pub proof fn law_complete_prover_can_prove<H: Hal, S: Sha, E: EvalCheck<H>>(
    st: ProverState<H, S>,
    eval: E,
    globals: Seq<Seq<H::Elem>>,
)
    requires
        st.wf(),
        st.complete(),
        st.taps.consistent(),
        st.opening(st.check_group(eval, globals)).points_distinct(),
    ensures
        st.provable(eval, globals),
{
    let check = st.check_group(eval, globals);
    lemma_opening_wf(st, eval, globals);
    law_openings_divide(st.opening(check), st.mix(check));
}

/// Over a field the condition on the points is that they differ: once all
/// groups have been committed, the taps are consistent, and no combination is
/// opened twice at the same point, the proof exists.
pub proof fn law_complete_prover_over_a_field_can_prove<H: Hal, S: Sha, E: EvalCheck<H>>(
    st: ProverState<H, S>,
    eval: E,
    globals: Seq<Seq<H::Elem>>,
)
    requires
        st.wf(),
        st.complete(),
        st.taps.consistent(),
        divides_all::<H::ExtElem>(),
        st.opening(st.check_group(eval, globals)).points_differ(),
    ensures
        st.provable(eval, globals),
{
    st.opening(st.check_group(eval, globals)).lemma_points_differ();
    law_complete_prover_can_prove(st, eval, globals);
}

/// The same on the host, whose field is one: the proof exists wherever the taps
/// are consistent and no combination is opened twice at the same point.
pub proof fn law_complete_prover_on_the_host_can_prove<T: Sha, S: Sha, E: EvalCheck<CpuHal<T>>>(
    st: ProverState<CpuHal<T>, S>,
    eval: E,
    globals: Seq<Seq<BabyBearElem>>,
)
    requires
        st.wf(),
        st.complete(),
        st.taps.consistent(),
        st.opening(st.check_group(eval, globals)).points_differ(),
    ensures
        st.provable(eval, globals),
{
    law_extension_divides_all();
    law_complete_prover_over_a_field_can_prove(st, eval, globals);
}

/// What is divided: at every `x`, combination `c` less its openings has as its
/// value the sum of `mix^i * (p_i(x) - u_i(x))` over its registers `i`, where
/// `p_i` is the committed polynomial and `u_i` what is opened of it. The last
/// combination is that of the check polynomials, of which values are opened.
pub proof fn law_numerators_are_weighted_differences<H: Hal>(
    o: Opening<H>,
    mix: H::ExtElem,
    c: int,
    x: H::ExtElem,
)
    requires
        o.wf(),
        o.openings_short(),
        0 <= c <= o.taps.combos_size(),
    ensures
        eval(chunk(o.numerators(mix), o.size, c), x) == if c < o.taps.combos_size() {
            o.differences(mix, o.taps.regs().len(), c, x)
        } else {
            o.check_differences(mix, check_size::<H>(), x)
        },
{
    lemma_numerators(o, mix, c, x);
}

/// Groups can be committed in any order: it decides the transcript, not what
/// is committed.
pub proof fn law_groups_commute<H: Hal, S: Sha>(
    st: ProverState<H, S>,
    g: int,
    h: int,
    a: Seq<H::Elem>,
    b: Seq<H::Elem>,
)
    requires
        0 <= g < st.groups.len(),
        0 <= h < st.groups.len(),
        g != h,
    ensures
        st.group_committed(g, a).group_committed(h, b).groups == st.group_committed(h, b).group_committed(
            g,
            a,
        ).groups,
{
    let (u, v) = (st.group_committed(g, a), st.group_committed(h, b));
    assert(u.group_of(h, b) == st.group_of(h, b));
    assert(v.group_of(g, a) == st.group_of(g, a));
    assert(u.group_committed(h, b).groups =~= v.group_committed(g, a).groups);
}

/// Committing a group leaves what has been committed before in place.
pub proof fn law_commitments_stay<H: Hal, S: Sha>(st: ProverState<H, S>, g: int, buf: Seq<H::Elem>, h: int)
    requires
        0 <= g < st.groups.len(),
        0 <= h < st.groups.len(),
    ensures
        st.group_committed(g, buf).groups[h] == if h == g {
            Some(st.group_of(g, buf))
        } else {
            st.groups[h]
        },
        st.group_committed(g, buf).cycles == st.cycles,
        st.group_committed(g, buf).po2 == st.po2,
        st.group_committed(g, buf).taps == st.taps,
{
}

/// `t` continues `earlier`: nothing that was written has been changed.
pub open spec fn continues<S: Sha>(t: Transcript<S>, earlier: Transcript<S>) -> bool {
    earlier.proof.is_prefix_of(t.proof)
}

proof fn lemma_continues<S: Sha>(a: Transcript<S>, b: Transcript<S>, c: Transcript<S>)
    requires
        continues(b, a),
        continues(c, b),
    ensures
        continues(c, a),
{
    assert(a.proof =~= c.proof.take(a.proof.len() as int)) by {
        assert(b.proof.take(a.proof.len() as int) =~= c.proof.take(a.proof.len() as int));
    }
}

proof fn lemma_written_continues<S: Sha>(t: Transcript<S>, words: Seq<u32>)
    ensures
        continues(t.written(words), t),
{
    assert(t.proof =~= (t.proof + words).take(t.proof.len() as int));
}

proof fn lemma_row_opened_continues<H: Hal, S: Sha>(
    hal: H,
    t: Transcript<S>,
    matrix: Seq<H::Elem>,
    rows: nat,
    r: nat,
)
    ensures
        continues(row_opened(hal, t, matrix, rows, r), t),
{
    let row = crate::iop::words_of(crate::hal::matrix_row(matrix, rows, r as int));
    lemma_written_continues(t, row);
    lemma_written_continues(t.written(row), crate::merkle::path_words(hal, matrix, rows, r + rows));
    lemma_continues(t, t.written(row), row_opened(hal, t, matrix, rows, r));
}

proof fn lemma_tree_committed_continues<H: Hal, S: Sha>(hal: H, t: Transcript<S>, matrix: Seq<H::Elem>, rows: nat)
    ensures
        continues(tree_committed(hal, t, matrix, rows), t),
{
    let top = crate::merkle::top_size(rows);
    lemma_written_continues(t, crate::merkle::layer_words(hal, matrix, rows, top, 2 * top));
}

proof fn lemma_fri_committed_continues<H: Hal, S: Sha>(hal: H, t: Transcript<S>, coeffs: Seq<H::Elem>, n: nat)
    ensures
        continues(fri_committed(hal, t, coeffs, n).t, t),
    decreases n,
{
    if n <= FRI_MIN_DEGREE {
        assert(t.proof =~= t.proof.take(t.proof.len() as int));
    } else {
        let layer = crate::fri::layer_of::<H>(coeffs, n);
        let t1 = tree_committed(hal, t, layer.matrix, layer.rows);
        let m = n / FRI_FOLD as nat;
        let t2 = t1.challenged::<H::ExtElem>();
        lemma_tree_committed_continues(hal, t, layer.matrix, layer.rows);
        lemma_fri_committed_continues(hal, t2, folded(coeffs, t1.challenge::<H::ExtElem>(), m), m);
        lemma_continues(t, t2, fri_committed(hal, t, coeffs, n).t);
    }
}

/// No layer is empty.
spec fn layers_filled<H: Hal>(layers: Seq<Layer<H>>) -> bool {
    forall|i: int| 0 <= i < layers.len() ==> (#[trigger] layers[i]).rows > 0
}

proof fn lemma_fri_committed_fills<H: Hal, S: Sha>(hal: H, t: Transcript<S>, coeffs: Seq<H::Elem>, n: nat)
    ensures
        layers_filled(fri_committed(hal, t, coeffs, n).layers),
    decreases n,
{
    if n > FRI_MIN_DEGREE {
        let layer = crate::fri::layer_of::<H>(coeffs, n);
        let t1 = tree_committed(hal, t, layer.matrix, layer.rows);
        let m = n / FRI_FOLD as nat;
        lemma_fri_committed_fills(
            hal,
            t1.challenged::<H::ExtElem>(),
            folded(coeffs, t1.challenge::<H::ExtElem>(), m),
            m,
        );
    }
}

proof fn lemma_layers_opened_continues<H: Hal, S: Sha>(hal: H, t: Transcript<S>, layers: Seq<Layer<H>>, pos: nat)
    requires
        layers_filled(layers),
    ensures
        continues(layers_opened(hal, t, layers, pos), t),
    decreases layers.len(),
{
    if layers.len() == 0 {
        assert(t.proof =~= t.proof.take(t.proof.len() as int));
    } else {
        assert(layers[0].rows > 0);
        let group = pos % layers[0].rows;
        let t1 = row_opened(hal, t, layers[0].matrix, layers[0].rows, group);
        lemma_row_opened_continues(hal, t, layers[0].matrix, layers[0].rows, group);
        lemma_layers_opened_continues(hal, t1, layers.drop_first(), group);
        lemma_continues(t, t1, layers_opened(hal, t, layers, pos));
    }
}

proof fn lemma_groups_opened_continues<H: Hal, S: Sha>(
    hal: H,
    t: Transcript<S>,
    groups: Seq<Group<H>>,
    k: nat,
    pos: nat,
)
    ensures
        continues(groups_opened(hal, t, groups, k, pos), t),
    decreases k,
{
    if k == 0 {
        assert(t.proof =~= t.proof.take(t.proof.len() as int));
    } else {
        let t1 = groups_opened(hal, t, groups, (k - 1) as nat, pos);
        let group = groups[k - 1];
        lemma_groups_opened_continues(hal, t, groups, (k - 1) as nat, pos);
        lemma_row_opened_continues(hal, t1, group.values(), group.size * INV_RATE as nat, pos);
        lemma_continues(t, t1, groups_opened(hal, t, groups, k, pos));
    }
}

proof fn lemma_queries_continue<H: Hal, S: Sha>(
    hal: H,
    groups: Seq<Group<H>>,
    check: Group<H>,
    domain: nat,
    t: Transcript<S>,
    layers: Seq<Layer<H>>,
    k: nat,
)
    requires
        layers_filled(layers),
    ensures
        continues(
            queries_answered(
                hal,
                |t: Transcript<S>, pos: nat| all_opened(hal, t, groups, check, pos),
                domain,
                t,
                layers,
                k,
            ),
            t,
        ),
    decreases k,
{
    let opened = |t: Transcript<S>, pos: nat| all_opened(hal, t, groups, check, pos);
    if k == 0 {
        assert(t.proof =~= t.proof.take(t.proof.len() as int));
    } else {
        let t1 = queries_answered(hal, opened, domain, t, layers, (k - 1) as nat);
        lemma_queries_continue(hal, groups, check, domain, t, layers, (k - 1) as nat);
        let (word, rng) = t1.rng.spec_next();
        let pos = word as nat % domain;
        let t2 = Transcript { rng, ..t1 };
        let t3 = groups_opened(hal, t2, groups, groups.len(), pos);
        let t4 = opened(t2, pos);
        let t5 = layers_opened(hal, t4, layers, pos);
        lemma_groups_opened_continues(hal, t2, groups, groups.len(), pos);
        lemma_row_opened_continues(hal, t3, check.values(), check.size * INV_RATE as nat, pos);
        lemma_layers_opened_continues(hal, t4, layers, pos);
        lemma_continues(t2, t3, t4);
        lemma_continues(t2, t4, t5);
        lemma_continues(t, t2, t5);
    }
}

/// Committing a group only appends to the proof.
pub proof fn law_commitment_appends<H: Hal, S: Sha>(st: ProverState<H, S>, g: int, buf: Seq<H::Elem>)
    ensures
        continues(st.group_committed(g, buf).iop, st.iop),
{
    lemma_tree_committed_continues(st.hal, st.iop, st.group_of(g, buf).values(), st.domain());
}

/// The seal begins with everything that had been written to the proof before
/// it was finalized.
pub proof fn law_seal_starts_with_transcript<H: Hal, S: Sha, E: EvalCheck<H>>(
    st: ProverState<H, S>,
    eval: E,
    globals: Seq<Seq<H::Elem>>,
)
    ensures
        st.iop.proof.is_prefix_of(st.seal(eval, globals)),
{
    let check = st.check_group(eval, globals);
    let t1 = st.check_committed(check);
    let t2 = st.openings_sent(check);
    let t3 = t2.challenged::<H::ExtElem>();
    let f = fri_committed(st.hal, t3, st.opening(check).final_poly(st.mix(check)), st.cycles);
    let t4 = final_sent::<H, S>(f.t, f.coeffs, f.size);
    lemma_tree_committed_continues(st.hal, st.iop.challenged::<H::ExtElem>(), check.values(), st.domain());
    lemma_written_continues(t1.challenged::<H::ExtElem>(), crate::iop::words_of(st.opening(check).u()));
    lemma_fri_committed_continues(st.hal, t3, st.opening(check).final_poly(st.mix(check)), st.cycles);
    lemma_fri_committed_fills(st.hal, t3, st.opening(check).final_poly(st.mix(check)), st.cycles);
    lemma_written_continues(f.t, crate::iop::words_of(crate::fri::final_coeffs::<H>(f.coeffs, f.size)));
    lemma_queries_continue(
        st.hal,
        st.committed(),
        check,
        st.cycles * INV_RATE as nat,
        t4,
        f.layers,
        QUERIES as nat,
    );
    lemma_continues(st.iop, t1, t2);
    lemma_continues(st.iop, t3, f.t);
    lemma_continues(st.iop, f.t, t4);
    lemma_continues(st.iop, t4, st.proved(check));
}

/// A committed polynomial `g` is the interpolated column `f` moved off the
/// trace domain: `g(x)` is `f(3x)`.
pub proof fn law_columns_are_shifted<H: Hal, S: Sha>(
    st: ProverState<H, S>,
    g: int,
    buf: Seq<H::Elem>,
    k: int,
    x: H::Elem,
)
    requires
        st.wf(),
        st.po2 is Some,
        0 <= g < st.groups.len(),
        buf.len() == st.taps.group_size(g) * st.cycles,
        0 <= k < st.taps.group_size(g),
    ensures
        eval(st.group_of(g, buf).poly(k), x) == eval(
            bit_reversed(interpolated(chunk(buf, st.cycles, k))),
            H::Elem::spec_from_u64(3).spec_mul(x),
        ),
{
    let (count, n) = (st.taps.group_size(g), st.cycles);
    let coeffs = column_coeffs::<H>(buf, count, n);
    lemma_log2_pow2(st.po2->0);
    lemma_chunk_bounds(count, n, k);
    lemma_chunk_of_joined(count, n, |j: int| shifted(interpolated(chunk(buf, n, j))), k);
    lemma_chunk_of_joined(count, n, |j: int| bit_reversed(chunk(coeffs, n, j)), k);
    law_shift_substitutes(interpolated(chunk(buf, n, k)), x);
}

/// A committed polynomial takes the values of its column: at the point `x`
/// whose triple is the `i`-th power of the root of the trace domain, it is what
/// stands in row `i`.
pub proof fn law_trace_is_committed<H: Hal, S: Sha>(
    st: ProverState<H, S>,
    g: int,
    buf: Seq<H::Elem>,
    k: int,
    i: int,
    x: H::Elem,
)
    requires
        st.wf(),
        st.po2 is Some,
        st.cycles <= u64::MAX,
        0 <= g < st.groups.len(),
        buf.len() == st.taps.group_size(g) * st.cycles,
        0 <= k < st.taps.group_size(g),
        0 <= i < st.cycles,
        roots_match::<H::Elem>(st.po2->0),
        H::Elem::spec_from_u64(3).spec_mul(x) == pow(H::Elem::spec_rou_fwd(st.po2->0), i as nat),
        reduced(buf[k * st.cycles + i]),
    ensures
        eval(st.group_of(g, buf).poly(k), x) == buf[k * st.cycles + i],
{
    let column = chunk(buf, st.cycles, k);
    lemma_log2_pow2(st.po2->0);
    lemma_chunk_bounds(st.taps.group_size(g), st.cycles, k);
    law_columns_are_shifted(st, g, buf, k, x);
    assert(column[i] == buf[k * st.cycles + i]);
    law_interpolation_is_exact(column, i);
}

/// Each coordinate `f` of the check polynomial is split into polynomials as
/// long as the trace: `f(x)` is the sum over `r` of `x^r * g_r(x^4)`, where
/// `g_r` stands at the bit-reversed place of `r` among those of its coordinate.
pub proof fn law_check_polynomial_splits<H: Hal, S: Sha, E: EvalCheck<H>>(
    st: ProverState<H, S>,
    circuit: E,
    globals: Seq<Seq<H::Elem>>,
    e: int,
    x: H::Elem,
)
    requires
        st.wf(),
        st.complete(),
        circuit.accepts(st.group_values(), globals, st.po2->0, st.cycles),
        0 <= e < H::ExtElem::spec_ext_size(),
    ensures
        ({
            let values = circuit.check_values(
                st.group_values(),
                globals,
                st.poly_mix(),
                st.po2->0,
                st.cycles,
            );
            let check = st.check_group(circuit, globals);
            eval(bit_reversed(interpolated(chunk(values, st.domain(), e))), x) == eval(
                Seq::new(
                    INV_RATE as nat,
                    |r: int|
                        eval(
                            check.poly(INV_RATE * e + bit_reverse(INV_RATE_PO2 as nat, r as nat)),
                            pow(x, INV_RATE as nat),
                        ),
                ),
                x,
            )
        }),
{
    let values = circuit.check_values(st.group_values(), globals, st.poly_mix(), st.po2->0, st.cycles);
    let check = st.check_group(circuit, globals);
    let (ext, n, domain, po2) = (H::ExtElem::spec_ext_size(), st.cycles, st.domain(), st.po2->0);
    circuit.law_check_values(st.group_values(), globals, st.poly_mix(), po2, n);
    lemma_log2_pow2(po2);
    lemma_pow2_adds(2, po2);
    vstd::arithmetic::power2::lemma2_to64();
    let pieces = |j: int| interpolated(chunk(values, domain, j));
    let coeffs = joined(ext, domain, pieces);
    lemma_chunk_bounds(ext, domain, e);
    lemma_chunk_of_joined(ext, domain, pieces, e);
    let s = interpolated(chunk(values, domain, e));
    let f = bit_reversed(s);
    assert(chunk(coeffs, domain, e) == s);
    law_strides_recombine(f, 4, n, x);
    let y = pow(x, 4);
    let parts = Seq::new(4, |r: int| eval(stride(f, 4, r), y));
    let opened = Seq::new(
        INV_RATE as nat,
        |r: int| eval(check.poly(INV_RATE * e + bit_reverse(INV_RATE_PO2 as nat, r as nat)), pow(x, INV_RATE as nat)),
    );
    assert forall|r: int| 0 <= r < 4 implies parts[r] == opened[r] by {
        let b = bit_reverse(2, r as nat) as int;
        lemma_bit_reverse_bound(2, r as nat);
        law_strides_are_contiguous(s, 2, po2, r as nat);
        let j = 4 * e + b;
        let count = check_size::<H>();
        lemma_chunk_bounds(count, n, j);
        lemma_chunk_bounds(4, n, b);
        assert(count * n == ext * domain) by (nonlinear_arith)
            requires
                count == 4 * ext,
                domain == n * 4,
        ;
        lemma_chunk_of_joined(count, n, |i: int| bit_reversed(chunk(coeffs, n, i)), j);
        assert(j * n == e * domain + b * n) by (nonlinear_arith)
            requires
                j == 4 * e + b,
                domain == n * 4,
        ;
        assert(chunk(coeffs, n, j) =~= chunk(s, n, b)) by {
            assert forall|i: int| 0 <= i < n implies chunk(coeffs, n, j)[i] == chunk(s, n, b)[i] by {
                assert(chunk(coeffs, domain, e)[b * n + i] == coeffs[e * domain + (b * n + i)]);
            }
        }
    }
    assert(parts =~= opened);
}

/// Where the openings are exact, each combination less its openings is the
/// product of the linear factors of the points and the quotient.
pub proof fn law_quotients_multiply_back<H: Hal>(o: Opening<H>, mix: H::ExtElem, c: int, x: H::ExtElem)
    requires
        o.exact(mix),
        0 <= c <= o.taps.combos_size(),
    ensures
        eval(chunk(o.numerators(mix), o.size, c), x) == (if c < o.taps.combos_size() {
            vanishing(o.divisors(c), x)
        } else {
            x.spec_sub(o.check_point())
        }).spec_mul(eval(o.combination_quotient(mix, c), x)),
{
    let p = chunk(o.numerators(mix), o.size, c);
    if c < o.taps.combos_size() {
        assert(divides_exactly(chunk(o.numerators(mix), o.size, c), o.divisors(c)));
        lemma_quotient_by_all(p, o.divisors(c), x);
    } else {
        lemma_quotient(p, o.check_point(), x);
        H::ExtElem::law_reduced(x.spec_sub(o.check_point()), eval(quotient(p, o.check_point()), x));
    }
}

/// The values at `x` of the first `k` pieces of length `n`, added up.
pub open spec fn values_summed<X: Elem>(input: Seq<X>, n: nat, k: nat, x: X) -> X
    decreases k,
{
    if k == 0 {
        X::spec_zero()
    } else {
        values_summed(input, n, (k - 1) as nat, x).spec_add(eval(chunk(input, n, k - 1), x))
    }
}

/// Adding up polynomials adds up their values.
proof fn lemma_columns_add_values<X: Elem>(input: Seq<X>, n: nat, count: nat, k: nat, x: X)
    requires
        input.len() == count * n,
        k <= count,
    ensures
        eval(Seq::new(n, |i: int| column_sum(input, n, k, i)), x) == values_summed(input, n, k, x),
    decreases k,
{
    let sums = Seq::new(n, |i: int| column_sum(input, n, k, i));
    if k == 0 {
        assert(sums =~= zeros::<X>(n));
        lemma_eval_zeros(n, x);
    } else {
        let j = k - 1;
        let before = Seq::new(n, |i: int| column_sum(input, n, j as nat, i));
        let piece = chunk(input, n, j);
        let one = X::spec_one();
        lemma_columns_add_values(input, n, count, j as nat, x);
        lemma_chunk_bounds(count, n, j);
        assert forall|i: int| 0 <= i < n implies sums[i] == plus_scaled(before, one, piece)[i] by {
            assert(piece[i] == input[j * n + i]);
            X::law_mul_commutes(one, piece[i]);
            X::law_mul_one(piece[i]);
            X::law_add_associates(before[i], piece[i], X::spec_zero());
            X::law_reduced(before[i], piece[i]);
        }
        assert(sums =~= plus_scaled(before, one, piece));
        lemma_eval_plus_scaled(before, one, piece, x);
        lemma_eval_reduced(piece, x);
        lemma_mul_one(eval(piece, x));
    }
}

/// Coordinates that were laid out are read back.
proof fn lemma_coordinates_read_back<X: ExtElem>(values: Seq<X>, i: int)
    requires
        0 <= i < values.len(),
    ensures
        from_coordinates::<X>(by_coordinate(values), values.len(), i) == values[i],
{
    let n = values.len();
    let parts = Seq::new(X::spec_ext_size(), |e: int| by_coordinate(values)[e * n + i]);
    X::law_subelems(values[i]);
    assert forall|e: int| 0 <= e < X::spec_ext_size() implies parts[e] == values[i].spec_subelems()[e] by {
        lemma_chunk_bounds(X::spec_ext_size(), n, e);
        lemma_position(n, e, i);
    }
    assert(parts =~= values[i].spec_subelems());
}

/// The polynomial whose degree is proved is the sum of the quotients of all
/// combinations.
pub proof fn law_final_polynomial_is_the_sum<H: Hal>(o: Opening<H>, mix: H::ExtElem, x: H::ExtElem)
    requires
        o.size > 0,
        is_power_of_two(o.size),
    ensures
        eval(read_poly::<H::ExtElem>(o.final_poly(mix), o.size), x) == values_summed(
            o.quotients(mix),
            o.size,
            o.taps.combos_size() + 1,
            x,
        ),
{
    let (n, count, ext) = (o.size, o.taps.combos_size() + 1, H::ExtElem::spec_ext_size());
    let q = o.quotients(mix);
    let sums = columns_summed(q, n);
    let natural = by_coordinate(sums);
    let pieces = |e: int| bit_reversed(chunk(natural, n, e));
    let bits = log2(n);
    assert(count * n == q.len());
    lemma_fundamental_div_mod_converse((count * n) as int, n as int, count as int, 0);
    lemma_columns_add_values(q, n, count, count, x);
    assert(sums =~= Seq::new(n, |i: int| column_sum(q, n, count, i)));
    let back = read_poly::<H::ExtElem>(o.final_poly(mix), n);
    assert forall|i: int| 0 <= i < n implies back[i] == sums[i] by {
        let j = bit_reverse(bits, i as nat) as int;
        lemma_bit_reverse_bound(bits, i as nat);
        lemma_bit_reverse_involutive(bits, i as nat);
        let parts = Seq::new(ext, |e: int| o.final_poly(mix)[e * n + j]);
        let plain = Seq::new(ext, |e: int| natural[e * n + i]);
        assert forall|e: int| 0 <= e < ext implies parts[e] == plain[e] by {
            lemma_chunk_bounds(ext, n, e);
            lemma_position(n, e, j);
            assert(o.final_poly(mix)[e * n + j] == pieces(e)[j]);
            assert(pieces(e)[j] == chunk(natural, n, e)[i]);
        }
        assert(parts =~= plain);
        lemma_coordinates_read_back(sums, i);
    }
    assert(back =~= sums);
}

/// Combining several polynomials by powers of `mix` and evaluating can be done
/// in either order.
proof fn lemma_combine_then_evaluate<X: Elem>(polys: Seq<Seq<X>>, n: nat, mix: X, y: X)
    requires
        forall|r: int| 0 <= r < polys.len() ==> (#[trigger] polys[r]).len() == n,
    ensures
        eval(Seq::new(n, |i: int| eval(Seq::new(polys.len(), |r: int| polys[r][i]), mix)), y) == eval(
            Seq::new(polys.len(), |r: int| eval(polys[r], y)),
            mix,
        ),
    decreases polys.len(),
{
    let m = polys.len();
    let combined = Seq::new(n, |i: int| eval(Seq::new(m, |r: int| polys[r][i]), mix));
    let values = Seq::new(m, |r: int| eval(polys[r], y));
    if m == 0 {
        assert(combined =~= zeros::<X>(n));
        lemma_eval_zeros(n, y);
    } else {
        let rest = polys.drop_first();
        let below = Seq::new(n, |i: int| eval(Seq::new(rest.len(), |r: int| rest[r][i]), mix));
        lemma_combine_then_evaluate(rest, n, mix, y);
        assert(polys[0].len() == n);
        assert forall|i: int| 0 <= i < n implies combined[i] == plus_scaled(polys[0], mix, below)[i] by {
            let row = Seq::new(m, |r: int| polys[r][i]);
            assert(row.drop_first() =~= Seq::new(rest.len(), |r: int| rest[r][i]));
        }
        assert(combined =~= plus_scaled(polys[0], mix, below));
        lemma_eval_plus_scaled(polys[0], mix, below, y);
        assert(values.drop_first() =~= Seq::new(rest.len(), |r: int| eval(rest[r], y)));
    }
}

/// Folding combines the strides of a polynomial by powers of the challenge.
pub proof fn law_fold_combines_strides<X: ExtElem>(coeffs: Seq<X::SubElem>, mix: X, k: nat, y: X)
    ensures
        eval(read_poly::<X>(folded(coeffs, mix, pow2(k)), pow2(k)), y) == eval(
            Seq::new(
                FRI_FOLD as nat,
                |r: int|
                    eval(
                        stride(read_poly::<X>(coeffs, FRI_FOLD as nat * pow2(k)), FRI_FOLD as nat, r),
                        y,
                    ),
            ),
            mix,
        ),
{
    let n = pow2(k);
    let wide = FRI_FOLD as nat * n;
    let raw = Seq::new(wide, |i: int| from_coordinates::<X>(coeffs, wide, i));
    let values = Seq::new(n, |i: int| folded_coeff(coeffs, mix, n, i));
    let back = read_poly::<X>(folded(coeffs, mix, n), n);
    vstd::arithmetic::power2::lemma2_to64();
    lemma_pow2_adds(4, k);
    lemma_log2_pow2(k);
    let polys = Seq::new(FRI_FOLD as nat, |r: int| bit_reversed(chunk(raw, n, bit_reverse(4, r as nat) as int)));
    let combined = Seq::new(n, |i: int| eval(Seq::new(polys.len(), |r: int| polys[r][i]), mix));
    assert forall|r: int| 0 <= r < polys.len() implies {
        &&& (#[trigger] polys[r]).len() == n
        &&& stride(bit_reversed(raw), FRI_FOLD as nat, r) == polys[r]
    } by {
        lemma_bit_reverse_bound(4, r as nat);
        lemma_chunk_bounds(16, n, bit_reverse(4, r as nat) as int);
        law_strides_are_contiguous(raw, 4, k, r as nat);
    }
    assert forall|i: int| 0 <= i < n implies back[i] == combined[i] by {
        let j = bit_reverse(k, i as nat) as int;
        lemma_bit_reverse_bound(k, i as nat);
        lemma_coordinates_read_back(values, j);
        let row = Seq::new(polys.len(), |r: int| polys[r][i]);
        let parts = Seq::new(
            FRI_FOLD as nat,
            |r: int|
                from_coordinates::<X>(
                    coeffs,
                    FRI_FOLD as nat * n,
                    bit_reverse(FRI_FOLD_PO2 as nat, r as nat) * n + j,
                ),
        );
        assert forall|r: int| 0 <= r < FRI_FOLD implies row[r] == parts[r] by {
            let b = bit_reverse(4, r as nat) as int;
            lemma_bit_reverse_bound(4, r as nat);
            lemma_chunk_bounds(16, n, b);
            assert(polys[r].len() == n);
            assert(chunk(raw, n, b)[j] == raw[b * n + j]);
        }
        assert(row =~= parts);
    }
    assert(back =~= combined);
    lemma_combine_then_evaluate(polys, n, mix, y);
    assert(Seq::new(polys.len(), |r: int| eval(polys[r], y)) =~= Seq::new(
        FRI_FOLD as nat,
        |r: int| eval(stride(read_poly::<X>(coeffs, wide), FRI_FOLD as nat, r), y),
    ));
}

/// A polynomial folded by `x` takes at `x^16` the value that it had at `x`.
pub proof fn law_fold_keeps_the_value<X: ExtElem>(coeffs: Seq<X::SubElem>, x: X, k: nat)
    ensures
        eval(read_poly::<X>(folded(coeffs, x, pow2(k)), pow2(k)), pow(x, FRI_FOLD as nat)) == eval(
            read_poly::<X>(coeffs, FRI_FOLD as nat * pow2(k)),
            x,
        ),
{
    let f = read_poly::<X>(coeffs, FRI_FOLD as nat * pow2(k));
    law_fold_combines_strides(coeffs, x, k, pow(x, FRI_FOLD as nat));
    law_strides_recombine(f, FRI_FOLD as nat, pow2(k), x);
}

/// What a query can check: at every `x`, the value of the polynomial whose
/// degree is proved is the sum of the quotients, and each quotient times the
/// linear factors of its points is the weighted sum of the differences between
/// the committed polynomials and what is opened of them.
pub proof fn law_final_polynomial_follows_from_openings<H: Hal>(o: Opening<H>, mix: H::ExtElem, x: H::ExtElem)
    requires
        o.wf(),
        o.openings_short(),
        o.exact(mix),
    ensures
        eval(read_poly::<H::ExtElem>(o.final_poly(mix), o.size), x) == values_summed(
            o.quotients(mix),
            o.size,
            o.taps.combos_size() + 1,
            x,
        ),
        forall|c: int|
            0 <= c < o.taps.combos_size() ==> o.differences(mix, o.taps.regs().len(), c, x) == vanishing(
                o.divisors(c),
                x,
            ).spec_mul(eval(#[trigger] chunk(o.quotients(mix), o.size, c), x)),
        o.check_differences(mix, check_size::<H>(), x) == x.spec_sub(o.check_point()).spec_mul(
            eval(chunk(o.quotients(mix), o.size, o.taps.combos_size() as int), x),
        ),
{
    let last = o.taps.combos_size() as int;
    law_final_polynomial_is_the_sum(o, mix, x);
    assert forall|c: int| 0 <= c < o.taps.combos_size() implies o.differences(mix, o.taps.regs().len(), c, x)
        == vanishing(o.divisors(c), x).spec_mul(eval(#[trigger] chunk(o.quotients(mix), o.size, c), x)) by {
        lemma_numerators(o, mix, c, x);
        law_quotients_multiply_back(o, mix, c, x);
        lemma_quotient_piece(o, mix, c);
    }
    lemma_numerators(o, mix, last, x);
    law_quotients_multiply_back(o, mix, last, x);
    lemma_quotient_piece(o, mix, last);
}

/// The quotient of a combination stands in its place.
pub(crate) proof fn lemma_quotient_piece<H: Hal>(o: Opening<H>, mix: H::ExtElem, c: int)
    requires
        o.wf(),
        o.exact(mix),
        0 <= c <= o.taps.combos_size(),
    ensures
        chunk(o.quotients(mix), o.size, c) == o.combination_quotient(mix, c),
{
    let count = o.taps.combos_size() + 1;
    let p = chunk(o.numerators(mix), o.size, c);
    lemma_numerators_len(o, mix);
    assert(o.size * count == count * o.size) by (nonlinear_arith);
    lemma_chunk_bounds(count, o.size, c);
    if c < o.taps.combos_size() {
        assert(divides_exactly(chunk(o.numerators(mix), o.size, c), o.divisors(c)));
        lemma_quotient_by_all(p, o.divisors(c), o.z);
    }
    lemma_chunk_of_joined(count, o.size, |j: int| o.combination_quotient(mix, j), c);
}

} // verus!
