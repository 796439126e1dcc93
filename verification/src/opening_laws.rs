//! What the taps of a proof read, and what is proved of it: the opened
//! polynomials pass through what was committed, and the polynomial whose degree
//! is proved is made of all of them.
use crate::baby_bear::{law_roots, BabyBearElem, BabyBearExtElem};
use crate::cpu::CpuHal;
use crate::deep::{check_size, Opening};
use crate::exactness::lemma_numerators;
use crate::field::{all_reduced, lemma_mul_one, lemma_mul_zero, lemma_pow_adds, lemma_pow_reduced, pow, reduced};
use crate::field::{Elem, ExtElem, RootsOfUnity};
use crate::hal::{read_poly, EvalCheck, Hal};
use crate::laws::law_complete_prover_on_the_host_can_prove;
use crate::laws::{law_final_polynomial_is_the_sum, law_quotients_multiply_back, law_trace_is_committed, values_summed};
use crate::poly::{all_different, divides_exactly, eval, lemma_eval_concat, lemma_eval_constant, lemma_eval_reduced};
use crate::poly::{lemma_interpolant, lemma_quotient_by_all, lemma_roots_divide, lemma_separated_differences};
use crate::poly::{quotient_by_all, separated, vanishing};
use crate::poly_group::Group;
use crate::prover::{column_coeffs, ProverState};
use crate::roots::{law_interpolation_is_exact, roots_match};
use crate::sha::Sha;
use crate::taps::{lemma_registers, registers, TapData, Taps};
use crate::transform::{bit_reversed, chunk, interpolated, law_shift_substitutes, lifted};
use crate::transform::{lemma_chunk_bounds, lemma_chunk_of_joined, lemma_log2_pow2, shifted};
use vstd::arithmetic::power2::pow2;
use vstd::prelude::*;

verus! {

/// Powers can be taken before or after embedding.
pub proof fn lemma_powers_are_embedded<X: ExtElem>(x: X::SubElem, n: nat)
    ensures
        pow(X::spec_from_subfield(x), n) == X::spec_from_subfield(pow(x, n)),
    decreases n,
{
    X::law_from_subfield(x, x);
    if n > 0 {
        lemma_powers_are_embedded::<X>(x, (n - 1) as nat);
        X::law_from_subfield(x, pow(x, (n - 1) as nat));
    }
}

/// A polynomial over the base ring takes the same values when it is read as one
/// over the extension.
pub proof fn law_lifting_keeps_values<X: ExtElem>(p: Seq<X::SubElem>, y: X::SubElem)
    ensures
        eval(lifted::<X>(p), X::spec_from_subfield(y)) == X::spec_from_subfield(eval(p, y)),
    decreases p.len(),
{
    X::law_from_subfield(y, y);
    if p.len() > 0 {
        let rest = p.drop_first();
        law_lifting_keeps_values::<X>(rest, y);
        assert(lifted::<X>(p).drop_first() =~= lifted::<X>(rest));
        X::law_from_subfield(y, eval(rest, y));
        X::law_from_subfield(p[0], y.spec_mul(eval(rest, y)));
    }
}

/// The step of an opening undoes one cycle: multiplied by the root that
/// generates the trace domain, it is one.
pub proof fn law_back_step_undoes_a_cycle<H: Hal, S: Sha>(st: ProverState<H, S>, check: Group<H>)
    requires
        st.po2 is Some,
        roots_match::<H::Elem>(st.po2->0),
    ensures
        st.opening(check).back_one.spec_mul(
            H::ExtElem::spec_from_subfield(H::Elem::spec_rou_fwd(st.po2->0)),
        ) == H::ExtElem::spec_one(),
{
    let (fwd, rev) = (H::Elem::spec_rou_fwd(st.po2->0), H::Elem::spec_rou_rev(st.po2->0));
    H::Elem::law_mul_commutes(fwd, rev);
    H::ExtElem::law_from_subfield(rev, fwd);
}

/// The same on the host, for every length of trace for which a root is known.
pub proof fn law_back_step_on_the_host<T: Sha, S: Sha>(st: ProverState<CpuHal<T>, S>, check: Group<CpuHal<T>>)
    requires
        st.po2 is Some,
        st.po2->0 <= 27,
    ensures
        st.opening(check).back_one.spec_mul(
            BabyBearExtElem::spec_from_subfield(BabyBearElem::spec_rou_fwd(st.po2->0)),
        ) == BabyBearExtElem::spec_one(),
{
    law_roots(st.po2->0);
    law_back_step_undoes_a_cycle(st, check);
}

/// Stepping back undoes as many cycles: `r^b * (c * w^(i + b))` without the
/// factor `c` is `w^i`.
proof fn lemma_step_back<E: Elem>(w: E, r: E, c: E, x: E, i: nat, b: nat)
    requires
        w.spec_mul(r) == E::spec_one(),
        c.spec_mul(x) == pow(w, i + b),
    ensures
        c.spec_mul(pow(r, b).spec_mul(x)) == pow(w, i),
{
    let (p, q, a) = (pow(r, b), pow(w, b), pow(w, i));
    // c * (p * x) == p * (c * x)
    E::law_mul_associates(c, p, x);
    E::law_mul_commutes(c, p);
    E::law_mul_associates(p, c, x);
    // p * (a * q) == a * (q * p) == a
    lemma_pow_adds(w, i, b);
    E::law_mul_commutes(p, a.spec_mul(q));
    E::law_mul_associates(a, q, p);
    crate::field::lemma_pow_of_product(w, r, b);
    crate::field::lemma_pow_of_one::<E>(b);
    lemma_pow_reduced(w, i);
    lemma_mul_one(a);
}

/// A tap reads the trace as many cycles back as it says: where `3x` is the power
/// of the root that belongs to row `row + back`, the committed polynomial takes
/// at `back` steps back from `x` the value that its column has in row `row`.
pub proof fn law_taps_read_earlier_cycles<H: Hal, S: Sha>(
    st: ProverState<H, S>,
    check: Group<H>,
    g: int,
    buf: Seq<H::Elem>,
    k: int,
    row: int,
    back: nat,
    x: H::Elem,
)
    requires
        st.wf(),
        st.po2 is Some,
        st.cycles <= u64::MAX,
        0 <= g < st.groups.len(),
        buf.len() == st.taps.group_size(g) * st.cycles,
        0 <= k < st.taps.group_size(g),
        0 <= row < st.cycles,
        roots_match::<H::Elem>(st.po2->0),
        H::Elem::spec_from_u64(3).spec_mul(x) == pow(H::Elem::spec_rou_fwd(st.po2->0), (row + back) as nat),
        reduced(buf[k * st.cycles + row]),
    ensures
        eval(
            lifted::<H::ExtElem>(st.group_of(g, buf).poly(k)),
            pow(st.opening(check).back_one, back).spec_mul(H::ExtElem::spec_from_subfield(x)),
        ) == H::ExtElem::spec_from_subfield(buf[k * st.cycles + row]),
{
    let (fwd, rev) = (H::Elem::spec_rou_fwd(st.po2->0), H::Elem::spec_rou_rev(st.po2->0));
    let y = pow(rev, back).spec_mul(x);
    lemma_step_back(fwd, rev, H::Elem::spec_from_u64(3), x, row as nat, back);
    lemma_powers_are_embedded::<H::ExtElem>(rev, back);
    H::ExtElem::law_from_subfield(pow(rev, back), x);
    law_lifting_keeps_values::<H::ExtElem>(st.group_of(g, buf).poly(k), y);
    law_trace_is_committed(st, g, buf, k, row, y);
}

/// The same on the host, for every length of trace for which a root is known.
pub proof fn law_taps_read_earlier_cycles_on_the_host<T: Sha, S: Sha>(
    st: ProverState<CpuHal<T>, S>,
    check: Group<CpuHal<T>>,
    g: int,
    buf: Seq<BabyBearElem>,
    k: int,
    row: int,
    back: nat,
    x: BabyBearElem,
)
    requires
        st.wf(),
        st.po2 is Some,
        st.po2->0 <= 27,
        0 <= g < st.groups.len(),
        buf.len() == st.taps.group_size(g) * st.cycles,
        0 <= k < st.taps.group_size(g),
        0 <= row < st.cycles,
        BabyBearElem::spec_from_u64(3).spec_mul(x) == pow(
            BabyBearElem::spec_rou_fwd(st.po2->0),
            (row + back) as nat,
        ),
        reduced(buf[k * st.cycles + row]),
    ensures
        eval(
            lifted::<BabyBearExtElem>(st.group_of(g, buf).poly(k)),
            pow(st.opening(check).back_one, back).spec_mul(BabyBearExtElem::spec_from_subfield(x)),
        ) == BabyBearExtElem::spec_from_subfield(buf[k * st.cycles + row]),
{
    law_roots(st.po2->0);
    vstd::arithmetic::power2::lemma2_to64();
    if st.po2->0 < 27 {
        vstd::arithmetic::power2::lemma_pow2_strictly_increases(st.po2->0, 27);
    }
    law_taps_read_earlier_cycles(st, check, g, buf, k, row, back, x);
}

/// Columns become polynomials that take their values: where `3x` is the `i`-th
/// power of the root of the domain, the polynomial of column `k` has at `x` what
/// stands at place `i` of the column.
pub proof fn law_coefficients_take_the_values<H: Hal>(
    values: Seq<H::Elem>,
    count: nat,
    po2: nat,
    k: int,
    i: int,
    x: H::Elem,
)
    requires
        values.len() == count * pow2(po2),
        pow2(po2) <= u64::MAX,
        0 <= k < count,
        0 <= i < pow2(po2),
        roots_match::<H::Elem>(po2),
        H::Elem::spec_from_u64(3).spec_mul(x) == pow(H::Elem::spec_rou_fwd(po2), i as nat),
        reduced(values[k * pow2(po2) + i]),
    ensures
        column_coeffs::<H>(values, count, pow2(po2)).len() == values.len(),
        eval(bit_reversed(chunk(column_coeffs::<H>(values, count, pow2(po2)), pow2(po2), k)), x) == values[k * pow2(po2)
            + i],
{
    let n = pow2(po2);
    let column = chunk(values, n, k);
    lemma_log2_pow2(po2);
    lemma_chunk_bounds(count, n, k);
    lemma_chunk_of_joined(count, n, |j: int| shifted(interpolated(chunk(values, n, j))), k);
    law_shift_substitutes(interpolated(column), x);
    assert(column[i] == values[k * n + i]);
    law_interpolation_is_exact(column, i);
}

/// What a tap reads: the polynomial at its offset, at as many steps back from
/// the point of the opening as the tap says.
pub proof fn law_taps_are_evaluated<H: Hal>(o: Opening<H>, g: int, t: int)
    requires
        o.wf(),
        0 <= g < o.taps.num_groups(),
        o.taps.begin(g) <= t < o.taps.end(g),
    ensures
        o.all_evals().len() == o.taps.taps.len(),
        o.all_evals()[t] == eval(
            lifted::<H::ExtElem>(chunk(o.groups[g].coeffs, o.size, o.taps.taps[t].offset as int)),
            pow(o.back_one, o.taps.taps[t].back as nat).spec_mul(o.z),
        ),
{
    let n = o.taps.num_groups();
    o.taps.lemma_regs_upto(n as int);
    o.lemma_evals_len(n);
    o.lemma_evals(n, g, t - o.taps.begin(g));
    assert(o.groups[g].wf());
}

/// Where each combination is opened: at as many steps back from the point of the
/// opening as each of its distances says.
pub proof fn law_combinations_are_opened_at_their_distances<H: Hal>(o: Opening<H>, c: int, j: int)
    requires
        o.wf(),
        0 <= c < o.taps.combos_size(),
        0 <= j < o.taps.combo_begin[c + 1] - o.taps.combo_begin[c],
    ensures
        o.divisors(c).len() == o.taps.combo_begin[c + 1] - o.taps.combo_begin[c],
        o.divisors(c)[j] == pow(o.back_one, o.taps.combo_taps[o.taps.combo_begin[c] + j] as nat).spec_mul(o.z),
{
    assert(o.taps.combo_wf(c));
    let back = o.taps.combo_taps[o.taps.combo_begin[c] + j] as nat;
    H::ExtElem::law_mul_commutes(pow(o.back_one, back), o.z);
}

/// What is sent of a register passes through all that its taps read: it agrees
/// with the committed polynomial wherever that is tapped.
pub proof fn law_openings_pass_through_the_taps<H: Hal>(o: Opening<H>, g: int, i: int, j: int)
    requires
        o.wf(),
        o.taps.consistent(),
        o.points_distinct(),
        0 <= g < o.taps.num_groups(),
        0 <= i < o.taps.group_size(g),
        0 <= j < o.taps.group_regs(g)[i].taps,
    ensures
        ({
            let r = o.taps.group_regs(g)[i];
            let sent = o.u().subrange(r.pos as int, r.pos + r.taps);
            let x = pow(o.back_one, o.taps.taps[r.pos + j].back as nat).spec_mul(o.z);
            &&& r.pos + r.taps <= o.u().len()
            &&& eval(sent, x) == eval(lifted::<H::ExtElem>(chunk(o.groups[g].coeffs, o.size, i)), x)
        }),
{
    let r = o.taps.group_regs(g)[i];
    let n = o.taps.regs().len();
    let k = o.base(g) + i;
    o.lemma_base(g);
    assert(o.taps.regs()[k] == r);
    o.taps.lemma_group_regs(g);
    assert(separated(o.divisors(r.combo as int)));
    o.lemma_register_poly(g, i);
    o.lemma_u(n, k);
    assert(o.u().subrange(r.pos as int, r.pos + r.taps) =~= o.register_polys(n).subrange(
        r.pos as int,
        r.pos + r.taps,
    ));
    assert(o.taps.register_consistent(g, i));
    let back = o.taps.taps[r.pos + j].back;
    assert(back == o.taps.combo(r.combo as int)[j]);
    H::ExtElem::law_mul_commutes(pow(o.back_one, back as nat), o.z);
    assert(o.divisors(r.combo as int)[j] == pow(o.back_one, back as nat).spec_mul(o.z));
    assert(eval(o.register_poly(k), o.divisors(r.combo as int)[j]) == eval(
        lifted::<H::ExtElem>(o.groups[g].poly(i)),
        o.divisors(r.combo as int)[j],
    ));
    assert(o.groups[g].wf());
}

proof fn lemma_evals_reduced<H: Hal>(o: Opening<H>, g: nat)
    ensures
        all_reduced(o.evals(g)),
    decreases g,
{
    if g > 0 {
        let h = (g - 1) as nat;
        lemma_evals_reduced(o, h);
        let (before, here) = (o.evals(h), o.group_evals(h as int));
        assert forall|i: int| 0 <= i < o.evals(g).len() implies reduced(#[trigger] o.evals(g)[i]) by {
            if i < before.len() {
                assert(reduced(before[i]));
            } else {
                let tap = o.taps.taps[o.taps.begin(h as int) + (i - before.len())];
                lemma_eval_reduced(
                    lifted::<H::ExtElem>(o.groups[h as int].poly(tap.offset as int)),
                    o.point(tap.back as nat),
                );
                assert(o.evals(g)[i] == here[i - before.len()]);
            }
        }
    }
}

/// What is sent of a register is, whatever its taps, the polynomial through all
/// that they read: one value for each point.
pub proof fn law_openings_interpolate<H: Hal>(o: Opening<H>, k: int, points: Seq<H::ExtElem>, j: int)
    requires
        o.wf(),
        0 <= k < o.taps.regs().len(),
        points.len() == o.taps.regs()[k].taps,
        forall|i: int|
            0 <= i < points.len() ==> #[trigger] points[i] == pow(
                o.back_one,
                o.taps.taps[o.taps.regs()[k].pos + i].back as nat,
            ).spec_mul(o.z),
        separated(points),
        0 <= j < points.len(),
    ensures
        ({
            let r = o.taps.regs()[k];
            &&& r.pos + r.taps <= o.u().len()
            &&& eval(o.u().subrange(r.pos as int, r.pos + r.taps), points[j]) == o.all_evals()[r.pos + j]
        }),
{
    let r = o.taps.regs()[k];
    let (n, total) = (o.taps.regs().len(), o.taps.taps.len());
    o.lemma_u(n, k);
    crate::deep::lemma_next_register(o.taps, k);
    assert(o.u().subrange(r.pos as int, r.pos + r.taps) =~= o.register_polys(n).subrange(
        r.pos as int,
        r.pos + r.taps,
    ));
    o.taps.lemma_regs_upto(o.taps.num_groups() as int);
    o.lemma_evals_len(o.taps.num_groups());
    lemma_evals_reduced(o, o.taps.num_groups());
    let xs = o.points(total).subrange(r.pos as int, r.pos + r.taps);
    let fs = o.all_evals().subrange(r.pos as int, r.pos + r.taps);
    assert(xs =~= points);
    assert forall|i: int| 0 <= i < fs.len() implies reduced(#[trigger] fs[i]) by {
        assert(reduced(o.all_evals()[r.pos + i]));
    }
    lemma_interpolant(xs, fs, j);
}

/// After the registers, the value of each check polynomial is sent, at the power
/// of the point by which the check polynomial was split.
pub proof fn law_check_values_are_sent<H: Hal>(o: Opening<H>, i: int)
    requires
        o.wf(),
        0 <= i < 4 * H::ExtElem::spec_ext_size(),
    ensures
        o.u().len() == o.taps.taps.len() + 4 * H::ExtElem::spec_ext_size(),
        o.u()[o.taps.taps.len() + i] == eval(
            lifted::<H::ExtElem>(chunk(o.check.coeffs, o.size, i)),
            pow(o.z, H::ExtElem::spec_ext_size()),
        ),
{
    let n = o.taps.regs().len();
    o.lemma_u_checks(i);
    o.taps.lemma_regs();
    lemma_registers(o.taps.taps, 0, o.taps.taps.len());
    if n > 0 {
        o.lemma_u(n, n - 1);
        crate::deep::lemma_next_register(o.taps, n - 1);
    }
}

/// The registers are those of all groups in their order, and each stands for
/// one committed polynomial.
pub proof fn law_registers_stand_for_polynomials<H: Hal>(o: Opening<H>, k: int) -> (r: (int, int))
    requires
        o.wf(),
        0 <= k < o.taps.regs().len(),
    ensures
        0 <= r.0 < o.taps.num_groups(),
        0 <= r.1 < o.taps.group_size(r.0),
        o.taps.regs()[k] == o.taps.group_regs(r.0)[r.1],
        k == registers(o.taps.taps, 0, o.taps.begin(r.0)).len() + r.1,
        o.committed_poly(k) == lifted::<H::ExtElem>(chunk(o.groups[r.0].coeffs, o.size, r.1)),
{
    let n = o.taps.num_groups();
    o.lemma_base_end();
    let (g, i) = o.lemma_find_group(k, n as int);
    o.lemma_committed_polys(n, g, i);
    assert(o.groups[g].wf());
    (g, i)
}

proof fn lemma_differences_are_a_polynomial<H: Hal>(o: Opening<H>, mix: H::ExtElem, k: nat, c: int, x: H::ExtElem)
    ensures
        o.differences(mix, k, c, x) == eval(
            Seq::new(
                k,
                |i: int|
                    if o.taps.regs()[i].combo == c {
                        eval(o.committed_poly(i), x).spec_sub(eval(o.register_poly(i), x))
                    } else {
                        H::ExtElem::spec_zero()
                    },
            ),
            mix,
        ),
    decreases k,
{
    let all = Seq::new(
        k,
        |i: int|
            if o.taps.regs()[i].combo == c {
                eval(o.committed_poly(i), x).spec_sub(eval(o.register_poly(i), x))
            } else {
                H::ExtElem::spec_zero()
            },
    );
    if k > 0 {
        let j = (k - 1) as nat;
        lemma_differences_are_a_polynomial(o, mix, j, c, x);
        let before = Seq::new(
            j,
            |i: int|
                if o.taps.regs()[i].combo == c {
                    eval(o.committed_poly(i), x).spec_sub(eval(o.register_poly(i), x))
                } else {
                    H::ExtElem::spec_zero()
                },
        );
        let last = all[j as int];
        assert(all =~= before + seq![last]);
        lemma_eval_concat(before, seq![last], mix);
        lemma_eval_constant(last, mix);
        H::ExtElem::law_reduced(eval(o.committed_poly(j as int), x), eval(o.register_poly(j as int), x));
        lemma_mul_zero(pow(mix, j));
        lemma_eval_reduced(before, mix);
    }
}

proof fn lemma_check_differences_are_a_polynomial<H: Hal>(o: Opening<H>, mix: H::ExtElem, k: nat, x: H::ExtElem)
    requires
        k <= check_size::<H>(),
    ensures
        o.check_differences(mix, k, x) == pow(mix, o.taps.regs().len()).spec_mul(
            eval(
                Seq::new(
                    k,
                    |i: int| eval(lifted::<H::ExtElem>(o.check.poly(i)), x).spec_sub(o.check_evals()[i]),
                ),
                mix,
            ),
        ),
    decreases k,
{
    let n = o.taps.regs().len();
    let all = Seq::new(k, |i: int| eval(lifted::<H::ExtElem>(o.check.poly(i)), x).spec_sub(o.check_evals()[i]));
    let weight = pow(mix, n);
    if k == 0 {
        lemma_mul_zero(weight);
    } else {
        let j = (k - 1) as nat;
        lemma_check_differences_are_a_polynomial(o, mix, j, x);
        let before = Seq::new(
            j,
            |i: int| eval(lifted::<H::ExtElem>(o.check.poly(i)), x).spec_sub(o.check_evals()[i]),
        );
        let last = all[j as int];
        assert(all =~= before + seq![last]);
        lemma_eval_concat(before, seq![last], mix);
        lemma_eval_constant(last, mix);
        H::ExtElem::law_reduced(eval(lifted::<H::ExtElem>(o.check.poly(j as int)), x), o.check_evals()[j as int]);
        H::ExtElem::law_distributes(weight, eval(before, mix), pow(mix, j).spec_mul(last));
        H::ExtElem::law_mul_associates(weight, pow(mix, j), last);
        lemma_pow_adds(mix, n, j);
    }
}

/// What is proved to be divisible: each combination is the polynomial in the
/// mixing challenge whose coefficients are, register by register, the difference
/// between the committed polynomial and what was sent of it. Every register
/// has a power of its own, and the check polynomials follow.
pub proof fn law_combinations_are_polynomials_in_the_mix<H: Hal>(
    o: Opening<H>,
    mix: H::ExtElem,
    c: int,
    x: H::ExtElem,
)
    requires
        o.wf(),
        o.openings_short(),
        0 <= c <= o.taps.combos_size(),
    ensures
        eval(chunk(o.numerators(mix), o.size, c), x) == if c < o.taps.combos_size() {
            eval(
                Seq::new(
                    o.taps.regs().len(),
                    |i: int|
                        {
                            let r = o.taps.regs()[i];
                            if r.combo == c {
                                eval(o.committed_poly(i), x).spec_sub(
                                    eval(o.u().subrange(r.pos as int, r.pos + r.taps), x),
                                )
                            } else {
                                H::ExtElem::spec_zero()
                            }
                        },
                ),
                mix,
            )
        } else {
            pow(mix, o.taps.regs().len()).spec_mul(
                eval(
                    Seq::new(
                        4 * H::ExtElem::spec_ext_size(),
                        |i: int|
                            eval(lifted::<H::ExtElem>(chunk(o.check.coeffs, o.size, i)), x).spec_sub(
                                o.u()[o.taps.taps.len() + i],
                            ),
                    ),
                    mix,
                ),
            )
        },
{
    let n = o.taps.regs().len();
    lemma_numerators(o, mix, c, x);
    if c < o.taps.combos_size() {
        lemma_differences_are_a_polynomial(o, mix, n, c, x);
        let ours = Seq::new(
            n,
            |i: int|
                if o.taps.regs()[i].combo == c {
                    eval(o.committed_poly(i), x).spec_sub(eval(o.register_poly(i), x))
                } else {
                    H::ExtElem::spec_zero()
                },
        );
        let stated = Seq::new(
            n,
            |i: int|
                {
                    let r = o.taps.regs()[i];
                    if r.combo == c {
                        eval(o.committed_poly(i), x).spec_sub(eval(o.u().subrange(r.pos as int, r.pos + r.taps), x))
                    } else {
                        H::ExtElem::spec_zero()
                    }
                },
        );
        assert forall|i: int| 0 <= i < n implies ours[i] == stated[i] by {
            let r = o.taps.regs()[i];
            o.lemma_u(n, i);
            assert(o.u().subrange(r.pos as int, r.pos + r.taps) =~= o.register_polys(n).subrange(
                r.pos as int,
                r.pos + r.taps,
            ));
        }
        assert(ours =~= stated);
    } else {
        let checks = check_size::<H>();
        lemma_check_differences_are_a_polynomial(o, mix, checks, x);
        let ours = Seq::new(
            checks,
            |i: int| eval(lifted::<H::ExtElem>(o.check.poly(i)), x).spec_sub(o.check_evals()[i]),
        );
        let stated = Seq::new(
            4 * H::ExtElem::spec_ext_size(),
            |i: int|
                eval(lifted::<H::ExtElem>(chunk(o.check.coeffs, o.size, i)), x).spec_sub(
                    o.u()[o.taps.taps.len() + i],
                ),
        );
        assert forall|i: int| 0 <= i < checks implies ours[i] == stated[i] by {
            o.lemma_u_checks(i);
        }
        assert(ours =~= stated);
    }
}

/// Linear factors multiply: those of two lists of points together are the
/// product of those of either, and one point has one factor.
pub proof fn law_linear_factors_multiply<E: Elem>(a: Seq<E>, b: Seq<E>, x: E, p: E)
    ensures
        vanishing(a + b, x) == vanishing(a, x).spec_mul(vanishing(b, x)),
        vanishing(seq![p], x) == x.spec_sub(p),
    decreases a.len(),
{
    E::law_reduced(x, p);
    lemma_mul_one(x.spec_sub(p));
    assert(seq![p].drop_first() =~= Seq::<E>::empty());
    assert(vanishing(Seq::<E>::empty(), x) == E::spec_one());
    if a.len() == 0 {
        assert(a + b =~= b);
        lemma_vanishing_reduced(b, x);
        lemma_mul_one(vanishing(b, x));
    } else {
        law_linear_factors_multiply(a.drop_first(), b, x, p);
        assert((a + b).drop_first() =~= a.drop_first() + b);
        E::law_mul_associates(x.spec_sub(a[0]), vanishing(a.drop_first(), x), vanishing(b, x));
    }
}

proof fn lemma_vanishing_reduced<E: Elem>(b: Seq<E>, x: E)
    ensures
        reduced(vanishing(b, x)),
{
    if b.len() == 0 {
        E::law_reduced(x, x);
    } else {
        E::law_reduced(x.spec_sub(b[0]), vanishing(b.drop_first(), x));
    }
}

proof fn lemma_values_are_added<X: Elem>(input: Seq<X>, n: nat, k: nat, x: X)
    ensures
        values_summed(input, n, k, x) == eval(Seq::new(k, |c: int| eval(chunk(input, n, c), x)), X::spec_one()),
    decreases k,
{
    let one = X::spec_one();
    let all = Seq::new(k, |c: int| eval(chunk(input, n, c), x));
    if k > 0 {
        let j = (k - 1) as nat;
        lemma_values_are_added(input, n, j, x);
        let before = Seq::new(j, |c: int| eval(chunk(input, n, c), x));
        let last = eval(chunk(input, n, j as int), x);
        assert(all =~= before + seq![last]);
        lemma_eval_concat(before, seq![last], one);
        lemma_eval_constant(last, one);
        lemma_eval_reduced(chunk(input, n, j as int), x);
        crate::field::lemma_pow_of_one::<X>(j);
        lemma_mul_one(last);
    }
}

/// The polynomial whose degree is proved is the sum of one quotient for every
/// combination and one for the check polynomials; a quotient times the linear
/// factors of all points at which its combination is opened is the combination.
pub proof fn law_all_quotients_are_proved<H: Hal>(o: Opening<H>, mix: H::ExtElem, x: H::ExtElem)
    requires
        o.wf(),
        o.exact(mix),
    ensures
        ({
            let count = o.taps.combos_size();
            let quotients = Seq::new(count + 1, |c: int| eval(chunk(o.quotients(mix), o.size, c), x));
            &&& eval(read_poly::<H::ExtElem>(o.final_poly(mix), o.size), x) == eval(
                quotients,
                H::ExtElem::spec_one(),
            )
            &&& forall|c: int|
                0 <= c < count ==> eval(#[trigger] chunk(o.numerators(mix), o.size, c), x) == vanishing(
                    o.divisors(c),
                    x,
                ).spec_mul(quotients[c])
            &&& eval(chunk(o.numerators(mix), o.size, count as int), x) == x.spec_sub(
                pow(o.z, H::ExtElem::spec_ext_size()),
            ).spec_mul(quotients[count as int])
        }),
{
    let count = o.taps.combos_size();
    law_final_polynomial_is_the_sum(o, mix, x);
    lemma_values_are_added(o.quotients(mix), o.size, count + 1, x);
    assert forall|c: int| 0 <= c < count implies eval(#[trigger] chunk(o.numerators(mix), o.size, c), x) == vanishing(
        o.divisors(c),
        x,
    ).spec_mul(eval(chunk(o.quotients(mix), o.size, c), x)) by {
        law_quotients_multiply_back(o, mix, c, x);
        crate::laws::lemma_quotient_piece(o, mix, c);
    }
    law_quotients_multiply_back(o, mix, count as int, x);
    crate::laws::lemma_quotient_piece(o, mix, count as int);
}

/// A seal is given if and only if all that was sent agrees with what was
/// committed: every combination vanishes wherever it is opened, and so does that
/// of the check polynomials.
pub proof fn law_seals_need_matching_openings<H: Hal, S: Sha, E: EvalCheck<H>>(
    st: ProverState<H, S>,
    circuit: E,
    globals: Seq<Seq<H::Elem>>,
)
    requires
        st.opening(st.check_group(circuit, globals)).points_distinct(),
    ensures
        ({
            let check = st.check_group(circuit, globals);
            let o = st.opening(check);
            let p = o.numerators(st.mix(check));
            let zero = H::ExtElem::spec_zero();
            st.provable(circuit, globals) <==> {
                &&& forall|c: int, j: int|
                    0 <= c < o.taps.combos_size() && 0 <= j < o.divisors(c).len() ==> eval(
                        chunk(p, o.size, c),
                        #[trigger] o.divisors(c)[j],
                    ) == zero
                &&& eval(
                    chunk(p, o.size, o.taps.combos_size() as int),
                    pow(o.z, H::ExtElem::spec_ext_size()),
                ) == zero
            }
        }),
{
    let check = st.check_group(circuit, globals);
    let o = st.opening(check);
    let p = o.numerators(st.mix(check));
    let zero = H::ExtElem::spec_zero();
    assert forall|c: int| 0 <= c < o.taps.combos_size() implies divides_exactly(
        #[trigger] chunk(p, o.size, c),
        o.divisors(c),
    ) == (forall|j: int|
        0 <= j < o.divisors(c).len() ==> eval(chunk(p, o.size, c), #[trigger] o.divisors(c)[j]) == zero) by {
        let (piece, points) = (chunk(p, o.size, c), o.divisors(c));
        assert(separated(o.divisors(c)));
        lemma_separated_differences(points);
        if divides_exactly(piece, points) {
            assert forall|j: int| 0 <= j < points.len() implies eval(piece, #[trigger] points[j]) == zero by {
                lemma_quotient_by_all(piece, points, points[j]);
                lemma_factor_vanishes(points, j);
                lemma_mul_zero(eval(quotient_by_all(piece, points), points[j]));
            }
        }
        if forall|j: int| 0 <= j < points.len() ==> eval(piece, #[trigger] points[j]) == zero {
            lemma_roots_divide(piece, points);
        }
    }
    if st.provable(circuit, globals) {
        assert forall|c: int, j: int| 0 <= c < o.taps.combos_size() && 0 <= j < o.divisors(c).len() implies eval(
            chunk(p, o.size, c),
            #[trigger] o.divisors(c)[j],
        ) == zero by {
            assert(divides_exactly(chunk(p, o.size, c), o.divisors(c)));
        }
    }
}

/// A proof is given wherever no division leaves a remainder, and the seal is all
/// of it.
pub proof fn law_seals_are_whole_proofs<H: Hal, S: Sha, E: EvalCheck<H>>(
    st: ProverState<H, S>,
    circuit: E,
    globals: Seq<Seq<H::Elem>>,
)
    ensures
        ({
            let check = st.check_group(circuit, globals);
            &&& st.provable(circuit, globals) <==> st.opening(check).exact(st.mix(check))
            &&& st.seal(circuit, globals) == st.proved(check).proof
        }),
{
}

/// The product of linear factors vanishes at each of its points.
proof fn lemma_factor_vanishes<E: Elem>(points: Seq<E>, j: int)
    requires
        0 <= j < points.len(),
    ensures
        vanishing(points, points[j]) == E::spec_zero(),
    decreases points.len(),
{
    let x = points[j];
    let rest = points.drop_first();
    if j == 0 {
        crate::field::lemma_sub_self(x);
        lemma_mul_zero(vanishing(rest, x));
    } else {
        lemma_factor_vanishes(rest, j - 1);
        lemma_mul_zero(x.spec_sub(points[0]));
    }
}

/// The polynomial that is proved is read coordinate by coordinate, from its
/// coefficients in bit-reversed order.
pub proof fn law_polynomials_are_read_by_coordinate<X: ExtElem>(coeffs: Seq<X::SubElem>, k: nat, i: int)
    requires
        0 <= i < pow2(k),
    ensures
        read_poly::<X>(coeffs, pow2(k)).len() == pow2(k),
        read_poly::<X>(coeffs, pow2(k))[i] == X::spec_from_subelems(
            Seq::new(
                X::spec_ext_size(),
                |e: int| coeffs[e * pow2(k) + crate::transform::bit_reverse(k, i as nat)],
            ),
        ),
{
    lemma_log2_pow2(k);
    crate::transform::lemma_bit_reverse_bound(k, i as nat);
    let j = crate::transform::bit_reverse(k, i as nat) as int;
    assert(Seq::new(X::spec_ext_size(), |e: int| coeffs[e * pow2(k) + j]) =~= Seq::new(
        X::spec_ext_size(),
        |e: int| coeffs[e * pow2(k) + crate::transform::bit_reverse(k, i as nat)],
    ));
}

/// The check group holds four polynomials as long as the trace for each
/// coordinate of the extension.
pub proof fn law_shape_of_the_check_group<H: Hal, S: Sha, E: EvalCheck<H>>(
    st: ProverState<H, S>,
    circuit: E,
    globals: Seq<Seq<H::Elem>>,
)
    ensures
        st.check_group(circuit, globals).count == 4 * H::ExtElem::spec_ext_size(),
        st.check_group(circuit, globals).size == st.cycles,
        st.check_group(circuit, globals).coeffs.len() == 4 * H::ExtElem::spec_ext_size() * st.cycles,
{
}

/// On the host every complete prover can prove: once each group has been
/// committed, it is enough that every register reads its own polynomial at the
/// distances of its combination, and that no two distances of a combination lead
/// to the same point. Nothing that was committed, and no number of cycles, groups
/// or taps, stands in the way.
pub proof fn law_whatever_is_committed_can_be_proved<T: Sha, S: Sha, E: EvalCheck<CpuHal<T>>>(
    st: ProverState<CpuHal<T>, S>,
    circuit: E,
    globals: Seq<Seq<BabyBearElem>>,
)
    requires
        st.wf(),
        st.po2 is Some,
        forall|g: int| 0 <= g < st.groups.len() ==> (#[trigger] st.groups[g]) is Some,
        forall|g: int, i: int|
            0 <= g < st.taps.num_groups() && 0 <= i < st.taps.group_size(g) ==> {
                let r = #[trigger] st.taps.group_regs(g)[i];
                r.taps == st.taps.combo_begin[r.combo + 1] - st.taps.combo_begin[r.combo as int]
            },
        forall|g: int, i: int, j: int|
            0 <= g < st.taps.num_groups() && 0 <= i < st.taps.group_size(g) && 0 <= j < st.taps.group_regs(g)[i].taps
                ==> {
                let r = st.taps.group_regs(g)[i];
                let tap = #[trigger] tap_of(st.taps, g, i, j);
                &&& tap.offset == i
                &&& tap.back == st.taps.combo_taps[st.taps.combo_begin[r.combo as int] + j]
            },
        forall|c: int, i: int, j: int|
            0 <= c < st.taps.combo_begin.len() - 1 && 0 <= i < j < st.taps.combo_begin[c + 1]
                - st.taps.combo_begin[c] ==> #[trigger] point_of(st, circuit, globals, c, i) != #[trigger] point_of(
                st,
                circuit,
                globals,
                c,
                j,
            ),
    ensures
        st.provable(circuit, globals),
{
    let o = st.opening(st.check_group(circuit, globals));
    let taps = st.taps;
    assert(taps.consistent()) by {
        assert forall|g: int, i: int|
            0 <= g < taps.num_groups() && 0 <= i < taps.group_size(g) implies #[trigger] taps.register_consistent(
            g,
            i,
        ) by {
            let r = taps.group_regs(g)[i];
            taps.lemma_group_regs(g);
            assert(taps.group_regs(g)[i].combo < taps.combos_size());
            assert(taps.combo_wf(r.combo as int));
            assert forall|j: int| 0 <= j < r.taps implies {
                &&& (#[trigger] taps.taps[r.pos + j]).offset == i
                &&& taps.taps[r.pos + j].back == taps.combo(r.combo as int)[j]
            } by {
                assert(tap_of(taps, g, i, j).offset == i);
            }
        }
    }
    assert(o.points_differ()) by {
        assert forall|c: int| 0 <= c < taps.combos_size() implies all_different(#[trigger] o.divisors(c)) by {
            assert(taps.combo_wf(c));
            assert forall|i: int, j: int| 0 <= i < j < o.divisors(c).len() implies #[trigger] o.divisors(c)[i]
                != #[trigger] o.divisors(c)[j] by {
                let (a, b) = (taps.combo(c)[i] as nat, taps.combo(c)[j] as nat);
                BabyBearExtElem::law_mul_commutes(pow(o.back_one, a), o.z);
                BabyBearExtElem::law_mul_commutes(pow(o.back_one, b), o.z);
                assert(point_of(st, circuit, globals, c, i) != point_of(st, circuit, globals, c, j));
            }
        }
    }
    law_complete_prover_on_the_host_can_prove(st, circuit, globals);
}

/// Tap `j` of register `i` of a group.
pub open spec fn tap_of(taps: Taps, g: int, i: int, j: int) -> TapData {
    taps.taps[taps.group_regs(g)[i].pos + j]
}

/// The point to which distance `j` of combination `c` leads.
pub open spec fn point_of<T: Sha, S: Sha, E: EvalCheck<CpuHal<T>>>(
    st: ProverState<CpuHal<T>, S>,
    circuit: E,
    globals: Seq<Seq<BabyBearElem>>,
    c: int,
    j: int,
) -> BabyBearExtElem {
    let o = st.opening(st.check_group(circuit, globals));
    pow(o.back_one, st.taps.combo_taps[st.taps.combo_begin[c] + j] as nat).spec_mul(o.z)
}

/// What it means that the points of an opening are distinct: those of each
/// combination can be interpolated through.
pub proof fn law_distinct_points<H: Hal>(o: Opening<H>)
    ensures
        o.points_distinct() <==> forall|c: int|
            0 <= c < o.taps.combos_size() ==> separated(#[trigger] o.divisors(c)),
        o.points_differ() <==> forall|c: int, i: int, j: int|
            0 <= c < o.taps.combos_size() && 0 <= i < j < o.divisors(c).len() ==> #[trigger] o.divisors(c)[i]
                != #[trigger] o.divisors(c)[j],
{
    if o.points_differ() {
        assert forall|c: int, i: int, j: int|
            0 <= c < o.taps.combos_size() && 0 <= i < j < o.divisors(c).len() implies #[trigger] o.divisors(c)[i]
            != #[trigger] o.divisors(c)[j] by {
            assert(all_different(o.divisors(c)));
        }
    }
}

/// A prover is complete once the length of the trace is known and each group has
/// been committed.
pub proof fn law_complete_provers<H: Hal, S: Sha>(st: ProverState<H, S>)
    ensures
        st.complete() <==> {
            &&& st.po2 is Some
            &&& forall|g: int| 0 <= g < st.groups.len() ==> (#[trigger] st.groups[g]) is Some
        },
{
}

/// What a prover may be asked: its domain has four points for each cycle, roots
/// must be known for it, and a tree over it must fit the machine.
pub proof fn law_only_the_machine_limits_traces<H: Hal, S: Sha>(st: ProverState<H, S>)
    requires
        st.wf(),
    ensures
        st.domain() == 4 * st.cycles,
        st.domain_fits() <==> {
            &&& st.po2 is Some
            &&& st.po2->0 + 2 <= H::Elem::spec_max_rou_po2()
            &&& 8 * st.cycles <= usize::MAX
        },
{
}

/// A proof can be asked for wherever the buffers fit the machine and no register
/// is tapped more often than there are cycles.
pub proof fn law_only_the_machine_limits_proofs<H: Hal, S: Sha>(st: ProverState<H, S>)
    requires
        st.wf(),
        st.domain_fits(),
        4 * H::ExtElem::spec_ext_size() * (4 * st.cycles) <= usize::MAX,
        st.taps.taps.len() + 4 * H::ExtElem::spec_ext_size() <= usize::MAX,
        st.cycles * (st.taps.combos_size() + 1) <= usize::MAX,
        forall|k: int| 0 <= k < st.taps.regs().len() ==> (#[trigger] st.taps.regs()[k]).taps <= st.cycles,
    ensures
        st.proof_fits(),
{
    let (n, combos) = (st.cycles, st.taps.combos_size());
    assert(st.cycles * 4 == 4 * st.cycles);
    assert forall|k: int| 0 <= k < st.taps.regs().len() implies n * (#[trigger] st.taps.regs()[k]).combo
        + st.taps.regs()[k].taps <= n * (combos + 1) by {
        let r = st.taps.regs()[k];
        st.taps.lemma_regs_upto(st.taps.num_groups() as int);
        let (g, i) = lemma_group_of_register(st.taps, k, st.taps.num_groups() as int);
        st.taps.lemma_group_regs(g);
        assert(st.taps.group_regs(g)[i].combo < combos);
        let c = r.combo as nat;
        assert(n * c + n <= n * (combos + 1)) by (nonlinear_arith)
            requires
                c < combos,
        ;
    }
}

/// Every register belongs to some group.
proof fn lemma_group_of_register(taps: Taps, k: int, g: int) -> (r: (int, int))
    requires
        taps.wf(),
        0 <= g <= taps.num_groups(),
        0 <= k < registers(taps.taps, 0, taps.begin(g)).len(),
    ensures
        0 <= r.0 < taps.num_groups(),
        0 <= r.1 < taps.group_size(r.0),
        registers(taps.taps, 0, taps.begin(g))[k] == taps.group_regs(r.0)[r.1],
    decreases g,
{
    taps.lemma_regs_upto(g);
    if g == 0 {
        (0, 0)
    } else {
        taps.lemma_regs_upto(g - 1);
        let before = registers(taps.taps, 0, taps.begin(g - 1));
        if k < before.len() {
            lemma_group_of_register(taps, k, g - 1)
        } else {
            (g - 1, k - before.len())
        }
    }
}

} // verus!
