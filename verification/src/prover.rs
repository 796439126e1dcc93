//! The prover: commits to the execution trace of a circuit group by group,
//! and turns the commitments into a proof.
use crate::deep::{check_size, divide_combinations, eval_checks, eval_taps, groups_match};
use crate::deep::{interpolate_registers, mix_groups, subtract_openings, Opening};
use crate::field::{power, Elem, ExtElem, RootsOfUnity};
use crate::fri::{fri_prove, fri_proved, QueryProver};
use crate::hal::{all_contents, Buffer, EvalCheck, Hal, INV_RATE, INV_RATE_PO2};
use crate::iop::{raw_words, raw_words_of, words_of, Transcript, WriteIOP};
use crate::merkle::{row_opened, tree_committed};
use crate::poly_group::{Group, PolyGroup};
use crate::sha::Sha;
use crate::taps::{TapSet, Taps};
use crate::transform::{chunk, holds_polys, interpolated, joined, lemma_chunk_of_joined};
use crate::transform::{lemma_holds_polys, lemma_log2_pow2, log2, shifted};
use vstd::arithmetic::div_mod::lemma_fundamental_div_mod_converse;
use vstd::arithmetic::power2::{lemma_pow2_adds, pow2};
use vstd::prelude::*;

verus! {

/// The bit-reversed coefficients that commit to `count` columns of `n` values:
/// each column is interpolated, and its polynomial moved off the trace domain.
pub open spec fn column_coeffs<H: Hal>(values: Seq<H::Elem>, count: nat, n: nat) -> Seq<H::Elem> {
    joined(count, n, |k: int| shifted(interpolated(chunk(values, n, k))))
}

/// Turns `count` columns of values into bit-reversed coefficients `f(3x)`.
pub fn make_coeffs<H: Hal>(hal: &H, buf: H::BufferElem, count: usize) -> (r: H::BufferElem)
    requires
        holds_polys(buf.contents().len(), count as nat),
        log2(buf.contents().len() / count as nat) <= H::Elem::spec_max_rou_po2(),
    ensures
        r.contents() == column_coeffs::<H>(
            buf.contents(),
            count as nat,
            buf.contents().len() / count as nat,
        ),
{
    let ghost values = buf.contents();
    let ghost n = values.len() / count as nat;
    let mut buf = buf;
    hal.batch_interpolate_ntt(&mut buf, count);
    let ghost coeffs = buf.contents();
    proof {
        assert(coeffs.len() == values.len());
    }
    hal.zk_shift(&mut buf, count);
    proof {
        assert forall|i: int| 0 <= i < count * n implies buf.contents()[i] == column_coeffs::<H>(
            values,
            count as nat,
            n,
        )[i] by {
            crate::transform::lemma_position_bounds(count as nat, n, i);
            let k = i / n as int;
            crate::transform::lemma_chunk_bounds(count as nat, n, k);
            lemma_chunk_of_joined(count as nat, n, |j: int| interpolated(chunk(values, n, j)), k);
        }
        assert(buf.contents() =~= column_coeffs::<H>(values, count as nat, n));
    }
    buf
}

/// The transcript after position `pos` has been opened in the first `k` groups.
pub open spec fn groups_opened<H: Hal, S: Sha>(
    hal: H,
    t: Transcript<S>,
    groups: Seq<Group<H>>,
    k: nat,
    pos: nat,
) -> Transcript<S>
    decreases k,
{
    if k == 0 {
        t
    } else {
        let group = groups[k - 1];
        row_opened(
            hal,
            groups_opened(hal, t, groups, (k - 1) as nat, pos),
            group.values(),
            group.size * INV_RATE as nat,
            pos,
        )
    }
}

/// The transcript after position `pos` has been opened in all groups, then in
/// the check group.
pub open spec fn all_opened<H: Hal, S: Sha>(
    hal: H,
    t: Transcript<S>,
    groups: Seq<Group<H>>,
    check: Group<H>,
    pos: nat,
) -> Transcript<S> {
    row_opened(
        hal,
        groups_opened(hal, t, groups, groups.len(), pos),
        check.values(),
        check.size * INV_RATE as nat,
        pos,
    )
}

/// The groups that every query opens.
struct GroupOpenings<'b, H: Hal> {
    groups: &'b Vec<Option<PolyGroup<H>>>,
    check: &'b PolyGroup<H>,
}

impl<'b, H: Hal> GroupOpenings<'b, H> {
    spec fn model(&self) -> Seq<Group<H>> {
        Seq::new(self.groups@.len(), |g: int| self.groups@[g]->0@)
    }
}

impl<'b, H: Hal, S: Sha> QueryProver<H, S> for GroupOpenings<'b, H> {
    closed spec fn ready(&self, hal: H) -> bool {
        &&& groups_match(hal, self.groups@, self.model())
        &&& self.check.wf(hal)
        &&& forall|g: int| 0 <= g < self.groups@.len() ==> (#[trigger] self.groups@[g])->0.size == self.check.size
    }

    closed spec fn domain(&self) -> nat {
        self.check.size as nat * INV_RATE as nat
    }

    closed spec fn opened(&self, hal: H, t: Transcript<S>, pos: nat) -> Transcript<S> {
        all_opened(hal, t, self.model(), self.check@, pos)
    }

    fn open(&self, hal: &H, iop: &mut WriteIOP<S>, pos: usize) {
        let mut g: usize = 0;
        while g < self.groups.len()
            invariant
                g <= self.groups@.len(),
                groups_match(*hal, self.groups@, self.model()),
                forall|i: int|
                    0 <= i < self.groups@.len() ==> (#[trigger] self.groups@[i])->0.size == self.check.size,
                pos < self.check.size * INV_RATE,
                iop@ == groups_opened(*hal, old(iop)@, self.model(), g as nat, pos as nat),
            decreases self.groups@.len() - g,
        {
            assert(self.groups@[g as int] is Some);
            if let Some(pg) = &self.groups[g] {
                let _row = pg.merkle.prove(hal, iop, pos);
            }
            g = g + 1;
        }
        let _row = self.check.merkle.prove(hal, iop, pos);
    }
}

/// What a prover stands for.
pub struct ProverState<H: Hal, S: Sha> {
    pub hal: H,
    pub sha: S,
    pub taps: Taps,
    pub iop: Transcript<S>,
    /// The polynomials of each group, once it has been committed.
    pub groups: Seq<Option<Group<H>>>,
    /// The length of the trace, once it has been set.
    pub cycles: nat,
    /// The exponent of the length of the trace, once it has been set.
    pub po2: Option<nat>,
}

impl<H: Hal, S: Sha> ProverState<H, S> {
    /// Before anything has been said about the trace.
    pub open spec fn initial(hal: H, sha: S, taps: Taps) -> Self {
        ProverState {
            hal,
            sha,
            taps,
            iop: Transcript::spec_new(sha),
            groups: Seq::new(taps.num_groups(), |g: int| None),
            cycles: 0,
            po2: None,
        }
    }

    /// There is a place for every group, and the committed groups have the
    /// shape that the taps and the length of the trace prescribe.
    pub open spec fn wf(self) -> bool {
        &&& self.taps.wf()
        &&& self.groups.len() == self.taps.num_groups()
        &&& self.po2 is None ==> self.cycles == 0
        &&& self.po2 matches Some(po2) ==> self.cycles == pow2(po2)
        &&& forall|g: int|
            0 <= g < self.groups.len() ==> ((#[trigger] self.groups[g]) matches Some(group) ==> {
                &&& self.po2 is Some
                &&& group.wf()
                &&& group.count == self.taps.group_size(g)
                &&& group.size == self.cycles
            })
    }

    /// The size of the evaluation domain.
    pub open spec fn domain(self) -> nat {
        self.cycles * INV_RATE as nat
    }

    /// Roots of unity are known for the evaluation domain, and trees over it
    /// fit the machine.
    pub open spec fn domain_fits(self) -> bool {
        &&& self.po2 is Some
        &&& self.po2->0 + INV_RATE_PO2 <= H::Elem::spec_max_rou_po2()
        &&& 2 * self.domain() <= usize::MAX
    }

    /// The group committed to by the values `buf`.
    pub open spec fn group_of(self, g: int, buf: Seq<H::Elem>) -> Group<H> {
        let count = self.taps.group_size(g);
        Group::from_reversed(column_coeffs::<H>(buf, count, self.cycles), count, self.cycles)
    }

    /// After the values `buf` have been committed as group `g`.
    pub open spec fn group_committed(self, g: int, buf: Seq<H::Elem>) -> Self {
        let group = self.group_of(g, buf);
        ProverState {
            groups: self.groups.update(g, Some(group)),
            iop: tree_committed(self.hal, self.iop, group.values(), self.domain()),
            ..self
        }
    }

    /// All groups have been committed.
    pub open spec fn complete(self) -> bool {
        &&& self.po2 is Some
        &&& forall|g: int| 0 <= g < self.groups.len() ==> (#[trigger] self.groups[g]) is Some
    }

    /// The committed groups.
    pub open spec fn committed(self) -> Seq<Group<H>> {
        Seq::new(self.groups.len(), |g: int| self.groups[g]->0)
    }

    /// The values of the committed groups on the evaluation domain.
    pub open spec fn group_values(self) -> Seq<Seq<H::Elem>> {
        Seq::new(self.groups.len(), |g: int| self.groups[g]->0.values())
    }

    /// The challenge that compresses all constraints into one.
    pub open spec fn poly_mix(self) -> H::ExtElem {
        self.iop.challenge::<H::ExtElem>()
    }

    /// The check polynomial of the circuit, split into polynomials as long as
    /// the trace.
    pub open spec fn check_group<E: EvalCheck<H>>(self, eval: E, globals: Seq<Seq<H::Elem>>) -> Group<H> {
        let values = eval.check_values(
            self.group_values(),
            globals,
            self.poly_mix(),
            self.po2->0,
            self.cycles,
        );
        let coeffs = joined(
            H::ExtElem::spec_ext_size(),
            self.domain(),
            |e: int| interpolated(chunk(values, self.domain(), e)),
        );
        Group::from_reversed(coeffs, check_size::<H>(), self.cycles)
    }

    /// The transcript after the check polynomial has been committed.
    pub open spec fn check_committed(self, check: Group<H>) -> Transcript<S> {
        tree_committed(self.hal, self.iop.challenged::<H::ExtElem>(), check.values(), self.domain())
    }

    /// The opening of all groups at the challenge that follows.
    pub open spec fn opening(self, check: Group<H>) -> Opening<H> {
        Opening {
            taps: self.taps,
            groups: self.committed(),
            check,
            size: self.cycles,
            back_one: H::ExtElem::spec_from_subfield(H::Elem::spec_rou_rev(self.po2->0)),
            z: self.check_committed(check).challenge::<H::ExtElem>(),
        }
    }

    /// The transcript after everything that is opened has been sent.
    pub open spec fn openings_sent(self, check: Group<H>) -> Transcript<S> {
        let u = self.opening(check).u();
        self.check_committed(check).challenged::<H::ExtElem>().written(words_of(u)).committed(
            self.sha.spec_hash_words(raw_words_of(u)),
        )
    }

    /// The challenge that mixes all polynomials into one.
    pub open spec fn mix(self, check: Group<H>) -> H::ExtElem {
        self.openings_sent(check).challenge::<H::ExtElem>()
    }

    /// The transcript of the whole proof.
    pub open spec fn proved(self, check: Group<H>) -> Transcript<S> {
        fri_proved(
            self.hal,
            |t: Transcript<S>, pos: nat| all_opened(self.hal, t, self.committed(), check, pos),
            self.openings_sent(check).challenged::<H::ExtElem>(),
            self.opening(check).final_poly(self.mix(check)),
            self.cycles,
        )
    }

    /// The openings are consistent with the committed polynomials: dividing by
    /// the points of the openings leaves no remainder.
    pub open spec fn provable<E: EvalCheck<H>>(self, eval: E, globals: Seq<Seq<H::Elem>>) -> bool {
        let check = self.check_group(eval, globals);
        self.opening(check).exact(self.mix(check))
    }

    /// The proof.
    pub open spec fn seal<E: EvalCheck<H>>(self, eval: E, globals: Seq<Seq<H::Elem>>) -> Seq<u32> {
        self.proved(self.check_group(eval, globals)).proof
    }

    /// All lengths met while proving fit the machine.
    pub open spec fn proof_fits(self) -> bool {
        let combos = self.taps.combos_size();
        &&& self.domain_fits()
        &&& check_size::<H>() * self.domain() <= usize::MAX
        &&& self.taps.taps.len() + check_size::<H>() <= usize::MAX
        &&& self.cycles * (combos + 1) <= usize::MAX
        &&& forall|k: int|
            0 <= k < self.taps.regs().len() ==> self.cycles * (#[trigger] self.taps.regs()[k]).combo
                + self.taps.regs()[k].taps <= self.cycles * (combos + 1)
    }
}

/// Object to generate a zero-knowledge proof of the execution of some circuit.
pub struct Prover<'a, H, S> where H: Hal, S: Sha {
    hal: &'a H,
    sha: &'a S,
    taps: &'a TapSet<'a>,
    iop: WriteIOP<S>,
    groups: Vec<Option<PolyGroup<H>>>,
    cycles: usize,
    po2: usize,
}

impl<'a, H, S> View for Prover<'a, H, S> where H: Hal, S: Sha {
    type V = ProverState<H, S>;

    closed spec fn view(&self) -> ProverState<H, S> {
        ProverState {
            hal: *self.hal,
            sha: *self.sha,
            taps: self.taps@,
            iop: self.iop@,
            groups: Seq::new(
                self.groups@.len(),
                |g: int|
                    match self.groups@[g] {
                        Some(pg) => Some(pg@),
                        None => None,
                    },
            ),
            cycles: self.cycles as nat,
            po2: if self.po2 == usize::MAX {
                None
            } else {
                Some(self.po2 as nat)
            },
        }
    }
}

impl<'a, H, S> Prover<'a, H, S> where H: Hal, S: Sha {
    /// The trees of the committed groups are those over their values, and
    /// everything has the shape that the taps prescribe.
    pub closed spec fn wf(&self) -> bool {
        &&& self.taps.wf()
        &&& self.groups@.len() == self.taps@.num_groups()
        &&& self.po2 == usize::MAX ==> self.cycles == 0
        &&& self.po2 != usize::MAX ==> self.cycles == pow2(self.po2 as nat)
        &&& forall|g: int|
            0 <= g < self.groups@.len() ==> ((#[trigger] self.groups@[g]) matches Some(pg) ==> {
                &&& self.po2 != usize::MAX
                &&& pg.wf(*self.hal)
                &&& pg.count == self.taps@.group_size(g)
                &&& pg.size == self.cycles
            })
    }

    /// What a prover stands for has the right shape.
    pub proof fn lemma_wf(&self)
        requires
            self.wf(),
        ensures
            self@.wf(),
    {
        assert forall|g: int| 0 <= g < self@.groups.len() implies ((#[trigger] self@.groups[g]) matches Some(group)
            ==> {
            &&& self@.po2 is Some
            &&& group.wf()
            &&& group.count == self@.taps.group_size(g)
            &&& group.size == self@.cycles
        }) by {
            if let Some(pg) = self.groups@[g] {
                assert(self.groups@[g] is Some);
            }
        }
    }

    /// Creates a new prover.
    pub fn new(hal: &'a H, sha: &'a S, taps: &'a TapSet<'a>) -> (r: Self)
        requires
            taps.wf(),
        ensures
            r.wf(),
            r@ == ProverState::initial(*hal, *sha, taps@),
    {
        let mut groups: Vec<Option<PolyGroup<H>>> = Vec::new();
        let n: usize = taps.num_groups();
        while groups.len() < n
            invariant
                groups@.len() <= n,
                forall|g: int| 0 <= g < groups@.len() ==> (#[trigger] groups@[g]) is None,
            decreases n - groups@.len(),
        {
            groups.push(None);
        }
        let r = Prover { hal, sha, taps, iop: WriteIOP::new(sha), groups, cycles: 0, po2: usize::MAX };
        assert(r@.groups =~= ProverState::<H, S>::initial(*hal, *sha, taps@).groups);
        r
    }

    /// Accesses the prover's IOP to commit or read random data.
    pub fn iop(&mut self) -> (r: &mut WriteIOP<S>)
        ensures
            r@ == old(self)@.iop,
            final(self)@ == (ProverState { iop: final(r)@, ..old(self)@ }),
            old(self).wf() ==> final(self).wf(),
    {
        &mut self.iop
    }

    /// Sets the number of cycles to to 2^po2.  This must be called
    /// once after new() before any commit_group() calls.
    pub fn set_po2(&mut self, po2: usize)
        requires
            old(self).wf(),
            old(self)@.po2 is None,
            po2 < usize::BITS,
        ensures
            final(self).wf(),
            final(self)@ == (ProverState { po2: Some(po2 as nat), cycles: pow2(po2 as nat), ..old(self)@ }),
    {
        proof {
            vstd::bits::lemma_usize_pow2_no_overflow(po2 as nat);
            assert(1 * pow2(po2 as nat) == pow2(po2 as nat));
            vstd::bits::lemma_usize_shl_is_mul(1, po2);
        }
        self.po2 = po2;
        self.cycles = 1usize << po2;
        assert forall|g: int| 0 <= g < self.groups@.len() implies (#[trigger] self.groups@[g]) is None by {
            assert(old(self).groups@[g] is None);
        }
        assert(self@.groups =~= old(self)@.groups);
    }

    /// Commits a given buffer to the IOP; the values must not subsequently
    /// change.
    pub fn commit_group(&mut self, tap_group_index: usize, buf: H::BufferElem)
        requires
            old(self).wf(),
            old(self)@.domain_fits(),
            tap_group_index < old(self)@.groups.len(),
            old(self)@.groups[tap_group_index as int] is None,
            buf.contents().len() == old(self)@.taps.group_size(tap_group_index as int) * old(self)@.cycles,
            old(self)@.taps.group_size(tap_group_index as int) * old(self)@.domain() <= usize::MAX,
        ensures
            final(self).wf(),
            final(self)@ == old(self)@.group_committed(tap_group_index as int, buf.contents()),
    {
        let ghost g = tap_group_index as int;
        let group_size: usize = self.taps.group_size(tap_group_index);
        let ghost values = buf.contents();
        proof {
            lemma_log2_pow2(self.po2 as nat);
            lemma_holds_polys(group_size as nat, self.po2 as nat);
        }
        let coeffs = make_coeffs(self.hal, buf, group_size);
        let group = PolyGroup::new(self.hal, coeffs, group_size, self.cycles, "data");
        group.merkle.commit(self.hal, &mut self.iop);
        let ghost before = self.groups@;
        let ghost pg = group;
        self.groups.set(tap_group_index, Some(group));
        proof {
            assert(pg@ == old(self)@.group_of(g, values));
            assert(self@.groups =~= old(self)@.groups.update(g, Some(pg@)));
            assert forall|i: int| 0 <= i < self.groups@.len() implies ((#[trigger] self.groups@[i]) matches Some(p) ==> {
                &&& self.po2 != usize::MAX
                &&& p.wf(*self.hal)
                &&& p.count == self.taps@.group_size(i)
                &&& p.size == self.cycles
            }) by {
                if i != g {
                    assert(self.groups@[i] == before[i]);
                }
            }
        }
    }

    /// Generates the proof and returns the seal, or `None` where an opening
    /// is not consistent with the polynomials it was taken from.
    pub fn try_finalize<E>(self, globals: &[&H::BufferElem], eval: &E) -> (seal: Option<Vec<u32>>) where
        E: EvalCheck<H>,

        requires
            self.wf(),
            self@.complete(),
            self@.proof_fits(),
            eval.accepts(self@.group_values(), all_contents::<H>(globals@), self@.po2->0, self@.cycles),
        ensures
            seal is Some == self@.provable(*eval, all_contents::<H>(globals@)),
            seal matches Some(words) ==> words@ == self@.seal(*eval, all_contents::<H>(globals@)),
    {
        let ghost st = self@;
        let ghost inputs = all_contents::<H>(globals@);
        let ghost po2 = self.po2 as nat;
        let hal = self.hal;
        let taps = self.taps;
        let cycles: usize = self.cycles;
        let ext: usize = H::ExtElem::ext_size();
        let domain: usize = cycles * INV_RATE;
        let check_count: usize = INV_RATE * ext;
        let groups = self.groups;
        let mut iop = self.iop;
        proof {
            H::ExtElem::law_ext_size();
            lemma_log2_pow2(po2);
            lemma_pow2_adds(po2, 2);
            vstd::arithmetic::power2::lemma2_to64();
            lemma_holds_polys(ext as nat, po2 + 2);
            assert(check_count * cycles == ext * domain) by (nonlinear_arith)
                requires
                    check_count == 4 * ext,
                    domain == cycles * 4,
            ;
            assert(ext * domain <= check_count * domain) by (nonlinear_arith)
                requires
                    check_count == 4 * ext,
            ;
            assert(ext * cycles <= ext * domain) by (nonlinear_arith)
                requires
                    domain == cycles * 4,
            ;
            let combos = st.taps.combos_size() + 1;
            assert(combos * cycles == cycles * combos) by (nonlinear_arith);
            assert(groups_match(*hal, groups@, st.committed())) by {
                assert forall|g: int| 0 <= g < groups@.len() implies {
                    &&& (#[trigger] groups@[g]) is Some
                    &&& groups@[g]->0.wf(*hal)
                    &&& groups@[g]->0@ == st.committed()[g]
                } by {
                    assert(st.groups[g] is Some);
                }
            }
        }
        // The value that compresses all constraints into one.
        let poly_mix = iop.random::<H::ExtElem>();
        // The check polynomial: if the constraints are satisfied, it has low degree.
        let mut check_poly = hal.alloc_elem("check_poly", ext * domain);
        let evaluated = group_matrices(hal, &groups, Ghost(st.committed()));
        proof {
            assert(all_contents::<H>(evaluated@) =~= st.group_values());
            eval.law_check_values(st.group_values(), inputs, poly_mix, po2, cycles as nat);
        }
        eval.eval_check(&mut check_poly, evaluated.as_slice(), globals, poly_mix, self.po2, cycles);
        hal.batch_interpolate_ntt(&mut check_poly, ext);
        // Its bit-reversed coefficients are read as those of more, shorter polynomials.
        let ghost check = st.check_group(*eval, inputs);
        let check_group = PolyGroup::new(hal, check_poly, check_count, cycles, "check");
        assert(check_group@ == check);
        check_group.merkle.commit(hal, &mut iop);
        // The point at which everything is opened.
        let z = iop.random::<H::ExtElem>();
        let back_one = H::ExtElem::from_subfield(&H::Elem::rou_rev(self.po2));
        let ghost o = st.opening(check);
        proof {
            assert forall|g: int| 0 <= g < o.groups.len() implies {
                &&& (#[trigger] o.groups[g]).wf()
                &&& o.groups[g].count == o.taps.group_size(g)
                &&& o.groups[g].size == o.size
            } by {
                assert(groups@[g] is Some);
            }
            assert(o.wf());
            assert(o.fits());
        }
        let (all_xs, eval_u) = eval_taps(hal, taps, &groups, back_one, z, Ghost(o));
        let mut coeff_u = interpolate_registers::<H>(taps, &all_xs, &eval_u, Ghost(o));
        let z_pow = power(z, ext as u128);
        let mut check_u = eval_checks(hal, &check_group, z_pow, Ghost(o));
        coeff_u.append(&mut check_u);
        assert(coeff_u@ =~= o.u());
        iop.write_field_elem_slice(coeff_u.as_slice());
        let words_u = raw_words(coeff_u.as_slice());
        let hash_u = self.sha.hash_raw_pod_slice(words_u.as_slice());
        iop.commit(&hash_u);
        // The value that mixes all polynomials into one.
        let mix = iop.random::<H::ExtElem>();
        let mut combos_buf = mix_groups(hal, taps, &groups, &check_group, mix, cycles, Ghost(o));
        let mut combos = combos_buf.to_vec();
        subtract_openings::<H>(taps, &mut combos, &coeff_u, mix, cycles, Ghost(o));
        if !divide_combinations::<H>(taps, &mut combos, back_one, z, z_pow, mix, cycles, Ghost(o)) {
            return None;
        }
        combos_buf.store(combos.as_slice());
        // The sum of all quotients, whose degree is proved.
        let final_poly = sum_quotients(hal, &combos_buf, cycles, Ghost(o), Ghost(mix));
        let inner = GroupOpenings { groups: &groups, check: &check_group };
        proof {
            let a = |t: Transcript<S>, pos: nat| inner.opened(*hal, t, pos);
            let b = |t: Transcript<S>, pos: nat| all_opened(st.hal, t, st.committed(), check, pos);
            assert(inner.model() =~= st.committed());
            assert(a =~= b);
            assert forall|g: int| 0 <= g < groups@.len() implies (#[trigger] groups@[g])->0.size
                == check_group.size by {
                assert(groups@[g] is Some);
            }
        }
        fri_prove(hal, &mut iop, final_poly, cycles, &inner);
        Some(iop.proof)
    }

    /// Generates the proof and returns the seal.
    ///
    /// The contract gives the seal word for word. A verifier is not part of
    /// this library, so nothing is said about one that reads it.
    pub fn finalize<E>(self, globals: &[&H::BufferElem], eval: &E) -> (seal: Vec<u32>) where E: EvalCheck<H>
        requires
            self.wf(),
            self@.complete(),
            self@.proof_fits(),
            eval.accepts(self@.group_values(), all_contents::<H>(globals@), self@.po2->0, self@.cycles),
            self@.provable(*eval, all_contents::<H>(globals@)),
        ensures
            seal@ == self@.seal(*eval, all_contents::<H>(globals@)),
    {
        self.try_finalize(globals, eval).unwrap()
    }
}

/// The matrices of all groups.
fn group_matrices<'b, H: Hal>(
    hal: &H,
    groups: &'b Vec<Option<PolyGroup<H>>>,
    Ghost(model): Ghost<Seq<Group<H>>>,
) -> (r: Vec<&'b H::BufferElem>)
    requires
        groups_match(*hal, groups@, model),
    ensures
        r@.len() == groups@.len(),
        forall|g: int| 0 <= g < r@.len() ==> (#[trigger] r@[g]).contents() == model[g].values(),
{
    let mut r: Vec<&'b H::BufferElem> = Vec::new();
    let mut g: usize = 0;
    while g < groups.len()
        invariant
            g <= groups@.len(),
            groups_match(*hal, groups@, model),
            r@.len() == g,
            forall|i: int| 0 <= i < r@.len() ==> (#[trigger] r@[i]).contents() == model[i].values(),
        decreases groups@.len() - g,
    {
        assert(groups@[g as int] is Some);
        if let Some(pg) = &groups[g] {
            r.push(&pg.merkle.matrix);
        }
        g = g + 1;
    }
    r
}

/// Adds up the quotients, and lays out the sum for the proximity proof.
fn sum_quotients<H: Hal>(
    hal: &H,
    combos: &H::BufferExtElem,
    size: usize,
    Ghost(o): Ghost<Opening<H>>,
    Ghost(mix): Ghost<H::ExtElem>,
) -> (r: H::BufferElem)
    requires
        size == o.size,
        size > 0,
        crate::transform::is_power_of_two(size as nat),
        combos.contents() == o.quotients(mix),
        H::ExtElem::spec_ext_size() * size <= usize::MAX,
    ensures
        r.contents() == o.final_poly(mix),
        r.contents().len() == H::ExtElem::spec_ext_size() * size,
{
    let ext: usize = H::ExtElem::ext_size();
    let ghost count = o.taps.combos_size() + 1;
    proof {
        H::ExtElem::law_ext_size();
        let (e, n) = (ext as int, size as int);
        assert(n * e == e * n) by (nonlinear_arith);
        lemma_fundamental_div_mod_converse(e * n, e, n, 0);
        assert(count * size == size * count) by (nonlinear_arith);
        assert(size <= size * count) by (nonlinear_arith)
            requires
                count >= 1,
        ;
        assert(ext <= ext * size) by (nonlinear_arith)
            requires
                size >= 1,
        ;
        lemma_fundamental_div_mod_converse((count * size) as int, n, count as int, 0);
        lemma_holds_polys(ext as nat, log2(size as nat));
    }
    let mut final_poly_coeffs = hal.alloc_elem("final_poly_coeffs", size * ext);
    hal.eltwise_sum_extelem(&mut final_poly_coeffs, combos);
    hal.batch_bit_reverse(&mut final_poly_coeffs, ext);
    assert(final_poly_coeffs.contents() =~= o.final_poly(mix));
    final_poly_coeffs
}

} // verus!
