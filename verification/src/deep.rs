//! Opening committed polynomials at a random point, and combining the
//! openings into one polynomial of low degree.
use crate::field::{pow, power, Elem, ExtElem};
use crate::hal::{by_coordinate, columns_summed, polys_mixed, Buffer, Hal, INV_RATE};
use crate::poly::{divides_exactly, eval, interpolant, poly_divide, poly_interpolate};
use crate::poly::{quotient, quotient_by_all, zeros};
use crate::poly_group::{Group, PolyGroup};
use crate::taps::{lemma_register_split, lemma_registers, registers, TapSet, Taps};
use crate::transform::{bit_reversed, chunk, joined, lemma_chunk_bounds, lemma_holds_polys};
use crate::transform::{lemma_joined_chunks, lifted, log2};
use vstd::prelude::*;

verus! {

/// The number of polynomials the check polynomial is split into.
pub open spec fn check_size<H: Hal>() -> nat {
    INV_RATE as nat * H::ExtElem::spec_ext_size()
}

/// `s` with `c` times `p` subtracted from `base` on.
pub open spec fn subtracted_at<X: Elem>(s: Seq<X>, base: int, c: X, p: Seq<X>) -> Seq<X> {
    Seq::new(
        s.len(),
        |i: int|
            if base <= i < base + p.len() {
                s[i].spec_sub(c.spec_mul(p[i - base]))
            } else {
                s[i]
            },
    )
}

/// Committed groups of polynomials, and the point at which they are opened.
pub struct Opening<H: Hal> {
    pub taps: Taps,
    pub groups: Seq<Group<H>>,
    pub check: Group<H>,
    pub size: nat,
    /// Multiplying by this steps one cycle back.
    pub back_one: H::ExtElem,
    pub z: H::ExtElem,
}

impl<H: Hal> Opening<H> {
    /// The polynomials are those the taps refer to.
    pub open spec fn wf(self) -> bool {
        &&& self.taps.wf()
        &&& self.size > 0
        &&& self.groups.len() == self.taps.num_groups()
        &&& forall|g: int|
            0 <= g < self.groups.len() ==> {
                &&& (#[trigger] self.groups[g]).wf()
                &&& self.groups[g].count == self.taps.group_size(g)
                &&& self.groups[g].size == self.size
            }
        &&& self.check.wf()
        &&& self.check.count == check_size::<H>()
        &&& self.check.size == self.size
    }

    /// All lengths fit the machine, and no register reaches past the last
    /// combination.
    pub open spec fn fits(self) -> bool {
        &&& self.size * (self.taps.combos_size() + 1) <= usize::MAX
        &&& forall|k: int|
            0 <= k < self.taps.regs().len() ==> self.size * (#[trigger] self.taps.regs()[k]).combo
                + self.taps.regs()[k].taps <= self.size * (self.taps.combos_size() + 1)
    }

    /// Where a tap that reads `back` cycles back is opened.
    pub open spec fn point(self, back: nat) -> H::ExtElem {
        pow(self.back_one, back).spec_mul(self.z)
    }

    /// Where the check polynomials are opened.
    pub open spec fn check_point(self) -> H::ExtElem {
        pow(self.z, H::ExtElem::spec_ext_size())
    }

    /// Where the first `k` taps are opened.
    pub open spec fn points(self, k: nat) -> Seq<H::ExtElem> {
        Seq::new(k, |i: int| self.point(self.taps.taps[i].back as nat))
    }

    /// What the taps of a group read.
    pub open spec fn group_evals(self, g: int) -> Seq<H::ExtElem> {
        Seq::new(
            (self.taps.end(g) - self.taps.begin(g)) as nat,
            |i: int|
                {
                    let tap = self.taps.taps[self.taps.begin(g) + i];
                    eval(
                        lifted::<H::ExtElem>(self.groups[g].poly(tap.offset as int)),
                        self.point(tap.back as nat),
                    )
                },
        )
    }

    /// What the taps of the first `g` groups read.
    pub open spec fn evals(self, g: nat) -> Seq<H::ExtElem>
        decreases g,
    {
        if g == 0 {
            Seq::empty()
        } else {
            self.evals((g - 1) as nat) + self.group_evals(g - 1)
        }
    }

    /// What all taps read.
    pub open spec fn all_evals(self) -> Seq<H::ExtElem> {
        self.evals(self.taps.num_groups())
    }

    /// The polynomial through all that the taps of register `k` read.
    pub open spec fn register_poly(self, k: int) -> Seq<H::ExtElem> {
        let r = self.taps.regs()[k];
        interpolant(
            self.points(self.taps.taps.len()).subrange(r.pos as int, r.pos + r.taps),
            self.all_evals().subrange(r.pos as int, r.pos + r.taps),
        )
    }

    /// The polynomials of the first `k` registers, one after the other.
    pub open spec fn register_polys(self, k: nat) -> Seq<H::ExtElem>
        decreases k,
    {
        if k == 0 {
            Seq::empty()
        } else {
            self.register_polys((k - 1) as nat) + self.register_poly(k - 1)
        }
    }

    /// The values of the check polynomials.
    pub open spec fn check_evals(self) -> Seq<H::ExtElem> {
        Seq::new(
            check_size::<H>(),
            |i: int| eval(lifted::<H::ExtElem>(self.check.poly(i)), self.check_point()),
        )
    }

    /// All that is opened: the polynomial of each register, then the values of
    /// the check polynomials.
    pub open spec fn u(self) -> Seq<H::ExtElem> {
        self.register_polys(self.taps.regs().len()) + self.check_evals()
    }

    /// The combination that each polynomial of a group is added to.
    pub open spec fn which(self, g: int) -> Seq<u32> {
        Seq::new(self.taps.group_size(g), |i: int| self.taps.group_regs(g)[i].combo as u32)
    }

    /// The weight of the first polynomial of group `g`.
    pub open spec fn weight(self, mix: H::ExtElem, g: nat) -> H::ExtElem
        decreases g,
    {
        if g == 0 {
            H::ExtElem::spec_one()
        } else {
            self.weight(mix, (g - 1) as nat).spec_mul(pow(mix, self.taps.group_size(g - 1)))
        }
    }

    /// The combinations after the first `g` groups have been mixed in.
    pub open spec fn groups_mixed(self, mix: H::ExtElem, g: nat) -> Seq<H::ExtElem>
        decreases g,
    {
        if g == 0 {
            zeros(self.size * (self.taps.combos_size() + 1))
        } else {
            polys_mixed(
                self.groups_mixed(mix, (g - 1) as nat),
                self.weight(mix, (g - 1) as nat),
                mix,
                self.groups[g - 1].coeffs,
                self.which(g - 1),
                self.size,
                self.taps.group_size(g - 1),
            )
        }
    }

    /// The combinations of all polynomials; the last one is that of the check
    /// polynomials.
    pub open spec fn combinations(self, mix: H::ExtElem) -> Seq<H::ExtElem> {
        polys_mixed(
            self.groups_mixed(mix, self.taps.num_groups()),
            self.weight(mix, self.taps.num_groups()),
            mix,
            self.check.coeffs,
            Seq::new(check_size::<H>(), |i: int| self.taps.combos_size() as u32),
            self.size,
            check_size::<H>(),
        )
    }

    /// The combinations less the opened polynomials of the first `k` registers.
    pub open spec fn registers_subtracted(self, mix: H::ExtElem, k: nat) -> Seq<H::ExtElem>
        decreases k,
    {
        if k == 0 {
            self.combinations(mix)
        } else {
            let r = self.taps.regs()[k - 1];
            subtracted_at(
                self.registers_subtracted(mix, (k - 1) as nat),
                (self.size * r.combo) as int,
                pow(mix, (k - 1) as nat),
                self.u().subrange(r.pos as int, r.pos + r.taps),
            )
        }
    }

    /// The combinations less all opened polynomials and the first `k` opened
    /// values of the check polynomials.
    pub open spec fn checks_subtracted(self, mix: H::ExtElem, k: nat) -> Seq<H::ExtElem>
        decreases k,
    {
        if k == 0 {
            self.registers_subtracted(mix, self.taps.regs().len())
        } else {
            subtracted_at(
                self.checks_subtracted(mix, (k - 1) as nat),
                (self.size * self.taps.combos_size()) as int,
                pow(mix, (self.taps.regs().len() + (k - 1)) as nat),
                seq![self.u()[self.taps.taps.len() + (k - 1)]],
            )
        }
    }

    /// The polynomials that vanish wherever their combination is opened.
    pub open spec fn numerators(self, mix: H::ExtElem) -> Seq<H::ExtElem> {
        self.checks_subtracted(mix, check_size::<H>())
    }

    /// The polynomials of the first `g` groups, one for each register.
    pub open spec fn committed_polys(self, g: nat) -> Seq<Seq<H::ExtElem>>
        decreases g,
    {
        if g == 0 {
            Seq::empty()
        } else {
            self.committed_polys((g - 1) as nat) + Seq::new(
                self.taps.group_size(g - 1),
                |i: int| lifted::<H::ExtElem>(self.groups[g - 1].poly(i)),
            )
        }
    }

    /// The committed polynomial that register `k` reads.
    pub open spec fn committed_poly(self, k: int) -> Seq<H::ExtElem> {
        self.committed_polys(self.taps.num_groups())[k]
    }

    /// The sum, over those of the first `k` registers that belong to
    /// combination `c`, of `mix^i` times the difference at `x` between the
    /// committed polynomial and what is opened of it.
    pub open spec fn differences(self, mix: H::ExtElem, k: nat, c: int, x: H::ExtElem) -> H::ExtElem
        decreases k,
    {
        if k == 0 {
            H::ExtElem::spec_zero()
        } else {
            let i = k - 1;
            let before = self.differences(mix, i as nat, c, x);
            if self.taps.regs()[i].combo == c {
                before.spec_add(
                    pow(mix, i as nat).spec_mul(
                        eval(self.committed_poly(i), x).spec_sub(eval(self.register_poly(i), x)),
                    ),
                )
            } else {
                before
            }
        }
    }

    /// The sum, over the first `k` check polynomials, of `mix^(n + i)` times
    /// the difference at `x` between the polynomial and its opened value, where
    /// `n` is the number of registers.
    pub open spec fn check_differences(self, mix: H::ExtElem, k: nat, x: H::ExtElem) -> H::ExtElem
        decreases k,
    {
        if k == 0 {
            H::ExtElem::spec_zero()
        } else {
            let i = k - 1;
            self.check_differences(mix, i as nat, x).spec_add(
                pow(mix, (self.taps.regs().len() + i) as nat).spec_mul(
                    eval(lifted::<H::ExtElem>(self.check.poly(i)), x).spec_sub(self.check_evals()[i]),
                ),
            )
        }
    }

    /// What is opened of a register has no more coefficients than the
    /// committed polynomials, but for zeros.
    pub open spec fn openings_short(self) -> bool {
        forall|k: int, j: int|
            0 <= k < self.taps.regs().len() && self.size <= j < self.register_poly(k).len()
                ==> #[trigger] self.register_poly(k)[j] == H::ExtElem::spec_zero()
    }

    /// Where combination `c` is opened.
    pub open spec fn divisors(self, c: int) -> Seq<H::ExtElem> {
        Seq::new(
            self.taps.combo(c).len(),
            |j: int| self.z.spec_mul(pow(self.back_one, self.taps.combo(c)[j] as nat)),
        )
    }

    /// No combination leaves a remainder.
    pub open spec fn exact(self, mix: H::ExtElem) -> bool {
        &&& forall|c: int|
            0 <= c < self.taps.combos_size() ==> divides_exactly(
                #[trigger] chunk(self.numerators(mix), self.size, c),
                self.divisors(c),
            )
        &&& eval(
            chunk(self.numerators(mix), self.size, self.taps.combos_size() as int),
            self.check_point(),
        ) == H::ExtElem::spec_zero()
    }

    /// Combination `c` divided by all points at which it is opened.
    pub open spec fn combination_quotient(self, mix: H::ExtElem, c: int) -> Seq<H::ExtElem> {
        let p = chunk(self.numerators(mix), self.size, c);
        if c < self.taps.combos_size() {
            quotient_by_all(p, self.divisors(c))
        } else {
            quotient(p, self.check_point())
        }
    }

    /// All quotients, one after the other.
    pub open spec fn quotients(self, mix: H::ExtElem) -> Seq<H::ExtElem> {
        joined(self.taps.combos_size() + 1, self.size, |c: int| self.combination_quotient(mix, c))
    }

    /// The sum of the quotients, whose degree is to be proved: by coordinate,
    /// in bit-reversed order.
    pub open spec fn final_poly(self, mix: H::ExtElem) -> Seq<H::Elem> {
        let natural = by_coordinate(columns_summed(self.quotients(mix), self.size));
        joined(
            H::ExtElem::spec_ext_size(),
            self.size,
            |e: int| bit_reversed(chunk(natural, self.size, e)),
        )
    }
}

/// All groups have been committed, and are those of the opening.
pub open spec fn groups_match<H: Hal>(hal: H, groups: Seq<Option<PolyGroup<H>>>, model: Seq<Group<H>>) -> bool {
    &&& groups.len() == model.len()
    &&& forall|g: int|
        0 <= g < groups.len() ==> {
            &&& (#[trigger] groups[g]) is Some
            &&& groups[g]->0.wf(hal)
            &&& groups[g]->0@ == model[g]
        }
}

/// `n` copies of `value`.
pub(crate) fn filled<E: Copy>(value: E, n: usize) -> (r: Vec<E>)
    ensures
        r@ == Seq::new(n as nat, |i: int| value),
{
    let mut r: Vec<E> = Vec::new();
    while r.len() < n
        invariant
            r@.len() <= n,
            forall|i: int| 0 <= i < r@.len() ==> r@[i] == value,
        decreases n - r@.len(),
    {
        r.push(value);
    }
    assert(r@ =~= Seq::new(n as nat, |i: int| value));
    r
}

/// Evaluates the polynomials of all groups where they are tapped. Returns the
/// points and the values, tap by tap.
pub(crate) fn eval_taps<H: Hal>(
    hal: &H,
    taps: &TapSet,
    groups: &Vec<Option<PolyGroup<H>>>,
    back_one: H::ExtElem,
    z: H::ExtElem,
    Ghost(o): Ghost<Opening<H>>,
) -> (r: (Vec<H::ExtElem>, Vec<H::ExtElem>))
    requires
        o.wf(),
        taps.wf(),
        taps@ == o.taps,
        back_one == o.back_one,
        z == o.z,
        groups_match(*hal, groups@, o.groups),
    ensures
        r.0@ == o.points(o.taps.taps.len()),
        r.1@ == o.all_evals(),
        r.1@.len() == o.taps.taps.len(),
{
    let mut all_xs: Vec<H::ExtElem> = Vec::new();
    let mut eval_u: Vec<H::ExtElem> = Vec::new();
    let mut id: usize = 0;
    assert(all_xs@ =~= o.points(0));
    while id < groups.len()
        invariant
            id <= groups@.len(),
            o.wf(),
            taps.wf(),
            taps@ == o.taps,
            back_one == o.back_one,
            z == o.z,
            groups_match(*hal, groups@, o.groups),
            all_xs@ == o.points(o.taps.begin(id as int)),
            eval_u@ == o.evals(id as nat),
            eval_u@.len() == o.taps.begin(id as int),
        decreases groups@.len() - id,
    {
        assert(groups@[id as int] is Some);
        let ghost group = o.groups[id as int];
        let ghost begin = o.taps.begin(id as int);
        let ghost end = o.taps.end(id as int);
        let ghost total = o.taps.group_size(id as int);
        assert(o.taps.group_wf(id as int));
        if let Some(pg) = &groups[id] {
            let mut which: Vec<u32> = Vec::new();
            let mut xs: Vec<H::ExtElem> = Vec::new();
            let group_taps = taps.group_taps(id);
            let mut k: usize = 0;
            while k < group_taps.len()
                invariant
                    k <= group_taps@.len(),
                    o.taps.group_wf(id as int),
                    begin == o.taps.begin(id as int),
                    end == o.taps.end(id as int),
                    total == o.taps.group_size(id as int),
                    group_taps@ == o.taps.taps.subrange(begin as int, end as int),
                    back_one == o.back_one,
                    z == o.z,
                    which@.len() == k,
                    xs@.len() == k,
                    all_xs@ == o.points(begin + k as nat),
                    forall|i: int| 0 <= i < k ==> #[trigger] which@[i] == o.taps.taps[begin + i].offset,
                    forall|i: int| 0 <= i < k ==> which@[i] < total,
                    forall|i: int|
                        0 <= i < k ==> #[trigger] xs@[i] == o.point(o.taps.taps[begin + i].back as nat),
                decreases group_taps@.len() - k,
            {
                let tap = group_taps[k];
                assert(tap == o.taps.taps[begin + k]);
                which.push(tap.offset() as u32);
                let x = power(back_one, tap.back() as u128).times(z);
                xs.push(x);
                all_xs.push(x);
                assert(all_xs@ =~= o.points(begin + (k + 1) as nat));
                k = k + 1;
            }
            let which_buf = hal.copy_from_u32("which", which.as_slice());
            let xs_buf = hal.copy_from_extelem("xs", xs.as_slice());
            let mut out = hal.alloc_extelem("out", which.len());
            proof {
                lemma_holds_polys(group.count, log2(group.size));
            }
            hal.batch_evaluate_any(&pg.coeffs, pg.count, &which_buf, &xs_buf, &mut out);
            assert(out.contents() =~= o.group_evals(id as int));
            let mut view = out.to_vec();
            eval_u.append(&mut view);
        }
        id = id + 1;
        assert(eval_u@ =~= o.evals(id as nat));
    }
    proof {
        o.taps.lemma_regs_upto(o.taps.num_groups() as int);
    }
    (all_xs, eval_u)
}

/// Interpolates, for each register, what its taps read.
pub(crate) fn interpolate_registers<H: Hal>(
    taps: &TapSet,
    all_xs: &Vec<H::ExtElem>,
    eval_u: &Vec<H::ExtElem>,
    Ghost(o): Ghost<Opening<H>>,
) -> (coeff_u: Vec<H::ExtElem>)
    requires
        o.wf(),
        taps.wf(),
        taps@ == o.taps,
        all_xs@ == o.points(o.taps.taps.len()),
        eval_u@ == o.all_evals(),
        eval_u@.len() == o.taps.taps.len(),
    ensures
        coeff_u@ == o.register_polys(o.taps.regs().len()),
        coeff_u@.len() == o.taps.taps.len(),
{
    let total: usize = eval_u.len();
    let mut coeff_u = filled(H::ExtElem::zero(), total);
    let regs = taps.regs();
    let mut pos: usize = 0;
    let mut k: usize = 0;
    proof {
        o.taps.lemma_regs();
        lemma_registers(o.taps.taps, 0, o.taps.taps.len());
    }
    assert(coeff_u@.take(0) =~= o.register_polys(0));
    while k < regs.len()
        invariant
            k <= regs@.len(),
            o.wf(),
            regs@ == o.taps.regs(),
            o.taps.taps.len() == total,
            crate::taps::registers_cover(o.taps.taps, 0, total as nat),
            all_xs@ == o.points(o.taps.taps.len()),
            eval_u@ == o.all_evals(),
            eval_u@.len() == total,
            coeff_u@.len() == total,
            pos <= total,
            k < regs@.len() ==> pos == regs@[k as int].pos,
            k == regs@.len() ==> pos == total,
            coeff_u@.take(pos as int) == o.register_polys(k as nat),
        decreases regs@.len() - k,
    {
        let size: usize = regs[k].size();
        proof {
            lemma_next_register(o.taps, k as int);
        }
        let ghost before = coeff_u@;
        let xs_here = &all_xs.as_slice()[pos..total];
        let evals_here = &eval_u.as_slice()[pos..total];
        let (_done, out) = coeff_u.as_mut_slice().split_at_mut(pos);
        poly_interpolate(out, xs_here, evals_here, size);
        proof {
            let xs = o.points(total as nat);
            assert(xs_here@.take(size as int) =~= xs.subrange(pos as int, pos + size));
            assert(evals_here@.take(size as int) =~= o.all_evals().subrange(pos as int, pos + size));
            assert(coeff_u@.take(pos as int) =~= before.take(pos as int));
            assert(coeff_u@.take(pos + size) =~= before.take(pos as int) + coeff_u@.subrange(
                pos as int,
                pos + size,
            ));
            assert(coeff_u@.subrange(pos as int, pos + size) =~= coeff_u@.skip(pos as int).take(size as int));
        }
        pos = pos + size;
        k = k + 1;
    }
    assert(coeff_u@.take(total as int) =~= coeff_u@);
    coeff_u
}

/// Evaluates the check polynomials.
pub(crate) fn eval_checks<H: Hal>(
    hal: &H,
    check: &PolyGroup<H>,
    z_pow: H::ExtElem,
    Ghost(o): Ghost<Opening<H>>,
) -> (r: Vec<H::ExtElem>)
    requires
        o.wf(),
        check.wf(*hal),
        check@ == o.check,
        z_pow == o.check_point(),
    ensures
        r@ == o.check_evals(),
{
    let count: usize = check.count;
    proof {
        H::ExtElem::law_ext_size();
        lemma_holds_polys(o.check.count, log2(o.check.size));
    }
    let mut which: Vec<u32> = Vec::new();
    let mut i: u32 = 0;
    while (i as usize) < count
        invariant
            i <= count <= 0xfffff,
            which@.len() == i,
            forall|j: int| 0 <= j < i ==> which@[j] == j,
        decreases count - i,
    {
        which.push(i);
        i = i + 1;
    }
    let xs = filled(z_pow, count);
    let mut out = hal.alloc_extelem("out", count);
    let which_buf = hal.copy_from_u32("which", which.as_slice());
    let xs_buf = hal.copy_from_extelem("xs", xs.as_slice());
    hal.batch_evaluate_any(&check.coeffs, count, &which_buf, &xs_buf, &mut out);
    assert(out.contents() =~= o.check_evals());
    out.to_vec()
}

/// Mixes all polynomials into their combinations.
pub(crate) fn mix_groups<H: Hal>(
    hal: &H,
    taps: &TapSet,
    groups: &Vec<Option<PolyGroup<H>>>,
    check: &PolyGroup<H>,
    mix: H::ExtElem,
    size: usize,
    Ghost(o): Ghost<Opening<H>>,
) -> (combos: H::BufferExtElem)
    requires
        o.wf(),
        o.fits(),
        taps.wf(),
        taps@ == o.taps,
        size == o.size,
        groups_match(*hal, groups@, o.groups),
        check.wf(*hal),
        check@ == o.check,
    ensures
        combos.contents() == o.combinations(mix),
        combos.contents().len() == o.size * (o.taps.combos_size() + 1),
{
    let combo_count: usize = taps.combos_size();
    let ghost len = o.size * (o.taps.combos_size() + 1);
    assert(size * (combo_count + 1) == len);
    let start = filled(H::ExtElem::zero(), size * (combo_count + 1));
    let mut combos = hal.copy_from_extelem("combos", start.as_slice());
    assert(combos.contents() =~= o.groups_mixed(mix, 0));
    let mut cur_mix = H::ExtElem::one();
    let mut id: usize = 0;
    while id < groups.len()
        invariant
            id <= groups@.len(),
            o.wf(),
            taps.wf(),
            taps@ == o.taps,
            size == o.size,
            combo_count == o.taps.combos_size(),
            len == o.size * (o.taps.combos_size() + 1),
            groups_match(*hal, groups@, o.groups),
            combos.contents() == o.groups_mixed(mix, id as nat),
            combos.contents().len() == len,
            cur_mix == o.weight(mix, id as nat),
        decreases groups@.len() - id,
    {
        assert(groups@[id as int] is Some);
        let regs = taps.group_regs(id);
        let group_size: usize = taps.group_size(id);
        if let Some(pg) = &groups[id] {
            let mut which: Vec<u32> = Vec::new();
            let mut k: usize = 0;
            proof {
                o.taps.lemma_group_regs(id as int);
            }
            while k < regs.len()
                invariant
                    k <= regs@.len(),
                    regs@ == o.taps.group_regs(id as int),
                    o.taps.combos_size() <= u32::MAX,
                    forall|i: int|
                        0 <= i < regs@.len() ==> (#[trigger] o.taps.group_regs(id as int)[i]).combo
                            < o.taps.combos_size(),
                    which@.len() == k,
                    forall|i: int| 0 <= i < k ==> which@[i] == o.taps.group_regs(id as int)[i].combo,
                decreases regs@.len() - k,
            {
                assert(o.taps.group_regs(id as int)[k as int].combo < o.taps.combos_size());
                which.push(regs[k].combo_id() as u32);
                k = k + 1;
            }
            assert(which@ =~= o.which(id as int));
            let which_buf = hal.copy_from_u32("which", which.as_slice());
            proof {
                assert forall|i: int| 0 <= i < group_size implies (#[trigger] which_buf.contents()[i]) * size + size
                    <= len by {
                    let w = which@[i] as nat;
                    let c = o.taps.combos_size();
                    assert(o.taps.group_regs(id as int)[i].combo < c);
                    assert(w * size + size <= size * (c + 1)) by (nonlinear_arith)
                        requires
                            w < c,
                    ;
                }
                assert(o.groups[id as int].wf());
            }
            hal.mix_poly_coeffs(&mut combos, &cur_mix, &mix, &pg.coeffs, &which_buf, group_size, size);
            proof {
                lemma_polys_mixed_len(
                    o.groups_mixed(mix, id as nat),
                    cur_mix,
                    mix,
                    pg.coeffs.contents(),
                    o.which(id as int),
                    o.size,
                    group_size as nat,
                );
            }
        }
        cur_mix = cur_mix.times(power(mix, group_size as u128));
        id = id + 1;
    }
    let which = filled(combo_count as u32, check.count);
    let which_buf = hal.copy_from_u32("which", which.as_slice());
    assert(which@ =~= Seq::new(check_size::<H>(), |i: int| o.taps.combos_size() as u32));
    proof {
        let c = o.taps.combos_size();
        assert(c * size + size <= size * (c + 1)) by (nonlinear_arith);
    }
    hal.mix_poly_coeffs(&mut combos, &cur_mix, &mix, &check.coeffs, &which_buf, check.count, size);
    proof {
        lemma_polys_mixed_len(
            o.groups_mixed(mix, o.taps.num_groups()),
            cur_mix,
            mix,
            o.check.coeffs,
            which@,
            o.size,
            check_size::<H>(),
        );
    }
    combos
}

/// Mixing does not change the length.
pub proof fn lemma_polys_mixed_len<X: ExtElem>(
    out: Seq<X>,
    start: X,
    mix: X,
    input: Seq<X::SubElem>,
    which: Seq<u32>,
    n: nat,
    k: nat,
)
    ensures
        polys_mixed(out, start, mix, input, which, n, k).len() == out.len(),
    decreases k,
{
    if k > 0 {
        lemma_polys_mixed_len(out, start, mix, input, which, n, (k - 1) as nat);
    }
}

/// Subtracts `c` times `p` from the entries of `s` from `base` on.
fn subtract_at<X: Elem>(s: &mut Vec<X>, base: usize, c: X, p: &[X])
    requires
        base + p@.len() <= old(s)@.len(),
    ensures
        final(s)@ == subtracted_at(old(s)@, base as int, c, p@),
{
    let ghost before = s@;
    let len: usize = s.len();
    let mut i: usize = 0;
    while i < p.len()
        invariant
            i <= p@.len(),
            before.len() == s@.len() == len,
            base + p@.len() <= s@.len(),
            forall|j: int|
                0 <= j < s@.len() ==> s@[j] == if base <= j < base + i {
                    before[j].spec_sub(c.spec_mul(p@[j - base]))
                } else {
                    before[j]
                },
        decreases p@.len() - i,
    {
        let value = s[base + i].minus(c.times(p[i]));
        s.set(base + i, value);
        i = i + 1;
    }
    assert(s@ =~= subtracted_at(before, base as int, c, p@));
}

/// Subtracts everything that is opened from the combinations.
pub(crate) fn subtract_openings<H: Hal>(
    taps: &TapSet,
    combos: &mut Vec<H::ExtElem>,
    coeff_u: &Vec<H::ExtElem>,
    mix: H::ExtElem,
    size: usize,
    Ghost(o): Ghost<Opening<H>>,
)
    requires
        o.wf(),
        o.fits(),
        taps.wf(),
        taps@ == o.taps,
        size == o.size,
        coeff_u@ == o.u(),
        coeff_u@.len() == o.taps.taps.len() + check_size::<H>(),
        check_size::<H>() <= usize::MAX,
        old(combos)@ == o.combinations(mix),
        old(combos)@.len() == o.size * (o.taps.combos_size() + 1),
    ensures
        final(combos)@ == o.numerators(mix),
        final(combos)@.len() == old(combos)@.len(),
{
    let combo_count: usize = taps.combos_size();
    let ghost len = o.size * (o.taps.combos_size() + 1);
    let ghost total = o.taps.taps.len();
    let opened: usize = coeff_u.len();
    let regs = taps.regs();
    let mut cur_pos: usize = 0;
    let mut cur = H::ExtElem::one();
    let mut k: usize = 0;
    proof {
        o.taps.lemma_regs();
        lemma_registers(o.taps.taps, 0, total);
    }
    while k < regs.len()
        invariant
            k <= regs@.len(),
            o.wf(),
            o.fits(),
            regs@ == o.taps.regs(),
            size == o.size,
            total == o.taps.taps.len(),
            len == o.size * (o.taps.combos_size() + 1),
            crate::taps::registers_cover(o.taps.taps, 0, total),
            coeff_u@ == o.u(),
            total <= coeff_u@.len() == opened,
            cur_pos <= total,
            k < regs@.len() ==> cur_pos == regs@[k as int].pos,
            k == regs@.len() ==> cur_pos == total,
            cur == pow(mix, k as nat),
            combos@ == o.registers_subtracted(mix, k as nat),
            combos@.len() == len,
        decreases regs@.len() - k,
    {
        let reg = regs[k];
        proof {
            lemma_registers(o.taps.taps, 0, total);
            lemma_next_register(o.taps, k as int);
            assert(o.taps.regs()[k as int] == reg);
            assert(size * reg.combo <= len);
        }
        let piece = &coeff_u.as_slice()[cur_pos..cur_pos + reg.size()];
        subtract_at(combos, size * reg.combo_id(), cur, piece);
        proof {
            H::ExtElem::law_mul_commutes(mix, cur);
        }
        cur = cur.times(mix);
        cur_pos = cur_pos + reg.size();
        k = k + 1;
    }
    let check_count: usize = opened - cur_pos;
    let ghost count = regs@.len();
    proof {
        let c = o.taps.combos_size();
        assert(size * c + 1 <= size * (c + 1)) by (nonlinear_arith)
            requires
                size > 0,
        ;
    }
    let mut i: usize = 0;
    while i < check_count
        invariant
            i <= check_count,
            check_count == check_size::<H>(),
            size == o.size,
            size * combo_count + 1 <= len,
            len <= usize::MAX,
            combo_count == o.taps.combos_size(),
            count == o.taps.regs().len(),
            total == o.taps.taps.len(),
            coeff_u@ == o.u(),
            total + check_count == coeff_u@.len() == opened,
            cur_pos == total + i,
            cur == pow(mix, count + i as nat),
            combos@ == o.checks_subtracted(mix, i as nat),
            combos@.len() == len,
        decreases check_count - i,
    {
        let one: [H::ExtElem; 1] = [coeff_u[cur_pos]];
        assert(one@ =~= seq![o.u()[total + i]]);
        subtract_at(combos, size * combo_count, cur, one.as_slice());
        cur_pos = cur_pos + 1;
        proof {
            H::ExtElem::law_mul_commutes(mix, cur);
        }
        cur = cur.times(mix);
        i = i + 1;
    }
}

/// Register `k` is followed by register `k + 1`, or by the end.
pub proof fn lemma_next_register(taps: Taps, k: int)
    requires
        taps.wf(),
        0 <= k < taps.regs().len(),
    ensures
        ({
            let r = taps.regs()[k];
            &&& r.pos + r.taps <= taps.taps.len()
            &&& k + 1 < taps.regs().len() ==> taps.regs()[k + 1].pos == r.pos + r.taps
            &&& k + 1 == taps.regs().len() ==> r.pos + r.taps == taps.taps.len()
            &&& k == 0 ==> r.pos == 0
        }),
{
    let total = taps.taps.len();
    taps.lemma_regs();
    lemma_registers(taps.taps, 0, total);
    lemma_register_split(taps.taps, 0, total, k);
    let r = taps.regs()[k];
    let rest = registers(taps.taps, r.pos as nat, total);
    assert(rest[0] == taps.regs()[k]);
    let after = registers(taps.taps, (r.pos + r.taps) as nat, total);
    lemma_registers(taps.taps, (r.pos + r.taps) as nat, total);
    assert(rest == seq![rest[0]] + after);
    if k + 1 < taps.regs().len() {
        assert(rest[1] == after[0]);
        assert(rest[1] == taps.regs()[k + 1]);
    } else {
        assert(rest.len() == 1);
    }
}

/// Divides the `size` entries of `s` from `start` on by `x - z` and returns
/// the remainder.
fn divide_piece<X: Elem>(s: &mut Vec<X>, start: usize, size: usize, z: X) -> (remainder: X)
    requires
        start + size <= old(s)@.len(),
    ensures
        remainder == eval(old(s)@.subrange(start as int, start + size), z),
        final(s)@.len() == old(s)@.len(),
        final(s)@.subrange(start as int, start + size) == quotient(
            old(s)@.subrange(start as int, start + size),
            z,
        ),
        forall|i: int|
            0 <= i < old(s)@.len() && !(start <= i < start + size) ==> #[trigger] final(s)@[i] == old(s)@[i],
{
    let ghost before = s@;
    let (_low, high) = s.as_mut_slice().split_at_mut(start);
    let (piece, _rest) = high.split_at_mut(size);
    assert(piece@ =~= before.subrange(start as int, start + size));
    let remainder = poly_divide(piece, z);
    assert(s@.subrange(start as int, start + size) =~= quotient(
        before.subrange(start as int, start + size),
        z,
    ));
    remainder
}

/// Divides each combination by all points at which it is opened. Returns
/// whether no division left a remainder; the combinations are then the
/// quotients.
pub(crate) fn divide_combinations<H: Hal>(
    taps: &TapSet,
    combos: &mut Vec<H::ExtElem>,
    back_one: H::ExtElem,
    z: H::ExtElem,
    z_pow: H::ExtElem,
    mix: H::ExtElem,
    size: usize,
    Ghost(o): Ghost<Opening<H>>,
) -> (exact: bool)
    requires
        o.wf(),
        o.fits(),
        taps.wf(),
        taps@ == o.taps,
        size == o.size,
        back_one == o.back_one,
        z == o.z,
        z_pow == o.check_point(),
        old(combos)@ == o.numerators(mix),
        old(combos)@.len() == o.size * (o.taps.combos_size() + 1),
    ensures
        exact == o.exact(mix),
        exact ==> final(combos)@ == o.quotients(mix),
{
    let combo_count: usize = taps.combos_size();
    let ghost num = o.numerators(mix);
    let ghost count = o.taps.combos_size();
    let ghost len = o.size * (count + 1);
    assert(len == (count + 1) * size) by (nonlinear_arith)
        requires
            len == o.size * (count + 1),
            size == o.size,
    ;
    let mut combo: usize = 0;
    while combo < combo_count
        invariant
            combo <= combo_count,
            combo_count == count,
            count == o.taps.combos_size(),
            o.wf(),
            o.fits(),
            taps.wf(),
            taps@ == o.taps,
            size == o.size,
            back_one == o.back_one,
            z == o.z,
            num == o.numerators(mix),
            len == o.size * (count + 1),
            len == (count + 1) * size,
            len <= usize::MAX,
            num.len() == len,
            combos@.len() == len,
            forall|c: int| 0 <= c < combo ==> divides_exactly(#[trigger] chunk(num, o.size, c), o.divisors(c)),
            forall|c: int| 0 <= c < combo ==> #[trigger] chunk(combos@, o.size, c) == o.combination_quotient(mix, c),
            forall|i: int| combo * size <= i < len ==> #[trigger] combos@[i] == num[i],
        decreases combo_count - combo,
    {
        let backs = taps.get_combo(combo);
        let ghost points = o.divisors(combo as int);
        let ghost whole = chunk(num, o.size, combo as int);
        let ghost before = combos@;
        proof {
            lemma_chunk_bounds(count + 1, o.size, combo as int);
            assert(chunk(combos@, o.size, combo as int) =~= whole);
            assert(points.skip(0) =~= points);
        }
        let start: usize = combo * size;
        let mut k: usize = 0;
        while k < backs.len()
            invariant
                k <= backs@.len(),
                size == o.size,
                start == combo * size,
                start + size <= len,
                combo < count == o.taps.combos_size(),
                num == o.numerators(mix),
                len <= usize::MAX,
                backs@ == o.taps.combo(combo as int),
                back_one == o.back_one,
                z == o.z,
                points == o.divisors(combo as int),
                whole == chunk(num, o.size, combo as int),
                before.len() == len,
                combos@.len() == len,
                forall|i: int|
                    0 <= i < len && !(start <= i < start + size) ==> #[trigger] combos@[i] == before[i],
                divides_exactly(whole, points) == divides_exactly(
                    chunk(combos@, o.size, combo as int),
                    points.skip(k as int),
                ),
                quotient_by_all(whole, points) == quotient_by_all(
                    chunk(combos@, o.size, combo as int),
                    points.skip(k as int),
                ),
            decreases backs@.len() - k,
        {
            let point = z.times(power(back_one, backs[k] as u128));
            assert(points.skip(k as int)[0] == point);
            assert(points.skip(k as int).drop_first() =~= points.skip(k + 1));
            let remainder = divide_piece(combos, start, size, point);
            if !remainder.is_same(H::ExtElem::zero()) {
                assert(!divides_exactly(chunk(num, o.size, combo as int), o.divisors(combo as int)));
                return false;
            }
            k = k + 1;
        }
        proof {
            assert(points.skip(k as int).len() == 0);
            assert(chunk(combos@, o.size, combo as int) == o.combination_quotient(mix, combo as int));
            assert forall|c: int| 0 <= c < combo + 1 implies #[trigger] chunk(combos@, o.size, c)
                == o.combination_quotient(mix, c) by {
                if c < combo {
                    lemma_chunk_bounds(combo as nat, o.size, c);
                    lemma_chunk_bounds(count + 1, o.size, c);
                    assert(chunk(combos@, o.size, c) =~= chunk(before, o.size, c));
                }
            }
            assert((combo + 1) * size == combo * size + size) by (nonlinear_arith);
        }
        combo = combo + 1;
    }
    let ghost before = combos@;
    proof {
        lemma_chunk_bounds(count + 1, o.size, count as int);
        assert(chunk(combos@, o.size, count as int) =~= chunk(num, o.size, count as int));
    }
    let remainder = divide_piece(combos, combo_count * size, size, z_pow);
    if !remainder.is_same(H::ExtElem::zero()) {
        return false;
    }
    proof {
        assert forall|c: int| 0 <= c < count + 1 implies #[trigger] chunk(combos@, o.size, c)
            == o.combination_quotient(mix, c) by {
            if c < count {
                lemma_chunk_bounds(count, o.size, c);
                lemma_chunk_bounds(count + 1, o.size, c);
                assert(chunk(combos@, o.size, c) =~= chunk(before, o.size, c));
            }
        }
        lemma_joined_chunks(combos@, count + 1, o.size, |c: int| o.combination_quotient(mix, c));
    }
    true
}

} // verus!
