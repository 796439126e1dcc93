//! Why the divisions of an opening leave no remainder: each combination, less
//! what is opened of it, vanishes at every point at which it is opened.
use crate::deep::{check_size, lemma_next_register, lemma_polys_mixed_len, subtracted_at, Opening};
use crate::field::{all_reduced, divides_all, pow, reduced, Elem, ExtElem};
use crate::field::{lemma_mul_one, lemma_mul_sub, lemma_mul_zero, lemma_pow_adds, lemma_sub_self, lemma_sub_sums};
use crate::field::{lemma_sub_unique, lemma_zero_add};
use crate::hal::{polys_mixed, Hal};
use crate::poly::{all_different, lemma_different_points_are_separated};
use crate::poly::{differences_invert, divides_exactly, eval, has_inverse, separated, zeros};
use crate::poly::{lemma_eval_padded, lemma_eval_plus_scaled, lemma_eval_zeros, lemma_interpolant};
use crate::poly::{lemma_lagrange_terms_len, lemma_quotient, lemma_roots_divide, lemma_separated_differences};
use crate::poly::{lemma_eval_constant, lemma_eval_reduced, lemma_interpolant_reduced, plus_scaled, quotient};
use crate::taps::{lemma_registers, registers};
use crate::transform::{chunk, lemma_chunk_bounds, lifted};
use vstd::prelude::*;

verus! {

/// Subtracting zero changes nothing.
proof fn lemma_sub_nothing<X: Elem>(a: X, c: X)
    requires
        reduced(a),
    ensures
        a.spec_sub(c.spec_mul(X::spec_zero())) == a,
        a.spec_sub(X::spec_zero()) == a,
{
    lemma_mul_zero(c);
    lemma_sub_unique(a, X::spec_zero(), a);
}

/// Subtracting leaves reduced elements reduced.
proof fn lemma_subtracted_reduced<X: Elem>(s: Seq<X>, base: int, c: X, p: Seq<X>)
    requires
        all_reduced(s),
    ensures
        all_reduced(subtracted_at(s, base, c, p)),
{
    let t = subtracted_at(s, base, c, p);
    assert forall|i: int| 0 <= i < t.len() implies reduced(#[trigger] t[i]) by {
        assert(reduced(s[i]));
        X::law_reduced(s[i], c.spec_mul(p[i - base]));
    }
}

/// Mixing leaves reduced elements reduced.
proof fn lemma_mixed_reduced<X: ExtElem>(
    out: Seq<X>,
    start: X,
    mix: X,
    input: Seq<X::SubElem>,
    which: Seq<u32>,
    n: nat,
    k: nat,
)
    requires
        all_reduced(out),
    ensures
        all_reduced(polys_mixed(out, start, mix, input, which, n, k)),
    decreases k,
{
    if k > 0 {
        let i = k - 1;
        lemma_mixed_reduced(out, start, mix, input, which, n, i as nat);
        let before = polys_mixed(out, start, mix, input, which, n, i as nat);
        let after = polys_mixed(out, start, mix, input, which, n, k);
        assert forall|j: int| 0 <= j < after.len() implies reduced(#[trigger] after[j]) by {
            let v = start.spec_mul(pow(mix, i as nat));
            let sub = X::spec_from_subfield(chunk(input, n, i)[j - which[i] * n]);
            assert(reduced(before[j]));
            X::law_reduced(before[j], v.spec_mul(sub));
        }
    }
}

/// A polynomial with as many coefficients as it has distinct roots is zero.
proof fn lemma_too_many_roots<X: Elem>(p: Seq<X>, points: Seq<X>)
    requires
        p.len() == points.len(),
        all_reduced(p),
        differences_invert(points),
        forall|i: int| 0 <= i < points.len() ==> #[trigger] eval(p, points[i]) == X::spec_zero(),
    ensures
        forall|i: int| 0 <= i < p.len() ==> #[trigger] p[i] == X::spec_zero(),
    decreases p.len(),
{
    if p.len() > 0 {
        let (z, rest) = (points[0], points.drop_first());
        let q = quotient(p, z);
        let n = (p.len() - 1) as nat;
        let r = q.take(n as int);
        assert(p.skip(n as int + 1) =~= Seq::<X>::empty());
        assert(q =~= r + zeros::<X>(1));
        lemma_roots_divide(p, points);
        assert(differences_invert(rest)) by {
            assert forall|i: int, j: int|
                0 <= i < rest.len() && 0 <= j < rest.len() && i != j implies #[trigger] has_inverse(
                rest[i].spec_sub(rest[j]),
            ) by {
                assert(has_inverse(points[i + 1].spec_sub(points[j + 1])));
            }
        }
        assert forall|i: int| 0 <= i < rest.len() implies #[trigger] eval(r, rest[i]) == X::spec_zero() by {
            let x = points[i + 1];
            assert(eval(p, points[i + 1]) == X::spec_zero());
            assert(eval(p, points[0]) == X::spec_zero());
            lemma_quotient(p, z, x);
            let d = points[i + 1].spec_sub(points[0]);
            X::law_reduced(d, eval(q, x));
            lemma_eval_reduced(q, x);
            assert(has_inverse(d));
            let w = choose|w: X| crate::poly::inverts(d, w);
            crate::field::lemma_invertible_cancels(d, eval(q, x), w);
            lemma_eval_padded(r, 1, x);
        }
        assert forall|i: int| 0 <= i < r.len() implies reduced(#[trigger] r[i]) by {
            lemma_eval_reduced(p.skip(i + 1), z);
        }
        lemma_too_many_roots(r, rest);
        assert forall|i: int| 0 <= i < q.len() implies q[i] == X::spec_zero() by {
            if i < n {
                assert(r[i] == X::spec_zero());
            }
        }
        assert forall|i: int| 0 <= i < p.len() implies #[trigger] p[i] == X::spec_zero() by {
            // p[i] + z * q[i] is q[i - 1], or the remainder for i == 0.
            assert(p.skip(i).drop_first() =~= p.skip(i + 1));
            assert(p.skip(i)[0] == p[i]);
            assert(q[i] == X::spec_zero());
            lemma_mul_zero(z);
            assert(reduced(p[i]));
            assert(eval(p.skip(i), z) == p[i]);
            if i == 0 {
                assert(p.skip(0) =~= p);
                assert(eval(p, points[0]) == X::spec_zero());
            } else {
                assert(q[i - 1] == eval(p.skip(i), z));
            }
        }
    }
}

/// Subtracting one polynomial from another subtracts the values.
proof fn lemma_eval_subtracted<X: Elem>(p: Seq<X>, c: X, q: Seq<X>, x: X)
    requires
        q.len() <= p.len(),
        all_reduced(p),
    ensures
        eval(subtracted_at(p, 0, c, q), x) == eval(p, x).spec_sub(c.spec_mul(eval(q, x))),
{
    let d = subtracted_at(p, 0, c, q);
    let pad = q + zeros::<X>((p.len() - q.len()) as nat);
    assert forall|i: int| 0 <= i < p.len() implies #[trigger] plus_scaled(d, c, pad)[i] == p[i] by {
        assert(reduced(p[i]));
        if i < q.len() {
            X::law_sub(p[i], c.spec_mul(q[i]));
        } else {
            lemma_mul_zero(c);
        }
    }
    assert(plus_scaled(d, c, pad) =~= p);
    lemma_eval_plus_scaled(d, c, pad, x);
    lemma_eval_padded(q, (p.len() - q.len()) as nat, x);
    lemma_eval_reduced(p, x);
    lemma_eval_reduced(d, x);
    lemma_sub_unique(eval(p, x), c.spec_mul(eval(q, x)), eval(d, x));
}

/// Different pieces do not overlap.
proof fn lemma_pieces_apart(n: nat, a: int, b: int, i: int)
    requires
        a != b,
        0 <= i < n,
    ensures
        !(b * n <= a * n + i < b * n + n),
{
    assert(!(b * n <= a * n + i < b * n + n)) by (nonlinear_arith)
        requires
            a != b,
            0 <= i < n,
    ;
}

/// What subtracting from one piece does to all pieces. Coefficients past the
/// end of the piece do no harm if they are zero.
proof fn lemma_subtracted_chunk<X: Elem>(s: Seq<X>, n: nat, count: nat, b: int, v: X, p: Seq<X>, c: int, x: X)
    requires
        s.len() == count * n,
        all_reduced(s),
        0 <= b < count,
        0 <= c < count,
        forall|i: int| n <= i < p.len() ==> #[trigger] p[i] == X::spec_zero(),
    ensures
        eval(chunk(subtracted_at(s, b * n, v, p), n, c), x) == if b == c {
            eval(chunk(s, n, c), x).spec_sub(v.spec_mul(eval(p, x)))
        } else {
            eval(chunk(s, n, c), x)
        },
{
    lemma_chunk_bounds(count, n, c);
    lemma_chunk_bounds(count, n, b);
    let t = subtracted_at(s, b * n, v, p);
    let k = if p.len() <= n {
        p.len()
    } else {
        n
    };
    let q = p.take(k as int);
    if b == c {
        assert forall|i: int| 0 <= i < n implies chunk(t, n, c)[i] == subtracted_at(chunk(s, n, c), 0, v, q)[i] by {
            assert(chunk(t, n, c)[i] == t[c * n + i]);
        }
        assert(chunk(t, n, c) =~= subtracted_at(chunk(s, n, c), 0, v, q));
        assert forall|i: int| 0 <= i < n implies reduced(#[trigger] chunk(s, n, c)[i]) by {
            assert(reduced(s[c * n + i]));
        }
        lemma_eval_subtracted(chunk(s, n, c), v, q, x);
        assert(p =~= q + zeros::<X>((p.len() - k) as nat));
        lemma_eval_padded(q, (p.len() - k) as nat, x);
    } else {
        assert forall|i: int| 0 <= i < n implies chunk(t, n, c)[i] == chunk(s, n, c)[i] by {
            lemma_pieces_apart(n, c, b, i);
            let at = c * n + i;
            if b * n <= at < b * n + p.len() {
                assert(p[at - b * n] == X::spec_zero());
                assert(reduced(s[at]));
                lemma_sub_nothing(s[at], v);
            }
        }
        assert(chunk(t, n, c) =~= chunk(s, n, c));
    }
}

/// What the first `k` polynomials of a buffer add to the value of piece `c`.
spec fn mixed_value<X: ExtElem>(
    start: X,
    mix: X,
    input: Seq<X::SubElem>,
    which: Seq<u32>,
    n: nat,
    k: nat,
    c: int,
    x: X,
) -> X
    decreases k,
{
    if k == 0 {
        X::spec_zero()
    } else {
        let before = mixed_value(start, mix, input, which, n, (k - 1) as nat, c, x);
        if which[k - 1] == c {
            before.spec_add(
                start.spec_mul(pow(mix, (k - 1) as nat)).spec_mul(eval(lifted::<X>(chunk(input, n, k - 1)), x)),
            )
        } else {
            before
        }
    }
}

proof fn lemma_mixed_value_reduced<X: ExtElem>(
    start: X,
    mix: X,
    input: Seq<X::SubElem>,
    which: Seq<u32>,
    n: nat,
    k: nat,
    c: int,
    x: X,
)
    ensures
        reduced(mixed_value(start, mix, input, which, n, k, c, x)),
    decreases k,
{
    if k == 0 {
        X::law_reduced(x, x);
    } else {
        let before = mixed_value(start, mix, input, which, n, (k - 1) as nat, c, x);
        lemma_mixed_value_reduced(start, mix, input, which, n, (k - 1) as nat, c, x);
        X::law_reduced(
            before,
            start.spec_mul(pow(mix, (k - 1) as nat)).spec_mul(eval(lifted::<X>(chunk(input, n, k - 1)), x)),
        );
    }
}

/// Mixing polynomials adds their values.
proof fn lemma_mixed_chunk<X: ExtElem>(
    out: Seq<X>,
    start: X,
    mix: X,
    input: Seq<X::SubElem>,
    which: Seq<u32>,
    n: nat,
    total: nat,
    k: nat,
    count: nat,
    c: int,
    x: X,
)
    requires
        out.len() == count * n,
        input.len() == total * n,
        k <= total,
        0 <= c < count,
        forall|i: int| 0 <= i < k ==> #[trigger] which[i] < count,
    ensures
        eval(chunk(polys_mixed(out, start, mix, input, which, n, k), n, c), x) == eval(
            chunk(out, n, c),
            x,
        ).spec_add(mixed_value(start, mix, input, which, n, k, c, x)),
    decreases k,
{
    lemma_chunk_bounds(count, n, c);
    if k == 0 {
        lemma_eval_reduced(chunk(out, n, c), x);
    } else {
        let i = k - 1;
        lemma_mixed_chunk(out, start, mix, input, which, n, total, i as nat, count, c, x);
        lemma_polys_mixed_len(out, start, mix, input, which, n, i as nat);
        let before = polys_mixed(out, start, mix, input, which, n, i as nat);
        let after = polys_mixed(out, start, mix, input, which, n, k);
        let v = start.spec_mul(pow(mix, i as nat));
        let p = chunk(input, n, i);
        let b = which[i] as int;
        lemma_chunk_bounds(total, n, i);
        lemma_chunk_bounds(count, n, b);
        if b == c {
            let q = lifted::<X>(p);
            assert forall|j: int| 0 <= j < n implies chunk(after, n, c)[j] == plus_scaled(
                chunk(before, n, c),
                v,
                q,
            )[j] by {
                assert(chunk(after, n, c)[j] == after[c * n + j]);
            }
            assert(chunk(after, n, c) =~= plus_scaled(chunk(before, n, c), v, q));
            lemma_eval_plus_scaled(chunk(before, n, c), v, q, x);
            X::law_add_associates(
                eval(chunk(out, n, c), x),
                mixed_value(start, mix, input, which, n, i as nat, c, x),
                v.spec_mul(eval(q, x)),
            );
        } else {
            assert forall|j: int| 0 <= j < n implies chunk(after, n, c)[j] == chunk(before, n, c)[j] by {
                lemma_pieces_apart(n, c, b, j);
            }
            assert(chunk(after, n, c) =~= chunk(before, n, c));
        }
    }
}

impl<H: Hal> Opening<H> {
    /// The number of registers before group `g`.
    pub(crate) open spec fn base(self, g: int) -> nat {
        registers(self.taps.taps, 0, self.taps.begin(g)).len()
    }

    /// The registers of earlier groups come first.
    proof fn lemma_base_prefix(self, g: int, h: int)
        requires
            self.wf(),
            0 <= g <= h <= self.taps.num_groups(),
        ensures
            self.base(g) <= self.base(h),
            registers(self.taps.taps, 0, self.taps.begin(g)) == registers(
                self.taps.taps,
                0,
                self.taps.begin(h),
            ).take(self.base(g) as int),
        decreases h - g,
    {
        let (rg, rh) = (
            registers(self.taps.taps, 0, self.taps.begin(g)),
            registers(self.taps.taps, 0, self.taps.begin(h)),
        );
        if g == h {
            assert(rg =~= rh.take(rg.len() as int));
        } else {
            self.lemma_base_prefix(g, h - 1);
            self.taps.lemma_regs_upto(h - 1);
            let prev = registers(self.taps.taps, 0, self.taps.begin(h - 1));
            assert(rh == prev + self.taps.group_regs(h - 1));
            assert(rh.take(rg.len() as int) =~= prev.take(rg.len() as int));
        }
    }

    /// Register `i` of group `g` is register `base(g) + i` of all.
    pub(crate) proof fn lemma_base(self, g: int)
        requires
            self.wf(),
            0 <= g < self.taps.num_groups(),
        ensures
            self.base(0) == 0,
            self.base(g + 1) == self.base(g) + self.taps.group_size(g),
            self.base(self.taps.num_groups() as int) == self.taps.regs().len(),
            self.base(g) + self.taps.group_size(g) <= self.taps.regs().len(),
            forall|i: int|
                0 <= i < self.taps.group_size(g) ==> self.taps.regs()[self.base(g) + i]
                    == #[trigger] self.taps.group_regs(g)[i],
    {
        let n = self.taps.num_groups() as int;
        self.taps.lemma_regs_upto(g);
        self.taps.lemma_regs_upto(n);
        self.lemma_base_prefix(g + 1, n);
        let upto = registers(self.taps.taps, 0, self.taps.end(g));
        assert(upto == self.taps.regs().take(upto.len() as int));
        assert forall|i: int| 0 <= i < self.taps.group_size(g) implies self.taps.regs()[self.base(g) + i]
            == #[trigger] self.taps.group_regs(g)[i] by {
            assert(upto[self.base(g) + i] == self.taps.group_regs(g)[i]);
        }
    }

    /// The weight of a polynomial is the power of `mix` with its place among
    /// all registers as exponent.
    proof fn lemma_weight(self, mix: H::ExtElem, g: nat)
        requires
            self.wf(),
            g <= self.taps.num_groups(),
        ensures
            self.weight(mix, g) == pow(mix, self.base(g as int)),
        decreases g,
    {
        if g == 0 {
            assert(self.taps.begin(0) == 0);
        } else {
            self.lemma_weight(mix, (g - 1) as nat);
            self.lemma_base(g - 1);
            lemma_pow_adds(mix, self.base(g - 1), self.taps.group_size(g - 1));
        }
    }

    /// What tap `i` of group `h` reads stands at its place among all taps.
    pub(crate) proof fn lemma_evals(self, g: nat, h: int, i: int)
        requires
            self.wf(),
            0 <= h < g <= self.taps.num_groups(),
            0 <= i < self.taps.end(h) - self.taps.begin(h),
        ensures
            self.evals(g).len() == self.taps.begin(g as int),
            self.evals(g)[self.taps.begin(h) + i] == self.group_evals(h)[i],
        decreases g,
    {
        self.lemma_evals_len((g - 1) as nat);
        self.lemma_evals_len(g);
        if h < g - 1 {
            self.lemma_evals((g - 1) as nat, h, i);
            self.lemma_begin_monotone(h + 1, g - 1);
        }
    }

    proof fn lemma_begin_monotone(self, g: int, h: int)
        requires
            self.wf(),
            0 <= g <= h <= self.taps.num_groups(),
        ensures
            self.taps.begin(g) <= self.taps.begin(h),
        decreases h - g,
    {
        if g < h {
            self.lemma_begin_monotone(g, h - 1);
            assert(self.taps.group_wf(h - 1));
        }
    }

    pub(crate) proof fn lemma_evals_len(self, g: nat)
        requires
            self.wf(),
            g <= self.taps.num_groups(),
        ensures
            self.evals(g).len() == self.taps.begin(g as int),
        decreases g,
    {
        if g > 0 {
            self.lemma_evals_len((g - 1) as nat);
            assert(self.taps.group_wf(g - 1));
        }
    }

    /// A register of group `g` is opened where its combination is, and its
    /// polynomial takes the values of the committed one there.
    pub(crate) proof fn lemma_register_poly(self, g: int, i: int)
        requires
            self.wf(),
            self.taps.consistent(),
            0 <= g < self.taps.num_groups(),
            0 <= i < self.taps.group_size(g),
            separated(self.divisors(self.taps.group_regs(g)[i].combo as int)),
        ensures
            ({
                let k = self.base(g) + i;
                let c = self.taps.group_regs(g)[i].combo as int;
                let f = lifted::<H::ExtElem>(self.groups[g].poly(i));
                &&& self.register_poly(k).len() == self.divisors(c).len()
                &&& all_reduced(self.register_poly(k))
                &&& self.register_poly(k).len() == self.taps.group_regs(g)[i].taps
                &&& forall|m: int|
                    0 <= m < self.divisors(c).len() ==> #[trigger] eval(self.register_poly(k), self.divisors(c)[m])
                        == eval(f, self.divisors(c)[m])
            }),
    {
        let k = self.base(g) + i;
        let r = self.taps.group_regs(g)[i];
        let c = r.combo as int;
        let f = lifted::<H::ExtElem>(self.groups[g].poly(i));
        let total = self.taps.taps.len();
        self.lemma_base(g);
        self.taps.lemma_group_regs(g);
        assert(self.taps.group_wf(g));
        assert(self.taps.register_consistent(g, i));
        let xs = self.points(total).subrange(r.pos as int, r.pos + r.taps);
        let fs = self.all_evals().subrange(r.pos as int, r.pos + r.taps);
        let n = self.taps.num_groups();
        self.lemma_evals_len(n);
        self.taps.lemma_regs_upto(n as int);
        assert forall|j: int| 0 <= j < r.taps implies xs[j] == self.divisors(c)[j] by {
            let back = self.taps.taps[r.pos + j].back as nat;
            H::ExtElem::law_mul_commutes(pow(self.back_one, back), self.z);
        }
        assert(xs =~= self.divisors(c));
        assert forall|j: int| 0 <= j < r.taps implies fs[j] == eval(f, self.divisors(c)[j]) by {
            let at = r.pos + j - self.taps.begin(g);
            self.lemma_evals(n, g, at);
            assert(self.taps.taps[r.pos + j].offset == i);
            assert(xs[j] == self.point(self.taps.taps[r.pos + j].back as nat));
        }
        assert forall|j: int| 0 <= j < fs.len() implies reduced(#[trigger] fs[j]) by {
            lemma_eval_reduced(f, self.divisors(c)[j]);
        }
        lemma_interpolant_reduced(xs, fs);
        assert forall|m: int| 0 <= m < self.divisors(c).len() implies #[trigger] eval(
            self.register_poly(k),
            self.divisors(c)[m],
        ) == eval(f, self.divisors(c)[m]) by {
            lemma_interpolant(xs, fs, m);
        }
        lemma_lagrange_terms_len(xs, fs, xs.len());
    }

    /// Coefficients of a register's polynomial past the length of the
    /// committed polynomials are zero.
    proof fn lemma_register_poly_short(self, g: int, i: int, j: int)
        requires
            self.wf(),
            self.taps.consistent(),
            0 <= g < self.taps.num_groups(),
            0 <= i < self.taps.group_size(g),
            separated(self.divisors(self.taps.group_regs(g)[i].combo as int)),
            self.size <= j < self.register_poly(self.base(g) + i).len(),
        ensures
            self.register_poly(self.base(g) + i)[j] == H::ExtElem::spec_zero(),
    {
        let k = self.base(g) + i;
        let c = self.taps.group_regs(g)[i].combo as int;
        let u = self.register_poly(k);
        assert(self.groups[g].wf());
        lemma_chunk_bounds(self.groups[g].count, self.size, i);
        let f = lifted::<H::ExtElem>(self.groups[g].poly(i));
        self.lemma_register_poly(g, i);
        let one = H::ExtElem::spec_one();
        let d = subtracted_at(u, 0, one, f);
        let points = self.divisors(c);
        assert forall|m: int| 0 <= m < points.len() implies #[trigger] eval(d, points[m])
            == H::ExtElem::spec_zero() by {
            lemma_eval_subtracted(u, one, f, points[m]);
            assert(eval(u, self.divisors(c)[m]) == eval(f, self.divisors(c)[m]));
            lemma_eval_reduced(f, points[m]);
            lemma_mul_one(eval(f, points[m]));
            lemma_sub_self(eval(u, points[m]));
        }
        lemma_subtracted_reduced(u, 0, one, f);
        lemma_separated_differences(points);
        lemma_too_many_roots(d, points);
        assert(d[j] == u[j]);
    }

    /// What is opened of the first `k` registers, weighted and summed over
    /// those of combination `c`.
    spec fn opened_value(self, mix: H::ExtElem, k: nat, c: int, x: H::ExtElem) -> H::ExtElem
        decreases k,
    {
        if k == 0 {
            H::ExtElem::spec_zero()
        } else {
            let before = self.opened_value(mix, (k - 1) as nat, c, x);
            if self.taps.regs()[k - 1].combo == c {
                before.spec_add(pow(mix, (k - 1) as nat).spec_mul(eval(self.register_poly(k - 1), x)))
            } else {
                before
            }
        }
    }

    /// The values of the first `k` committed polynomials, weighted and summed
    /// over those of combination `c`.
    spec fn committed_value(self, mix: H::ExtElem, k: nat, c: int, x: H::ExtElem) -> H::ExtElem
        decreases k,
    {
        if k == 0 {
            H::ExtElem::spec_zero()
        } else {
            let before = self.committed_value(mix, (k - 1) as nat, c, x);
            if self.taps.regs()[k - 1].combo == c {
                before.spec_add(pow(mix, (k - 1) as nat).spec_mul(eval(self.committed_poly(k - 1), x)))
            } else {
                before
            }
        }
    }

    proof fn lemma_committed_value_reduced(self, mix: H::ExtElem, k: nat, c: int, x: H::ExtElem)
        ensures
            reduced(self.committed_value(mix, k, c, x)),
        decreases k,
    {
        if k == 0 {
            H::ExtElem::law_reduced(x, x);
        } else {
            self.lemma_committed_value_reduced(mix, (k - 1) as nat, c, x);
            H::ExtElem::law_reduced(
                self.committed_value(mix, (k - 1) as nat, c, x),
                pow(mix, (k - 1) as nat).spec_mul(eval(self.committed_poly(k - 1), x)),
            );
        }
    }

    /// Polynomial `i` of group `h` is that of register `base(h) + i`.
    pub(crate) proof fn lemma_committed_polys(self, g: nat, h: int, i: int)
        requires
            self.wf(),
            0 <= h < g <= self.taps.num_groups(),
            0 <= i < self.taps.group_size(h),
        ensures
            self.committed_polys(g).len() == self.base(g as int),
            self.committed_polys(g)[self.base(h) + i] == lifted::<H::ExtElem>(self.groups[h].poly(i)),
        decreases g,
    {
        self.lemma_committed_polys_len((g - 1) as nat);
        self.lemma_committed_polys_len(g);
        if h < g - 1 {
            self.lemma_committed_polys((g - 1) as nat, h, i);
            self.lemma_base(h);
            self.lemma_base_prefix(h + 1, g - 1);
        }
    }

    pub(crate) proof fn lemma_committed_polys_len(self, g: nat)
        requires
            self.wf(),
            g <= self.taps.num_groups(),
        ensures
            self.committed_polys(g).len() == self.base(g as int),
        decreases g,
    {
        if g == 0 {
            assert(self.taps.begin(0) == 0);
        } else {
            self.lemma_committed_polys_len((g - 1) as nat);
            self.lemma_base(g - 1);
        }
    }

    /// The first `k` polynomials of group `g` add their values to those of the
    /// groups before it.
    proof fn lemma_group_value(self, mix: H::ExtElem, g: int, k: nat, c: int, x: H::ExtElem)
        requires
            self.wf(),
            0 <= g < self.taps.num_groups(),
            k <= self.taps.group_size(g),
            0 <= c <= self.taps.combos_size(),
        ensures
            self.committed_value(mix, self.base(g), c, x).spec_add(
                mixed_value(
                    self.weight(mix, g as nat),
                    mix,
                    self.groups[g].coeffs,
                    self.which(g),
                    self.size,
                    k,
                    c,
                    x,
                ),
            ) == self.committed_value(mix, self.base(g) + k, c, x),
        decreases k,
    {
        let start = self.committed_value(mix, self.base(g), c, x);
        if k == 0 {
            self.lemma_committed_value_reduced(mix, self.base(g), c, x);
        } else {
            let i = k - 1;
            self.lemma_group_value(mix, g, i as nat, c, x);
            self.lemma_base(g);
            self.taps.lemma_group_regs(g);
            self.lemma_weight(mix, g as nat);
            lemma_pow_adds(mix, self.base(g), i as nat);
            let r = self.taps.group_regs(g)[i];
            let at = self.base(g) + i;
            assert(self.taps.regs()[at] == r);
            assert(r.combo < self.taps.combos_size());
            assert(self.which(g)[i] == r.combo);
            self.lemma_committed_polys(self.taps.num_groups(), g, i);
            let before = mixed_value(
                self.weight(mix, g as nat),
                mix,
                self.groups[g].coeffs,
                self.which(g),
                self.size,
                i as nat,
                c,
                x,
            );
            if r.combo == c {
                H::ExtElem::law_add_associates(
                    start,
                    before,
                    pow(mix, at as nat).spec_mul(eval(self.committed_poly(at), x)),
                );
            }
        }
    }

    proof fn lemma_groups_mixed_reduced(self, mix: H::ExtElem, g: nat)
        ensures
            all_reduced(self.groups_mixed(mix, g)),
        decreases g,
    {
        if g == 0 {
            H::ExtElem::law_reduced(mix, mix);
        } else {
            self.lemma_groups_mixed_reduced(mix, (g - 1) as nat);
            lemma_mixed_reduced(
                self.groups_mixed(mix, (g - 1) as nat),
                self.weight(mix, (g - 1) as nat),
                mix,
                self.groups[g - 1].coeffs,
                self.which(g - 1),
                self.size,
                self.taps.group_size(g - 1),
            );
        }
    }

    proof fn lemma_registers_subtracted_reduced(self, mix: H::ExtElem, k: nat)
        ensures
            all_reduced(self.registers_subtracted(mix, k)),
        decreases k,
    {
        if k == 0 {
            self.lemma_groups_mixed_reduced(mix, self.taps.num_groups());
            lemma_mixed_reduced(
                self.groups_mixed(mix, self.taps.num_groups()),
                self.weight(mix, self.taps.num_groups()),
                mix,
                self.check.coeffs,
                Seq::new(check_size::<H>(), |i: int| self.taps.combos_size() as u32),
                self.size,
                check_size::<H>(),
            );
        } else {
            let r = self.taps.regs()[k - 1];
            self.lemma_registers_subtracted_reduced(mix, (k - 1) as nat);
            lemma_subtracted_reduced(
                self.registers_subtracted(mix, (k - 1) as nat),
                (self.size * r.combo) as int,
                pow(mix, (k - 1) as nat),
                self.u().subrange(r.pos as int, r.pos + r.taps),
            );
        }
    }

    proof fn lemma_checks_subtracted_reduced(self, mix: H::ExtElem, k: nat)
        ensures
            all_reduced(self.checks_subtracted(mix, k)),
        decreases k,
    {
        if k == 0 {
            self.lemma_registers_subtracted_reduced(mix, self.taps.regs().len());
        } else {
            self.lemma_checks_subtracted_reduced(mix, (k - 1) as nat);
            let (before, after) = (self.checks_subtracted(mix, (k - 1) as nat), self.checks_subtracted(mix, k));
            let base = (self.size * self.taps.combos_size()) as int;
            let v = pow(mix, (self.taps.regs().len() + k - 1) as nat);
            lemma_subtracted_reduced(before, base, v, seq![self.u()[self.taps.taps.len() + k - 1]]);
        }
    }

    proof fn lemma_groups_mixed_len(self, mix: H::ExtElem, g: nat)
        requires
            g <= self.taps.num_groups(),
        ensures
            self.groups_mixed(mix, g).len() == self.size * (self.taps.combos_size() + 1),
        decreases g,
    {
        if g > 0 {
            self.lemma_groups_mixed_len(mix, (g - 1) as nat);
            lemma_polys_mixed_len(
                self.groups_mixed(mix, (g - 1) as nat),
                self.weight(mix, (g - 1) as nat),
                mix,
                self.groups[g - 1].coeffs,
                self.which(g - 1),
                self.size,
                self.taps.group_size(g - 1),
            );
        }
    }

    /// The value of one combination after some groups have been mixed in.
    proof fn lemma_groups_mixed_step(self, mix: H::ExtElem, g: nat, c: int, x: H::ExtElem)
        requires
            self.wf(),
            g < self.taps.num_groups(),
            0 <= c <= self.taps.combos_size(),
        ensures
            eval(chunk(self.groups_mixed(mix, g + 1), self.size, c), x) == eval(
                chunk(self.groups_mixed(mix, g), self.size, c),
                x,
            ).spec_add(
                mixed_value(
                    self.weight(mix, g),
                    mix,
                    self.groups[g as int].coeffs,
                    self.which(g as int),
                    self.size,
                    self.taps.group_size(g as int),
                    c,
                    x,
                ),
            ),
    {
        let count = self.taps.combos_size() + 1;
        self.lemma_groups_mixed_len(mix, g);
        assert(self.size * count == count * self.size) by (nonlinear_arith);
        self.taps.lemma_group_regs(g as int);
        assert(self.groups[g as int].wf());
        assert forall|i: int| 0 <= i < self.taps.group_size(g as int) implies #[trigger] self.which(g as int)[i]
            < count by {
            assert(self.taps.group_regs(g as int)[i].combo < self.taps.combos_size());
        }
        lemma_mixed_chunk(
            self.groups_mixed(mix, g),
            self.weight(mix, g),
            mix,
            self.groups[g as int].coeffs,
            self.which(g as int),
            self.size,
            self.taps.group_size(g as int),
            self.taps.group_size(g as int),
            count,
            c,
            x,
        );
    }

    /// A combination of the first `g` groups has the value of their
    /// polynomials, weighted and summed.
    proof fn lemma_groups_value(self, mix: H::ExtElem, g: nat, c: int, x: H::ExtElem)
        requires
            self.wf(),
            g <= self.taps.num_groups(),
            0 <= c <= self.taps.combos_size(),
        ensures
            eval(chunk(self.groups_mixed(mix, g), self.size, c), x) == self.committed_value(
                mix,
                self.base(g as int),
                c,
                x,
            ),
        decreases g,
    {
        if g == 0 {
            let count = self.taps.combos_size() + 1;
            assert(self.size * count == count * self.size) by (nonlinear_arith);
            lemma_chunk_bounds(count, self.size, c);
            assert(chunk(self.groups_mixed(mix, 0), self.size, c) =~= zeros::<H::ExtElem>(self.size));
            lemma_eval_zeros(self.size, x);
            assert(self.taps.begin(0) == 0);
        } else {
            let h = (g - 1) as nat;
            self.lemma_groups_value(mix, h, c, x);
            self.lemma_groups_mixed_step(mix, h, c, x);
            self.lemma_group_value(mix, h as int, self.taps.group_size(h as int), c, x);
            self.lemma_base(h as int);
        }
    }

    /// The combination of the check polynomials is untouched by the groups.
    proof fn lemma_groups_leave_check(self, mix: H::ExtElem, g: nat, x: H::ExtElem)
        requires
            self.wf(),
            g <= self.taps.num_groups(),
        ensures
            eval(chunk(self.groups_mixed(mix, g), self.size, self.taps.combos_size() as int), x)
                == H::ExtElem::spec_zero(),
        decreases g,
    {
        let c = self.taps.combos_size() as int;
        if g == 0 {
            let count = self.taps.combos_size() + 1;
            assert(self.size * count == count * self.size) by (nonlinear_arith);
            lemma_chunk_bounds(count, self.size, c);
            assert(chunk(self.groups_mixed(mix, 0), self.size, c) =~= zeros::<H::ExtElem>(self.size));
            lemma_eval_zeros(self.size, x);
        } else {
            let h = g - 1;
            self.lemma_groups_leave_check(mix, h as nat, x);
            self.lemma_groups_mixed_step(mix, h as nat, c, x);
            self.taps.lemma_group_regs(h);
            assert forall|i: int| 0 <= i < self.taps.group_size(h) implies #[trigger] self.which(h)[i] != c by {
                assert(self.taps.group_regs(h)[i].combo < self.taps.combos_size());
            }
            lemma_mixed_elsewhere(
                self.weight(mix, h as nat),
                mix,
                self.groups[h].coeffs,
                self.which(h),
                self.size,
                self.taps.group_size(h),
                c,
                x,
            );
            H::ExtElem::law_reduced(x, x);
        }
    }

    /// The opened polynomial of register `k` stands where it is subtracted from.
    pub(crate) proof fn lemma_u(self, n: nat, k: int)
        requires
            self.wf(),
            0 <= k < n <= self.taps.regs().len(),
        ensures
            ({
                let r = self.taps.regs()[k];
                &&& r.pos + r.taps <= self.register_polys(n).len()
                &&& self.register_polys(n).subrange(r.pos as int, r.pos + r.taps) == self.register_poly(k)
                &&& self.register_polys(n).len() == self.taps.regs()[n - 1].pos + self.taps.regs()[n - 1].taps
            }),
        decreases n,
    {
        let last = self.taps.regs()[n - 1];
        lemma_next_register(self.taps, n - 1);
        let before = self.register_polys((n - 1) as nat);
        self.lemma_register_poly_len(n - 1);
        if n > 1 {
            lemma_next_register(self.taps, n - 2);
            if k < n - 1 {
                self.lemma_u((n - 1) as nat, k);
                let r = self.taps.regs()[k];
                assert(self.register_polys(n).subrange(r.pos as int, r.pos + r.taps) =~= before.subrange(
                    r.pos as int,
                    r.pos + r.taps,
                ));
            } else {
                self.lemma_u((n - 1) as nat, n - 2);
            }
        }
        if k == n - 1 {
            assert(self.register_polys(n).subrange(last.pos as int, last.pos + last.taps) =~= self.register_poly(
                n - 1,
            ));
        }
    }

    /// Every register belongs to some group.
    pub(crate) proof fn lemma_find_group(self, k: int, g: int) -> (r: (int, int))
        requires
            self.wf(),
            0 <= g <= self.taps.num_groups(),
            0 <= k < self.base(g),
        ensures
            0 <= r.0 < self.taps.num_groups(),
            0 <= r.1 < self.taps.group_size(r.0),
            k == self.base(r.0) + r.1,
            self.taps.regs()[k] == self.taps.group_regs(r.0)[r.1],
        decreases g,
    {
        if g == 0 {
            assert(self.taps.begin(0) == 0);
            (0, 0)
        } else {
            self.lemma_base(g - 1);
            if k < self.base(g - 1) {
                self.lemma_find_group(k, g - 1)
            } else {
                let i = k - self.base(g - 1);
                assert(self.taps.regs()[self.base(g - 1) + i] == self.taps.group_regs(g - 1)[i]);
                (g - 1, i)
            }
        }
    }

    /// All combinations are opened at points that can be interpolated through.
    pub open spec fn points_distinct(self) -> bool {
        forall|c: int| 0 <= c < self.taps.combos_size() ==> separated(#[trigger] self.divisors(c))
    }

    /// No combination is opened twice at the same point.
    pub open spec fn points_differ(self) -> bool {
        forall|c: int| 0 <= c < self.taps.combos_size() ==> all_different(#[trigger] self.divisors(c))
    }

    /// Where one can divide by everything but zero, points that differ can be
    /// interpolated through.
    pub proof fn lemma_points_differ(self)
        requires
            divides_all::<H::ExtElem>(),
            self.points_differ(),
        ensures
            self.points_distinct(),
    {
        assert forall|c: int| 0 <= c < self.taps.combos_size() implies separated(#[trigger] self.divisors(c)) by {
            let points = self.divisors(c);
            assert forall|j: int| 0 <= j < points.len() implies reduced(#[trigger] points[j]) by {
                H::ExtElem::law_reduced(self.z, pow(self.back_one, self.taps.combo(c)[j] as nat));
            }
            lemma_different_points_are_separated(points);
        }
    }

    /// The length of what is opened of a register.
    pub(crate) proof fn lemma_register_poly_len(self, k: int)
        requires
            self.wf(),
            0 <= k < self.taps.regs().len(),
        ensures
            self.register_poly(k).len() == self.taps.regs()[k].taps,
            self.taps.regs()[k].combo < self.taps.combos_size(),
    {
        let n = self.taps.num_groups();
        let r = self.taps.regs()[k];
        let total = self.taps.taps.len();
        self.taps.lemma_regs_upto(n as int);
        self.lemma_evals_len(n);
        lemma_next_register(self.taps, k);
        let (g, i) = self.lemma_find_group(k, n as int);
        self.taps.lemma_group_regs(g);
        assert(self.taps.group_regs(g)[i].combo < self.taps.combos_size());
        let xs = self.points(total).subrange(r.pos as int, r.pos + r.taps);
        let fs = self.all_evals().subrange(r.pos as int, r.pos + r.taps);
        lemma_lagrange_terms_len(xs, fs, xs.len());
    }

    /// Where the taps are consistent and the points distinct, what is opened of
    /// a register has no more coefficients than what was committed.
    pub proof fn lemma_openings_short(self)
        requires
            self.wf(),
            self.taps.consistent(),
            self.points_distinct(),
        ensures
            self.openings_short(),
    {
        let n = self.taps.num_groups() as int;
        self.taps.lemma_regs_upto(n);
        assert forall|k: int, j: int|
            0 <= k < self.taps.regs().len() && self.size <= j < self.register_poly(k).len() implies #[trigger] self.register_poly(
            k,
        )[j] == H::ExtElem::spec_zero() by {
            let (g, i) = self.lemma_find_group(k, n);
            self.taps.lemma_group_regs(g);
            let r = self.taps.group_regs(g)[i];
            assert(separated(self.divisors(r.combo as int)));
            self.lemma_register_poly_short(g, i, j);
        }
    }

    /// What remains of a combination after the first `k` registers have been
    /// subtracted.
    proof fn lemma_registers_subtracted(self, mix: H::ExtElem, k: nat, c: int, x: H::ExtElem)
        requires
            self.wf(),
            self.openings_short(),
            k <= self.taps.regs().len(),
            0 <= c <= self.taps.combos_size(),
        ensures
            self.registers_subtracted(mix, k).len() == self.size * (self.taps.combos_size() + 1),
            eval(chunk(self.registers_subtracted(mix, k), self.size, c), x) == eval(
                chunk(self.combinations(mix), self.size, c),
                x,
            ).spec_sub(self.opened_value(mix, k, c, x)),
        decreases k,
    {
        let count = self.taps.combos_size() + 1;
        assert(self.size * count == count * self.size) by (nonlinear_arith);
        let whole = eval(chunk(self.combinations(mix), self.size, c), x);
        if k == 0 {
            self.lemma_combinations_len(mix);
            lemma_eval_reduced(chunk(self.combinations(mix), self.size, c), x);
            lemma_sub_nothing(whole, whole);
        } else {
            let i = k - 1;
            let r = self.taps.regs()[i];
            self.lemma_registers_subtracted(mix, i as nat, c, x);
            let n = self.taps.regs().len();
            self.lemma_u(n, i);
            self.lemma_register_poly_len(i);
            let p = self.register_poly(i);
            assert(self.u().subrange(r.pos as int, r.pos + r.taps) =~= self.register_polys(n).subrange(
                r.pos as int,
                r.pos + r.taps,
            ));
            let b = r.combo as int;
            assert(self.register_poly(i).len() == r.taps);
            assert(self.size * b == b * self.size) by (nonlinear_arith);
            self.lemma_registers_subtracted_reduced(mix, i as nat);
            lemma_subtracted_chunk(
                self.registers_subtracted(mix, i as nat),
                self.size,
                count,
                b,
                pow(mix, i as nat),
                p,
                c,
                x,
            );
            if b == c {
                // (whole - v) - w == whole - (v + w)
                let v = self.opened_value(mix, i as nat, c, x);
                let w = pow(mix, i as nat).spec_mul(eval(p, x));
                lemma_sub_sub(whole, v, w);
            }
        }
    }

    proof fn lemma_combinations_len(self, mix: H::ExtElem)
        ensures
            self.taps.wf() ==> self.combinations(mix).len() == self.size * (self.taps.combos_size() + 1),
    {
        if self.taps.wf() {
            self.lemma_groups_mixed_len(mix, self.taps.num_groups());
            lemma_polys_mixed_len(
                self.groups_mixed(mix, self.taps.num_groups()),
                self.weight(mix, self.taps.num_groups()),
                mix,
                self.check.coeffs,
                Seq::new(check_size::<H>(), |i: int| self.taps.combos_size() as u32),
                self.size,
                check_size::<H>(),
            );
        }
    }

    /// The value of a combination, in terms of that before the check
    /// polynomials are mixed in.
    proof fn lemma_combinations(self, mix: H::ExtElem, c: int, x: H::ExtElem)
        requires
            self.wf(),
            0 <= c <= self.taps.combos_size(),
        ensures
            eval(chunk(self.combinations(mix), self.size, c), x) == eval(
                chunk(self.groups_mixed(mix, self.taps.num_groups()), self.size, c),
                x,
            ).spec_add(
                mixed_value(
                    self.weight(mix, self.taps.num_groups()),
                    mix,
                    self.check.coeffs,
                    Seq::new(check_size::<H>(), |i: int| self.taps.combos_size() as u32),
                    self.size,
                    check_size::<H>(),
                    c,
                    x,
                ),
            ),
    {
        let count = self.taps.combos_size() + 1;
        assert(self.size * count == count * self.size) by (nonlinear_arith);
        self.lemma_groups_mixed_len(mix, self.taps.num_groups());
        lemma_mixed_chunk(
            self.groups_mixed(mix, self.taps.num_groups()),
            self.weight(mix, self.taps.num_groups()),
            mix,
            self.check.coeffs,
            Seq::new(check_size::<H>(), |i: int| self.taps.combos_size() as u32),
            self.size,
            check_size::<H>(),
            check_size::<H>(),
            count,
            c,
            x,
        );
    }

    /// The first `k` opened values of the check polynomials, weighted and
    /// summed.
    spec fn checks_value(self, mix: H::ExtElem, k: nat) -> H::ExtElem
        decreases k,
    {
        if k == 0 {
            H::ExtElem::spec_zero()
        } else {
            let i = k - 1;
            self.checks_value(mix, i as nat).spec_add(
                pow(mix, (self.taps.regs().len() + i) as nat).spec_mul(self.check_evals()[i]),
            )
        }
    }

    /// Subtracting opened values of the check polynomials leaves all other
    /// combinations alone, and takes their weighted sum off the last one.
    proof fn lemma_checks_subtracted(self, mix: H::ExtElem, k: nat, c: int, x: H::ExtElem)
        requires
            self.wf(),
            self.openings_short(),
            k <= check_size::<H>(),
            0 <= c <= self.taps.combos_size(),
        ensures
            self.checks_subtracted(mix, k).len() == self.size * (self.taps.combos_size() + 1),
            eval(chunk(self.checks_subtracted(mix, k), self.size, c), x) == if c < self.taps.combos_size() {
                eval(chunk(self.registers_subtracted(mix, self.taps.regs().len()), self.size, c), x)
            } else {
                eval(
                    chunk(self.registers_subtracted(mix, self.taps.regs().len()), self.size, c),
                    x,
                ).spec_sub(self.checks_value(mix, k))
            },
        decreases k,
    {
        let count = self.taps.combos_size() + 1;
        let last = self.taps.combos_size() as int;
        let n = self.taps.regs().len();
        assert(self.size * count == count * self.size) by (nonlinear_arith);
        self.lemma_registers_subtracted(mix, n, c, x);
        let start = eval(chunk(self.registers_subtracted(mix, n), self.size, c), x);
        if k == 0 {
            lemma_eval_reduced(chunk(self.registers_subtracted(mix, n), self.size, c), x);
            lemma_sub_nothing(start, start);
        } else {
            let i = k - 1;
            self.lemma_checks_subtracted(mix, i as nat, c, x);
            assert(self.size * last == last * self.size) by (nonlinear_arith);
            self.lemma_u_checks(i);
            self.lemma_checks_subtracted_reduced(mix, i as nat);
            let value = self.check_evals()[i];
            let v = pow(mix, (n + i) as nat);
            lemma_subtracted_chunk(
                self.checks_subtracted(mix, i as nat),
                self.size,
                count,
                last,
                v,
                seq![value],
                c,
                x,
            );
            if c == last {
                lemma_eval_constant(value, x);
                lemma_eval_reduced(lifted::<H::ExtElem>(self.check.poly(i)), self.check_point());
                lemma_sub_sub(start, self.checks_value(mix, i as nat), v.spec_mul(value));
            }
        }
    }

    /// The difference of the weighted sums is the weighted sum of the
    /// differences.
    proof fn lemma_differences(self, mix: H::ExtElem, k: nat, c: int, x: H::ExtElem)
        ensures
            self.committed_value(mix, k, c, x).spec_sub(self.opened_value(mix, k, c, x)) == self.differences(
                mix,
                k,
                c,
                x,
            ),
        decreases k,
    {
        if k == 0 {
            lemma_sub_self(H::ExtElem::spec_zero());
        } else {
            let i = k - 1;
            self.lemma_differences(mix, i as nat, c, x);
            let v = pow(mix, i as nat);
            let (p, u) = (eval(self.committed_poly(i), x), eval(self.register_poly(i), x));
            lemma_mul_sub(v, p, u);
            lemma_sub_sums(
                self.committed_value(mix, i as nat, c, x),
                v.spec_mul(p),
                self.opened_value(mix, i as nat, c, x),
                v.spec_mul(u),
            );
        }
    }

    /// The same of the check polynomials.
    proof fn lemma_check_differences(self, mix: H::ExtElem, k: nat, x: H::ExtElem)
        requires
            self.wf(),
            k <= check_size::<H>(),
        ensures
            mixed_value(
                self.weight(mix, self.taps.num_groups()),
                mix,
                self.check.coeffs,
                Seq::new(check_size::<H>(), |i: int| self.taps.combos_size() as u32),
                self.size,
                k,
                self.taps.combos_size() as int,
                x,
            ).spec_sub(self.checks_value(mix, k)) == self.check_differences(mix, k, x),
        decreases k,
    {
        if k == 0 {
            lemma_sub_self(H::ExtElem::spec_zero());
        } else {
            let i = k - 1;
            let n = self.taps.regs().len();
            let which = Seq::new(check_size::<H>(), |j: int| self.taps.combos_size() as u32);
            self.lemma_check_differences(mix, i as nat, x);
            self.lemma_weight(mix, self.taps.num_groups());
            self.lemma_base_end();
            lemma_pow_adds(mix, n, i as nat);
            assert(which[i] == self.taps.combos_size());
            let v = pow(mix, (n + i) as nat);
            let (p, u) = (eval(lifted::<H::ExtElem>(self.check.poly(i)), x), self.check_evals()[i]);
            let before = mixed_value(
                self.weight(mix, self.taps.num_groups()),
                mix,
                self.check.coeffs,
                which,
                self.size,
                i as nat,
                self.taps.combos_size() as int,
                x,
            );
            lemma_mul_sub(v, p, u);
            lemma_sub_sums(before, v.spec_mul(p), self.checks_value(mix, i as nat), v.spec_mul(u));
        }
    }

    pub(crate) proof fn lemma_base_end(self)
        requires
            self.wf(),
        ensures
            self.base(self.taps.num_groups() as int) == self.taps.regs().len(),
    {
        self.taps.lemma_regs_upto(self.taps.num_groups() as int);
    }

    /// The opened values of the check polynomials follow the registers.
    pub(crate) proof fn lemma_u_checks(self, i: int)
        requires
            self.wf(),
            0 <= i < check_size::<H>(),
        ensures
            self.u()[self.taps.taps.len() + i] == self.check_evals()[i],
    {
        let n = self.taps.regs().len();
        self.taps.lemma_regs();
        lemma_registers(self.taps.taps, 0, self.taps.taps.len());
        if n > 0 {
            self.lemma_u(n, n - 1);
            lemma_next_register(self.taps, n - 1);
        }
        assert(self.register_polys(n).len() == self.taps.taps.len());
    }
}

/// `(a - b) - c` is `a - (b + c)`.
proof fn lemma_sub_sub<X: Elem>(a: X, b: X, c: X)
    ensures
        a.spec_sub(b).spec_sub(c) == a.spec_sub(b.spec_add(c)),
{
    let d = a.spec_sub(b).spec_sub(c);
    X::law_sub(a, b);
    X::law_sub(a.spec_sub(b), c);
    X::law_reduced(a, b);
    X::law_reduced(a.spec_sub(b), c);
    // d + (b + c) == (d + c) + b == a
    X::law_add_commutes(b, c);
    X::law_add_associates(d, c, b);
    lemma_sub_unique(a, b.spec_add(c), d);
}

/// Polynomials that go to other pieces add nothing.
proof fn lemma_mixed_elsewhere<X: ExtElem>(
    start: X,
    mix: X,
    input: Seq<X::SubElem>,
    which: Seq<u32>,
    n: nat,
    k: nat,
    c: int,
    x: X,
)
    requires
        forall|i: int| 0 <= i < k ==> #[trigger] which[i] != c,
    ensures
        mixed_value(start, mix, input, which, n, k, c, x) == X::spec_zero(),
    decreases k,
{
    if k > 0 {
        assert(which[k - 1] != c);
        lemma_mixed_elsewhere(start, mix, input, which, n, (k - 1) as nat, c, x);
    }
}

/// There is a numerator for every combination.
pub proof fn lemma_numerators_len<H: Hal>(o: Opening<H>, mix: H::ExtElem)
    requires
        o.wf(),
    ensures
        o.numerators(mix).len() == o.size * (o.taps.combos_size() + 1),
{
    o.lemma_combinations_len(mix);
    lemma_checks_len(o, mix, check_size::<H>());
}

proof fn lemma_checks_len<H: Hal>(o: Opening<H>, mix: H::ExtElem, k: nat)
    ensures
        o.checks_subtracted(mix, k).len() == o.combinations(mix).len(),
    decreases k,
{
    if k > 0 {
        lemma_checks_len(o, mix, (k - 1) as nat);
    } else {
        lemma_registers_len(o, mix, o.taps.regs().len());
    }
}

proof fn lemma_registers_len<H: Hal>(o: Opening<H>, mix: H::ExtElem, n: nat)
    ensures
        o.registers_subtracted(mix, n).len() == o.combinations(mix).len(),
    decreases n,
{
    if n > 0 {
        lemma_registers_len(o, mix, (n - 1) as nat);
    }
}

/// What the numerators are: at every `x`, a combination less its openings has
/// as its value the weighted sum of the differences between the polynomials and
/// what is opened of them.
pub proof fn lemma_numerators<H: Hal>(o: Opening<H>, mix: H::ExtElem, c: int, x: H::ExtElem)
    requires
        o.wf(),
        o.openings_short(),
        0 <= c <= o.taps.combos_size(),
    ensures
        eval(chunk(o.numerators(mix), o.size, c), x) == if c < o.taps.combos_size() {
            o.differences(mix, o.taps.regs().len(), c, x)
        } else {
            o.check_differences(mix, check_size::<H>(), x)
        },
{
    let n = o.taps.regs().len();
    let groups = o.taps.num_groups();
    let checks = check_size::<H>();
    let which = Seq::new(checks, |i: int| o.taps.combos_size() as u32);
    o.lemma_base_end();
    o.lemma_checks_subtracted(mix, checks, c, x);
    o.lemma_registers_subtracted(mix, n, c, x);
    o.lemma_combinations(mix, c, x);
    if c < o.taps.combos_size() {
        lemma_mixed_elsewhere(o.weight(mix, groups), mix, o.check.coeffs, which, o.size, checks, c, x);
        o.lemma_groups_value(mix, groups, c, x);
        o.lemma_committed_value_reduced(mix, n, c, x);
        o.lemma_differences(mix, n, c, x);
    } else {
        let value = mixed_value(o.weight(mix, groups), mix, o.check.coeffs, which, o.size, checks, c, x);
        o.lemma_groups_leave_check(mix, groups, x);
        lemma_no_register_opened(o, mix, n, x);
        lemma_mixed_value_reduced(o.weight(mix, groups), mix, o.check.coeffs, which, o.size, checks, c, x);
        lemma_zero_add(value);
        lemma_sub_nothing(value, value);
        o.lemma_check_differences(mix, checks, x);
    }
}

/// A weighted sum of differences vanishes where no polynomial of the
/// combination differs from what is opened of it.
proof fn lemma_no_differences<H: Hal>(o: Opening<H>, mix: H::ExtElem, k: nat, c: int, x: H::ExtElem)
    requires
        forall|i: int|
            0 <= i < k && o.taps.regs()[i].combo == c ==> eval(#[trigger] o.committed_poly(i), x) == eval(
                o.register_poly(i),
                x,
            ),
    ensures
        o.differences(mix, k, c, x) == H::ExtElem::spec_zero(),
    decreases k,
{
    if k > 0 {
        let i = k - 1;
        lemma_no_differences(o, mix, i as nat, c, x);
        if o.taps.regs()[i].combo == c {
            assert(eval(o.committed_poly(i), x) == eval(o.register_poly(i), x));
            lemma_sub_self(eval(o.register_poly(i), x));
            lemma_mul_zero(pow(mix, i as nat));
            H::ExtElem::law_reduced(x, x);
        }
    }
}

proof fn lemma_no_check_differences<H: Hal>(o: Opening<H>, mix: H::ExtElem, k: nat)
    requires
        k <= check_size::<H>(),
    ensures
        o.check_differences(mix, k, o.check_point()) == H::ExtElem::spec_zero(),
    decreases k,
{
    if k > 0 {
        let i = k - 1;
        lemma_no_check_differences(o, mix, i as nat);
        lemma_sub_self(o.check_evals()[i]);
        lemma_mul_zero(pow(mix, (o.taps.regs().len() + i) as nat));
        H::ExtElem::law_reduced(mix, mix);
    }
}

/// Where every combination is opened at distinct points, what is opened of it
/// takes its values there: dividing the difference by the points leaves no
/// remainder, whatever the combinations were mixed by.
pub proof fn law_openings_divide<H: Hal>(o: Opening<H>, mix: H::ExtElem)
    requires
        o.wf(),
        o.taps.consistent(),
        o.points_distinct(),
    ensures
        o.exact(mix),
{
    let n = o.taps.regs().len();
    let groups = o.taps.num_groups();
    o.lemma_base_end();
    o.lemma_openings_short();
    assert forall|c: int| 0 <= c < o.taps.combos_size() implies divides_exactly(
        #[trigger] chunk(o.numerators(mix), o.size, c),
        o.divisors(c),
    ) by {
        let p = chunk(o.numerators(mix), o.size, c);
        let points = o.divisors(c);
        assert(separated(points));
        assert forall|m: int| 0 <= m < points.len() implies #[trigger] eval(p, points[m])
            == H::ExtElem::spec_zero() by {
            let x = points[m];
            lemma_numerators(o, mix, c, x);
            assert forall|i: int| 0 <= i < n && o.taps.regs()[i].combo == c implies eval(
                #[trigger] o.committed_poly(i),
                x,
            ) == eval(o.register_poly(i), x) by {
                let (g, j) = o.lemma_find_group(i, groups as int);
                o.lemma_register_poly(g, j);
                o.lemma_committed_polys(groups, g, j);
                assert(eval(o.register_poly(o.base(g) + j), o.divisors(c)[m]) == eval(
                    lifted::<H::ExtElem>(o.groups[g].poly(j)),
                    o.divisors(c)[m],
                ));
            }
            lemma_no_differences(o, mix, n, c, x);
        }
        lemma_separated_differences(points);
        lemma_roots_divide(p, points);
    }
    lemma_numerators(o, mix, o.taps.combos_size() as int, o.check_point());
    lemma_no_check_differences(o, mix, check_size::<H>());
}

/// No register belongs to the combination of the check polynomials.
proof fn lemma_no_register_opened<H: Hal>(o: Opening<H>, mix: H::ExtElem, k: nat, x: H::ExtElem)
    requires
        o.wf(),
        k <= o.taps.regs().len(),
    ensures
        o.opened_value(mix, k, o.taps.combos_size() as int, x) == H::ExtElem::spec_zero(),
    decreases k,
{
    if k > 0 {
        lemma_no_register_opened(o, mix, (k - 1) as nat, x);
        o.lemma_register_poly_len(k - 1);
    }
}

} // verus!
