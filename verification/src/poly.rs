//! Polynomials as sequences of coefficients, lowest degree first.
use crate::field::{Elem, Field};
use crate::field::{all_reduced, divides_all, invertible, pow, reduced};
use crate::field::{lemma_add_swap, lemma_distributes_right, lemma_invertible_cancels, lemma_mul_one};
use crate::field::{lemma_mul_reduced, lemma_mul_zero, lemma_sub_self, lemma_sub_unique, lemma_zero_add};
use vstd::prelude::*;

verus! {

/// The value of the polynomial `p` at `x`.
pub open spec fn eval<E: Elem>(p: Seq<E>, x: E) -> E
    decreases p.len(),
{
    if p.len() == 0 {
        E::spec_zero()
    } else {
        p[0].spec_add(x.spec_mul(eval(p.drop_first(), x)))
    }
}

/// `n` zero coefficients.
pub open spec fn zeros<E: Elem>(n: nat) -> Seq<E> {
    Seq::new(n, |i: int| E::spec_zero())
}

/// The sum of `p` and `c` times `q`, coefficient by coefficient.
pub open spec fn plus_scaled<E: Elem>(p: Seq<E>, c: E, q: Seq<E>) -> Seq<E> {
    Seq::new(p.len(), |i: int| p[i].spec_add(c.spec_mul(q[i])))
}

/// The quotient of `p` by `x - z`, padded with a zero to the length of `p`.
pub open spec fn quotient<E: Elem>(p: Seq<E>, z: E) -> Seq<E> {
    Seq::new(p.len(), |i: int| eval(p.skip(i + 1), z))
}

/// The quotient of `p` by the product of `x - points[i]`.
pub open spec fn quotient_by_all<E: Elem>(p: Seq<E>, points: Seq<E>) -> Seq<E>
    decreases points.len(),
{
    if points.len() == 0 {
        p
    } else {
        quotient_by_all(quotient(p, points[0]), points.drop_first())
    }
}

/// Dividing `p` by each `x - points[i]` in turn never leaves a remainder.
pub open spec fn divides_exactly<E: Elem>(p: Seq<E>, points: Seq<E>) -> bool
    decreases points.len(),
{
    points.len() == 0 || {
        &&& eval(p, points[0]) == E::spec_zero()
        &&& divides_exactly(quotient(p, points[0]), points.drop_first())
    }
}

/// The product of `x - points[i]`.
pub open spec fn vanishing<E: Elem>(points: Seq<E>, x: E) -> E
    decreases points.len(),
{
    if points.len() == 0 {
        E::spec_one()
    } else {
        x.spec_sub(points[0]).spec_mul(vanishing(points.drop_first(), x))
    }
}

/// The coefficients of `(x - r) * p`.
pub open spec fn times_linear<E: Elem>(p: Seq<E>, r: E) -> Seq<E> {
    Seq::new(
        p.len() + 1,
        |i: int|
            (if i > 0 {
                p[i - 1]
            } else {
                E::spec_zero()
            }).spec_sub(
                r.spec_mul(
                    if i < p.len() {
                        p[i]
                    } else {
                        E::spec_zero()
                    },
                ),
            ),
    )
}

/// The product of `x - xs[j]` over all `j < k` other than `i`.
pub open spec fn basis<E: Elem>(xs: Seq<E>, i: int, k: nat) -> Seq<E>
    decreases k,
{
    if k == 0 {
        seq![E::spec_one()]
    } else {
        let before = basis(xs, i, (k - 1) as nat);
        if k - 1 == i {
            before
        } else {
            times_linear(before, xs[k - 1])
        }
    }
}

/// The product of `xs[i] - xs[j]` over all `j` other than `i`.
pub open spec fn spread<E: Elem>(xs: Seq<E>, i: int) -> E {
    eval(basis(xs, i, xs.len()), xs[i])
}

/// The first `k` terms of the Lagrange interpolation formula.
pub open spec fn lagrange_terms<E: Field>(xs: Seq<E>, fs: Seq<E>, k: nat) -> Seq<E>
    decreases k,
{
    if k == 0 {
        zeros(xs.len())
    } else {
        let i = k - 1;
        plus_scaled(
            lagrange_terms(xs, fs, i as nat),
            fs[i].spec_mul(spread(xs, i).spec_inv()),
            basis(xs, i, xs.len()),
        )
    }
}

/// The polynomial of fewer than `xs.len()` coefficients that takes the value
/// `fs[i]` at each `xs[i]`, by the Lagrange interpolation formula.
pub open spec fn interpolant<E: Field>(xs: Seq<E>, fs: Seq<E>) -> Seq<E> {
    if xs.len() == 1 {
        seq![fs[0]]
    } else {
        lagrange_terms(xs, fs, xs.len())
    }
}

/// No two of the points coincide, in the sense that interpolating through them
/// divides by invertible elements only.
pub open spec fn separated<E: Field>(xs: Seq<E>) -> bool {
    xs.len() <= 1 || forall|i: int| 0 <= i < xs.len() ==> invertible(#[trigger] spread(xs, i))
}

pub proof fn lemma_eval_reduced<E: Elem>(p: Seq<E>, x: E)
    ensures
        reduced(eval(p, x)),
{
    if p.len() == 0 {
        E::law_reduced(x, x);
    } else {
        E::law_reduced(p[0], x.spec_mul(eval(p.drop_first(), x)));
    }
}

pub proof fn lemma_eval_zeros<E: Elem>(n: nat, x: E)
    ensures
        eval(zeros::<E>(n), x) == E::spec_zero(),
    decreases n,
{
    if n > 0 {
        assert(zeros::<E>(n).drop_first() =~= zeros::<E>((n - 1) as nat));
        lemma_eval_zeros((n - 1) as nat, x);
        lemma_mul_zero(x);
        E::law_reduced(x, x);
    }
}

/// Evaluation is linear.
pub proof fn lemma_eval_plus_scaled<E: Elem>(p: Seq<E>, c: E, q: Seq<E>, x: E)
    requires
        p.len() == q.len(),
    ensures
        eval(plus_scaled(p, c, q), x) == eval(p, x).spec_add(c.spec_mul(eval(q, x))),
    decreases p.len(),
{
    if p.len() == 0 {
        lemma_mul_zero(c);
        E::law_reduced(x, x);
    } else {
        let (pt, qt) = (p.drop_first(), q.drop_first());
        let (ep, eq) = (eval(pt, x), eval(qt, x));
        assert(plus_scaled(p, c, q).drop_first() =~= plus_scaled(pt, c, qt));
        lemma_eval_plus_scaled(pt, c, qt, x);
        // x * (ep + c * eq) == x * ep + c * (x * eq)
        E::law_distributes(x, ep, c.spec_mul(eq));
        E::law_mul_associates(x, c, eq);
        E::law_mul_commutes(x, c);
        E::law_mul_associates(c, x, eq);
        E::law_distributes(c, q[0], x.spec_mul(eq));
        lemma_add_swap(p[0], c.spec_mul(q[0]), x.spec_mul(ep), c.spec_mul(x.spec_mul(eq)));
    }
}

/// Evaluating a concatenation shifts the second part up.
pub proof fn lemma_eval_concat<E: Elem>(p: Seq<E>, q: Seq<E>, x: E)
    ensures
        eval(p + q, x) == eval(p, x).spec_add(pow(x, p.len()).spec_mul(eval(q, x))),
    decreases p.len(),
{
    let eq = eval(q, x);
    if p.len() == 0 {
        assert(p + q =~= q);
        lemma_eval_reduced(q, x);
        lemma_mul_one(eq);
        lemma_zero_add(eq);
    } else {
        let t = p.drop_first();
        assert((p + q).drop_first() =~= t + q);
        lemma_eval_concat(t, q, x);
        let s = pow(x, t.len()).spec_mul(eq);
        E::law_distributes(x, eval(t, x), s);
        E::law_mul_associates(x, pow(x, t.len()), eq);
        E::law_add_associates(p[0], x.spec_mul(eval(t, x)), x.spec_mul(s));
    }
}

/// Trailing zero coefficients do not change the value.
pub proof fn lemma_eval_padded<E: Elem>(p: Seq<E>, n: nat, x: E)
    ensures
        eval(p + zeros::<E>(n), x) == eval(p, x),
{
    lemma_eval_concat(p, zeros::<E>(n), x);
    lemma_eval_zeros(n, x);
    lemma_mul_zero(pow(x, p.len()));
    lemma_eval_reduced(p, x);
}

/// A constant evaluates to itself.
pub proof fn lemma_eval_constant<E: Elem>(c: E, x: E)
    ensures
        eval(seq![c], x) == c.spec_add(E::spec_zero()),
{
    assert(seq![c].drop_first() =~= Seq::<E>::empty());
    assert(eval(Seq::<E>::empty(), x) == E::spec_zero());
    lemma_mul_zero(x);
}

/// Division with remainder: `p(x) == (x - z) * q(x) + p(z)` where `q` is the
/// quotient of `p` by `x - z`.
pub proof fn lemma_quotient<E: Elem>(p: Seq<E>, z: E, x: E)
    ensures
        eval(p, x) == x.spec_sub(z).spec_mul(eval(quotient(p, z), x)).spec_add(eval(p, z)),
    decreases p.len(),
{
    let d = x.spec_sub(z);
    if p.len() == 0 {
        lemma_mul_zero(d);
        E::law_reduced(x, x);
    } else {
        let t = p.drop_first();
        let (s, q) = (eval(t, z), eval(quotient(t, z), x));
        lemma_quotient(t, z, x);
        assert(p.skip(1) =~= t);
        assert forall|i: int| 0 <= i < t.len() implies quotient(p, z).drop_first()[i] == quotient(t, z)[i] by {
            assert(p.skip(i + 2) =~= t.skip(i + 1));
        }
        assert(quotient(p, z).drop_first() =~= quotient(t, z));
        // eval(quotient(p, z), x) == s + x * q and eval(t, x) == d * q + s
        let dq = d.spec_mul(q);
        let ds = d.spec_mul(s);
        // x * (d * q + s) == d * (x * q) + x * s
        E::law_distributes(x, dq, s);
        E::law_mul_associates(x, d, q);
        E::law_mul_commutes(x, d);
        E::law_mul_associates(d, x, q);
        // x * s == d * s + z * s
        E::law_sub(x, z);
        lemma_mul_reduced(s, x);
        lemma_distributes_right(d, z, s);
        E::law_distributes(d, s, x.spec_mul(q));
        let a = p[0];
        let m = d.spec_mul(x.spec_mul(q));
        let zs = z.spec_mul(s);
        // a + (m + (ds + zs)) == (ds + m) + (a + zs)
        E::law_add_associates(m, ds, zs);
        E::law_add_commutes(m, ds);
        E::law_add_associates(a, ds.spec_add(m), zs);
        E::law_add_commutes(a, ds.spec_add(m));
        E::law_add_associates(ds.spec_add(m), a, zs);
    }
}

/// Dividing out several points at once: where no division leaves a remainder,
/// `p` is the product of the linear factors and the quotient.
pub proof fn lemma_quotient_by_all<E: Elem>(p: Seq<E>, points: Seq<E>, x: E)
    requires
        divides_exactly(p, points),
    ensures
        quotient_by_all(p, points).len() == p.len(),
        eval(p, x) == vanishing(points, x).spec_mul(eval(quotient_by_all(p, points), x)),
    decreases points.len(),
{
    if points.len() == 0 {
        lemma_eval_reduced(p, x);
        lemma_mul_one(eval(p, x));
    } else {
        let (q, rest) = (quotient(p, points[0]), points.drop_first());
        lemma_quotient(p, points[0], x);
        lemma_quotient_by_all(q, rest, x);
        let d = x.spec_sub(points[0]);
        E::law_reduced(d, eval(q, x));
        E::law_mul_associates(d, vanishing(rest, x), eval(quotient_by_all(q, rest), x));
    }
}

/// `b` is the inverse of `a`.
pub open spec fn inverts<E: Elem>(a: E, b: E) -> bool {
    a.spec_mul(b) == E::spec_one()
}

/// `a` has an inverse.
pub open spec fn has_inverse<E: Elem>(a: E) -> bool {
    exists|b: E| inverts(a, b)
}

/// Differences between distinct points of the sequence have inverses.
pub open spec fn differences_invert<E: Elem>(points: Seq<E>) -> bool {
    forall|i: int, j: int|
        0 <= i < points.len() && 0 <= j < points.len() && i != j ==> #[trigger] has_inverse(
            points[i].spec_sub(points[j]),
        )
}

/// A polynomial that vanishes at each of several distinct points is divided by
/// all of them without remainder.
pub proof fn lemma_roots_divide<E: Elem>(p: Seq<E>, points: Seq<E>)
    requires
        differences_invert(points),
        forall|i: int| 0 <= i < points.len() ==> #[trigger] eval(p, points[i]) == E::spec_zero(),
    ensures
        divides_exactly(p, points),
    decreases points.len(),
{
    if points.len() > 0 {
        let (z, rest) = (points[0], points.drop_first());
        let q = quotient(p, z);
        assert(eval(p, points[0]) == E::spec_zero());
        assert forall|i: int| 0 <= i < rest.len() implies #[trigger] eval(q, rest[i]) == E::spec_zero() by {
            let x = points[i + 1];
            assert(rest[i] == x);
            assert(eval(p, points[i + 1]) == E::spec_zero());
            lemma_quotient(p, z, x);
            let d = points[i + 1].spec_sub(points[0]);
            E::law_reduced(d, eval(q, x));
            lemma_eval_reduced(q, x);
            assert(has_inverse(d));
            let w = choose|w: E| inverts(d, w);
            lemma_invertible_cancels(d, eval(q, x), w);
        }
        assert forall|i: int, j: int|
            0 <= i < rest.len() && 0 <= j < rest.len() && i != j implies #[trigger] has_inverse(
            rest[i].spec_sub(rest[j]),
        ) by {
            assert(has_inverse(points[i + 1].spec_sub(points[j + 1])));
        }
        lemma_roots_divide(q, rest);
    }
}

/// The value of `(x - r) * p`.
pub proof fn lemma_eval_times_linear<E: Elem>(p: Seq<E>, r: E, x: E)
    requires
        all_reduced(p),
    ensures
        all_reduced(times_linear(p, r)),
        eval(times_linear(p, r), x) == x.spec_sub(r).spec_mul(eval(p, x)),
{
    // times_linear(p, r) is (0, p) minus r times (p, 0).
    let zero = E::spec_zero();
    let up = seq![zero] + p;
    let low = p + zeros::<E>(1);
    let t = times_linear(p, r);
    let e = eval(p, x);
    assert(plus_scaled(t, r, low) =~= up) by {
        assert forall|i: int| 0 <= i < up.len() implies #[trigger] plus_scaled(t, r, low)[i] == up[i] by {
            E::law_sub(up[i], r.spec_mul(low[i]));
            E::law_reduced(r, r);
            if i > 0 {
                assert(reduced(p[i - 1]));
            }
        }
    }
    assert forall|i: int| 0 <= i < t.len() implies reduced(#[trigger] t[i]) by {
        E::law_reduced(up[i], r.spec_mul(low[i]));
    }
    lemma_eval_plus_scaled(t, r, low, x);
    lemma_eval_padded(p, 1, x);
    assert(up.drop_first() =~= p);
    E::law_reduced(x, e);
    lemma_zero_add(x.spec_mul(e));
    // eval(t) + r * e == x * e
    let d = x.spec_sub(r);
    E::law_sub(x, r);
    lemma_mul_reduced(e, x);
    lemma_distributes_right(d, r, e);
    lemma_eval_reduced(t, x);
    E::law_reduced(d, e);
    lemma_sub_unique(x.spec_mul(e), r.spec_mul(e), eval(t, x));
    lemma_sub_unique(x.spec_mul(e), r.spec_mul(e), d.spec_mul(e));
}

pub proof fn lemma_basis_len<E: Elem>(xs: Seq<E>, i: int, k: nat)
    requires
        0 <= i,
    ensures
        basis(xs, i, k).len() == if k <= i {
            k + 1
        } else {
            k
        },
    decreases k,
{
    if k > 0 {
        lemma_basis_len(xs, i, (k - 1) as nat);
    }
}

proof fn lemma_basis_reduced<E: Elem>(xs: Seq<E>, i: int, k: nat)
    ensures
        all_reduced(basis(xs, i, k)),
    decreases k,
{
    if k == 0 {
        E::law_reduced(E::spec_one(), E::spec_one());
    } else {
        lemma_basis_reduced(xs, i, (k - 1) as nat);
        lemma_eval_times_linear(basis(xs, i, (k - 1) as nat), xs[k - 1], xs[k - 1]);
    }
}

/// A basis polynomial vanishes at the other points.
proof fn lemma_basis_root<E: Elem>(xs: Seq<E>, i: int, k: nat, j: int)
    requires
        0 <= j < k,
        i != j,
    ensures
        eval(basis(xs, i, k), xs[j]) == E::spec_zero(),
    decreases k,
{
    let before = basis(xs, i, (k - 1) as nat);
    lemma_basis_reduced(xs, i, (k - 1) as nat);
    if k - 1 == i {
        lemma_basis_root(xs, i, (k - 1) as nat, j);
    } else {
        lemma_eval_times_linear(before, xs[k - 1], xs[j]);
        if k - 1 == j {
            lemma_sub_self(xs[j]);
            lemma_mul_zero(eval(before, xs[j]));
        } else {
            lemma_basis_root(xs, i, (k - 1) as nat, j);
            lemma_mul_zero(xs[j].spec_sub(xs[k - 1]));
        }
    }
}

/// Each difference `x - xs[j]` divides the value of a basis polynomial.
proof fn lemma_basis_factor<E: Elem>(xs: Seq<E>, i: int, k: nat, j: int, x: E) -> (w: E)
    requires
        0 <= j < k,
        i != j,
    ensures
        eval(basis(xs, i, k), x) == x.spec_sub(xs[j]).spec_mul(w),
    decreases k,
{
    let before = basis(xs, i, (k - 1) as nat);
    lemma_basis_reduced(xs, i, (k - 1) as nat);
    if k - 1 == i {
        lemma_basis_factor(xs, i, (k - 1) as nat, j, x)
    } else {
        lemma_eval_times_linear(before, xs[k - 1], x);
        if k - 1 == j {
            eval(before, x)
        } else {
            let v = lemma_basis_factor(xs, i, (k - 1) as nat, j, x);
            let (a, b) = (x.spec_sub(xs[k - 1]), x.spec_sub(xs[j]));
            E::law_mul_associates(a, b, v);
            E::law_mul_commutes(a, b);
            E::law_mul_associates(b, a, v);
            a.spec_mul(v)
        }
    }
}

/// Points that can be interpolated through have invertible differences.
pub proof fn lemma_separated_differences<E: Field>(xs: Seq<E>)
    requires
        separated(xs),
    ensures
        differences_invert(xs),
{
    assert forall|i: int, j: int|
        0 <= i < xs.len() && 0 <= j < xs.len() && i != j implies #[trigger] has_inverse(
        xs[i].spec_sub(xs[j]),
    ) by {
        let s = spread(xs, i);
        assert(invertible(s));
        let d = xs[i].spec_sub(xs[j]);
        let v = lemma_basis_factor(xs, i, xs.len(), j, xs[i]);
        E::law_mul_associates(d, v, s.spec_inv());
        assert(inverts(d, v.spec_mul(s.spec_inv())));
    }
}

/// No two of the points are equal.
pub open spec fn all_different<E: Elem>(xs: Seq<E>) -> bool {
    forall|i: int, j: int| 0 <= i < j < xs.len() ==> #[trigger] xs[i] != #[trigger] xs[j]
}

/// A product of elements with inverses has one.
pub proof fn lemma_product_inverts<E: Elem>(a: E, b: E)
    requires
        has_inverse(a),
        has_inverse(b),
    ensures
        has_inverse(a.spec_mul(b)),
{
    let v = choose|v: E| inverts(a, v);
    let w = choose|w: E| inverts(b, w);
    let one = E::spec_one();
    // (a * b) * (w * v) == a * ((b * w) * v) == a * (1 * v)
    E::law_mul_associates(a, b, w.spec_mul(v));
    E::law_mul_associates(b, w, v);
    E::law_mul_commutes(one, v);
    E::law_mul_one(v);
    lemma_mul_reduced(a, v);
    assert(inverts(a.spec_mul(b), w.spec_mul(v)));
}

/// Where the differences to the other points have inverses, so has the value
/// of a basis polynomial.
proof fn lemma_basis_inverts<E: Elem>(xs: Seq<E>, i: int, k: nat)
    requires
        0 <= i < xs.len(),
        k <= xs.len(),
        forall|j: int| 0 <= j < k && j != i ==> has_inverse(xs[i].spec_sub(#[trigger] xs[j])),
    ensures
        has_inverse(eval(basis(xs, i, k), xs[i])),
    decreases k,
{
    let one = E::spec_one();
    if k == 0 {
        lemma_eval_constant(one, xs[i]);
        E::law_reduced(one, one);
        lemma_mul_one(one);
        assert(inverts(one, one));
    } else {
        let j = (k - 1) as nat;
        lemma_basis_inverts(xs, i, j);
        if j != i {
            lemma_basis_reduced(xs, i, j);
            lemma_eval_times_linear(basis(xs, i, j), xs[j as int], xs[i]);
            assert(has_inverse(xs[i].spec_sub(xs[j as int])));
            lemma_product_inverts(xs[i].spec_sub(xs[j as int]), eval(basis(xs, i, j), xs[i]));
        }
    }
}

/// Where one can divide by everything but zero, one can interpolate through
/// points that differ.
pub proof fn lemma_different_points_are_separated<E: Field>(xs: Seq<E>)
    requires
        divides_all::<E>(),
        all_reduced(xs),
        all_different(xs),
    ensures
        separated(xs),
{
    let (zero, one) = (E::spec_zero(), E::spec_one());
    if xs.len() > 1 {
        assert(one != zero) by {
            if one == zero {
                assert(reduced(xs[0]) && reduced(xs[1]));
                lemma_mul_one(xs[0]);
                lemma_mul_one(xs[1]);
                lemma_mul_zero(xs[0]);
                lemma_mul_zero(xs[1]);
            }
        }
        assert forall|i: int| 0 <= i < xs.len() implies invertible(#[trigger] spread(xs, i)) by {
            assert forall|j: int| 0 <= j < xs.len() && j != i implies has_inverse(
                xs[i].spec_sub(#[trigger] xs[j]),
            ) by {
                let d = xs[i].spec_sub(xs[j]);
                E::law_reduced(xs[i], xs[j]);
                if d == zero {
                    E::law_sub(xs[i], xs[j]);
                    assert(reduced(xs[i]) && reduced(xs[j]));
                    lemma_zero_add(xs[j]);
                }
                assert(invertible(d));
                assert(inverts(d, d.spec_inv()));
            }
            lemma_basis_inverts(xs, i, xs.len());
            let s = spread(xs, i);
            lemma_eval_reduced(basis(xs, i, xs.len()), xs[i]);
            let w = choose|w: E| inverts(s, w);
            lemma_mul_zero(w);
            assert(s != zero);
        }
    }
}

pub proof fn lemma_interpolant_reduced<E: Field>(xs: Seq<E>, fs: Seq<E>)
    requires
        xs.len() == fs.len(),
        all_reduced(fs),
    ensures
        all_reduced(interpolant(xs, fs)),
{
    let n = xs.len();
    if n != 1 {
        assert forall|i: int| 0 <= i < lagrange_terms(xs, fs, n).len() implies reduced(
            #[trigger] lagrange_terms(xs, fs, n)[i],
        ) by {
            E::law_reduced(xs[0], xs[0]);
            if n > 0 {
                let k = n - 1;
                let c = fs[k].spec_mul(spread(xs, k).spec_inv());
                E::law_reduced(lagrange_terms(xs, fs, k as nat)[i], c.spec_mul(basis(xs, k, n)[i]));
            }
        }
    }
}

pub proof fn lemma_lagrange_terms_len<E: Field>(xs: Seq<E>, fs: Seq<E>, k: nat)
    ensures
        lagrange_terms(xs, fs, k).len() == xs.len(),
    decreases k,
{
    if k > 0 {
        lemma_lagrange_terms_len(xs, fs, (k - 1) as nat);
    }
}

proof fn lemma_lagrange_terms<E: Field>(xs: Seq<E>, fs: Seq<E>, k: nat, m: int)
    requires
        k <= xs.len(),
        0 <= m < xs.len(),
        fs.len() == xs.len(),
        all_reduced(fs),
        forall|i: int| 0 <= i < xs.len() ==> invertible(#[trigger] spread(xs, i)),
    ensures
        eval(lagrange_terms(xs, fs, k), xs[m]) == if m < k {
            fs[m]
        } else {
            E::spec_zero()
        },
    decreases k,
{
    if k == 0 {
        lemma_eval_zeros(xs.len(), xs[m]);
    } else {
        let i = k - 1;
        let b = basis(xs, i, xs.len());
        let s = spread(xs, i);
        let c = fs[i].spec_mul(s.spec_inv());
        let before = lagrange_terms(xs, fs, i as nat);
        lemma_lagrange_terms(xs, fs, i as nat, m);
        lemma_lagrange_terms_len(xs, fs, i as nat);
        lemma_basis_len(xs, i, xs.len());
        lemma_eval_plus_scaled(before, c, b, xs[m]);
        if m == i {
            assert(invertible(s));
            E::law_mul_associates(fs[i], s.spec_inv(), s);
            E::law_mul_commutes(s.spec_inv(), s);
            lemma_mul_one(fs[i]);
            lemma_zero_add(fs[i]);
        } else {
            lemma_basis_root(xs, i, xs.len(), m);
            lemma_mul_zero(c);
            lemma_eval_reduced(before, xs[m]);
        }
    }
}

/// The interpolant takes the prescribed value at every point.
pub proof fn lemma_interpolant<E: Field>(xs: Seq<E>, fs: Seq<E>, m: int)
    requires
        xs.len() == fs.len(),
        all_reduced(fs),
        separated(xs),
        0 <= m < xs.len(),
    ensures
        interpolant(xs, fs).len() == xs.len(),
        eval(interpolant(xs, fs), xs[m]) == fs[m],
{
    if xs.len() == 1 {
        lemma_eval_constant(fs[0], xs[0]);
    } else {
        lemma_lagrange_terms_len(xs, fs, xs.len());
        lemma_lagrange_terms(xs, fs, xs.len(), m);
    }
}

/// Evaluates the polynomial `p` at `x`.
pub fn poly_eval<E: Elem>(p: &[E], x: E) -> (r: E)
    ensures
        r == eval(p@, x),
{
    let mut r = E::zero();
    let mut i: usize = p.len();
    assert(p@.skip(i as int) =~= Seq::<E>::empty());
    while i > 0
        invariant
            i <= p@.len(),
            r == eval(p@.skip(i as int), x),
        decreases i,
    {
        i = i - 1;
        assert(p@.skip(i as int).drop_first() =~= p@.skip(i + 1));
        r = p[i].plus(x.times(r));
    }
    assert(p@.skip(0) =~= p@);
    r
}

/// Divides `p` by `x - z` in place and returns the remainder.
pub fn poly_divide<E: Elem>(p: &mut [E], z: E) -> (remainder: E)
    ensures
        remainder == eval(old(p)@, z),
        final(p)@ == quotient(old(p)@, z),
{
    let ghost before = p@;
    let mut cur = E::zero();
    let mut i: usize = p.len();
    assert(before.skip(i as int) =~= Seq::<E>::empty());
    while i > 0
        invariant
            i <= p@.len(),
            p@.len() == before.len(),
            cur == eval(before.skip(i as int), z),
            forall|j: int| 0 <= j < i ==> p@[j] == before[j],
            forall|j: int| i <= j < p@.len() ==> p@[j] == quotient(before, z)[j],
        decreases i,
    {
        i = i - 1;
        assert(before.skip(i as int).drop_first() =~= before.skip(i + 1));
        let next = p[i].plus(z.times(cur));
        p[i] = cur;
        cur = next;
    }
    assert(before.skip(0) =~= before);
    assert(p@ =~= quotient(before, z));
    cur
}

/// Multiplies `p` by `x - r`.
fn multiply_linear<E: Elem>(p: &Vec<E>, r: E) -> (product: Vec<E>)
    requires
        p@.len() < usize::MAX,
    ensures
        product@ == times_linear(p@, r),
{
    let mut product: Vec<E> = Vec::new();
    let mut i: usize = 0;
    while i <= p.len()
        invariant
            i <= p@.len() + 1,
            p@.len() < usize::MAX,
            product@.len() == i,
            forall|j: int| 0 <= j < i ==> product@[j] == times_linear(p@, r)[j],
        decreases p@.len() + 1 - i,
    {
        let up = if i > 0 {
            p[i - 1]
        } else {
            E::zero()
        };
        let low = if i < p.len() {
            p[i]
        } else {
            E::zero()
        };
        product.push(up.minus(r.times(low)));
        i = i + 1;
    }
    assert(product@ =~= times_linear(p@, r));
    product
}

/// Interpolates through the first `size` of the given points: `out` receives
/// the coefficients of the polynomial that takes the value `fx[i]` at `x[i]`.
pub fn poly_interpolate<E: Field>(out: &mut [E], x: &[E], fx: &[E], size: usize)
    requires
        size <= old(out)@.len(),
        size <= x@.len(),
        size <= fx@.len(),
    ensures
        final(out)@.len() == old(out)@.len(),
        final(out)@.take(size as int) == interpolant(x@.take(size as int), fx@.take(size as int)),
        final(out)@.skip(size as int) == old(out)@.skip(size as int),
{
    let ghost before = out@;
    let ghost xs = x@.take(size as int);
    let ghost fs = fx@.take(size as int);
    if size == 1 {
        out[0] = fx[0];
        assert(out@.take(1) =~= interpolant(xs, fs));
        assert(out@.skip(1) =~= before.skip(1));
        return ;
    }
    let mut clear: usize = 0;
    while clear < size
        invariant
            clear <= size <= out@.len(),
            out@.len() == before.len(),
            forall|j: int| 0 <= j < clear ==> out@[j] == E::spec_zero(),
            forall|j: int| size <= j < out@.len() ==> out@[j] == before[j],
        decreases size - clear,
    {
        out[clear] = E::zero();
        clear = clear + 1;
    }
    let mut i: usize = 0;
    assert(out@.take(size as int) =~= lagrange_terms(xs, fs, 0));
    while i < size
        invariant
            i <= size <= out@.len(),
            size <= x@.len(),
            size <= fx@.len(),
            xs == x@.take(size as int),
            fs == fx@.take(size as int),
            out@.len() == before.len(),
            out@.take(size as int) == lagrange_terms(xs, fs, i as nat),
            forall|j: int| size <= j < out@.len() ==> out@[j] == before[j],
        decreases size - i,
    {
        let mut factor: Vec<E> = Vec::new();
        factor.push(E::one());
        assert(factor@ =~= basis(xs, i as int, 0));
        let mut k: usize = 0;
        while k < size
            invariant
                i < size <= x@.len(),
                k <= size,
                xs == x@.take(size as int),
                factor@ == basis(xs, i as int, k as nat),
            decreases size - k,
        {
            proof {
                lemma_basis_len(xs, i as int, k as nat);
            }
            if k != i {
                factor = multiply_linear(&factor, x[k]);
            }
            k = k + 1;
        }
        proof {
            lemma_basis_len(xs, i as int, size as nat);
        }
        let scale = fx[i].times(poly_eval(factor.as_slice(), x[i]).inv());
        let ghost terms = lagrange_terms(xs, fs, i as nat);
        let ghost start = out@;
        let mut j: usize = 0;
        while j < size
            invariant
                j <= size <= out@.len(),
                factor@.len() == size,
                start.len() == out@.len(),
                forall|m: int| 0 <= m < j ==> out@[m] == start[m].spec_add(scale.spec_mul(factor@[m])),
                forall|m: int| j <= m < out@.len() ==> out@[m] == start[m],
            decreases size - j,
        {
            out[j] = out[j].plus(scale.times(factor[j]));
            j = j + 1;
        }
        assert(out@.take(size as int) =~= plus_scaled(terms, scale, factor@)) by {
            assert forall|m: int| 0 <= m < size implies out@[m] == plus_scaled(terms, scale, factor@)[m] by {
                assert(start[m] == start.take(size as int)[m]);
            }
        }
        i = i + 1;
    }
    assert(out@.skip(size as int) =~= before.skip(size as int));
}

} // verus!
