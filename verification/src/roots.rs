//! Why interpolation on a domain of roots of unity recovers the values.
use crate::field::{invertible, lemma_add_cancels, lemma_distributes_right, lemma_invertible_cancels, lemma_mul_one};
use crate::field::{lemma_mul_reduced, lemma_mul_zero, lemma_pow_adds, lemma_pow_multiplies, lemma_pow_of_one};
use crate::field::{lemma_pow_reduced, lemma_sub_self, lemma_sub_unique, lemma_zero_add, pow, reduced};
use crate::field::{Elem, Field, RootsOfUnity};
use crate::poly::{eval, has_inverse, inverts, lemma_eval_concat, lemma_eval_constant, lemma_eval_plus_scaled};
use crate::poly::{lemma_eval_reduced, lemma_eval_zeros, plus_scaled, zeros};
use crate::transform::{bit_reversed, interpolated, is_power_of_two};
use crate::transform::{lemma_bit_reverse_bound, lemma_bit_reverse_involutive, lemma_eval_scaled_argument};
use crate::transform::log2;
use vstd::arithmetic::power2::{lemma_pow2_unfold, pow2};
use vstd::prelude::*;

verus! {

/// The additive inverse of one.
pub open spec fn minus_one<E: Elem>() -> E {
    E::spec_zero().spec_sub(E::spec_one())
}

/// The roots of order `2^k` are inverse to each other and generate a group of
/// that order, and one can divide by the order.
pub open spec fn roots_match<E: RootsOfUnity>(k: nat) -> bool {
    &&& E::spec_rou_fwd(k).spec_mul(E::spec_rou_rev(k)) == E::spec_one()
    &&& if k == 0 {
        E::spec_rou_fwd(k) == E::spec_one()
    } else {
        pow(E::spec_rou_fwd(k), pow2((k - 1) as nat)) == minus_one::<E>()
    }
    &&& has_inverse(E::spec_one().spec_add(E::spec_one()))
    &&& invertible(E::spec_from_u64(pow2(k) as u64))
}

/// `n` coefficients that are one.
pub open spec fn ones<E: Elem>(n: nat) -> Seq<E> {
    Seq::new(n, |i: int| E::spec_one())
}

/// The sum of a geometric series: `(x - 1) * (1 + x + .. + x^(n - 1)) == x^n - 1`.
pub proof fn lemma_geometric_sum<E: Elem>(x: E, n: nat)
    ensures
        x.spec_sub(E::spec_one()).spec_mul(eval(ones::<E>(n), x)) == pow(x, n).spec_sub(E::spec_one()),
{
    let one = E::spec_one();
    let s = eval(ones::<E>(n), x);
    let (d, p) = (x.spec_sub(one), pow(x, n));
    // The sum of n + 1 terms, taken apart at either end.
    let long = ones::<E>(n + 1);
    assert(long.drop_first() =~= ones::<E>(n));
    assert(long =~= ones::<E>(n) + seq![one]);
    lemma_eval_concat(ones::<E>(n), seq![one], x);
    lemma_eval_constant(one, x);
    E::law_reduced(one, one);
    lemma_pow_reduced(x, n);
    lemma_mul_one(p);
    let xs = x.spec_mul(s);
    assert(one.spec_add(xs) == s.spec_add(p));
    // x * s == d * s + s
    E::law_sub(x, one);
    lemma_mul_reduced(s, x);
    lemma_distributes_right(d, one, s);
    lemma_eval_reduced(ones::<E>(n), x);
    lemma_mul_one(s);
    let ds = d.spec_mul(s);
    assert(xs == ds.spec_add(s));
    // (1 + ds) + s == p + s
    E::law_add_associates(one, ds, s);
    E::law_add_commutes(s, p);
    E::law_reduced(one, ds);
    lemma_add_cancels(one.spec_add(ds), p, s);
    E::law_add_commutes(one, ds);
    E::law_reduced(d, s);
    lemma_sub_unique(p, one, ds);
}

/// Two, divided by, gives an inverse of one less than minus one.
proof fn lemma_minus_two_inverts<E: Elem>(half: E)
    requires
        inverts(E::spec_one().spec_add(E::spec_one()), half),
    ensures
        minus_one::<E>().spec_sub(E::spec_one()).spec_mul(E::spec_zero().spec_sub(half)) == E::spec_one(),
{
    let (zero, one) = (E::spec_zero(), E::spec_one());
    let (m, two) = (minus_one::<E>(), one.spec_add(one));
    let d = m.spec_sub(one);
    let h = zero.spec_sub(half);
    E::law_reduced(zero, one);
    E::law_reduced(m, one);
    // d + 2 == 0
    E::law_sub(m, one);
    E::law_sub(zero, one);
    E::law_add_associates(d, one, one);
    assert(d.spec_add(two) == zero);
    // d * half + 1 == 0
    lemma_distributes_right(d, two, half);
    lemma_mul_zero(half);
    let dh = d.spec_mul(half);
    assert(dh.spec_add(one) == zero);
    // d * h + d * half == 0
    E::law_sub(zero, half);
    E::law_distributes(d, h, half);
    lemma_mul_zero(d);
    let r = d.spec_mul(h);
    assert(r.spec_add(dh) == zero);
    E::law_reduced(d, h);
    E::law_add_commutes(dh, one);
    lemma_add_cancels(r, one, dh);
}

/// Squaring minus one gives one.
proof fn lemma_minus_one_squared<E: Elem>()
    ensures
        minus_one::<E>().spec_mul(minus_one::<E>()) == E::spec_one(),
{
    let (zero, one, m) = (E::spec_zero(), E::spec_one(), minus_one::<E>());
    // m * m + m * 1 == m * (m + 1) == 0
    E::law_sub(zero, one);
    E::law_reduced(zero, one);
    E::law_distributes(m, m, one);
    lemma_mul_zero(m);
    lemma_mul_one(m);
    E::law_reduced(m, m);
    E::law_add_commutes(m, one);
    lemma_add_cancels(m.spec_mul(m), one, m);
}

/// Odd powers of minus one are minus one.
proof fn lemma_minus_one_odd<E: Elem>(a: nat)
    requires
        a % 2 == 1,
    ensures
        pow(minus_one::<E>(), a) == minus_one::<E>(),
{
    let m = minus_one::<E>();
    let h = a / 2;
    E::law_reduced(E::spec_zero(), E::spec_one());
    lemma_pow_adds(m, 2 * h, 1);
    lemma_pow_multiplies(m, 2, h);
    lemma_minus_one_squared::<E>();
    lemma_mul_one(m);
    assert(pow(m, 1) == m) by {
        assert(pow(m, 0) == E::spec_one());
    }
    assert(pow(m, 2) == m.spec_mul(pow(m, 1)));
    lemma_pow_of_one::<E>(h);
}

/// Some power of each power of a root, other than the trivial ones, is minus
/// one.
proof fn lemma_power_reaches_minus_one<E: Elem>(w: E, k: nat, a: nat) -> (t: nat)
    requires
        k > 0,
        pow(w, pow2((k - 1) as nat)) == minus_one::<E>(),
        0 < a < pow2(k),
    ensures
        pow(pow(w, a), t) == minus_one::<E>(),
    decreases k,
{
    let half = pow2((k - 1) as nat);
    if a % 2 == 1 {
        lemma_pow_multiplies(w, a, half);
        lemma_pow_multiplies(w, half, a);
        assert(a * half == half * a) by (nonlinear_arith);
        lemma_minus_one_odd::<E>(a);
        half
    } else {
        vstd::arithmetic::power2::lemma2_to64();
        lemma_pow2_unfold(k);
        assert(k > 1);
        let (j, b) = ((k - 1) as nat, a / 2);
        let v = pow(w, 2);
        lemma_pow2_unfold(j);
        lemma_pow_multiplies(w, 2, pow2((j - 1) as nat));
        lemma_pow_multiplies(w, 2, b);
        lemma_power_reaches_minus_one(v, j, b)
    }
}

/// The differences between one and the other powers of a root are invertible.
pub proof fn lemma_powers_differ<E: Elem>(w: E, k: nat, a: nat)
    requires
        k > 0,
        pow(w, pow2((k - 1) as nat)) == minus_one::<E>(),
        has_inverse(E::spec_one().spec_add(E::spec_one())),
        0 < a < pow2(k),
    ensures
        has_inverse(pow(w, a).spec_sub(E::spec_one())),
{
    let one = E::spec_one();
    let half = choose|b: E| inverts(one.spec_add(one), b);
    let z = pow(w, a);
    let t = lemma_power_reaches_minus_one(w, k, a);
    let s = eval(ones::<E>(t), z);
    lemma_geometric_sum(z, t);
    lemma_minus_two_inverts::<E>(half);
    let h = E::spec_zero().spec_sub(half);
    E::law_mul_associates(z.spec_sub(one), s, h);
    assert(inverts(z.spec_sub(one), s.spec_mul(h)));
}

/// A root of order `2^k` raised to its order is one.
proof fn lemma_root_order<E: RootsOfUnity>(k: nat)
    requires
        roots_match::<E>(k),
    ensures
        pow(E::spec_rou_fwd(k), pow2(k)) == E::spec_one(),
{
    let w = E::spec_rou_fwd(k);
    if k == 0 {
        lemma_pow_of_one::<E>(pow2(k));
    } else {
        let half = pow2((k - 1) as nat);
        lemma_pow2_unfold(k);
        lemma_pow_adds(w, half, half);
        lemma_minus_one_squared::<E>();
    }
}

/// The values at the powers of `r` of a polynomial.
spec fn transformed<E: Elem>(v: Seq<E>, r: E, n: nat) -> Seq<E> {
    Seq::new(n, |j: int| eval(v, pow(r, j as nat)))
}

/// Taking the first coefficient off a transformed polynomial.
proof fn lemma_transformed_step<E: Elem>(v: Seq<E>, r: E, n: nat, x: E)
    requires
        v.len() > 0,
    ensures
        eval(transformed(v, r, n), x) == v[0].spec_mul(eval(ones::<E>(n), x)).spec_add(
            eval(transformed(v.drop_first(), r, n), r.spec_mul(x)),
        ),
{
    let tail = v.drop_first();
    let t = transformed(tail, r, n);
    let moved = Seq::new(t.len(), |j: int| t[j].spec_mul(pow(r, j as nat)));
    let all = ones::<E>(n);
    lemma_eval_scaled_argument(t, r, x);
    assert forall|j: int| 0 <= j < n implies transformed(v, r, n)[j] == plus_scaled(moved, v[0], all)[j] by {
        let y = pow(r, j as nat);
        let e = eval(tail, y);
        E::law_mul_commutes(e, y);
        E::law_mul_one(v[0]);
        let ye = y.spec_mul(e);
        // v0 + y * e == y * e + v0 * 1
        E::law_add_commutes(v[0], ye);
        E::law_add_associates(ye, v[0], E::spec_zero());
        E::law_reduced(ye, v[0]);
    }
    assert(transformed(v, r, n) =~= plus_scaled(moved, v[0], all));
    lemma_eval_plus_scaled(moved, v[0], all, x);
    E::law_add_commutes(eval(moved, x), v[0].spec_mul(eval(all, x)));
}

/// The sum of the powers of a power of the root: the order, or zero.
proof fn lemma_power_sum<E: RootsOfUnity>(k: nat, a: nat)
    requires
        roots_match::<E>(k),
        a < pow2(k),
    ensures
        eval(ones::<E>(pow2(k)), pow(E::spec_rou_fwd(k), a)) == if a == 0 {
            eval(ones::<E>(pow2(k)), E::spec_one())
        } else {
            E::spec_zero()
        },
{
    if a > 0 {
        let (w, n) = (E::spec_rou_fwd(k), pow2(k));
        vstd::arithmetic::power2::lemma2_to64();
        assert(k > 0);
        let z = pow(w, a);
        let s = eval(ones::<E>(n), z);
        lemma_geometric_sum(z, n);
        lemma_root_order::<E>(k);
        lemma_pow_multiplies(w, a, n);
        lemma_pow_multiplies(w, n, a);
        assert(a * n == n * a) by (nonlinear_arith);
        lemma_pow_of_one::<E>(a);
        lemma_sub_self(E::spec_one());
        lemma_powers_differ(w, k, a);
        let d = z.spec_sub(E::spec_one());
        let b = choose|b: E| inverts(d, b);
        lemma_eval_reduced(ones::<E>(n), z);
        lemma_invertible_cancels(d, s, b);
    }
}

/// Transforming forth and back multiplies by the order.
proof fn lemma_transforms_invert<E: RootsOfUnity>(v: Seq<E>, k: nat, a: nat)
    requires
        roots_match::<E>(k),
        v.len() <= pow2(k),
        a < pow2(k),
    ensures
        eval(transformed(v, E::spec_rou_rev(k), pow2(k)), pow(E::spec_rou_fwd(k), a)) == if a < v.len() {
            v[a as int].spec_mul(eval(ones::<E>(pow2(k)), E::spec_one()))
        } else {
            E::spec_zero()
        },
    decreases v.len(),
{
    let (w, r, n) = (E::spec_rou_fwd(k), E::spec_rou_rev(k), pow2(k));
    let x = pow(w, a);
    if v.len() == 0 {
        assert(transformed(v, r, n) =~= zeros::<E>(n));
        lemma_eval_zeros(n, x);
    } else {
        let tail = v.drop_first();
        let order = eval(ones::<E>(n), E::spec_one());
        lemma_transformed_step(v, r, n, x);
        lemma_power_sum::<E>(k, a);
        E::law_mul_commutes(w, r);
        if a == 0 {
            // r * 1 is the last power of w
            let b = (n - 1) as nat;
            lemma_root_order::<E>(k);
            assert(pow(w, n) == w.spec_mul(pow(w, b)));
            E::law_mul_associates(r, w, pow(w, b));
            lemma_pow_reduced(w, b);
            lemma_mul_one(pow(w, b));
            assert(r.spec_mul(x) == pow(w, b));
            lemma_transforms_invert(tail, k, b);
            E::law_reduced(v[0], order);
        } else {
            let b = (a - 1) as nat;
            E::law_mul_associates(r, w, pow(w, b));
            lemma_pow_reduced(w, b);
            lemma_mul_one(pow(w, b));
            assert(r.spec_mul(x) == pow(w, b));
            lemma_transforms_invert(tail, k, b);
            lemma_mul_zero(v[0]);
            lemma_eval_reduced(transformed(tail, r, n), pow(w, b));
            lemma_zero_add(eval(transformed(tail, r, n), pow(w, b)));
        }
    }
}

/// The sum of `n` ones is the image of `n`.
proof fn lemma_sum_of_ones<E: Elem>(n: nat)
    requires
        n <= u64::MAX,
    ensures
        eval(ones::<E>(n), E::spec_one()) == E::spec_from_u64(n as u64),
    decreases n,
{
    let one = E::spec_one();
    if n == 0 {
        E::law_from_u64(0);
    } else {
        let m = (n - 1) as nat;
        lemma_sum_of_ones::<E>(m);
        assert(ones::<E>(n).drop_first() =~= ones::<E>(m));
        lemma_eval_reduced(ones::<E>(m), one);
        lemma_mul_one(eval(ones::<E>(m), one));
        E::law_add_commutes(one, eval(ones::<E>(m), one));
        E::law_from_u64(m as u64);
    }
}

/// The polynomial interpolated from values takes those values on the domain of
/// roots of unity.
pub proof fn law_interpolation_is_exact<E: RootsOfUnity>(v: Seq<E>, i: int)
    requires
        is_power_of_two(v.len()),
        v.len() <= u64::MAX,
        roots_match::<E>(log2(v.len())),
        0 <= i < v.len(),
        reduced(v[i]),
    ensures
        eval(bit_reversed(interpolated(v)), pow(E::spec_rou_fwd(log2(v.len())), i as nat)) == v[i],
{
    let (k, n) = (log2(v.len()), v.len());
    let (w, r) = (E::spec_rou_fwd(k), E::spec_rou_rev(k));
    let x = pow(w, i as nat);
    let t = transformed(v, r, n);
    let scale = E::spec_from_u64(n as u64).spec_inv();
    let c = bit_reversed(interpolated(v));
    assert forall|j: int| 0 <= j < n implies c[j] == plus_scaled(zeros::<E>(n), scale, t)[j] by {
        lemma_bit_reverse_bound(k, j as nat);
        lemma_bit_reverse_involutive(k, j as nat);
        E::law_mul_commutes(t[j], scale);
        E::law_reduced(scale, t[j]);
        lemma_zero_add(scale.spec_mul(t[j]));
    }
    assert(c =~= plus_scaled(zeros::<E>(n), scale, t));
    lemma_eval_plus_scaled(zeros::<E>(n), scale, t, x);
    lemma_eval_zeros(n, x);
    let e = eval(t, x);
    E::law_reduced(scale, e);
    lemma_zero_add(scale.spec_mul(e));
    lemma_transforms_invert(v, k, i as nat);
    lemma_sum_of_ones::<E>(n);
    // scale * (v * n) == v
    let order = E::spec_from_u64(n as u64);
    E::law_mul_commutes(scale, v[i].spec_mul(order));
    E::law_mul_associates(v[i], order, scale);
    lemma_mul_one(v[i]);
}

} // verus!
