//! Layouts of polynomials in flat buffers, and the transforms between their
//! coefficients and their values on a domain of roots of unity.
use crate::field::{lemma_mul_reduced, lemma_pow_of_product, pow, Elem, ExtElem, RootsOfUnity};
use crate::poly::{eval, lemma_eval_concat, lemma_eval_plus_scaled, plus_scaled};
use vstd::arithmetic::div_mod::{
    lemma_fundamental_div_mod, lemma_fundamental_div_mod_converse, lemma_mod_bound,
};
use vstd::arithmetic::power2::{lemma_pow2_adds, lemma_pow2_pos, lemma_pow2_unfold, pow2};
use vstd::prelude::*;

verus! {

/// The number of times `n` can be halved before it reaches one.
pub open spec fn log2(n: nat) -> nat
    decreases n,
{
    if n <= 1 {
        0
    } else {
        1 + log2(n / 2)
    }
}

/// `n` is a power of two.
pub open spec fn is_power_of_two(n: nat) -> bool {
    n == pow2(log2(n))
}

/// The number whose `bits` binary digits are those of `i` in reverse order.
pub open spec fn bit_reverse(bits: nat, i: nat) -> nat
    decreases bits,
{
    if bits == 0 {
        0
    } else {
        (i % 2) * pow2((bits - 1) as nat) + bit_reverse((bits - 1) as nat, i / 2)
    }
}

/// The entries of `s`, each moved to the bit-reversed position.
pub open spec fn bit_reversed<T>(s: Seq<T>) -> Seq<T> {
    Seq::new(s.len(), |i: int| s[bit_reverse(log2(s.len()), i as nat) as int])
}

/// The `k`-th piece of length `n`.
pub open spec fn chunk<T>(s: Seq<T>, n: nat, k: int) -> Seq<T> {
    s.subrange(k * n, k * n + n)
}

/// `count` pieces of length `n` laid out one after the other.
pub open spec fn joined<T>(count: nat, n: nat, piece: spec_fn(int) -> Seq<T>) -> Seq<T> {
    Seq::new(count * n, |i: int| piece(i / n as int)[i % n as int])
}

/// A buffer of `len` entries holds `count` polynomials of `2^po2` coefficients
/// for some `po2`.
pub open spec fn holds_polys(len: nat, count: nat) -> bool {
    &&& count > 0
    &&& len == count * (len / count)
    &&& is_power_of_two(len / count)
}

/// The coefficient of `x^j` of the polynomial of degree below `v.len()` whose
/// value at the `i`-th power of the root of order `v.len()` is `v[i]`.
pub open spec fn interpolated_coeff<E: RootsOfUnity>(v: Seq<E>, j: nat) -> E {
    eval(v, pow(E::spec_rou_rev(log2(v.len())), j)).spec_mul(E::spec_from_u64(v.len() as u64).spec_inv())
}

/// The coefficients of the polynomial with values `v`, in bit-reversed order.
pub open spec fn interpolated<E: RootsOfUnity>(v: Seq<E>) -> Seq<E> {
    Seq::new(v.len(), |p: int| interpolated_coeff(v, bit_reverse(log2(v.len()), p as nat)))
}

/// The values, on the domain of size `n`, of the polynomial `p`.
pub open spec fn values_on_domain<E: RootsOfUnity>(p: Seq<E>, n: nat) -> Seq<E> {
    Seq::new(n, |i: int| eval(p, pow(E::spec_rou_fwd(log2(n)), i as nat)))
}

/// The values, on the domain of size `n`, of the polynomial with bit-reversed
/// coefficients `c`.
pub open spec fn evaluated<E: RootsOfUnity>(c: Seq<E>, n: nat) -> Seq<E> {
    values_on_domain(bit_reversed(c), n)
}

/// Bit-reversed coefficients `c` with the one of `x^j` scaled by `3^j`.
pub open spec fn shifted<E: Elem>(c: Seq<E>) -> Seq<E> {
    Seq::new(
        c.len(),
        |p: int| c[p].spec_mul(pow(E::spec_from_u64(3), bit_reverse(log2(c.len()), p as nat))),
    )
}

/// Every `s`-th coefficient, starting with the `r`-th.
pub open spec fn stride<E>(c: Seq<E>, s: nat, r: int) -> Seq<E> {
    Seq::new(c.len() / s, |m: int| c[m * s + r])
}

/// A polynomial over the base ring, read as one over the extension.
pub open spec fn lifted<X: ExtElem>(p: Seq<X::SubElem>) -> Seq<X> {
    Seq::new(p.len(), |i: int| X::spec_from_subfield(p[i]))
}

pub proof fn lemma_log2_pow2(k: nat)
    ensures
        log2(pow2(k)) == k,
        is_power_of_two(pow2(k)),
        pow2(k) > 0,
    decreases k,
{
    lemma_pow2_pos(k);
    if k == 0 {
        vstd::arithmetic::power2::lemma2_to64();
    } else {
        lemma_pow2_unfold(k);
        lemma_pow2_pos((k - 1) as nat);
        lemma_log2_pow2((k - 1) as nat);
    }
}

pub proof fn lemma_bit_reverse_bound(bits: nat, i: nat)
    ensures
        bit_reverse(bits, i) < pow2(bits),
    decreases bits,
{
    lemma_pow2_pos(bits);
    if bits > 0 {
        let b = (bits - 1) as nat;
        lemma_bit_reverse_bound(b, i / 2);
        lemma_pow2_unfold(bits);
        assert((i % 2) * pow2(b) <= pow2(b)) by (nonlinear_arith)
            requires
                i % 2 <= 1,
        ;
    }
}

/// Reversing the low and the high digits separately and exchanging them.
pub proof fn lemma_bit_reverse_split(low: nat, high: nat, m: nat, r: nat)
    requires
        r < pow2(low),
    ensures
        bit_reverse(low + high, m * pow2(low) + r) == bit_reverse(low, r) * pow2(high) + bit_reverse(high, m),
    decreases low,
{
    if low == 0 {
        vstd::arithmetic::power2::lemma2_to64();
        assert(m * pow2(0) == m) by (nonlinear_arith)
            requires
                pow2(0) == 1,
        ;
        assert(0 * pow2(high) == 0);
    } else {
        let l = (low - 1) as nat;
        let i = m * pow2(low) + r;
        lemma_pow2_unfold(low);
        let h = pow2(l);
        assert(m * pow2(low) == 2 * (m * h)) by (nonlinear_arith)
            requires
                pow2(low) == 2 * h,
        ;
        assert(i % 2 == r % 2);
        assert(i / 2 == m * h + r / 2);
        lemma_bit_reverse_split(l, high, m, r / 2);
        lemma_pow2_adds(l, high);
        let (a, b) = (r % 2, bit_reverse(l, r / 2));
        assert((low + high - 1) as nat == l + high);
        assert((a * h + b) * pow2(high) == a * pow2(l + high) + b * pow2(high)) by (nonlinear_arith)
            requires
                pow2(l + high) == h * pow2(high),
        ;
    }
}

/// Reversing the digits twice changes nothing.
pub proof fn lemma_bit_reverse_involutive(bits: nat, i: nat)
    requires
        i < pow2(bits),
    ensures
        bit_reverse(bits, bit_reverse(bits, i)) == i,
    decreases bits,
{
    vstd::arithmetic::power2::lemma2_to64();
    if bits > 0 {
        let b = (bits - 1) as nat;
        lemma_pow2_unfold(bits);
        let (low, rest) = (i % 2, bit_reverse(b, i / 2));
        // The reversal of low * 2^b + rest, split at its top digit.
        lemma_bit_reverse_bound(b, i / 2);
        lemma_bit_reverse_split(b, 1, low, rest);
        lemma_bit_reverse_involutive(b, i / 2);
        assert(bit_reverse(0, low / 2) == 0);
        assert((low % 2) * pow2(0) == low) by (nonlinear_arith)
            requires
                low < 2,
                pow2(0) == 1,
        ;
        assert(bit_reverse(1, low) == (low % 2) * pow2(0) + bit_reverse(0, low / 2));
        assert(pow2(1) == 2);
    }
}

/// Position `k * n + i` lies at offset `i` of piece `k`.
pub proof fn lemma_position(n: nat, k: int, i: int)
    requires
        0 <= i < n,
    ensures
        (k * n + i) / n as int == k,
        (k * n + i) % n as int == i,
{
    lemma_fundamental_div_mod_converse(k * n + i, n as int, k, i);
}

/// Every position of `count` pieces of length `n` lies in one of them.
pub proof fn lemma_position_bounds(count: nat, n: nat, i: int)
    requires
        0 <= i < count * n,
    ensures
        n > 0,
        0 <= i / n as int,
        i / (n as int) < count,
        0 <= i % n as int,
        i % (n as int) < n,
        (i / n as int) * n + i % n as int == i,
{
    if n == 0 {
        assert(count * n == 0) by (nonlinear_arith)
            requires
                n == 0,
        ;
    }
    let d = n as int;
    lemma_fundamental_div_mod(i, d);
    lemma_mod_bound(i, d);
    let q = i / d;
    assert(d * q == q * n) by (nonlinear_arith)
        requires
            d == n,
    ;
    assert(0 <= q) by (nonlinear_arith)
        requires
            i == d * q + i % d,
            0 <= i,
            i % d < d,
            d > 0,
    ;
    assert(q < count) by (nonlinear_arith)
        requires
            i == d * q + i % d,
            i < count * n,
            0 <= i % d,
            d == n,
            d > 0,
    ;
}

/// A piece lies within the buffer.
pub proof fn lemma_chunk_bounds(count: nat, n: nat, k: int)
    requires
        0 <= k < count,
    ensures
        0 <= k * n,
        k * n + n <= count * n,
{
    assert(0 <= k * n && k * n + n <= count * n) by (nonlinear_arith)
        requires
            0 <= k < count,
    ;
}

/// A piece of joined pieces is the piece that was put there.
pub proof fn lemma_chunk_of_joined<T>(count: nat, n: nat, piece: spec_fn(int) -> Seq<T>, k: int)
    requires
        0 <= k < count,
        piece(k).len() == n,
    ensures
        joined(count, n, piece).len() == count * n,
        chunk(joined(count, n, piece), n, k) == piece(k),
{
    lemma_chunk_bounds(count, n, k);
    let s = joined(count, n, piece);
    assert forall|i: int| 0 <= i < n implies chunk(s, n, k)[i] == piece(k)[i] by {
        lemma_position(n, k, i);
        assert(chunk(s, n, k)[i] == s[k * n + i]);
    }
    assert(chunk(s, n, k) =~= piece(k));
}

/// A sequence is determined by its pieces.
pub proof fn lemma_joined_chunks<T>(s: Seq<T>, count: nat, n: nat, piece: spec_fn(int) -> Seq<T>)
    requires
        s.len() == count * n,
        forall|k: int| 0 <= k < count ==> #[trigger] chunk(s, n, k) == piece(k),
    ensures
        s == joined(count, n, piece),
{
    let t = joined(count, n, piece);
    assert forall|i: int| 0 <= i < s.len() implies s[i] == t[i] by {
        lemma_position_bounds(count, n, i);
        let k = i / n as int;
        lemma_chunk_bounds(count, n, k);
        assert(chunk(s, n, k)[i % n as int] == s[k * n + i % n as int]);
    }
    assert(s =~= t);
}

/// A buffer of `count` polynomials of `2^k` coefficients is recognised as such.
pub proof fn lemma_holds_polys(count: nat, k: nat)
    requires
        count > 0,
    ensures
        holds_polys(count * pow2(k), count),
        (count * pow2(k)) / count == pow2(k),
        log2((count * pow2(k)) / count) == k,
{
    let len = count * pow2(k);
    assert(len == pow2(k) * count) by (nonlinear_arith)
        requires
            len == count * pow2(k),
    ;
    lemma_fundamental_div_mod_converse(len as int, count as int, pow2(k) as int, 0);
    lemma_log2_pow2(k);
}

/// Scaling the coefficient of `x^j` by `c^j` substitutes `c * x` for `x`.
pub proof fn lemma_eval_scaled_argument<E: Elem>(p: Seq<E>, c: E, x: E)
    ensures
        eval(Seq::new(p.len(), |j: int| p[j].spec_mul(pow(c, j as nat))), x) == eval(p, c.spec_mul(x)),
    decreases p.len(),
{
    let s = Seq::new(p.len(), |j: int| p[j].spec_mul(pow(c, j as nat)));
    if p.len() > 0 {
        let n = (p.len() - 1) as nat;
        let (init, last) = (p.take(n as int), p[n as int]);
        let (y, cn, xn) = (c.spec_mul(x), pow(c, n), pow(x, n));
        lemma_eval_scaled_argument(init, c, x);
        let si = Seq::new(init.len(), |j: int| init[j].spec_mul(pow(c, j as nat)));
        assert(s =~= si + seq![last.spec_mul(cn)]);
        assert(p =~= init + seq![last]);
        lemma_eval_concat(si, seq![last.spec_mul(cn)], x);
        lemma_eval_concat(init, seq![last], y);
        crate::poly::lemma_eval_constant(last.spec_mul(cn), x);
        crate::poly::lemma_eval_constant(last, y);
        lemma_pow_of_product(c, x, n);
        E::law_reduced(last, cn);
        lemma_mul_reduced(pow(y, n), last);
        // xn * (last * cn) == (cn * xn) * last
        E::law_mul_commutes(last, cn);
        E::law_mul_associates(xn, cn, last);
        E::law_mul_commutes(xn, cn);
    }
}

/// Shifting the coefficients of `f` gives those of `f(3x)`.
pub proof fn law_shift_substitutes<E: Elem>(c: Seq<E>, x: E)
    requires
        is_power_of_two(c.len()),
    ensures
        eval(bit_reversed(shifted(c)), x) == eval(bit_reversed(c), E::spec_from_u64(3).spec_mul(x)),
{
    let three = E::spec_from_u64(3);
    let f = bit_reversed(c);
    let bits = log2(c.len());
    assert forall|j: int| 0 <= j < c.len() implies bit_reversed(shifted(c))[j] == f[j].spec_mul(
        pow(three, j as nat),
    ) by {
        lemma_bit_reverse_bound(bits, j as nat);
        lemma_bit_reverse_involutive(bits, j as nat);
    }
    assert(bit_reversed(shifted(c)) =~= Seq::new(f.len(), |j: int| f[j].spec_mul(pow(three, j as nat))));
    lemma_eval_scaled_argument(f, three, x);
}

/// A polynomial is recombined from its strides:
/// `f(x)` is the sum over `r` of `x^r * g_r(x^s)`.
pub proof fn law_strides_recombine<E: Elem>(c: Seq<E>, s: nat, n: nat, x: E)
    requires
        s > 0,
        c.len() == n * s,
    ensures
        eval(c, x) == eval(Seq::new(s, |r: int| eval(stride(c, s, r), pow(x, s))), x),
    decreases n,
{
    let y = pow(x, s);
    let parts = Seq::new(s, |r: int| eval(stride(c, s, r), y));
    lemma_fundamental_div_mod_converse(c.len() as int, s as int, n as int, 0);
    if n == 0 {
        assert(c.len() == 0) by (nonlinear_arith)
            requires
                c.len() == n * s,
                n == 0,
        ;
        assert(parts =~= crate::poly::zeros::<E>(s)) by {
            assert forall|r: int| 0 <= r < s implies parts[r] == E::spec_zero() by {
                assert(stride(c, s, r).len() == 0);
            }
        }
        crate::poly::lemma_eval_zeros(s, x);
    } else {
        let m = (n - 1) as nat;
        assert(c.len() == m * s + s) by (nonlinear_arith)
            requires
                c.len() == n * s,
                n == m + 1,
        ;
        assert(m * s >= 0) by (nonlinear_arith);
        let (head, rest) = (c.take(s as int), c.skip(s as int));
        law_strides_recombine(rest, s, m, x);
        lemma_fundamental_div_mod_converse(rest.len() as int, s as int, m as int, 0);
        let below = Seq::new(s, |r: int| eval(stride(rest, s, r), y));
        assert(c =~= head + rest);
        lemma_eval_concat(head, rest, x);
        assert(parts =~= plus_scaled(head, y, below)) by {
            assert forall|r: int| 0 <= r < s implies parts[r] == plus_scaled(head, y, below)[r] by {
                let g = stride(c, s, r);
                assert(g[0] == c[0 * s + r]);
                assert(0 * s + r == r) by (nonlinear_arith);
                assert forall|k: int| 0 <= k < m implies g.drop_first()[k] == stride(rest, s, r)[k] by {
                    assert((k + 1) * s + r == s + (k * s + r)) by (nonlinear_arith);
                    assert(0 <= k * s + r < m * s) by (nonlinear_arith)
                        requires
                            0 <= k < m,
                            0 <= r < s,
                    ;
                }
                assert(g.drop_first() =~= stride(rest, s, r));
            }
        }
        lemma_eval_plus_scaled(head, y, below, x);
    }
}

/// In a bit-reversed buffer of `2^(b + k)` coefficients the strides of width
/// `2^b` are already contiguous and bit-reversed: stride `r` is the piece of
/// length `2^k` at the bit-reversed place of `r`.
pub proof fn law_strides_are_contiguous<E>(s: Seq<E>, b: nat, k: nat, r: nat)
    requires
        s.len() == pow2(b + k),
        r < pow2(b),
    ensures
        stride(bit_reversed(s), pow2(b), r as int) == bit_reversed(
            chunk(s, pow2(k), bit_reverse(b, r) as int),
        ),
{
    let (w, n) = (pow2(b), pow2(k));
    lemma_pow2_adds(b, k);
    lemma_log2_pow2(b + k);
    lemma_log2_pow2(k);
    lemma_log2_pow2(b);
    let j = bit_reverse(b, r);
    lemma_bit_reverse_bound(b, r);
    lemma_chunk_bounds(w, n, j as int);
    assert(w * n == n * w) by (nonlinear_arith);
    lemma_fundamental_div_mod_converse(s.len() as int, w as int, n as int, 0);
    let left = stride(bit_reversed(s), w, r as int);
    let right = bit_reversed(chunk(s, n, j as int));
    assert forall|m: int| 0 <= m < n implies left[m] == right[m] by {
        lemma_bit_reverse_split(b, k, m as nat, r);
        lemma_bit_reverse_bound(k, m as nat);
        assert(0 <= m * w + r < n * w) by (nonlinear_arith)
            requires
                0 <= m < n,
                0 <= r < w,
        ;
        assert(m * w + r == (m as nat) * w + r);
    }
    assert(left =~= right);
}

/// Computes the exponent of a power of two.
pub fn log2_exact(n: usize) -> (r: usize)
    ensures
        r == log2(n as nat),
        r <= n,
{
    let mut left: usize = n;
    let mut r: usize = 0;
    while left > 1
        invariant
            r + log2(left as nat) == log2(n as nat),
            r + left <= n || (r == 0 && left == n),
        decreases left,
    {
        left = left / 2;
        r = r + 1;
    }
    r
}

/// Computes the reversal of the `bits` low binary digits of `i`.
pub fn bit_reverse_index(bits: usize, i: usize) -> (r: usize)
    requires
        pow2(bits as nat) <= usize::MAX,
    ensures
        r == bit_reverse(bits as nat, i as nat),
        r < pow2(bits as nat),
{
    let mut left: usize = i;
    let mut todo: usize = bits;
    let mut r: usize = 0;
    proof {
        vstd::arithmetic::power2::lemma2_to64();
        lemma_bit_reverse_bound(bits as nat, i as nat);
        assert(0 * pow2(bits as nat) == 0);
    }
    while todo > 0
        invariant
            todo <= bits,
            pow2(bits as nat) <= usize::MAX,
            bit_reverse(bits as nat, i as nat) == r * pow2(todo as nat) + bit_reverse(todo as nat, left as nat),
            r < pow2((bits - todo) as nat),
        decreases todo,
    {
        proof {
            let b = (todo - 1) as nat;
            lemma_pow2_unfold(todo as nat);
            lemma_pow2_unfold((bits - b) as nat);
            lemma_pow2_adds((bits - b) as nat, b);
            lemma_pow2_pos(b);
            assert(pow2((bits - b) as nat) <= pow2(bits as nat)) by (nonlinear_arith)
                requires
                    pow2(bits as nat) == pow2((bits - b) as nat) * pow2(b),
                    pow2(b) >= 1,
            ;
            let (p, h) = (pow2(todo as nat), pow2(b));
            assert(r * p + (left % 2) * h == (2 * r + left % 2) * h) by (nonlinear_arith)
                requires
                    p == 2 * h,
            ;
        }
        r = 2 * r + left % 2;
        left = left / 2;
        todo = todo - 1;
    }
    proof {
        assert(r * 1 == r);
    }
    r
}

} // verus!
