//! The algebra the prover computes in.
//!
//! A field element type supplies the operations as executable functions and,
//! next to them, the mathematical operations they compute together with the
//! ring laws those satisfy.
use vstd::prelude::*;

verus! {

/// A deterministic stream of 32-bit words.
pub trait RngCore: Sized {
    /// The next word of the stream, and the stream after it.
    spec fn spec_next(self) -> (u32, Self);

    /// Takes the next word off the stream.
    fn next_u32(&mut self) -> (word: u32)
        ensures
            (word, *final(self)) == old(self).spec_next(),
    ;
}

/// An element of a commutative ring.
///
/// A type may represent an element of the ring in more than one way. One of
/// the representations is the reduced one: adding zero returns it unchanged.
/// The operations give reduced results for all arguments.
pub trait Elem: Sized + Copy {
    spec fn spec_zero() -> Self;

    spec fn spec_one() -> Self;

    spec fn spec_add(self, rhs: Self) -> Self;

    spec fn spec_sub(self, rhs: Self) -> Self;

    spec fn spec_mul(self, rhs: Self) -> Self;

    /// The image of an integer.
    spec fn spec_from_u64(n: u64) -> Self;

    /// The words that stand for this element in a proof.
    spec fn spec_words(self) -> Seq<u32>;

    /// The words that represent this element in memory.
    spec fn spec_raw_words(self) -> Seq<u32>;

    /// The number of random words that determine a random element.
    spec fn spec_draw_size() -> nat;

    /// The element that random words determine.
    spec fn spec_from_draw(words: Seq<u32>) -> Self;

    proof fn law_add_commutes(a: Self, b: Self)
        ensures
            a.spec_add(b) == b.spec_add(a),
    ;

    proof fn law_add_associates(a: Self, b: Self, c: Self)
        ensures
            a.spec_add(b).spec_add(c) == a.spec_add(b.spec_add(c)),
    ;

    proof fn law_sub(a: Self, b: Self)
        ensures
            a.spec_sub(b).spec_add(b) == a.spec_add(Self::spec_zero()),
    ;

    proof fn law_mul_commutes(a: Self, b: Self)
        ensures
            a.spec_mul(b) == b.spec_mul(a),
    ;

    proof fn law_mul_associates(a: Self, b: Self, c: Self)
        ensures
            a.spec_mul(b).spec_mul(c) == a.spec_mul(b.spec_mul(c)),
    ;

    proof fn law_mul_one(a: Self)
        ensures
            a.spec_mul(Self::spec_one()) == a.spec_add(Self::spec_zero()),
    ;

    proof fn law_distributes(a: Self, b: Self, c: Self)
        ensures
            a.spec_mul(b.spec_add(c)) == a.spec_mul(b).spec_add(a.spec_mul(c)),
    ;

    /// The image of an integer is the sum of that many ones.
    proof fn law_from_u64(n: u64)
        ensures
            Self::spec_from_u64(0) == Self::spec_zero(),
            n < u64::MAX ==> Self::spec_from_u64((n + 1) as u64) == Self::spec_from_u64(n).spec_add(
                Self::spec_one(),
            ),
    ;

    /// Results of the operations are reduced.
    proof fn law_reduced(a: Self, b: Self)
        ensures
            Self::spec_zero().spec_add(Self::spec_zero()) == Self::spec_zero(),
            Self::spec_one().spec_add(Self::spec_zero()) == Self::spec_one(),
            a.spec_add(b).spec_add(Self::spec_zero()) == a.spec_add(b),
            a.spec_sub(b).spec_add(Self::spec_zero()) == a.spec_sub(b),
            a.spec_mul(b).spec_add(Self::spec_zero()) == a.spec_mul(b),
    ;

    fn zero() -> (r: Self)
        ensures
            r == Self::spec_zero(),
    ;

    fn one() -> (r: Self)
        ensures
            r == Self::spec_one(),
    ;

    fn plus(self, rhs: Self) -> (r: Self)
        ensures
            r == self.spec_add(rhs),
    ;

    fn minus(self, rhs: Self) -> (r: Self)
        ensures
            r == self.spec_sub(rhs),
    ;

    fn times(self, rhs: Self) -> (r: Self)
        ensures
            r == self.spec_mul(rhs),
    ;

    fn from_u64(n: u64) -> (r: Self)
        ensures
            r == Self::spec_from_u64(n),
    ;

    fn is_same(self, rhs: Self) -> (r: bool)
        ensures
            r == (self == rhs),
    ;

    fn to_u32_words(self) -> (words: Vec<u32>)
        ensures
            words@ == self.spec_words(),
    ;

    fn to_raw_words(self) -> (words: Vec<u32>)
        ensures
            words@ == self.spec_raw_words(),
    ;

    fn draw_size() -> (r: usize)
        ensures
            r == Self::spec_draw_size(),
    ;

    fn from_draw(words: &[u32]) -> (r: Self)
        requires
            words@.len() == Self::spec_draw_size(),
        ensures
            r == Self::spec_from_draw(words@),
    ;
}

/// The next `k` words of a stream, and the stream after them.
pub open spec fn words_drawn<R: RngCore>(rng: R, k: nat) -> (Seq<u32>, R)
    decreases k,
{
    if k == 0 {
        (Seq::empty(), rng)
    } else {
        let (before, ready) = words_drawn(rng, (k - 1) as nat);
        let (word, after) = ready.spec_next();
        (before.push(word), after)
    }
}

/// The element drawn from a stream, and the stream after the draw.
pub open spec fn elem_drawn<E: Elem, R: RngCore>(rng: R) -> (E, R) {
    let (words, after) = words_drawn(rng, E::spec_draw_size());
    (E::spec_from_draw(words), after)
}

/// Draws an element from a stream.
pub fn draw_elem<E: Elem, R: RngCore>(rng: &mut R) -> (r: E)
    ensures
        (r, *final(rng)) == elem_drawn::<E, R>(*old(rng)),
{
    let ghost start = *rng;
    let size: usize = E::draw_size();
    let mut words: Vec<u32> = Vec::new();
    let mut k: usize = 0;
    while k < size
        invariant
            k <= size,
            words@.len() == k,
            (words@, *rng) == words_drawn(start, k as nat),
        decreases size - k,
    {
        let word = rng.next_u32();
        words.push(word);
        k = k + 1;
    }
    E::from_draw(words.as_slice())
}

/// An element of a ring in which one can divide.
pub trait Field: Elem {
    /// The inverse of this element, where it has one.
    spec fn spec_inv(self) -> Self;

    fn inv(self) -> (r: Self)
        ensures
            r == self.spec_inv(),
    ;
}

/// A field whose roots of unity of order `2^po2` are known.
pub trait RootsOfUnity: Field {
    /// The largest `po2` for which a root is known.
    spec fn spec_max_rou_po2() -> nat;

    /// The root of order `2^po2` that generates the forward transform.
    spec fn spec_rou_fwd(po2: nat) -> Self;

    /// The root of order `2^po2` that generates the reverse transform.
    spec fn spec_rou_rev(po2: nat) -> Self;

    fn max_rou_po2() -> (r: usize)
        ensures
            r == Self::spec_max_rou_po2(),
    ;

    fn rou_fwd(po2: usize) -> (r: Self)
        requires
            po2 <= Self::spec_max_rou_po2(),
        ensures
            r == Self::spec_rou_fwd(po2 as nat),
    ;

    fn rou_rev(po2: usize) -> (r: Self)
        requires
            po2 <= Self::spec_max_rou_po2(),
        ensures
            r == Self::spec_rou_rev(po2 as nat),
    ;
}

/// An extension of another ring, of fixed dimension over it.
pub trait ExtElem: Field {
    type SubElem: Elem;

    /// The dimension of the extension.
    spec fn spec_ext_size() -> nat;

    /// The image of an element of the base ring.
    spec fn spec_from_subfield(x: Self::SubElem) -> Self;

    /// The coordinates of this element over the base ring.
    spec fn spec_subelems(self) -> Seq<Self::SubElem>;

    /// The element with the given coordinates.
    spec fn spec_from_subelems(elems: Seq<Self::SubElem>) -> Self;

    proof fn law_ext_size()
        ensures
            1 <= Self::spec_ext_size() <= 0xffff,
    ;

    proof fn law_subelems(x: Self)
        ensures
            x.spec_subelems().len() == Self::spec_ext_size(),
            Self::spec_from_subelems(x.spec_subelems()) == x,
    ;

    /// The base ring keeps its structure in the extension.
    proof fn law_from_subfield(a: Self::SubElem, b: Self::SubElem)
        ensures
            Self::spec_from_subfield(Self::SubElem::spec_zero()) == Self::spec_zero(),
            Self::spec_from_subfield(Self::SubElem::spec_one()) == Self::spec_one(),
            Self::spec_from_subfield(a.spec_add(b)) == Self::spec_from_subfield(a).spec_add(
                Self::spec_from_subfield(b),
            ),
            Self::spec_from_subfield(a.spec_mul(b)) == Self::spec_from_subfield(a).spec_mul(
                Self::spec_from_subfield(b),
            ),
    ;

    fn ext_size() -> (r: usize)
        ensures
            r == Self::spec_ext_size(),
    ;

    fn from_subfield(x: &Self::SubElem) -> (r: Self)
        ensures
            r == Self::spec_from_subfield(*x),
    ;

    fn subelems(self) -> (r: Vec<Self::SubElem>)
        ensures
            r@ == self.spec_subelems(),
    ;

    fn from_subelems(elems: &Vec<Self::SubElem>) -> (r: Self)
        requires
            elems@.len() == Self::spec_ext_size(),
        ensures
            r == Self::spec_from_subelems(elems@),
    ;
}

/// `x` has an inverse, and `spec_inv` gives it.
pub open spec fn invertible<E: Field>(x: E) -> bool {
    x.spec_mul(x.spec_inv()) == E::spec_one()
}

/// One can divide by everything but zero.
pub open spec fn divides_all<E: Field>() -> bool {
    forall|x: E| reduced(x) && x != E::spec_zero() ==> #[trigger] invertible(x)
}

/// `x` multiplied with itself `n` times.
pub open spec fn pow<E: Elem>(x: E, n: nat) -> E
    decreases n,
{
    if n == 0 {
        E::spec_one()
    } else {
        x.spec_mul(pow(x, (n - 1) as nat))
    }
}

/// `x` is represented in the reduced way.
pub open spec fn reduced<E: Elem>(x: E) -> bool {
    x.spec_add(E::spec_zero()) == x
}

/// All elements are reduced.
pub open spec fn all_reduced<E: Elem>(s: Seq<E>) -> bool {
    forall|i: int| 0 <= i < s.len() ==> reduced(#[trigger] s[i])
}

/// Adding the same element on the right can be undone.
pub proof fn lemma_add_cancels<E: Elem>(a: E, b: E, c: E)
    requires
        reduced(a),
        reduced(b),
        a.spec_add(c) == b.spec_add(c),
    ensures
        a == b,
{
    let zero = E::spec_zero();
    let n = zero.spec_sub(c);
    E::law_reduced(zero, zero);
    E::law_sub(zero, c);
    E::law_add_commutes(n, c);
    E::law_add_associates(a, c, n);
    E::law_add_associates(b, c, n);
}

/// Zero on the left does nothing either.
pub proof fn lemma_zero_add<E: Elem>(a: E)
    requires
        reduced(a),
    ensures
        E::spec_zero().spec_add(a) == a,
{
    E::law_add_commutes(E::spec_zero(), a);
}

pub proof fn lemma_sub_self<E: Elem>(a: E)
    ensures
        a.spec_sub(a) == E::spec_zero(),
{
    E::law_reduced(a, a);
    E::law_sub(a, a);
    E::law_add_commutes(a, E::spec_zero());
    lemma_add_cancels(a.spec_sub(a), E::spec_zero(), a);
}

/// `a - b` is the only reduced `c` with `c + b == a`.
pub proof fn lemma_sub_unique<E: Elem>(a: E, b: E, c: E)
    requires
        reduced(c),
        c.spec_add(b) == a.spec_add(E::spec_zero()),
    ensures
        a.spec_sub(b) == c,
{
    E::law_reduced(a, b);
    E::law_sub(a, b);
    lemma_add_cancels(a.spec_sub(b), c, b);
}

pub proof fn lemma_mul_zero<E: Elem>(a: E)
    ensures
        a.spec_mul(E::spec_zero()) == E::spec_zero(),
        E::spec_zero().spec_mul(a) == E::spec_zero(),
{
    let z = E::spec_zero();
    let p = a.spec_mul(z);
    E::law_reduced(a, z);
    E::law_distributes(a, z, z);
    E::law_add_commutes(p, z);
    lemma_add_cancels(p, z, p);
    E::law_mul_commutes(a, z);
}

/// Reducing a factor does not change the product.
pub proof fn lemma_mul_reduced<E: Elem>(a: E, b: E)
    ensures
        a.spec_mul(b.spec_add(E::spec_zero())) == a.spec_mul(b),
        b.spec_add(E::spec_zero()).spec_mul(a) == b.spec_mul(a),
{
    let z = E::spec_zero();
    E::law_distributes(a, b, z);
    lemma_mul_zero(a);
    E::law_reduced(a, b);
    E::law_mul_commutes(a, b);
    E::law_mul_commutes(a, b.spec_add(z));
}

/// Multiplying by one does nothing to a reduced element.
pub proof fn lemma_mul_one<E: Elem>(a: E)
    requires
        reduced(a),
    ensures
        a.spec_mul(E::spec_one()) == a,
        E::spec_one().spec_mul(a) == a,
{
    E::law_mul_one(a);
    E::law_mul_commutes(a, E::spec_one());
}

pub proof fn lemma_distributes_right<E: Elem>(a: E, b: E, c: E)
    ensures
        a.spec_add(b).spec_mul(c) == a.spec_mul(c).spec_add(b.spec_mul(c)),
{
    E::law_mul_commutes(a.spec_add(b), c);
    E::law_mul_commutes(a, c);
    E::law_mul_commutes(b, c);
    E::law_distributes(c, a, b);
}

/// Four summands can be paired the other way round.
pub proof fn lemma_add_swap<E: Elem>(a: E, b: E, c: E, d: E)
    ensures
        a.spec_add(b).spec_add(c.spec_add(d)) == a.spec_add(c).spec_add(b.spec_add(d)),
{
    E::law_add_associates(a, b, c.spec_add(d));
    E::law_add_associates(b, c, d);
    E::law_add_commutes(b, c);
    E::law_add_associates(c, b, d);
    E::law_add_associates(a, c, b.spec_add(d));
}

/// The difference of two sums is the sum of the differences.
pub proof fn lemma_sub_sums<E: Elem>(a: E, b: E, c: E, d: E)
    ensures
        a.spec_add(b).spec_sub(c.spec_add(d)) == a.spec_sub(c).spec_add(b.spec_sub(d)),
{
    let (e, f, zero) = (a.spec_sub(c), b.spec_sub(d), E::spec_zero());
    E::law_sub(a, c);
    E::law_sub(b, d);
    lemma_add_swap(e, f, c, d);
    lemma_add_swap(a, zero, b, zero);
    E::law_reduced(zero, zero);
    E::law_reduced(e, f);
    lemma_sub_unique(a.spec_add(b), c.spec_add(d), e.spec_add(f));
}

/// Multiplication distributes over differences.
pub proof fn lemma_mul_sub<E: Elem>(a: E, b: E, c: E)
    ensures
        a.spec_mul(b.spec_sub(c)) == a.spec_mul(b).spec_sub(a.spec_mul(c)),
{
    let d = b.spec_sub(c);
    E::law_sub(b, c);
    E::law_distributes(a, d, c);
    lemma_mul_reduced(a, b);
    E::law_reduced(a, d);
    E::law_reduced(a, b);
    lemma_sub_unique(a.spec_mul(b), a.spec_mul(c), a.spec_mul(d));
}

/// An invertible factor of a vanishing product leaves the other factor zero.
pub proof fn lemma_invertible_cancels<E: Elem>(a: E, b: E, a_inv: E)
    requires
        reduced(b),
        a.spec_mul(b) == E::spec_zero(),
        a.spec_mul(a_inv) == E::spec_one(),
    ensures
        b == E::spec_zero(),
{
    E::law_mul_commutes(a, a_inv);
    E::law_mul_associates(a_inv, a, b);
    lemma_mul_zero(a_inv);
    lemma_mul_one(b);
}

pub proof fn lemma_pow_reduced<E: Elem>(x: E, n: nat)
    ensures
        reduced(pow(x, n)),
{
    if n == 0 {
        E::law_reduced(x, x);
    } else {
        E::law_reduced(x, pow(x, (n - 1) as nat));
    }
}

/// The first power of a reduced element is the element itself.
pub proof fn law_first_power<E: Elem>(x: E)
    requires
        reduced(x),
    ensures
        pow(x, 1) == x,
        pow(x, 0) == E::spec_one(),
{
    assert(pow(x, 0) == E::spec_one());
    lemma_mul_one(x);
}

/// Exponents add up under multiplication.
pub proof fn lemma_pow_adds<E: Elem>(x: E, m: nat, n: nat)
    ensures
        pow(x, m + n) == pow(x, m).spec_mul(pow(x, n)),
    decreases m,
{
    if m == 0 {
        lemma_pow_reduced(x, n);
        lemma_mul_one(pow(x, n));
    } else {
        let k = (m - 1) as nat;
        lemma_pow_adds(x, k, n);
        assert((m + n - 1) as nat == k + n);
        E::law_mul_associates(x, pow(x, k), pow(x, n));
    }
}

/// Exponents multiply under iteration.
pub proof fn lemma_pow_multiplies<E: Elem>(x: E, m: nat, n: nat)
    ensures
        pow(x, m * n) == pow(pow(x, m), n),
    decreases n,
{
    if n == 0 {
        assert(m * n == 0) by (nonlinear_arith)
            requires
                n == 0,
        ;
    } else {
        let k = (n - 1) as nat;
        lemma_pow_multiplies(x, m, k);
        assert(m * n == m + m * k) by (nonlinear_arith)
            requires
                n == k + 1,
        ;
        lemma_pow_adds(x, m, m * k);
    }
}

/// The powers of one are one.
pub proof fn lemma_pow_of_one<E: Elem>(n: nat)
    ensures
        pow(E::spec_one(), n) == E::spec_one(),
    decreases n,
{
    if n > 0 {
        lemma_pow_of_one::<E>((n - 1) as nat);
        E::law_reduced(E::spec_one(), E::spec_one());
        lemma_mul_one(E::spec_one());
    }
}

/// The power of a product is the product of the powers.
pub proof fn lemma_pow_of_product<E: Elem>(x: E, y: E, n: nat)
    ensures
        pow(x.spec_mul(y), n) == pow(x, n).spec_mul(pow(y, n)),
    decreases n,
{
    if n == 0 {
        lemma_pow_reduced(x, 0);
        lemma_mul_one(E::spec_one());
    } else {
        let k = (n - 1) as nat;
        let (p, q) = (pow(x, k), pow(y, k));
        lemma_pow_of_product(x, y, k);
        E::law_mul_associates(x, y, p.spec_mul(q));
        E::law_mul_associates(y, p, q);
        E::law_mul_commutes(y, p);
        E::law_mul_associates(p, y, q);
        E::law_mul_associates(x, p, y.spec_mul(q));
    }
}

/// Raises `x` to the power `n` by repeated squaring.
pub fn power<E: Elem>(x: E, n: u128) -> (r: E)
    ensures
        r == pow(x, n as nat),
{
    let mut acc = E::one();
    let mut base = x;
    let mut left: u128 = n;
    proof {
        lemma_pow_reduced(x, 0);
        lemma_pow_reduced(x, n as nat);
        lemma_mul_one(pow(x, n as nat));
    }
    while left > 0
        invariant
            reduced(acc),
            acc.spec_mul(pow(base, left as nat)) == pow(x, n as nat),
        decreases left,
    {
        let ghost half = (left / 2) as nat;
        let ghost (old_acc, old_base) = (acc, base);
        proof {
            lemma_pow_adds(base, half, half);
            lemma_pow_of_product(base, base, half);
        }
        if left % 2 == 1 {
            acc = acc.times(base);
            proof {
                assert(left as nat == 1 + (half + half));
                let p = pow(base, half + half);
                assert(pow(base, left as nat) == base.spec_mul(p));
                E::law_mul_associates(old_acc, old_base, p);
                E::law_reduced(old_acc, old_base);
            }
        } else {
            assert(left as nat == half + half);
        }
        base = base.times(base);
        left = left / 2;
    }
    proof {
        lemma_mul_one(acc);
    }
    acc
}

} // verus!
