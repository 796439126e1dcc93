//! The Baby Bear field of integers modulo `15 * 2^27 + 1`, and its extension
//! of degree four.
use crate::field::{lemma_mul_one, lemma_pow_adds, lemma_pow_multiplies, lemma_pow_of_one};
use crate::field::{pow, power, reduced, Elem, ExtElem, Field, RootsOfUnity};
use crate::poly::inverts;
use crate::roots::roots_match;
use vstd::arithmetic::div_mod::{lemma_add_mod_noop, lemma_mod_multiples_vanish, lemma_mul_mod_noop, lemma_sub_mod_noop};
use vstd::arithmetic::div_mod::{ lemma_mul_mod_noop_left, lemma_mul_mod_noop_right};
use vstd::arithmetic::mul::{lemma_mul_is_associative, lemma_mul_is_commutative, lemma_mul_is_distributive_add};
use vstd::arithmetic::power2::{lemma2_to64, lemma_pow2_adds, lemma_pow2_strictly_increases, lemma_pow2_unfold, pow2};
use vstd::prelude::*;
use vstd::slice::slice_subrange;

verus! {

/// The modulus, `15 * 2^27 + 1`.
pub const P: u32 = 2013265921;

/// The largest exponent of a power of two that divides `P - 1`.
pub const MAX_ROU_PO2: usize = 27;

/// An element of order `2^MAX_ROU_PO2`.
pub const ROU_GENERATOR: u32 = 137;

/// The extension adjoins a fourth root of `-BETA`.
pub const BETA: u32 = 11;

/// The dimension of the extension.
pub const EXT_SIZE: usize = 4;

/// The number of random words that determine a random element.
pub const DRAW_SIZE: usize = 6;

/// An integer modulo `P`, represented by any number of its residue class.
#[derive(Clone, Copy, Debug, PartialEq, Eq, Structural)]
pub struct BabyBearElem {
    pub value: u32,
}

/// The remainder of `n` modulo `P`.
pub open spec fn remainder(n: int) -> u32 {
    (n % P as int) as u32
}

/// The reduced element that `n` represents.
pub open spec fn residue(n: int) -> BabyBearElem {
    BabyBearElem { value: remainder(n) }
}

/// `x` squared `k` times in succession.
pub open spec fn squared(x: BabyBearElem, k: nat) -> BabyBearElem
    decreases k,
{
    if k == 0 {
        x
    } else {
        squared(x, (k - 1) as nat).spec_mul(squared(x, (k - 1) as nat))
    }
}

/// The number with the given digits to base `2^32`, most significant first.
pub open spec fn number(digits: Seq<u32>) -> nat
    decreases digits.len(),
{
    if digits.len() == 0 {
        0
    } else {
        number(digits.drop_last()) * 0x1_0000_0000 + digits.last() as nat
    }
}

/// Reducing a number before a digit is appended does not change the residue.
pub(crate) proof fn lemma_next_digit(n: nat, digit: u32)
    ensures
        ((n % P as nat) * 0x1_0000_0000 + digit) % P as int == (n * 0x1_0000_0000 + digit) % P as int,
{
    let (q, r) = (n as int / 2013265921, n as int % 2013265921);
    lemma_mod_multiples_vanish(q * 0x1_0000_0000, r * 0x1_0000_0000 + digit, 2013265921);
}

impl Elem for BabyBearElem {
    open spec fn spec_zero() -> Self {
        BabyBearElem { value: 0 }
    }

    open spec fn spec_one() -> Self {
        BabyBearElem { value: 1 }
    }

    open spec fn spec_add(self, rhs: Self) -> Self {
        residue(self.value + rhs.value)
    }

    open spec fn spec_sub(self, rhs: Self) -> Self {
        residue(self.value - rhs.value)
    }

    open spec fn spec_mul(self, rhs: Self) -> Self {
        residue(self.value * rhs.value)
    }

    open spec fn spec_from_u64(n: u64) -> Self {
        residue(n as int)
    }

    open spec fn spec_words(self) -> Seq<u32> {
        seq![self.value]
    }

    open spec fn spec_raw_words(self) -> Seq<u32> {
        seq![self.value]
    }

    open spec fn spec_draw_size() -> nat {
        DRAW_SIZE as nat
    }

    open spec fn spec_from_draw(words: Seq<u32>) -> Self {
        residue(number(words) as int)
    }

    proof fn law_add_commutes(a: Self, b: Self) {
    }

    proof fn law_add_associates(a: Self, b: Self, c: Self) {
    }

    proof fn law_sub(a: Self, b: Self) {
    }

    proof fn law_mul_commutes(a: Self, b: Self) {
        assert(a.value * b.value == b.value * a.value) by (nonlinear_arith);
    }

    proof fn law_mul_associates(a: Self, b: Self, c: Self) {
        let (x, y, z, p) = (a.value as int, b.value as int, c.value as int, P as int);
        lemma_mul_mod_noop_left(x * y, z, p);
        lemma_mul_mod_noop_right(x, y * z, p);
        assert((x * y) * z == x * (y * z)) by (nonlinear_arith);
    }

    proof fn law_mul_one(a: Self) {
    }

    proof fn law_distributes(a: Self, b: Self, c: Self) {
        let (x, y, z, p) = (a.value as int, b.value as int, c.value as int, P as int);
        lemma_mul_mod_noop_right(x, y + z, p);
        assert(x * (y + z) == x * y + x * z) by (nonlinear_arith);
        lemma_add_mod_noop(x * y, x * z, p);
    }

    proof fn law_from_u64(n: u64) {
    }

    proof fn law_reduced(a: Self, b: Self) {
    }

    fn zero() -> (r: Self) {
        BabyBearElem { value: 0 }
    }

    fn one() -> (r: Self) {
        BabyBearElem { value: 1 }
    }

    fn plus(self, rhs: Self) -> (r: Self) {
        BabyBearElem { value: ((self.value as u64 + rhs.value as u64) % P as u64) as u32 }
    }

    fn minus(self, rhs: Self) -> (r: Self) {
        let negative: u64 = P as u64 - (rhs.value % P) as u64;
        BabyBearElem { value: ((self.value as u64 + negative) % P as u64) as u32 }
    }

    fn times(self, rhs: Self) -> (r: Self) {
        assert(self.value * rhs.value <= u64::MAX) by (nonlinear_arith);
        BabyBearElem { value: ((self.value as u64 * rhs.value as u64) % P as u64) as u32 }
    }

    fn from_u64(n: u64) -> (r: Self) {
        BabyBearElem { value: (n % P as u64) as u32 }
    }

    fn is_same(self, rhs: Self) -> (r: bool) {
        self.value == rhs.value
    }

    fn to_u32_words(self) -> (words: Vec<u32>) {
        vec![self.value]
    }

    fn to_raw_words(self) -> (words: Vec<u32>) {
        vec![self.value]
    }

    fn draw_size() -> (r: usize) {
        DRAW_SIZE
    }

    fn from_draw(words: &[u32]) -> (r: Self) {
        let mut value: u32 = 0;
        let mut k: usize = 0;
        while k < words.len()
            invariant
                k <= words@.len(),
                value == number(words@.take(k as int)) % P as nat,
            decreases words@.len() - k,
        {
            assert(words@.take(k + 1).drop_last() =~= words@.take(k as int));
            proof {
                lemma_next_digit(number(words@.take(k as int)), words@[k as int]);
            }
            value = ((value as u64 * 0x1_0000_0000 + words[k] as u64) % P as u64) as u32;
            k = k + 1;
        }
        assert(words@.take(k as int) =~= words@);
        BabyBearElem { value }
    }
}

impl Field for BabyBearElem {
    /// By Fermat's little theorem.
    open spec fn spec_inv(self) -> Self {
        pow(self, (P - 2) as nat)
    }

    fn inv(self) -> (r: Self) {
        power(self, P as u128 - 2)
    }
}

impl RootsOfUnity for BabyBearElem {
    open spec fn spec_max_rou_po2() -> nat {
        MAX_ROU_PO2 as nat
    }

    open spec fn spec_rou_fwd(po2: nat) -> Self {
        squared(BabyBearElem { value: ROU_GENERATOR }, (MAX_ROU_PO2 - po2) as nat)
    }

    open spec fn spec_rou_rev(po2: nat) -> Self {
        Self::spec_rou_fwd(po2).spec_inv()
    }

    fn max_rou_po2() -> (r: usize) {
        MAX_ROU_PO2
    }

    fn rou_fwd(po2: usize) -> (r: Self) {
        let mut x = BabyBearElem { value: ROU_GENERATOR };
        let mut k: usize = 0;
        while k < MAX_ROU_PO2 - po2
            invariant
                k <= MAX_ROU_PO2 - po2,
                x == squared(BabyBearElem { value: ROU_GENERATOR }, k as nat),
            decreases MAX_ROU_PO2 - po2 - k,
        {
            x = x.times(x);
            k = k + 1;
        }
        x
    }

    fn rou_rev(po2: usize) -> (r: Self) {
        Self::rou_fwd(po2).inv()
    }
}

/// A polynomial of degree less than four over the integers.
pub struct Quad {
    pub c0: int,
    pub c1: int,
    pub c2: int,
    pub c3: int,
}

impl Quad {
    /// The product modulo `t^4 + 11`.
    pub open spec fn times(self, rhs: Self) -> Self {
        let (a, b) = (self, rhs);
        Quad {
            c0: a.c0 * b.c0 - 11 * (a.c1 * b.c3 + a.c2 * b.c2 + a.c3 * b.c1),
            c1: a.c0 * b.c1 + a.c1 * b.c0 - 11 * (a.c2 * b.c3 + a.c3 * b.c2),
            c2: a.c0 * b.c2 + a.c1 * b.c1 + a.c2 * b.c0 - 11 * (a.c3 * b.c3),
            c3: a.c0 * b.c3 + a.c1 * b.c2 + a.c2 * b.c1 + a.c3 * b.c0,
        }
    }

    /// The product with the conjugate that has the odd coordinates negated is
    /// `even + square * t^2`; this is `even`.
    pub open spec fn even(self) -> int {
        self.c0 * self.c0 + 22 * (self.c1 * self.c3) - 11 * (self.c2 * self.c2)
    }

    /// And this is `square`.
    pub open spec fn square(self) -> int {
        2 * (self.c0 * self.c2) - self.c1 * self.c1 + 11 * (self.c3 * self.c3)
    }

    /// The product of all conjugates.
    pub open spec fn norm(self) -> int {
        self.even() * self.even() + 11 * (self.square() * self.square())
    }

    /// The product of the other conjugates.
    pub open spec fn adjoint(self) -> Self {
        let (u, v) = (self.even(), self.square());
        Quad {
            c0: self.c0 * u + 11 * (self.c2 * v),
            c1: -(self.c1 * u + 11 * (self.c3 * v)),
            c2: self.c2 * u - self.c0 * v,
            c3: self.c1 * v - self.c3 * u,
        }
    }

    /// The element of the extension with these coordinates.
    pub open spec fn reduce(self) -> BabyBearExtElem {
        BabyBearExtElem {
            c0: residue(self.c0),
            c1: residue(self.c1),
            c2: residue(self.c2),
            c3: residue(self.c3),
        }
    }
}

/// An element of the extension, by its coordinates over the powers of a fourth
/// root of `-11`.
#[derive(Clone, Copy, Debug, PartialEq, Eq, Structural)]
pub struct BabyBearExtElem {
    pub c0: BabyBearElem,
    pub c1: BabyBearElem,
    pub c2: BabyBearElem,
    pub c3: BabyBearElem,
}

impl BabyBearExtElem {
    /// The coordinates as integers.
    pub open spec fn quad(self) -> Quad {
        Quad {
            c0: self.c0.value as int,
            c1: self.c1.value as int,
            c2: self.c2.value as int,
            c3: self.c3.value as int,
        }
    }
}

/// `a * b` in terms of the quotient and the remainder of `a`.
proof fn lemma_split_product(a: int, b: int)
    ensures
        a * b == 2013265921 * ((a / 2013265921) * b) + (a % 2013265921) * b,
{
    let (q, r) = (a / 2013265921, a % 2013265921);
    assert(a * b == 2013265921 * (q * b) + r * b) by (nonlinear_arith)
        requires
            a == 2013265921 * q + r,
    ;
}

/// Reducing a factor first does not change the reduced product.
pub(crate) proof fn lemma_reduce_left(a: Quad, b: Quad)
    ensures
        a.reduce().quad().times(b).reduce() == a.times(b).reduce(),
{
    let p = P as int;
    let r = a.reduce().quad();
    let q = Quad { c0: a.c0 / p, c1: a.c1 / p, c2: a.c2 / p, c3: a.c3 / p };
    let (u, v) = (q.times(b), r.times(b));
    lemma_split_product(a.c0, b.c0);
    lemma_split_product(a.c0, b.c1);
    lemma_split_product(a.c0, b.c2);
    lemma_split_product(a.c0, b.c3);
    lemma_split_product(a.c1, b.c0);
    lemma_split_product(a.c1, b.c1);
    lemma_split_product(a.c1, b.c2);
    lemma_split_product(a.c1, b.c3);
    lemma_split_product(a.c2, b.c0);
    lemma_split_product(a.c2, b.c1);
    lemma_split_product(a.c2, b.c2);
    lemma_split_product(a.c2, b.c3);
    lemma_split_product(a.c3, b.c0);
    lemma_split_product(a.c3, b.c1);
    lemma_split_product(a.c3, b.c2);
    lemma_split_product(a.c3, b.c3);
    lemma_mod_multiples_vanish(u.c0, v.c0, p);
    lemma_mod_multiples_vanish(u.c1, v.c1, p);
    lemma_mod_multiples_vanish(u.c2, v.c2, p);
    lemma_mod_multiples_vanish(u.c3, v.c3, p);
}

pub(crate) proof fn lemma_times_commutes(a: Quad, b: Quad)
    ensures
        a.times(b) == b.times(a),
{
    lemma_mul_is_commutative(a.c0, b.c0);
    lemma_mul_is_commutative(a.c0, b.c1);
    lemma_mul_is_commutative(a.c0, b.c2);
    lemma_mul_is_commutative(a.c0, b.c3);
    lemma_mul_is_commutative(a.c1, b.c0);
    lemma_mul_is_commutative(a.c1, b.c1);
    lemma_mul_is_commutative(a.c1, b.c2);
    lemma_mul_is_commutative(a.c1, b.c3);
    lemma_mul_is_commutative(a.c2, b.c0);
    lemma_mul_is_commutative(a.c2, b.c1);
    lemma_mul_is_commutative(a.c2, b.c2);
    lemma_mul_is_commutative(a.c2, b.c3);
    lemma_mul_is_commutative(a.c3, b.c0);
    lemma_mul_is_commutative(a.c3, b.c1);
    lemma_mul_is_commutative(a.c3, b.c2);
    lemma_mul_is_commutative(a.c3, b.c3);
}

/// The product is additive in its second factor.
proof fn lemma_times_adds(a: Quad, b: Quad, c: Quad, d: Quad)
    requires
        d.c0 == b.c0 + c.c0,
        d.c1 == b.c1 + c.c1,
        d.c2 == b.c2 + c.c2,
        d.c3 == b.c3 + c.c3,
    ensures
        a.times(d).c0 == a.times(b).c0 + a.times(c).c0,
        a.times(d).c1 == a.times(b).c1 + a.times(c).c1,
        a.times(d).c2 == a.times(b).c2 + a.times(c).c2,
        a.times(d).c3 == a.times(b).c3 + a.times(c).c3,
{
    lemma_mul_is_distributive_add(a.c0, b.c0, c.c0);
    lemma_mul_is_distributive_add(a.c0, b.c1, c.c1);
    lemma_mul_is_distributive_add(a.c0, b.c2, c.c2);
    lemma_mul_is_distributive_add(a.c0, b.c3, c.c3);
    lemma_mul_is_distributive_add(a.c1, b.c0, c.c0);
    lemma_mul_is_distributive_add(a.c1, b.c1, c.c1);
    lemma_mul_is_distributive_add(a.c1, b.c2, c.c2);
    lemma_mul_is_distributive_add(a.c1, b.c3, c.c3);
    lemma_mul_is_distributive_add(a.c2, b.c0, c.c0);
    lemma_mul_is_distributive_add(a.c2, b.c1, c.c1);
    lemma_mul_is_distributive_add(a.c2, b.c2, c.c2);
    lemma_mul_is_distributive_add(a.c2, b.c3, c.c3);
    lemma_mul_is_distributive_add(a.c3, b.c0, c.c0);
    lemma_mul_is_distributive_add(a.c3, b.c1, c.c1);
    lemma_mul_is_distributive_add(a.c3, b.c2, c.c2);
    lemma_mul_is_distributive_add(a.c3, b.c3, c.c3);
}

/// A coordinate of a product, multiplied from the right.
proof fn lemma_expand_left(x: (int, int, int, int), y: (int, int, int, int), e: (int, int, int), z: int)
    ensures
        (x.0 * y.0 + e.0 * (x.1 * y.1) + e.1 * (x.2 * y.2) + e.2 * (x.3 * y.3)) * z == x.0 * (y.0 * z) + e.0 * (x.1
            * (y.1 * z)) + e.1 * (x.2 * (y.2 * z)) + e.2 * (x.3 * (y.3 * z)),
{
    let (a, b, c, d) = (x.0 * y.0, e.0 * (x.1 * y.1), e.1 * (x.2 * y.2), e.2 * (x.3 * y.3));
    assert((a + b + c + d) * z == a * z + b * z + c * z + d * z) by (nonlinear_arith);
    lemma_mul_is_associative(x.0, y.0, z);
    lemma_scaled_product(e.0, x.1, y.1, z);
    lemma_scaled_product(e.1, x.2, y.2, z);
    lemma_scaled_product(e.2, x.3, y.3, z);
}

proof fn lemma_scaled_product(e: int, x: int, y: int, z: int)
    ensures
        (e * (x * y)) * z == e * (x * (y * z)),
        x * (e * (y * z)) == e * (x * (y * z)),
{
    lemma_mul_is_associative(e, x * y, z);
    lemma_mul_is_associative(x, y, z);
    lemma_mul_is_associative(x, e, y * z);
    lemma_mul_is_associative(e, x, y * z);
    lemma_mul_is_commutative(e, x);
}

/// A coordinate of a product, multiplied from the left.
proof fn lemma_expand_right(x: int, y: (int, int, int, int), e: (int, int, int), z: (int, int, int, int))
    ensures
        x * (y.0 * z.0 + e.0 * (y.1 * z.1) + e.1 * (y.2 * z.2) + e.2 * (y.3 * z.3)) == x * (y.0 * z.0) + e.0 * (x
            * (y.1 * z.1)) + e.1 * (x * (y.2 * z.2)) + e.2 * (x * (y.3 * z.3)),
{
    let (a, b, c, d) = (y.0 * z.0, e.0 * (y.1 * z.1), e.1 * (y.2 * z.2), e.2 * (y.3 * z.3));
    assert(x * (a + b + c + d) == x * a + x * b + x * c + x * d) by (nonlinear_arith);
    lemma_scaled_product(e.0, x, y.1, z.1);
    lemma_scaled_product(e.1, x, y.2, z.2);
    lemma_scaled_product(e.2, x, y.3, z.3);
}

proof fn lemma_times_associates(a: Quad, b: Quad, c: Quad)
    ensures
        a.times(b).times(c) == a.times(b.times(c)),
{
    let (d, e) = (a.times(b), b.times(c));
    lemma_expand_left((a.c0, a.c1, a.c2, a.c3), (b.c0, b.c3, b.c2, b.c1), (-11, -11, -11), c.c0);
    lemma_expand_left((a.c0, a.c1, a.c2, a.c3), (b.c0, b.c3, b.c2, b.c1), (-11, -11, -11), c.c1);
    lemma_expand_left((a.c0, a.c1, a.c2, a.c3), (b.c0, b.c3, b.c2, b.c1), (-11, -11, -11), c.c2);
    lemma_expand_left((a.c0, a.c1, a.c2, a.c3), (b.c0, b.c3, b.c2, b.c1), (-11, -11, -11), c.c3);
    lemma_expand_left((a.c0, a.c1, a.c2, a.c3), (b.c1, b.c0, b.c3, b.c2), (1, -11, -11), c.c0);
    lemma_expand_left((a.c0, a.c1, a.c2, a.c3), (b.c1, b.c0, b.c3, b.c2), (1, -11, -11), c.c1);
    lemma_expand_left((a.c0, a.c1, a.c2, a.c3), (b.c1, b.c0, b.c3, b.c2), (1, -11, -11), c.c2);
    lemma_expand_left((a.c0, a.c1, a.c2, a.c3), (b.c1, b.c0, b.c3, b.c2), (1, -11, -11), c.c3);
    lemma_expand_left((a.c0, a.c1, a.c2, a.c3), (b.c2, b.c1, b.c0, b.c3), (1, 1, -11), c.c0);
    lemma_expand_left((a.c0, a.c1, a.c2, a.c3), (b.c2, b.c1, b.c0, b.c3), (1, 1, -11), c.c1);
    lemma_expand_left((a.c0, a.c1, a.c2, a.c3), (b.c2, b.c1, b.c0, b.c3), (1, 1, -11), c.c2);
    lemma_expand_left((a.c0, a.c1, a.c2, a.c3), (b.c2, b.c1, b.c0, b.c3), (1, 1, -11), c.c3);
    lemma_expand_left((a.c0, a.c1, a.c2, a.c3), (b.c3, b.c2, b.c1, b.c0), (1, 1, 1), c.c0);
    lemma_expand_left((a.c0, a.c1, a.c2, a.c3), (b.c3, b.c2, b.c1, b.c0), (1, 1, 1), c.c1);
    lemma_expand_left((a.c0, a.c1, a.c2, a.c3), (b.c3, b.c2, b.c1, b.c0), (1, 1, 1), c.c2);
    lemma_expand_left((a.c0, a.c1, a.c2, a.c3), (b.c3, b.c2, b.c1, b.c0), (1, 1, 1), c.c3);
    lemma_expand_right(a.c0, (b.c0, b.c1, b.c2, b.c3), (-11, -11, -11), (c.c0, c.c3, c.c2, c.c1));
    lemma_expand_right(a.c1, (b.c0, b.c1, b.c2, b.c3), (-11, -11, -11), (c.c0, c.c3, c.c2, c.c1));
    lemma_expand_right(a.c2, (b.c0, b.c1, b.c2, b.c3), (-11, -11, -11), (c.c0, c.c3, c.c2, c.c1));
    lemma_expand_right(a.c3, (b.c0, b.c1, b.c2, b.c3), (-11, -11, -11), (c.c0, c.c3, c.c2, c.c1));
    lemma_expand_right(a.c0, (b.c0, b.c1, b.c2, b.c3), (1, -11, -11), (c.c1, c.c0, c.c3, c.c2));
    lemma_expand_right(a.c1, (b.c0, b.c1, b.c2, b.c3), (1, -11, -11), (c.c1, c.c0, c.c3, c.c2));
    lemma_expand_right(a.c2, (b.c0, b.c1, b.c2, b.c3), (1, -11, -11), (c.c1, c.c0, c.c3, c.c2));
    lemma_expand_right(a.c3, (b.c0, b.c1, b.c2, b.c3), (1, -11, -11), (c.c1, c.c0, c.c3, c.c2));
    lemma_expand_right(a.c0, (b.c0, b.c1, b.c2, b.c3), (1, 1, -11), (c.c2, c.c1, c.c0, c.c3));
    lemma_expand_right(a.c1, (b.c0, b.c1, b.c2, b.c3), (1, 1, -11), (c.c2, c.c1, c.c0, c.c3));
    lemma_expand_right(a.c2, (b.c0, b.c1, b.c2, b.c3), (1, 1, -11), (c.c2, c.c1, c.c0, c.c3));
    lemma_expand_right(a.c3, (b.c0, b.c1, b.c2, b.c3), (1, 1, -11), (c.c2, c.c1, c.c0, c.c3));
    lemma_expand_right(a.c0, (b.c0, b.c1, b.c2, b.c3), (1, 1, 1), (c.c3, c.c2, c.c1, c.c0));
    lemma_expand_right(a.c1, (b.c0, b.c1, b.c2, b.c3), (1, 1, 1), (c.c3, c.c2, c.c1, c.c0));
    lemma_expand_right(a.c2, (b.c0, b.c1, b.c2, b.c3), (1, 1, 1), (c.c3, c.c2, c.c1, c.c0));
    lemma_expand_right(a.c3, (b.c0, b.c1, b.c2, b.c3), (1, 1, 1), (c.c3, c.c2, c.c1, c.c0));
}

impl Elem for BabyBearExtElem {
    open spec fn spec_zero() -> Self {
        let zero = BabyBearElem { value: 0 };
        BabyBearExtElem { c0: zero, c1: zero, c2: zero, c3: zero }
    }

    open spec fn spec_one() -> Self {
        let zero = BabyBearElem { value: 0 };
        BabyBearExtElem { c0: BabyBearElem { value: 1 }, c1: zero, c2: zero, c3: zero }
    }

    open spec fn spec_add(self, rhs: Self) -> Self {
        BabyBearExtElem {
            c0: self.c0.spec_add(rhs.c0),
            c1: self.c1.spec_add(rhs.c1),
            c2: self.c2.spec_add(rhs.c2),
            c3: self.c3.spec_add(rhs.c3),
        }
    }

    open spec fn spec_sub(self, rhs: Self) -> Self {
        BabyBearExtElem {
            c0: self.c0.spec_sub(rhs.c0),
            c1: self.c1.spec_sub(rhs.c1),
            c2: self.c2.spec_sub(rhs.c2),
            c3: self.c3.spec_sub(rhs.c3),
        }
    }

    open spec fn spec_mul(self, rhs: Self) -> Self {
        self.quad().times(rhs.quad()).reduce()
    }

    open spec fn spec_from_u64(n: u64) -> Self {
        let zero = BabyBearElem { value: 0 };
        BabyBearExtElem { c0: BabyBearElem::spec_from_u64(n), c1: zero, c2: zero, c3: zero }
    }

    open spec fn spec_words(self) -> Seq<u32> {
        seq![self.c0.value, self.c1.value, self.c2.value, self.c3.value]
    }

    open spec fn spec_raw_words(self) -> Seq<u32> {
        seq![self.c0.value, self.c1.value, self.c2.value, self.c3.value]
    }

    open spec fn spec_draw_size() -> nat {
        (4 * DRAW_SIZE) as nat
    }

    open spec fn spec_from_draw(words: Seq<u32>) -> Self {
        BabyBearExtElem {
            c0: BabyBearElem::spec_from_draw(words.subrange(0, 6)),
            c1: BabyBearElem::spec_from_draw(words.subrange(6, 12)),
            c2: BabyBearElem::spec_from_draw(words.subrange(12, 18)),
            c3: BabyBearElem::spec_from_draw(words.subrange(18, 24)),
        }
    }

    proof fn law_add_commutes(a: Self, b: Self) {
    }

    proof fn law_add_associates(a: Self, b: Self, c: Self) {
        BabyBearElem::law_add_associates(a.c0, b.c0, c.c0);
        BabyBearElem::law_add_associates(a.c1, b.c1, c.c1);
        BabyBearElem::law_add_associates(a.c2, b.c2, c.c2);
        BabyBearElem::law_add_associates(a.c3, b.c3, c.c3);
    }

    proof fn law_sub(a: Self, b: Self) {
        BabyBearElem::law_sub(a.c0, b.c0);
        BabyBearElem::law_sub(a.c1, b.c1);
        BabyBearElem::law_sub(a.c2, b.c2);
        BabyBearElem::law_sub(a.c3, b.c3);
    }

    proof fn law_mul_commutes(a: Self, b: Self) {
        lemma_times_commutes(a.quad(), b.quad());
    }

    proof fn law_mul_associates(a: Self, b: Self, c: Self) {
        let (x, y, z) = (a.quad(), b.quad(), c.quad());
        lemma_reduce_left(x.times(y), z);
        lemma_times_associates(x, y, z);
        lemma_times_commutes(x, y.times(z));
        lemma_reduce_left(y.times(z), x);
        lemma_times_commutes(y.times(z).reduce().quad(), x);
    }

    proof fn law_mul_one(a: Self) {
    }

    proof fn law_distributes(a: Self, b: Self, c: Self) {
        let (x, y, z, p) = (a.quad(), b.quad(), c.quad(), P as int);
        let sum = Quad { c0: y.c0 + z.c0, c1: y.c1 + z.c1, c2: y.c2 + z.c2, c3: y.c3 + z.c3 };
        lemma_times_commutes(sum, x);
        lemma_reduce_left(sum, x);
        lemma_times_commutes(sum.reduce().quad(), x);
        lemma_times_adds(x, y, z, sum);
        let (u, v) = (x.times(y), x.times(z));
        lemma_add_mod_noop(u.c0, v.c0, p);
        lemma_add_mod_noop(u.c1, v.c1, p);
        lemma_add_mod_noop(u.c2, v.c2, p);
        lemma_add_mod_noop(u.c3, v.c3, p);
    }

    proof fn law_from_u64(n: u64) {
    }

    proof fn law_reduced(a: Self, b: Self) {
    }

    fn zero() -> (r: Self) {
        let zero = BabyBearElem::zero();
        BabyBearExtElem { c0: zero, c1: zero, c2: zero, c3: zero }
    }

    fn one() -> (r: Self) {
        let zero = BabyBearElem::zero();
        BabyBearExtElem { c0: BabyBearElem::one(), c1: zero, c2: zero, c3: zero }
    }

    fn plus(self, rhs: Self) -> (r: Self) {
        BabyBearExtElem {
            c0: self.c0.plus(rhs.c0),
            c1: self.c1.plus(rhs.c1),
            c2: self.c2.plus(rhs.c2),
            c3: self.c3.plus(rhs.c3),
        }
    }

    fn minus(self, rhs: Self) -> (r: Self) {
        BabyBearExtElem {
            c0: self.c0.minus(rhs.c0),
            c1: self.c1.minus(rhs.c1),
            c2: self.c2.minus(rhs.c2),
            c3: self.c3.minus(rhs.c3),
        }
    }

    fn times(self, rhs: Self) -> (r: Self) {
        let (a, b) = (self, rhs);
        BabyBearExtElem {
            c0: less_beta(
                product(a.c0, b.c0),
                product(a.c1, b.c3) + product(a.c2, b.c2) + product(a.c3, b.c1),
            ),
            c1: less_beta(
                product(a.c0, b.c1) + product(a.c1, b.c0),
                product(a.c2, b.c3) + product(a.c3, b.c2),
            ),
            c2: less_beta(
                product(a.c0, b.c2) + product(a.c1, b.c1) + product(a.c2, b.c0),
                product(a.c3, b.c3),
            ),
            c3: less_beta(
                product(a.c0, b.c3) + product(a.c1, b.c2) + product(a.c2, b.c1) + product(a.c3, b.c0),
                0,
            ),
        }
    }

    fn from_u64(n: u64) -> (r: Self) {
        let zero = BabyBearElem::zero();
        BabyBearExtElem { c0: BabyBearElem::from_u64(n), c1: zero, c2: zero, c3: zero }
    }

    fn is_same(self, rhs: Self) -> (r: bool) {
        self == rhs
    }

    fn to_u32_words(self) -> (words: Vec<u32>) {
        vec![self.c0.value, self.c1.value, self.c2.value, self.c3.value]
    }

    fn to_raw_words(self) -> (words: Vec<u32>) {
        vec![self.c0.value, self.c1.value, self.c2.value, self.c3.value]
    }

    fn draw_size() -> (r: usize) {
        4 * DRAW_SIZE
    }

    fn from_draw(words: &[u32]) -> (r: Self) {
        BabyBearExtElem {
            c0: BabyBearElem::from_draw(slice_subrange(words, 0, 6)),
            c1: BabyBearElem::from_draw(slice_subrange(words, 6, 12)),
            c2: BabyBearElem::from_draw(slice_subrange(words, 12, 18)),
            c3: BabyBearElem::from_draw(slice_subrange(words, 18, 24)),
        }
    }
}

/// The unreduced product of two elements.
fn product(a: BabyBearElem, b: BabyBearElem) -> (r: u128)
    ensures
        r == a.value * b.value,
        r < 0x1_0000_0000_0000_0000,
{
    assert(a.value * b.value < 0x1_0000_0000_0000_0000) by (nonlinear_arith);
    a.value as u128 * b.value as u128
}

/// The residue of `a - 11 * b`.
fn less_beta(a: u128, b: u128) -> (r: BabyBearElem)
    requires
        a < 0x4_0000_0000_0000_0000,
        b < 0x3_0000_0000_0000_0000,
    ensures
        r == residue(a - 11 * b),
{
    let n: u128 = (P - BETA) as u128;
    proof {
        assert(n * b == 2013265910 * b) by (nonlinear_arith)
            requires
                n == 2013265910,
        ;
        lemma_mod_multiples_vanish(b as int, a - 11 * b, 2013265921);
    }
    BabyBearElem { value: ((a + n * b) % P as u128) as u32 }
}

/// `e` represents the residue of `n`.
spec fn represents(e: BabyBearElem, n: int) -> bool {
    e.value as int % P as int == n % P as int
}

/// Operations on elements are operations on the integers they represent.
proof fn lemma_represents(e: BabyBearElem, m: int, f: BabyBearElem, n: int)
    requires
        represents(e, m),
        represents(f, n),
    ensures
        represents(e.spec_add(f), m + n),
        represents(e.spec_sub(f), m - n),
        represents(e.spec_mul(f), m * n),
        e.spec_add(f) == residue(m + n),
        e.spec_sub(f) == residue(m - n),
        e.spec_mul(f) == residue(m * n),
{
    let (a, b, p) = (e.value as int, f.value as int, P as int);
    lemma_add_mod_noop(a, b, p);
    lemma_add_mod_noop(m, n, p);
    lemma_sub_mod_noop(a, b, p);
    lemma_sub_mod_noop(m, n, p);
    lemma_mul_mod_noop(a, b, p);
    lemma_mul_mod_noop(m, n, p);
}

impl Field for BabyBearExtElem {
    /// The product of the other conjugates, divided by that of all.
    open spec fn spec_inv(self) -> Self {
        let scale = residue(self.quad().norm()).spec_inv();
        let adjoint = self.quad().adjoint().reduce();
        BabyBearExtElem {
            c0: adjoint.c0.spec_mul(scale),
            c1: adjoint.c1.spec_mul(scale),
            c2: adjoint.c2.spec_mul(scale),
            c3: adjoint.c3.spec_mul(scale),
        }
    }

    fn inv(self) -> (r: Self) {
        let (a0, a1, a2, a3) = (self.c0, self.c1, self.c2, self.c3);
        let zero = BabyBearElem::zero();
        let eleven = BabyBearElem { value: BETA };
        let twice = BabyBearElem { value: 2 };
        let (s00, s22) = (a0.times(a0), eleven.times(a2.times(a2)));
        let s13 = twice.times(eleven).times(a1.times(a3));
        let even = s00.plus(s13).minus(s22);
        let (s02, s11, s33) = (twice.times(a0.times(a2)), a1.times(a1), eleven.times(a3.times(a3)));
        let square = s02.minus(s11).plus(s33);
        let (ee, ss) = (even.times(even), eleven.times(square.times(square)));
        let norm = ee.plus(ss);
        let (e0, e1, e2, e3) = (a0.times(even), a1.times(even), a2.times(even), a3.times(even));
        let (q0, q1, q2, q3) = (a0.times(square), a1.times(square), a2.times(square), a3.times(square));
        let (t2, t3) = (eleven.times(q2), eleven.times(q3));
        let c1 = e1.plus(t3);
        proof {
            let q = self.quad();
            let (x0, x1, x2, x3) = (q.c0, q.c1, q.c2, q.c3);
            let (u, v) = (q.even(), q.square());
            lemma_represents(a0, x0, a0, x0);
            lemma_represents(a2, x2, a2, x2);
            lemma_represents(eleven, 11, a2.spec_mul(a2), x2 * x2);
            lemma_represents(twice, 2, eleven, 11);
            lemma_represents(a1, x1, a3, x3);
            lemma_represents(twice.spec_mul(eleven), 22, a1.spec_mul(a3), x1 * x3);
            lemma_represents(s00, x0 * x0, s13, 22 * (x1 * x3));
            lemma_represents(s00.spec_add(s13), x0 * x0 + 22 * (x1 * x3), s22, 11 * (x2 * x2));
            lemma_represents(a0, x0, a2, x2);
            lemma_represents(twice, 2, a0.spec_mul(a2), x0 * x2);
            lemma_represents(a1, x1, a1, x1);
            lemma_represents(a3, x3, a3, x3);
            lemma_represents(eleven, 11, a3.spec_mul(a3), x3 * x3);
            lemma_represents(s02, 2 * (x0 * x2), s11, x1 * x1);
            lemma_represents(s02.spec_sub(s11), 2 * (x0 * x2) - x1 * x1, s33, 11 * (x3 * x3));
            lemma_represents(even, u, even, u);
            lemma_represents(square, v, square, v);
            lemma_represents(eleven, 11, square.spec_mul(square), v * v);
            lemma_represents(ee, u * u, ss, 11 * (v * v));
            lemma_represents(a0, x0, even, u);
            lemma_represents(a1, x1, even, u);
            lemma_represents(a2, x2, even, u);
            lemma_represents(a3, x3, even, u);
            lemma_represents(a0, x0, square, v);
            lemma_represents(a1, x1, square, v);
            lemma_represents(a2, x2, square, v);
            lemma_represents(a3, x3, square, v);
            lemma_represents(eleven, 11, q2, x2 * v);
            lemma_represents(eleven, 11, q3, x3 * v);
            lemma_represents(e0, x0 * u, t2, 11 * (x2 * v));
            lemma_represents(e1, x1 * u, t3, 11 * (x3 * v));
            lemma_represents(zero, 0, c1, x1 * u + 11 * (x3 * v));
            lemma_represents(e2, x2 * u, q0, x0 * v);
            lemma_represents(q1, x1 * v, e3, x3 * u);
        }
        let scale = norm.inv();
        BabyBearExtElem {
            c0: e0.plus(t2).times(scale),
            c1: zero.minus(c1).times(scale),
            c2: e2.minus(q0).times(scale),
            c3: q1.minus(e3).times(scale),
        }
    }
}

impl ExtElem for BabyBearExtElem {
    type SubElem = BabyBearElem;

    open spec fn spec_ext_size() -> nat {
        EXT_SIZE as nat
    }

    open spec fn spec_from_subfield(x: BabyBearElem) -> Self {
        let zero = BabyBearElem { value: 0 };
        BabyBearExtElem { c0: x, c1: zero, c2: zero, c3: zero }
    }

    open spec fn spec_subelems(self) -> Seq<BabyBearElem> {
        seq![self.c0, self.c1, self.c2, self.c3]
    }

    open spec fn spec_from_subelems(elems: Seq<BabyBearElem>) -> Self {
        BabyBearExtElem { c0: elems[0], c1: elems[1], c2: elems[2], c3: elems[3] }
    }

    proof fn law_ext_size() {
    }

    proof fn law_subelems(x: Self) {
    }

    proof fn law_from_subfield(a: BabyBearElem, b: BabyBearElem) {
    }

    fn ext_size() -> (r: usize) {
        EXT_SIZE
    }

    fn from_subfield(x: &BabyBearElem) -> (r: Self) {
        let zero = BabyBearElem::zero();
        BabyBearExtElem { c0: *x, c1: zero, c2: zero, c3: zero }
    }

    fn subelems(self) -> (r: Vec<BabyBearElem>) {
        vec![self.c0, self.c1, self.c2, self.c3]
    }

    fn from_subelems(elems: &Vec<BabyBearElem>) -> (r: Self) {
        BabyBearExtElem { c0: elems[0], c1: elems[1], c2: elems[2], c3: elems[3] }
    }
}

/// One squaring, on given residues.
pub(crate) proof fn lemma_square_step(x: BabyBearElem, k: nat, a: u32, b: u32)
    requires
        squared(x, k).value == a,
        (a * a) % P as int == b,
    ensures
        squared(x, k + 1).value == b,
{
    assert(squared(x, k + 1) == squared(x, k).spec_mul(squared(x, k)));
}

/// The generator of the roots of unity reaches minus one after 26 squarings,
/// and one after another.
proof fn lemma_generator_order()
    ensures
        squared(BabyBearElem { value: ROU_GENERATOR }, 26).value == P - 1,
        squared(BabyBearElem { value: ROU_GENERATOR }, 27).value == 1,
{
    let g = BabyBearElem { value: ROU_GENERATOR };
    lemma_square_step(g, 0, 137, 18769);
    lemma_square_step(g, 1, 18769, 352275361);
    lemma_square_step(g, 2, 352275361, 1164520853);
    lemma_square_step(g, 3, 1164520853, 1311873874);
    lemma_square_step(g, 4, 1311873874, 682402162);
    lemma_square_step(g, 5, 682402162, 825701067);
    lemma_square_step(g, 6, 825701067, 1461624142);
    lemma_square_step(g, 7, 1461624142, 1269900459);
    lemma_square_step(g, 8, 1269900459, 1542985445);
    lemma_square_step(g, 9, 1542985445, 88064245);
    lemma_square_step(g, 10, 88064245, 1540072241);
    lemma_square_step(g, 11, 1540072241, 2005211659);
    lemma_square_step(g, 12, 2005211659, 1695124103);
    lemma_square_step(g, 13, 1695124103, 157393079);
    lemma_square_step(g, 14, 157393079, 483885487);
    lemma_square_step(g, 15, 483885487, 515192888);
    lemma_square_step(g, 16, 515192888, 1538055801);
    lemma_square_step(g, 17, 1538055801, 65325759);
    lemma_square_step(g, 18, 65325759, 1453957774);
    lemma_square_step(g, 19, 1453957774, 1881002012);
    lemma_square_step(g, 20, 1881002012, 918899846);
    lemma_square_step(g, 21, 918899846, 740045640);
    lemma_square_step(g, 22, 740045640, 567209306);
    lemma_square_step(g, 23, 567209306, 1801542727);
    lemma_square_step(g, 24, 1801542727, 284861408);
    lemma_square_step(g, 25, 284861408, 2013265920);
    lemma_square_step(g, 26, 2013265920, 1);
}

/// The power of two that divides `P - 1` brings the fifteenth power of two to
/// one.
proof fn lemma_order_of_two()
    ensures
        squared(BabyBearElem { value: 32768 }, 27).value == 1,
{
    let g = BabyBearElem { value: 32768 };
    lemma_square_step(g, 0, 32768, 1073741824);
    lemma_square_step(g, 1, 1073741824, 1709039071);
    lemma_square_step(g, 2, 1709039071, 584553003);
    lemma_square_step(g, 3, 584553003, 563168684);
    lemma_square_step(g, 4, 563168684, 1584030254);
    lemma_square_step(g, 5, 1584030254, 158733553);
    lemma_square_step(g, 6, 158733553, 1763939212);
    lemma_square_step(g, 7, 1763939212, 691259344);
    lemma_square_step(g, 8, 691259344, 850357859);
    lemma_square_step(g, 9, 850357859, 696955690);
    lemma_square_step(g, 10, 696955690, 1816803640);
    lemma_square_step(g, 11, 1816803640, 1601241332);
    lemma_square_step(g, 12, 1601241332, 58735780);
    lemma_square_step(g, 13, 58735780, 1648567141);
    lemma_square_step(g, 14, 1648567141, 1061973763);
    lemma_square_step(g, 15, 1061973763, 1653077195);
    lemma_square_step(g, 16, 1653077195, 1397122709);
    lemma_square_step(g, 17, 1397122709, 919403943);
    lemma_square_step(g, 18, 919403943, 7658004);
    lemma_square_step(g, 19, 7658004, 602251207);
    lemma_square_step(g, 20, 602251207, 889310574);
    lemma_square_step(g, 21, 889310574, 1816869661);
    lemma_square_step(g, 22, 1816869661, 1592366214);
    lemma_square_step(g, 23, 1592366214, 1728404513);
    lemma_square_step(g, 24, 1728404513, 2013265920);
    lemma_square_step(g, 25, 2013265920, 1);
    lemma_square_step(g, 26, 1, 1);
}

/// Squaring repeatedly raises to a power of two.
pub(crate) proof fn lemma_squared_is_power(x: BabyBearElem, k: nat)
    requires
        reduced(x),
    ensures
        squared(x, k) == pow(x, pow2(k)),
        reduced(squared(x, k)),
    decreases k,
{
    if k == 0 {
        lemma2_to64();
        lemma_mul_one(x);
        assert(pow(x, 0) == BabyBearElem::spec_one());
        assert(pow(x, 1) == x.spec_mul(pow(x, 0)));
    } else {
        let j = (k - 1) as nat;
        lemma_squared_is_power(x, j);
        lemma_pow2_unfold(k);
        lemma_pow_adds(x, pow2(j), pow2(j));
        BabyBearElem::law_reduced(squared(x, j), squared(x, j));
    }
}

/// Squarings add up.
proof fn lemma_squared_adds(x: BabyBearElem, j: nat, k: nat)
    ensures
        squared(squared(x, j), k) == squared(x, j + k),
    decreases k,
{
    if k > 0 {
        lemma_squared_adds(x, j, (k - 1) as nat);
    }
}

/// The powers of two are the images of the integers they are.
proof fn lemma_powers_of_two(k: nat)
    requires
        k <= 27,
    ensures
        BabyBearElem::spec_from_u64(pow2(k) as u64) == pow(BabyBearElem { value: 2 }, k),
        pow2(k) <= 0x800_0000,
    decreases k,
{
    lemma2_to64();
    if k > 0 {
        lemma_powers_of_two((k - 1) as nat);
        lemma_pow2_unfold(k);
    }
    assert(pow2(27) == 0x800_0000);
    if k < 27 {
        lemma_pow2_strictly_increases(k, 27);
    }
}

/// A power whose exponent is one less than the modulus, where a smaller
/// exponent already leads to one.
proof fn lemma_fermat(x: BabyBearElem, k: nat, rest: nat)
    requires
        pow(x, pow2(k)) == BabyBearElem::spec_one(),
        pow2(k) * rest == P - 1,
    ensures
        x.spec_mul(x.spec_inv()) == BabyBearElem::spec_one(),
{
    lemma_pow_multiplies(x, pow2(k), rest);
    lemma_pow_of_one::<BabyBearElem>(rest);
    assert(pow(x, (P - 1) as nat) == x.spec_mul(pow(x, (P - 2) as nat)));
}

/// The roots of unity of the field are what they should be, for every order
/// for which they are known.
pub proof fn law_roots(k: nat)
    requires
        k <= MAX_ROU_PO2,
    ensures
        roots_match::<BabyBearElem>(k),
{
    let g = BabyBearElem { value: ROU_GENERATOR };
    let w = BabyBearElem::spec_rou_fwd(k);
    let (one, two) = (BabyBearElem::spec_one(), BabyBearElem { value: 2 });
    lemma_generator_order();
    lemma_squared_is_power(g, (27 - k) as nat);
    lemma_squared_adds(g, (27 - k) as nat, k);
    lemma_squared_is_power(w, k);
    if k > 0 {
        lemma_squared_adds(g, (27 - k) as nat, (k - 1) as nat);
        lemma_squared_is_power(w, (k - 1) as nat);
    }
    lemma2_to64();
    lemma_pow2_adds(k, (27 - k) as nat);
    let rest = pow2((27 - k) as nat) * 15;
    assert(pow2(k) * rest == P - 1) by (nonlinear_arith)
        requires
            rest == pow2((27 - k) as nat) * 15,
            pow2(k) * pow2((27 - k) as nat) == 0x800_0000,
    ;
    lemma_fermat(w, k, rest);
    assert(inverts(two, BabyBearElem { value: 1006632961 }));
    // 2^k to the power P - 1
    let order = BabyBearElem::spec_from_u64(pow2(k) as u64);
    lemma_powers_of_two(k);
    lemma_powers_of_two(15);
    lemma_order_of_two();
    let base = BabyBearElem { value: 32768 };
    lemma_squared_is_power(base, 27);
    lemma_pow_multiplies(two, 15, pow2(27));
    lemma_pow_multiplies(two, (P - 1) as nat, k);
    lemma_pow_multiplies(two, k, (P - 1) as nat);
    assert(k * (P - 1) as nat == (P - 1) as nat * k) by (nonlinear_arith);
    lemma_pow_of_one::<BabyBearElem>(k);
    assert(pow(order, (P - 1) as nat) == order.spec_mul(pow(order, (P - 2) as nat)));
}

} // verus!
