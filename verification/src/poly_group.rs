//! Groups of polynomials that are committed to together.
use crate::field::{Elem, RootsOfUnity};
use crate::hal::{Buffer, Hal, INV_RATE, INV_RATE_PO2};
use crate::merkle::MerkleTreeProver;
use crate::transform::{bit_reversed, chunk, evaluated, is_power_of_two, joined, lemma_chunk_of_joined};
use crate::transform::{lemma_holds_polys, lemma_log2_pow2, log2, values_on_domain};
use vstd::arithmetic::power2::lemma_pow2_adds;
use vstd::prelude::*;

verus! {

/// `count` polynomials of `size` coefficients each, lowest degree first.
pub struct Group<H: Hal> {
    pub coeffs: Seq<H::Elem>,
    pub count: nat,
    pub size: nat,
}

impl<H: Hal> Group<H> {
    /// The group has the shape it claims to have.
    pub open spec fn wf(self) -> bool {
        &&& self.count > 0
        &&& self.size > 0
        &&& is_power_of_two(self.size)
        &&& self.coeffs.len() == self.count * self.size
    }

    /// One polynomial of the group.
    pub open spec fn poly(self, k: int) -> Seq<H::Elem> {
        chunk(self.coeffs, self.size, k)
    }

    /// The values of all polynomials on the evaluation domain.
    pub open spec fn values(self) -> Seq<H::Elem> {
        let domain = self.size * INV_RATE as nat;
        joined(self.count, domain, |k: int| values_on_domain(self.poly(k), domain))
    }

    /// The group given by bit-reversed coefficients.
    pub open spec fn from_reversed(coeffs: Seq<H::Elem>, count: nat, size: nat) -> Self {
        Group { coeffs: joined(count, size, |k: int| bit_reversed(chunk(coeffs, size, k))), count, size }
    }
}

/// A group of polynomials, with a commitment to their values.
pub struct PolyGroup<H: Hal> {
    pub coeffs: H::BufferElem,
    pub count: usize,
    pub size: usize,
    pub merkle: MerkleTreeProver<H>,
}

impl<H: Hal> View for PolyGroup<H> {
    type V = Group<H>;

    open spec fn view(&self) -> Group<H> {
        Group { coeffs: self.coeffs.contents(), count: self.count as nat, size: self.size as nat }
    }
}

impl<H: Hal> PolyGroup<H> {
    /// The tree is that over the values of the polynomials, point by point.
    pub open spec fn wf(&self, hal: H) -> bool {
        &&& self@.wf()
        &&& self.merkle.wf(hal)
        &&& self.merkle.rows == self.size * INV_RATE
        &&& self.merkle.cols == self.count
        &&& self.merkle.matrix.contents() == self@.values()
    }

    /// Evaluates and commits the polynomials given by bit-reversed `coeffs`.
    pub fn new(hal: &H, coeffs: H::BufferElem, count: usize, size: usize, name: &'static str) -> (r: Self)
        requires
            count > 0,
            size > 0,
            is_power_of_two(size as nat),
            log2(size as nat) + INV_RATE_PO2 <= H::Elem::spec_max_rou_po2(),
            coeffs.contents().len() == count * size,
            count * (size * INV_RATE) <= usize::MAX,
            2 * (size * INV_RATE) <= usize::MAX,
        ensures
            r.wf(*hal),
            r@ == Group::<H>::from_reversed(coeffs.contents(), count as nat, size as nat),
    {
        let domain: usize = size * INV_RATE;
        let ghost k = log2(size as nat);
        let ghost given = coeffs.contents();
        proof {
            vstd::arithmetic::power2::lemma2_to64();
            lemma_pow2_adds(k, 2);
            lemma_log2_pow2(k + 2);
            lemma_holds_polys(count as nat, k);
            lemma_holds_polys(count as nat, k + 2);
        }
        let mut values = hal.alloc_elem("evaluated", count * domain);
        hal.batch_expand_into_evaluate_ntt(&mut values, &coeffs, count, INV_RATE_PO2);
        let mut natural = coeffs;
        hal.batch_bit_reverse(&mut natural, count);
        let ghost group = Group::<H>::from_reversed(given, count as nat, size as nat);
        proof {
            assert(natural.contents() =~= group.coeffs);
            assert forall|j: int| 0 <= j < count implies group.poly(j) == bit_reversed(
                #[trigger] chunk(given, size as nat, j),
            ) by {
                crate::transform::lemma_chunk_bounds(count as nat, size as nat, j);
                lemma_chunk_of_joined(
                    count as nat,
                    size as nat,
                    |i: int| bit_reversed(chunk(given, size as nat, i)),
                    j,
                );
            }
            assert(values.contents() =~= group.values()) by {
                assert forall|i: int| 0 <= i < count * domain implies values.contents()[i] == group.values()[i] by {
                    crate::transform::lemma_position_bounds(count as nat, domain as nat, i);
                    let j = i / domain as int;
                    assert(group.poly(j) == bit_reversed(chunk(given, size as nat, j)));
                }
            }
        }
        let merkle = MerkleTreeProver::new(hal, values, domain, count);
        PolyGroup { coeffs: natural, count, size, merkle }
    }
}

} // verus!
