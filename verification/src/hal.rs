//! The operations an accelerator offers to the prover.
use crate::field::{pow, Elem, ExtElem, RootsOfUnity};
use crate::poly::eval;
use crate::sha::Digest;
use crate::transform::{bit_reverse, bit_reversed, chunk, evaluated, holds_polys, interpolated};
use crate::transform::{joined, lifted, log2, shifted};
use vstd::prelude::*;

verus! {

/// The factor by which the evaluation domain exceeds the trace domain.
pub const INV_RATE: usize = 4;

/// The exponent of `INV_RATE`.
pub const INV_RATE_PO2: usize = 2;

/// The number of queries made to a proximity proof.
pub const QUERIES: usize = 50;

/// The factor by which one round of folding shrinks a polynomial.
pub const FRI_FOLD: usize = 16;

/// The exponent of `FRI_FOLD`.
pub const FRI_FOLD_PO2: usize = 4;

/// Polynomials of at most this many coefficients are sent in full.
pub const FRI_MIN_DEGREE: usize = 256;

/// An array in the memory of an accelerator.
pub trait Buffer<T: Copy>: Sized {
    spec fn contents(&self) -> Seq<T>;

    /// The number of entries.
    fn size(&self) -> (r: usize)
        ensures
            r == self.contents().len(),
    ;

    /// Reads one entry.
    fn get(&self, index: usize) -> (r: T)
        requires
            index < self.contents().len(),
        ensures
            r == self.contents()[index as int],
    ;

    /// Copies all entries to the host.
    fn to_vec(&self) -> (r: Vec<T>)
        ensures
            r@ == self.contents(),
    ;

    /// Overwrites all entries from the host.
    fn store(&mut self, data: &[T])
        requires
            data@.len() == old(self).contents().len(),
        ensures
            final(self).contents() == data@,
    ;
}

/// Output `out` with `scale` times the polynomial `p` added from `base` on.
pub open spec fn added_at<X: ExtElem>(out: Seq<X>, base: int, scale: X, p: Seq<X::SubElem>) -> Seq<X> {
    Seq::new(
        out.len(),
        |i: int|
            if base <= i < base + p.len() {
                out[i].spec_add(scale.spec_mul(X::spec_from_subfield(p[i - base])))
            } else {
                out[i]
            },
    )
}

/// `out` after the first `k` polynomials of `input`, the `i`-th scaled by
/// `start * mix^i`, have been added to the pieces of length `n` that `which`
/// selects.
pub open spec fn polys_mixed<X: ExtElem>(
    out: Seq<X>,
    start: X,
    mix: X,
    input: Seq<X::SubElem>,
    which: Seq<u32>,
    n: nat,
    k: nat,
) -> Seq<X>
    decreases k,
{
    if k == 0 {
        out
    } else {
        let i = k - 1;
        added_at(
            polys_mixed(out, start, mix, input, which, n, i as nat),
            which[i] * n,
            start.spec_mul(pow(mix, i as nat)),
            chunk(input, n, i),
        )
    }
}

/// The sum of the entries at offset `i` of the first `k` pieces of length `n`.
pub open spec fn column_sum<X: Elem>(input: Seq<X>, n: nat, k: nat, i: int) -> X
    decreases k,
{
    if k == 0 {
        X::spec_zero()
    } else {
        column_sum(input, n, (k - 1) as nat, i).spec_add(input[(k - 1) * n + i])
    }
}

/// `n` extension elements, as one piece per coordinate.
pub open spec fn by_coordinate<X: ExtElem>(values: Seq<X>) -> Seq<X::SubElem> {
    joined(
        X::spec_ext_size(),
        values.len(),
        |e: int| Seq::new(values.len(), |i: int| values[i].spec_subelems()[e]),
    )
}

/// The extension element whose coordinates stand at offset `i` of the pieces
/// of length `n`.
pub open spec fn from_coordinates<X: ExtElem>(input: Seq<X::SubElem>, n: nat, i: int) -> X {
    X::spec_from_subelems(Seq::new(X::spec_ext_size(), |e: int| input[e * n + i]))
}

/// The polynomial over the extension, lowest degree first, whose `n`
/// coefficients are given by coordinate in bit-reversed order.
pub open spec fn read_poly<X: ExtElem>(coeffs: Seq<X::SubElem>, n: nat) -> Seq<X> {
    bit_reversed(Seq::new(n, |i: int| from_coordinates::<X>(coeffs, n, i)))
}

/// The coefficient at bit-reversed position `i` of the folded polynomial: the
/// combination by powers of `mix` of the `FRI_FOLD` strides of `input`, whose
/// folded length is `n`.
pub open spec fn folded_coeff<X: ExtElem>(input: Seq<X::SubElem>, mix: X, n: nat, i: int) -> X {
    eval(
        Seq::new(
            FRI_FOLD as nat,
            |r: int|
                from_coordinates::<X>(
                    input,
                    FRI_FOLD as nat * n,
                    bit_reverse(FRI_FOLD_PO2 as nat, r as nat) * n + i,
                ),
        ),
        mix,
    )
}

/// The polynomial `input` folded to `n` coefficients.
pub open spec fn folded<X: ExtElem>(input: Seq<X::SubElem>, mix: X, n: nat) -> Seq<X::SubElem> {
    by_coordinate(Seq::new(n, |i: int| folded_coeff(input, mix, n, i)))
}

/// The sums of the entries at equal offsets of the pieces of length `n`.
pub open spec fn columns_summed<X: Elem>(input: Seq<X>, n: nat) -> Seq<X> {
    Seq::new(n, |i: int| column_sum(input, n, input.len() / n, i))
}

/// `len` entries form pieces of length `n`, of which there is at least one.
pub open spec fn splits_evenly(len: nat, n: nat) -> bool {
    &&& 0 < n <= len
    &&& len == n * (len / n)
}

/// The entries of a row of a matrix stored by columns of length `rows`.
pub open spec fn matrix_row<T>(matrix: Seq<T>, rows: nat, r: int) -> Seq<T> {
    Seq::new(matrix.len() / rows, |c: int| matrix[c * rows + r])
}

/// An accelerator.
pub trait Hal: Sized {
    type Elem: RootsOfUnity;

    type ExtElem: ExtElem<SubElem = Self::Elem>;

    type BufferElem: Buffer<Self::Elem>;

    type BufferExtElem: Buffer<Self::ExtElem>;

    type BufferU32: Buffer<u32>;

    type BufferDigest: Buffer<Digest>;

    /// The digest of a row of elements.
    spec fn spec_hash_row(&self, row: Seq<Self::Elem>) -> Digest;

    /// The digest of two digests.
    spec fn spec_hash_pair(&self, a: Digest, b: Digest) -> Digest;

    /// Allocates elements, without saying what they hold.
    fn alloc_elem(&self, name: &'static str, size: usize) -> (r: Self::BufferElem)
        ensures
            r.contents().len() == size,
    ;

    /// Allocates extension elements, without saying what they hold.
    fn alloc_extelem(&self, name: &'static str, size: usize) -> (r: Self::BufferExtElem)
        ensures
            r.contents().len() == size,
    ;

    /// Allocates digests, without saying what they hold.
    fn alloc_digest(&self, name: &'static str, size: usize) -> (r: Self::BufferDigest)
        ensures
            r.contents().len() == size,
    ;

    /// Copies words to the accelerator.
    fn copy_from_u32(&self, name: &'static str, slice: &[u32]) -> (r: Self::BufferU32)
        ensures
            r.contents() == slice@,
    ;

    /// Copies extension elements to the accelerator.
    fn copy_from_extelem(&self, name: &'static str, slice: &[Self::ExtElem]) -> (r: Self::BufferExtElem)
        ensures
            r.contents() == slice@,
    ;

    /// Replaces the values of `count` polynomials by their coefficients, in
    /// bit-reversed order.
    fn batch_interpolate_ntt(&self, io: &mut Self::BufferElem, count: usize)
        requires
            holds_polys(old(io).contents().len(), count as nat),
            log2(old(io).contents().len() / count as nat) <= Self::Elem::spec_max_rou_po2(),
        ensures
            final(io).contents() == joined(
                count as nat,
                old(io).contents().len() / count as nat,
                |k: int| interpolated(chunk(old(io).contents(), old(io).contents().len() / count as nat, k)),
            ),
    ;

    /// Evaluates `count` polynomials, given by bit-reversed coefficients, on a
    /// domain `2^expand_bits` times their length.
    fn batch_expand_into_evaluate_ntt(
        &self,
        output: &mut Self::BufferElem,
        input: &Self::BufferElem,
        count: usize,
        expand_bits: usize,
    )
        requires
            holds_polys(input.contents().len(), count as nat),
            holds_polys(old(output).contents().len(), count as nat),
            log2(old(output).contents().len() / count as nat) == log2(input.contents().len() / count as nat)
                + expand_bits,
            log2(old(output).contents().len() / count as nat) <= Self::Elem::spec_max_rou_po2(),
        ensures
            final(output).contents() == joined(
                count as nat,
                old(output).contents().len() / count as nat,
                |k: int|
                    evaluated(
                        chunk(input.contents(), input.contents().len() / count as nat, k),
                        old(output).contents().len() / count as nat,
                    ),
            ),
    ;

    /// Moves the entries of `count` pieces to their bit-reversed positions.
    fn batch_bit_reverse(&self, io: &mut Self::BufferElem, count: usize)
        requires
            holds_polys(old(io).contents().len(), count as nat),
        ensures
            final(io).contents() == joined(
                count as nat,
                old(io).contents().len() / count as nat,
                |k: int| bit_reversed(chunk(old(io).contents(), old(io).contents().len() / count as nat, k)),
            ),
    ;

    /// Turns the bit-reversed coefficients of `count` polynomials `f(x)` into
    /// those of `f(3x)`.
    fn zk_shift(&self, io: &mut Self::BufferElem, count: usize)
        requires
            holds_polys(old(io).contents().len(), count as nat),
        ensures
            final(io).contents() == joined(
                count as nat,
                old(io).contents().len() / count as nat,
                |k: int| shifted(chunk(old(io).contents(), old(io).contents().len() / count as nat, k)),
            ),
    ;

    /// Evaluates, for each `i`, the polynomial `which[i]` at `xs[i]`.
    fn batch_evaluate_any(
        &self,
        coeffs: &Self::BufferElem,
        poly_count: usize,
        which: &Self::BufferU32,
        xs: &Self::BufferExtElem,
        out: &mut Self::BufferExtElem,
    )
        requires
            holds_polys(coeffs.contents().len(), poly_count as nat),
            which.contents().len() == old(out).contents().len(),
            xs.contents().len() == old(out).contents().len(),
            forall|i: int| 0 <= i < which.contents().len() ==> #[trigger] which.contents()[i] < poly_count,
        ensures
            final(out).contents() == Seq::new(
                which.contents().len(),
                |i: int|
                    eval(
                        lifted::<Self::ExtElem>(
                            chunk(
                                coeffs.contents(),
                                coeffs.contents().len() / poly_count as nat,
                                which.contents()[i] as int,
                            ),
                        ),
                        xs.contents()[i],
                    ),
            ),
    ;

    /// Adds `input_size` polynomials of `count` coefficients, the `i`-th scaled
    /// by `mix_start * mix^i`, to the outputs that `combos` selects.
    fn mix_poly_coeffs(
        &self,
        output: &mut Self::BufferExtElem,
        mix_start: &Self::ExtElem,
        mix: &Self::ExtElem,
        input: &Self::BufferElem,
        combos: &Self::BufferU32,
        input_size: usize,
        count: usize,
    )
        requires
            input.contents().len() == input_size * count,
            combos.contents().len() == input_size,
            forall|i: int|
                0 <= i < input_size ==> (#[trigger] combos.contents()[i]) * count + count
                    <= old(output).contents().len(),
        ensures
            final(output).contents() == polys_mixed(
                old(output).contents(),
                *mix_start,
                *mix,
                input.contents(),
                combos.contents(),
                count as nat,
                input_size as nat,
            ),
    ;

    /// Adds up the pieces of `input` entry by entry, and lays out the sums by
    /// coordinate.
    fn eltwise_sum_extelem(&self, output: &mut Self::BufferElem, input: &Self::BufferExtElem)
        requires
            splits_evenly(old(output).contents().len(), Self::ExtElem::spec_ext_size()),
            splits_evenly(
                input.contents().len(),
                old(output).contents().len() / Self::ExtElem::spec_ext_size(),
            ),
        ensures
            final(output).contents() == by_coordinate(
                columns_summed(input.contents(), old(output).contents().len() / Self::ExtElem::spec_ext_size()),
            ),
    ;

    /// Folds a polynomial over the extension, given by coordinate in
    /// bit-reversed order, to a `FRI_FOLD`-th of its length.
    fn fri_fold(&self, output: &mut Self::BufferElem, input: &Self::BufferElem, mix: &Self::ExtElem)
        requires
            splits_evenly(old(output).contents().len(), Self::ExtElem::spec_ext_size()),
            input.contents().len() == FRI_FOLD * old(output).contents().len(),
        ensures
            final(output).contents() == folded(
                input.contents(),
                *mix,
                old(output).contents().len() / Self::ExtElem::spec_ext_size(),
            ),
    ;

    /// Hashes each row of a matrix into the second half of `io`.
    fn sha_rows(&self, io: &mut Self::BufferDigest, matrix: &Self::BufferElem, rows: usize, cols: usize)
        requires
            rows > 0,
            old(io).contents().len() == 2 * rows,
            matrix.contents().len() == cols * rows,
        ensures
            final(io).contents() == Seq::new(
                2 * rows as nat,
                |i: int|
                    if i >= rows {
                        self.spec_hash_row(matrix_row(matrix.contents(), rows as nat, i - rows))
                    } else {
                        old(io).contents()[i]
                    },
            ),
    ;

    /// Hashes pairs of neighbours in a layer of `2 * output_size` digests into
    /// the layer of `output_size` digests below it.
    fn sha_fold(&self, io: &mut Self::BufferDigest, output_size: usize)
        requires
            4 * output_size <= old(io).contents().len(),
        ensures
            final(io).contents() == Seq::new(
                old(io).contents().len(),
                |i: int|
                    if output_size <= i < 2 * output_size {
                        self.spec_hash_pair(old(io).contents()[2 * i], old(io).contents()[2 * i + 1])
                    } else {
                        old(io).contents()[i]
                    },
            ),
    ;
}

/// A circuit: what the values of its check polynomial are.
pub trait EvalCheck<H: Hal> {
    /// The circuit can be evaluated on such data.
    spec fn accepts(
        &self,
        groups: Seq<Seq<H::Elem>>,
        globals: Seq<Seq<H::Elem>>,
        po2: nat,
        steps: nat,
    ) -> bool;

    /// The values of the check polynomial on the evaluation domain, laid out
    /// by coordinate.
    spec fn check_values(
        &self,
        groups: Seq<Seq<H::Elem>>,
        globals: Seq<Seq<H::Elem>>,
        poly_mix: H::ExtElem,
        po2: nat,
        steps: nat,
    ) -> Seq<H::Elem>;

    /// There is a value for every point of the evaluation domain.
    proof fn law_check_values(
        &self,
        groups: Seq<Seq<H::Elem>>,
        globals: Seq<Seq<H::Elem>>,
        poly_mix: H::ExtElem,
        po2: nat,
        steps: nat,
    )
        requires
            self.accepts(groups, globals, po2, steps),
        ensures
            self.check_values(groups, globals, poly_mix, po2, steps).len() == H::ExtElem::spec_ext_size() * (steps
                * INV_RATE as nat),
    ;

    /// Fills `check` with the values of the check polynomial.
    fn eval_check(
        &self,
        check: &mut H::BufferElem,
        groups: &[&H::BufferElem],
        globals: &[&H::BufferElem],
        poly_mix: H::ExtElem,
        po2: usize,
        steps: usize,
    )
        requires
            old(check).contents().len() == H::ExtElem::spec_ext_size() * (steps * INV_RATE),
            self.accepts(all_contents::<H>(groups@), all_contents::<H>(globals@), po2 as nat, steps as nat),
        ensures
            final(check).contents() == self.check_values(
                all_contents::<H>(groups@),
                all_contents::<H>(globals@),
                poly_mix,
                po2 as nat,
                steps as nat,
            ),
    ;
}

/// What each of several buffers holds.
pub open spec fn all_contents<'b, H: Hal>(buffers: Seq<&'b H::BufferElem>) -> Seq<Seq<H::Elem>> {
    Seq::new(buffers.len(), |i: int| buffers[i].contents())
}

} // verus!
