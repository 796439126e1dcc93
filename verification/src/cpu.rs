//! An accelerator that computes on the host, straight from the definitions.
use crate::baby_bear::{BabyBearElem, BabyBearExtElem};
use crate::deep::filled;
use crate::field::{pow, power, Elem, ExtElem, Field, RootsOfUnity};
use crate::hal::{added_at, by_coordinate, column_sum, columns_summed, folded_coeff, from_coordinates};
use crate::hal::{matrix_row, polys_mixed, splits_evenly, Buffer, Hal, FRI_FOLD, FRI_FOLD_PO2};
use crate::iop::{raw_words, raw_words_of};
use crate::poly::{eval, poly_eval};
use crate::sha::{Digest, Sha};
use crate::transform::{bit_reverse, bit_reverse_index, bit_reversed, chunk, evaluated, interpolated};
use crate::transform::{is_power_of_two, joined, lemma_chunk_bounds};
use crate::transform::{lemma_chunk_of_joined, lemma_position, lifted, log2, log2_exact, shifted};
use vstd::arithmetic::power2::pow2;
use vstd::prelude::*;
use vstd::slice::slice_subrange;

verus! {

/// An array in the memory of the host.
pub struct CpuBuffer<T> {
    pub data: Vec<T>,
}

/// Copies a slice.
fn copied<T: Copy>(s: &[T]) -> (r: Vec<T>)
    ensures
        r@ == s@,
{
    let mut r: Vec<T> = Vec::new();
    let mut i: usize = 0;
    while i < s.len()
        invariant
            i <= s@.len(),
            r@ == s@.take(i as int),
        decreases s@.len() - i,
    {
        r.push(s[i]);
        assert(r@ =~= s@.take(i + 1));
        i = i + 1;
    }
    assert(r@ =~= s@);
    r
}

impl<T: Copy> Buffer<T> for CpuBuffer<T> {
    open spec fn contents(&self) -> Seq<T> {
        self.data@
    }

    fn size(&self) -> (r: usize) {
        self.data.len()
    }

    fn get(&self, index: usize) -> (r: T) {
        self.data[index]
    }

    fn to_vec(&self) -> (r: Vec<T>) {
        copied(self.data.as_slice())
    }

    fn store(&mut self, data: &[T]) {
        self.data = copied(data);
    }
}

/// The first pieces of a sequence, followed by the next one.
proof fn lemma_take_piece<T>(s: Seq<T>, n: nat, count: nat, k: int)
    requires
        s.len() == count * n,
        0 <= k < count,
    ensures
        0 <= k * n,
        k * n + n <= s.len(),
        (k + 1) * n == k * n + n,
        s.take((k + 1) * n) == s.take(k * n) + chunk(s, n, k),
{
    lemma_chunk_bounds(count, n, k);
    assert((k + 1) * n == k * n + n) by (nonlinear_arith);
    assert(s.take((k + 1) * n) =~= s.take(k * n) + chunk(s, n, k));
}

/// Moves the entries of `s` to their bit-reversed positions.
pub fn reverse_piece<T: Copy>(s: &[T]) -> (r: Vec<T>)
    requires
        is_power_of_two(s@.len()),
    ensures
        r@ == bit_reversed(s@),
{
    let bits: usize = log2_exact(s.len());
    let mut r: Vec<T> = Vec::new();
    let mut i: usize = 0;
    while i < s.len()
        invariant
            i <= s@.len(),
            bits == log2(s@.len()),
            s@.len() == pow2(bits as nat),
            s@.len() <= usize::MAX,
            r@ == bit_reversed(s@).take(i as int),
        decreases s@.len() - i,
    {
        r.push(s[bit_reverse_index(bits, i)]);
        assert(r@ =~= bit_reversed(s@).take(i + 1));
        i = i + 1;
    }
    assert(r@ =~= bit_reversed(s@));
    r
}

/// Turns values into bit-reversed coefficients.
pub fn interpolate_piece<E: RootsOfUnity>(v: &[E]) -> (r: Vec<E>)
    requires
        is_power_of_two(v@.len()),
        log2(v@.len()) <= E::spec_max_rou_po2(),
    ensures
        r@ == interpolated(v@),
{
    let n: usize = v.len();
    let bits: usize = log2_exact(n);
    let root = E::rou_rev(bits);
    let scale = E::from_u64(n as u64).inv();
    let mut r: Vec<E> = Vec::new();
    let mut i: usize = 0;
    while i < n
        invariant
            i <= n,
            n == v@.len(),
            bits == log2(v@.len()),
            n == pow2(bits as nat),
            root == E::spec_rou_rev(bits as nat),
            scale == E::spec_from_u64(n as u64).spec_inv(),
            r@ == interpolated(v@).take(i as int),
        decreases n - i,
    {
        let j: usize = bit_reverse_index(bits, i);
        r.push(poly_eval(v, power(root, j as u128)).times(scale));
        assert(r@ =~= interpolated(v@).take(i + 1));
        i = i + 1;
    }
    assert(r@ =~= interpolated(v@));
    r
}

/// Turns bit-reversed coefficients into values on the domain of size `n`.
pub fn evaluate_piece<E: RootsOfUnity>(c: &[E], n: usize) -> (r: Vec<E>)
    requires
        is_power_of_two(c@.len()),
        log2(n as nat) <= E::spec_max_rou_po2(),
    ensures
        r@ == evaluated(c@, n as nat),
{
    let natural = reverse_piece(c);
    let root = E::rou_fwd(log2_exact(n));
    let mut x = E::one();
    let mut r: Vec<E> = Vec::new();
    let mut i: usize = 0;
    while i < n
        invariant
            i <= n,
            natural@ == bit_reversed(c@),
            root == E::spec_rou_fwd(log2(n as nat)),
            x == pow(root, i as nat),
            r@ == evaluated(c@, n as nat).take(i as int),
        decreases n - i,
    {
        r.push(poly_eval(natural.as_slice(), x));
        assert(r@ =~= evaluated(c@, n as nat).take(i + 1));
        x = root.times(x);
        i = i + 1;
    }
    assert(r@ =~= evaluated(c@, n as nat));
    r
}

/// Turns the bit-reversed coefficients of `f(x)` into those of `f(3x)`.
pub fn shift_piece<E: Elem>(c: &[E]) -> (r: Vec<E>)
    requires
        is_power_of_two(c@.len()),
    ensures
        r@ == shifted(c@),
{
    let n: usize = c.len();
    let bits: usize = log2_exact(n);
    let three = E::from_u64(3);
    let mut r: Vec<E> = Vec::new();
    let mut i: usize = 0;
    while i < n
        invariant
            i <= n,
            n == c@.len(),
            bits == log2(c@.len()),
            n == pow2(bits as nat),
            three == E::spec_from_u64(3),
            r@ == shifted(c@).take(i as int),
        decreases n - i,
    {
        let j: usize = bit_reverse_index(bits, i);
        r.push(c[i].times(power(three, j as u128)));
        assert(r@ =~= shifted(c@).take(i + 1));
        i = i + 1;
    }
    assert(r@ =~= shifted(c@));
    r
}

/// Evaluates a polynomial over the base field at a point of the extension.
pub fn eval_lifted<X: ExtElem>(p: &[X::SubElem], x: X) -> (r: X)
    ensures
        r == eval(lifted::<X>(p@), x),
{
    let ghost q = lifted::<X>(p@);
    let mut r = X::zero();
    let mut i: usize = p.len();
    assert(q.skip(i as int) =~= Seq::<X>::empty());
    while i > 0
        invariant
            i <= p@.len(),
            q == lifted::<X>(p@),
            r == eval(q.skip(i as int), x),
        decreases i,
    {
        i = i - 1;
        assert(q.skip(i as int).drop_first() =~= q.skip(i + 1));
        r = X::from_subfield(&p[i]).plus(x.times(r));
    }
    assert(q.skip(0) =~= q);
    r
}

/// Lays out extension elements by coordinate.
pub fn coordinates<X: ExtElem>(values: &[X]) -> (r: Vec<X::SubElem>)
    ensures
        r@ == by_coordinate(values@),
{
    let n: usize = values.len();
    let ext: usize = X::ext_size();
    let ghost target = by_coordinate(values@);
    let mut r: Vec<X::SubElem> = Vec::new();
    let mut e: usize = 0;
    assert(target.take(0 * n) =~= Seq::<X::SubElem>::empty());
    while e < ext
        invariant
            e <= ext,
            n == values@.len(),
            ext == X::spec_ext_size(),
            target == by_coordinate(values@),
            r@ == target.take(e * n),
        decreases ext - e,
    {
        proof {
            lemma_take_piece(target, n as nat, ext as nat, e as int);
        }
        let mut i: usize = 0;
        while i < n
            invariant
                i <= n,
                e < ext,
                n == values@.len(),
                ext == X::spec_ext_size(),
                target == by_coordinate(values@),
                target.len() == ext * n,
                0 <= e * n,
                e * n + n <= target.len(),
                r@ == target.take(e * n + i),
            decreases n - i,
        {
            proof {
                X::law_subelems(values@[i as int]);
                lemma_position(n as nat, e as int, i as int);
            }
            let parts = values[i].subelems();
            r.push(parts[e]);
            assert(r@ =~= target.take(e * n + i + 1));
            i = i + 1;
        }
        e = e + 1;
    }
    assert(r@ =~= target);
    r
}

/// Adds `scale` times the polynomial `p` to the entries of `out` from `base` on.
fn add_at<X: ExtElem>(out: &mut Vec<X>, base: usize, scale: X, p: &[X::SubElem])
    requires
        base + p@.len() <= old(out)@.len(),
    ensures
        final(out)@ == added_at(old(out)@, base as int, scale, p@),
{
    let ghost before = out@;
    let ghost target = added_at(before, base as int, scale, p@);
    let total: usize = out.len();
    let mut i: usize = 0;
    while i < p.len()
        invariant
            i <= p@.len(),
            base + p@.len() <= total,
            total == out@.len(),
            before.len() == total,
            target == added_at(before, base as int, scale, p@),
            forall|j: int| 0 <= j < base + i ==> #[trigger] out@[j] == target[j],
            forall|j: int| base + i <= j < total ==> #[trigger] out@[j] == before[j],
        decreases p@.len() - i,
    {
        let sum = out[base + i].plus(scale.times(X::from_subfield(&p[i])));
        out.set(base + i, sum);
        i = i + 1;
    }
    assert(out@ =~= target);
}

/// Adds up the pieces of length `n`.
fn sum_columns<X: Elem>(input: &[X], n: usize) -> (r: Vec<X>)
    requires
        splits_evenly(input@.len(), n as nat),
    ensures
        r@ == columns_summed(input@, n as nat),
{
    let total: usize = input.len();
    let count: usize = total / n;
    let mut r: Vec<X> = Vec::new();
    let mut i: usize = 0;
    while i < n
        invariant
            i <= n,
            total == input@.len(),
            total == n * count,
            count == input@.len() / n as nat,
            r@ == columns_summed(input@, n as nat).take(i as int),
        decreases n - i,
    {
        let mut sum = X::zero();
        let mut k: usize = 0;
        while k < count
            invariant
                i < n,
                k <= count,
                total == input@.len(),
                total == n * count,
                sum == column_sum(input@, n as nat, k as nat, i as int),
            decreases count - k,
        {
            assert(0 <= k * n && k * n + i < n * count) by (nonlinear_arith)
                requires
                    0 <= k < count,
                    i < n,
            ;
            sum = sum.plus(input[k * n + i]);
            k = k + 1;
        }
        r.push(sum);
        assert(r@ =~= columns_summed(input@, n as nat).take(i + 1));
        i = i + 1;
    }
    assert(r@ =~= columns_summed(input@, n as nat));
    r
}

/// Reads the extension element at offset `i` of the pieces of length `n`.
fn read_coordinates<X: ExtElem>(input: &[X::SubElem], n: usize, i: usize) -> (r: X)
    requires
        i < n,
        input@.len() == X::spec_ext_size() * n,
    ensures
        r == from_coordinates::<X>(input@, n as nat, i as int),
{
    let total: usize = input.len();
    let ext: usize = X::ext_size();
    let ghost target = Seq::new(X::spec_ext_size(), |e: int| input@[e * n + i]);
    let mut parts: Vec<X::SubElem> = Vec::new();
    let mut e: usize = 0;
    while e < ext
        invariant
            e <= ext,
            i < n,
            ext == X::spec_ext_size(),
            total == input@.len(),
            total == ext * n,
            target == Seq::new(X::spec_ext_size(), |e: int| input@[e * n + i]),
            parts@ == target.take(e as int),
        decreases ext - e,
    {
        assert(0 <= e * n && e * n + i < ext * n) by (nonlinear_arith)
            requires
                0 <= e < ext,
                i < n,
        ;
        parts.push(input[e * n + i]);
        assert(parts@ =~= target.take(e + 1));
        e = e + 1;
    }
    assert(parts@ =~= target);
    X::from_subelems(&parts)
}

/// Folds a polynomial to `n` coefficients.
fn fold_coefficients<X: ExtElem>(input: &[X::SubElem], mix: X, n: usize) -> (r: Vec<X>)
    requires
        n > 0,
        input@.len() == FRI_FOLD * (X::spec_ext_size() * n),
    ensures
        r@ == Seq::new(n as nat, |i: int| folded_coeff(input@, mix, n as nat, i)),
{
    let _total: usize = input.len();
    let ext: usize = X::ext_size();
    let ghost target = Seq::new(n as nat, |i: int| folded_coeff(input@, mix, n as nat, i));
    proof {
        X::law_ext_size();
        vstd::arithmetic::power2::lemma2_to64();
        assert(16 * (ext * n) == ext * (16 * n)) by (nonlinear_arith);
        assert(16 * n <= ext * (16 * n)) by (nonlinear_arith)
            requires
                ext >= 1,
        ;
    }
    let wide: usize = FRI_FOLD * n;
    let mut r: Vec<X> = Vec::new();
    let mut i: usize = 0;
    while i < n
        invariant
            i <= n,
            wide == 16 * n,
            input@.len() == X::spec_ext_size() * wide,
            pow2(4) == 16,
            target == Seq::new(n as nat, |i: int| folded_coeff(input@, mix, n as nat, i)),
            r@ == target.take(i as int),
        decreases n - i,
    {
        let ghost strides = Seq::new(
            FRI_FOLD as nat,
            |r: int|
                from_coordinates::<X>(
                    input@,
                    FRI_FOLD as nat * n as nat,
                    bit_reverse(FRI_FOLD_PO2 as nat, r as nat) * n as nat + i,
                ),
        );
        let mut parts: Vec<X> = Vec::new();
        let mut k: usize = 0;
        while k < FRI_FOLD
            invariant
                k <= FRI_FOLD,
                i < n,
                wide == 16 * n,
                input@.len() == X::spec_ext_size() * wide,
                pow2(4) == 16,
                strides == Seq::new(
                    FRI_FOLD as nat,
                    |r: int|
                        from_coordinates::<X>(
                            input@,
                            FRI_FOLD as nat * n as nat,
                            bit_reverse(FRI_FOLD_PO2 as nat, r as nat) * n as nat + i,
                        ),
                ),
                parts@ == strides.take(k as int),
            decreases FRI_FOLD - k,
        {
            let b: usize = bit_reverse_index(FRI_FOLD_PO2, k);
            assert(0 <= b * n && b * n + i < 16 * n) by (nonlinear_arith)
                requires
                    0 <= b < 16,
                    i < n,
            ;
            parts.push(read_coordinates::<X>(input, wide, b * n + i));
            assert(parts@ =~= strides.take(k + 1));
            k = k + 1;
        }
        assert(parts@ =~= strides);
        r.push(poly_eval(parts.as_slice(), mix));
        assert(r@ =~= target.take(i + 1));
        i = i + 1;
    }
    assert(r@ =~= target);
    r
}

/// Reads a row of a matrix stored by columns.
fn read_row<T: Copy>(matrix: &[T], rows: usize, cols: usize, r: usize) -> (row: Vec<T>)
    requires
        r < rows,
        matrix@.len() == cols * rows,
    ensures
        row@ == matrix_row(matrix@, rows as nat, r as int),
{
    let total: usize = matrix.len();
    let ghost target = matrix_row(matrix@, rows as nat, r as int);
    proof {
        vstd::arithmetic::div_mod::lemma_fundamental_div_mod_converse(
            total as int,
            rows as int,
            cols as int,
            0,
        );
    }
    let mut row: Vec<T> = Vec::new();
    let mut c: usize = 0;
    while c < cols
        invariant
            c <= cols,
            r < rows,
            total == matrix@.len(),
            total == cols * rows,
            target == matrix_row(matrix@, rows as nat, r as int),
            target.len() == cols,
            row@ == target.take(c as int),
        decreases cols - c,
    {
        assert(0 <= c * rows && c * rows + r < cols * rows) by (nonlinear_arith)
            requires
                0 <= c < cols,
                r < rows,
        ;
        row.push(matrix[c * rows + r]);
        assert(row@ =~= target.take(c + 1));
        c = c + 1;
    }
    assert(row@ =~= target);
    row
}

/// The host as an accelerator for the Baby Bear field.
pub struct CpuHal<S: Sha> {
    pub sha: S,
}

impl<S: Sha> Hal for CpuHal<S> {
    type Elem = BabyBearElem;

    type ExtElem = BabyBearExtElem;

    type BufferElem = CpuBuffer<BabyBearElem>;

    type BufferExtElem = CpuBuffer<BabyBearExtElem>;

    type BufferU32 = CpuBuffer<u32>;

    type BufferDigest = CpuBuffer<Digest>;

    open spec fn spec_hash_row(&self, row: Seq<BabyBearElem>) -> Digest {
        self.sha.spec_hash_words(raw_words_of(row))
    }

    open spec fn spec_hash_pair(&self, a: Digest, b: Digest) -> Digest {
        self.sha.spec_hash_pair(a, b)
    }

    fn alloc_elem(&self, name: &'static str, size: usize) -> (r: CpuBuffer<BabyBearElem>) {
        CpuBuffer { data: filled(BabyBearElem::zero(), size) }
    }

    fn alloc_extelem(&self, name: &'static str, size: usize) -> (r: CpuBuffer<BabyBearExtElem>) {
        CpuBuffer { data: filled(BabyBearExtElem::zero(), size) }
    }

    fn alloc_digest(&self, name: &'static str, size: usize) -> (r: CpuBuffer<Digest>) {
        CpuBuffer { data: filled(Digest { words: [0, 0, 0, 0, 0, 0, 0, 0] }, size) }
    }

    fn copy_from_u32(&self, name: &'static str, slice: &[u32]) -> (r: CpuBuffer<u32>) {
        CpuBuffer { data: copied(slice) }
    }

    fn copy_from_extelem(&self, name: &'static str, slice: &[BabyBearExtElem]) -> (r: CpuBuffer<BabyBearExtElem>) {
        CpuBuffer { data: copied(slice) }
    }

    fn batch_interpolate_ntt(&self, io: &mut CpuBuffer<BabyBearElem>, count: usize) {
        let ghost before = io.data@;
        let n: usize = io.data.len() / count;
        let ghost target = joined(count as nat, n as nat, |k: int| interpolated(chunk(before, n as nat, k)));
        let mut out: Vec<BabyBearElem> = Vec::new();
        let mut k: usize = 0;
        assert(target.take(0 * n) =~= Seq::<BabyBearElem>::empty());
        while k < count
            invariant
                k <= count,
                io.data@ == before,
                before.len() == count * n,
                is_power_of_two(n as nat),
                log2(n as nat) <= BabyBearElem::spec_max_rou_po2(),
                target == joined(count as nat, n as nat, |k: int| interpolated(chunk(before, n as nat, k))),
                out@ == target.take(k * n),
            decreases count - k,
        {
            let _total: usize = io.data.len();
            proof {
                lemma_take_piece(before, n as nat, count as nat, k as int);
                lemma_take_piece(target, n as nat, count as nat, k as int);
                lemma_chunk_of_joined(
                    count as nat,
                    n as nat,
                    |k: int| interpolated(chunk(before, n as nat, k)),
                    k as int,
                );
            }
            let mut piece = interpolate_piece(slice_subrange(io.data.as_slice(), k * n, k * n + n));
            out.append(&mut piece);
            k = k + 1;
        }
        assert(out@ =~= target);
        io.data = out;
    }

    fn batch_expand_into_evaluate_ntt(
        &self,
        output: &mut CpuBuffer<BabyBearElem>,
        input: &CpuBuffer<BabyBearElem>,
        count: usize,
        expand_bits: usize,
    ) {
        let ghost given = input.data@;
        let n: usize = input.data.len() / count;
        let m: usize = output.data.len() / count;
        let ghost target = joined(count as nat, m as nat, |k: int| evaluated(chunk(given, n as nat, k), m as nat));
        let mut out: Vec<BabyBearElem> = Vec::new();
        let mut k: usize = 0;
        assert(target.take(0 * m) =~= Seq::<BabyBearElem>::empty());
        while k < count
            invariant
                k <= count,
                input.data@ == given,
                given.len() == count * n,
                is_power_of_two(n as nat),
                log2(m as nat) <= BabyBearElem::spec_max_rou_po2(),
                target == joined(
                    count as nat,
                    m as nat,
                    |k: int| evaluated(chunk(given, n as nat, k), m as nat),
                ),
                out@ == target.take(k * m),
            decreases count - k,
        {
            let _total: usize = input.data.len();
            proof {
                lemma_take_piece(given, n as nat, count as nat, k as int);
                lemma_take_piece(target, m as nat, count as nat, k as int);
                lemma_chunk_of_joined(
                    count as nat,
                    m as nat,
                    |k: int| evaluated(chunk(given, n as nat, k), m as nat),
                    k as int,
                );
            }
            let mut piece = evaluate_piece(slice_subrange(input.data.as_slice(), k * n, k * n + n), m);
            out.append(&mut piece);
            k = k + 1;
        }
        assert(out@ =~= target);
        output.data = out;
    }

    fn batch_bit_reverse(&self, io: &mut CpuBuffer<BabyBearElem>, count: usize) {
        let ghost before = io.data@;
        let n: usize = io.data.len() / count;
        let ghost target = joined(count as nat, n as nat, |k: int| bit_reversed(chunk(before, n as nat, k)));
        let mut out: Vec<BabyBearElem> = Vec::new();
        let mut k: usize = 0;
        assert(target.take(0 * n) =~= Seq::<BabyBearElem>::empty());
        while k < count
            invariant
                k <= count,
                io.data@ == before,
                before.len() == count * n,
                is_power_of_two(n as nat),
                target == joined(count as nat, n as nat, |k: int| bit_reversed(chunk(before, n as nat, k))),
                out@ == target.take(k * n),
            decreases count - k,
        {
            let _total: usize = io.data.len();
            proof {
                lemma_take_piece(before, n as nat, count as nat, k as int);
                lemma_take_piece(target, n as nat, count as nat, k as int);
                lemma_chunk_of_joined(
                    count as nat,
                    n as nat,
                    |k: int| bit_reversed(chunk(before, n as nat, k)),
                    k as int,
                );
            }
            let mut piece = reverse_piece(slice_subrange(io.data.as_slice(), k * n, k * n + n));
            out.append(&mut piece);
            k = k + 1;
        }
        assert(out@ =~= target);
        io.data = out;
    }

    fn zk_shift(&self, io: &mut CpuBuffer<BabyBearElem>, count: usize) {
        let ghost before = io.data@;
        let n: usize = io.data.len() / count;
        let ghost target = joined(count as nat, n as nat, |k: int| shifted(chunk(before, n as nat, k)));
        let mut out: Vec<BabyBearElem> = Vec::new();
        let mut k: usize = 0;
        assert(target.take(0 * n) =~= Seq::<BabyBearElem>::empty());
        while k < count
            invariant
                k <= count,
                io.data@ == before,
                before.len() == count * n,
                is_power_of_two(n as nat),
                target == joined(count as nat, n as nat, |k: int| shifted(chunk(before, n as nat, k))),
                out@ == target.take(k * n),
            decreases count - k,
        {
            let _total: usize = io.data.len();
            proof {
                lemma_take_piece(before, n as nat, count as nat, k as int);
                lemma_take_piece(target, n as nat, count as nat, k as int);
                lemma_chunk_of_joined(count as nat, n as nat, |k: int| shifted(chunk(before, n as nat, k)), k as int);
            }
            let mut piece = shift_piece(slice_subrange(io.data.as_slice(), k * n, k * n + n));
            out.append(&mut piece);
            k = k + 1;
        }
        assert(out@ =~= target);
        io.data = out;
    }

    fn batch_evaluate_any(
        &self,
        coeffs: &CpuBuffer<BabyBearElem>,
        poly_count: usize,
        which: &CpuBuffer<u32>,
        xs: &CpuBuffer<BabyBearExtElem>,
        out: &mut CpuBuffer<BabyBearExtElem>,
    ) {
        let n: usize = coeffs.data.len() / poly_count;
        let ghost target = Seq::new(
            which.data@.len(),
            |i: int| eval(lifted::<BabyBearExtElem>(chunk(coeffs.data@, n as nat, which.data@[i] as int)), xs.data@[i]),
        );
        let mut values: Vec<BabyBearExtElem> = Vec::new();
        let mut i: usize = 0;
        while i < which.data.len()
            invariant
                i <= which.data@.len(),
                which.data@.len() == xs.data@.len(),
                coeffs.data@.len() == poly_count * n,
                forall|i: int| 0 <= i < which.data@.len() ==> #[trigger] which.data@[i] < poly_count,
                target == Seq::new(
                    which.data@.len(),
                    |i: int|
                        eval(
                            lifted::<BabyBearExtElem>(chunk(coeffs.data@, n as nat, which.data@[i] as int)),
                            xs.data@[i],
                        ),
                ),
                values@ == target.take(i as int),
            decreases which.data@.len() - i,
        {
            let _total: usize = coeffs.data.len();
            let k: usize = which.data[i] as usize;
            proof {
                lemma_chunk_bounds(poly_count as nat, n as nat, k as int);
            }
            let poly = slice_subrange(coeffs.data.as_slice(), k * n, k * n + n);
            values.push(eval_lifted::<BabyBearExtElem>(poly, xs.data[i]));
            assert(values@ =~= target.take(i + 1));
            i = i + 1;
        }
        assert(values@ =~= target);
        out.data = values;
    }

    fn mix_poly_coeffs(
        &self,
        output: &mut CpuBuffer<BabyBearExtElem>,
        mix_start: &BabyBearExtElem,
        mix: &BabyBearExtElem,
        input: &CpuBuffer<BabyBearElem>,
        combos: &CpuBuffer<u32>,
        input_size: usize,
        count: usize,
    ) {
        let ghost before = output.data@;
        let mut weight = BabyBearExtElem::one();
        let mut i: usize = 0;
        while i < input_size
            invariant
                i <= input_size,
                input.data@.len() == input_size * count,
                combos.data@.len() == input_size,
                forall|i: int|
                    0 <= i < input_size ==> (#[trigger] combos.data@[i]) * count + count <= before.len(),
                weight == pow(*mix, i as nat),
                output.data@.len() == before.len(),
                output.data@ == polys_mixed(
                    before,
                    *mix_start,
                    *mix,
                    input.data@,
                    combos.data@,
                    count as nat,
                    i as nat,
                ),
            decreases input_size - i,
        {
            let _total: usize = input.data.len();
            let _room: usize = output.data.len();
            let k: usize = combos.data[i] as usize;
            proof {
                lemma_chunk_bounds(input_size as nat, count as nat, i as int);
                assert(combos.data@[i as int] * count + count <= before.len());
                assert(0 <= k * count) by (nonlinear_arith);
            }
            let poly = slice_subrange(input.data.as_slice(), i * count, i * count + count);
            add_at::<BabyBearExtElem>(&mut output.data, k * count, mix_start.times(weight), poly);
            weight = mix.times(weight);
            i = i + 1;
        }
    }

    fn eltwise_sum_extelem(&self, output: &mut CpuBuffer<BabyBearElem>, input: &CpuBuffer<BabyBearExtElem>) {
        let n: usize = output.data.len() / BabyBearExtElem::ext_size();
        let sums = sum_columns(input.data.as_slice(), n);
        output.data = coordinates::<BabyBearExtElem>(sums.as_slice());
    }

    fn fri_fold(&self, output: &mut CpuBuffer<BabyBearElem>, input: &CpuBuffer<BabyBearElem>, mix: &BabyBearExtElem) {
        let n: usize = output.data.len() / BabyBearExtElem::ext_size();
        let values = fold_coefficients::<BabyBearExtElem>(input.data.as_slice(), *mix, n);
        output.data = coordinates::<BabyBearExtElem>(values.as_slice());
    }

    fn sha_rows(&self, io: &mut CpuBuffer<Digest>, matrix: &CpuBuffer<BabyBearElem>, rows: usize, cols: usize) {
        let ghost before = io.data@;
        let ghost target = Seq::new(
            2 * rows as nat,
            |i: int|
                if i >= rows {
                    self.spec_hash_row(matrix_row(matrix.data@, rows as nat, i - rows))
                } else {
                    before[i]
                },
        );
        let total: usize = io.data.len();
        let mut r: usize = 0;
        while r < rows
            invariant
                r <= rows,
                total == 2 * rows,
                io.data@.len() == total,
                matrix.data@.len() == cols * rows,
                target == Seq::new(
                    2 * rows as nat,
                    |i: int|
                        if i >= rows {
                            self.spec_hash_row(matrix_row(matrix.data@, rows as nat, i - rows))
                        } else {
                            before[i]
                        },
                ),
                forall|i: int| 0 <= i < rows + r ==> #[trigger] io.data@[i] == target[i],
            decreases rows - r,
        {
            let row = read_row(matrix.data.as_slice(), rows, cols, r);
            let words = raw_words(row.as_slice());
            let digest = self.sha.hash_raw_pod_slice(words.as_slice());
            io.data.set(rows + r, digest);
            r = r + 1;
        }
        assert(io.data@ =~= target);
    }

    fn sha_fold(&self, io: &mut CpuBuffer<Digest>, output_size: usize) {
        let ghost before = io.data@;
        let total: usize = io.data.len();
        let mut i: usize = output_size;
        while i < 2 * output_size
            invariant
                output_size <= i <= 2 * output_size,
                4 * output_size <= total,
                total == before.len(),
                io.data@.len() == total,
                forall|j: int|
                    output_size <= j < i ==> #[trigger] io.data@[j] == self.spec_hash_pair(
                        before[2 * j],
                        before[2 * j + 1],
                    ),
                forall|j: int| 0 <= j < total && !(output_size <= j < i) ==> #[trigger] io.data@[j] == before[j],
            decreases 2 * output_size - i,
        {
            let digest = self.sha.hash_pair(&io.data[2 * i], &io.data[2 * i + 1]);
            io.data.set(i, digest);
            i = i + 1;
        }
    }
}

} // verus!
