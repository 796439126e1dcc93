//! Merkle trees over the rows of a matrix.
use crate::field::Elem;
use crate::hal::{matrix_row, Buffer, Hal};
use crate::iop::{words_of, Transcript, WriteIOP};
use crate::sha::{Digest, Sha};
use crate::transform::{is_power_of_two, lemma_chunk_bounds, log2};
use vstd::arithmetic::div_mod::lemma_fundamental_div_mod_converse;
use vstd::arithmetic::power2::{lemma_pow2_pos, lemma_pow2_unfold, pow2};
use vstd::prelude::*;

verus! {

/// No more than this many nodes are written when a tree is committed to: the
/// largest power of two that does not exceed the number of queries.
pub const MAX_TOP_SIZE: usize = 32;

/// The digest at node `i` of the tree over the rows of `matrix`. The root is
/// node 1, the children of node `i` are nodes `2 * i` and `2 * i + 1`, and the
/// leaf of row `r` is node `rows + r`.
pub open spec fn node<H: Hal>(hal: H, matrix: Seq<H::Elem>, rows: nat, i: nat) -> Digest
    decreases 2 * rows - i,
{
    if i >= rows || i == 0 {
        hal.spec_hash_row(matrix_row(matrix, rows, i - rows))
    } else {
        hal.spec_hash_pair(node(hal, matrix, rows, 2 * i), node(hal, matrix, rows, 2 * i + 1))
    }
}

/// The number of nodes in the layer that is written in full.
pub open spec fn top_size(rows: nat) -> nat {
    if rows > MAX_TOP_SIZE {
        MAX_TOP_SIZE as nat
    } else if rows > 1 {
        rows / 2
    } else {
        1
    }
}

/// The words of the digests at nodes `from` to `to`, excluding `to`.
pub open spec fn layer_words<H: Hal>(hal: H, matrix: Seq<H::Elem>, rows: nat, from: nat, to: nat) -> Seq<u32>
    decreases to,
{
    if from >= to {
        Seq::empty()
    } else {
        layer_words(hal, matrix, rows, from, (to - 1) as nat) + node(hal, matrix, rows, (to - 1) as nat).words@
    }
}

/// The node that has the same parent as node `i`.
pub open spec fn sibling(i: nat) -> nat {
    2 * (i / 2) + (1 - i % 2) as nat
}

/// The words of the siblings on the way from node `i` up to the layer that was
/// written in full.
pub open spec fn path_words<H: Hal>(hal: H, matrix: Seq<H::Elem>, rows: nat, i: nat) -> Seq<u32>
    decreases i,
{
    if i < 2 * top_size(rows) || i == 0 {
        Seq::empty()
    } else {
        node(hal, matrix, rows, sibling(i)).words@ + path_words(hal, matrix, rows, i / 2)
    }
}

/// The siblings on the way from node `i` up to the layer that was written in
/// full.
pub open spec fn siblings<H: Hal>(hal: H, matrix: Seq<H::Elem>, rows: nat, i: nat) -> Seq<Digest>
    decreases i,
{
    if i < 2 * top_size(rows) || i == 0 {
        Seq::empty()
    } else {
        seq![node(hal, matrix, rows, sibling(i))] + siblings(hal, matrix, rows, i / 2)
    }
}

/// The words of several digests.
pub open spec fn digest_words(digests: Seq<Digest>) -> Seq<u32>
    decreases digests.len(),
{
    if digests.len() == 0 {
        Seq::empty()
    } else {
        digests[0].words@ + digest_words(digests.drop_first())
    }
}

/// The node in the layer that was written in full to which the way up from
/// node `i` leads.
pub open spec fn top_node(rows: nat, i: nat) -> nat
    decreases i,
{
    if i < 2 * top_size(rows) || i == 0 {
        i
    } else {
        top_node(rows, i / 2)
    }
}

/// The digest reached from that of node `i` by hashing with one sibling after
/// the other.
pub open spec fn climbed<H: Hal>(hal: H, digest: Digest, i: nat, path: Seq<Digest>) -> Digest
    decreases path.len(),
{
    if path.len() == 0 {
        digest
    } else {
        let parent = if i % 2 == 0 {
            hal.spec_hash_pair(digest, path[0])
        } else {
            hal.spec_hash_pair(path[0], digest)
        };
        climbed(hal, parent, i / 2, path.drop_first())
    }
}

/// What is written when a row is opened proves the row: hashing it together
/// with the siblings that follow it leads to the digest that was committed to
/// at the top.
pub proof fn law_paths_lead_to_the_top<H: Hal>(hal: H, matrix: Seq<H::Elem>, rows: nat, r: nat)
    requires
        r < rows,
    ensures
        path_words(hal, matrix, rows, rows + r) == digest_words(siblings(hal, matrix, rows, rows + r)),
        climbed(
            hal,
            hal.spec_hash_row(matrix_row(matrix, rows, r as int)),
            rows + r,
            siblings(hal, matrix, rows, rows + r),
        ) == node(hal, matrix, rows, top_node(rows, rows + r)),
        top_size(rows) <= top_node(rows, rows + r) < 2 * top_size(rows),
{
    lemma_climb(hal, matrix, rows, rows + r);
}

proof fn lemma_climb<H: Hal>(hal: H, matrix: Seq<H::Elem>, rows: nat, i: nat)
    requires
        rows > 0,
        top_size(rows) <= i < 2 * rows,
    ensures
        path_words(hal, matrix, rows, i) == digest_words(siblings(hal, matrix, rows, i)),
        climbed(hal, node(hal, matrix, rows, i), i, siblings(hal, matrix, rows, i)) == node(
            hal,
            matrix,
            rows,
            top_node(rows, i),
        ),
        top_size(rows) <= top_node(rows, i) < 2 * top_size(rows),
    decreases i,
{
    if i >= 2 * top_size(rows) {
        let up = i / 2;
        lemma_climb(hal, matrix, rows, up);
        let path = siblings(hal, matrix, rows, i);
        assert(path.drop_first() =~= siblings(hal, matrix, rows, up));
        assert(node(hal, matrix, rows, up) == hal.spec_hash_pair(
            node(hal, matrix, rows, 2 * up),
            node(hal, matrix, rows, 2 * up + 1),
        ));
    }
}

/// The transcript after the tree has been committed to.
pub open spec fn tree_committed<H: Hal, S: Sha>(
    hal: H,
    t: Transcript<S>,
    matrix: Seq<H::Elem>,
    rows: nat,
) -> Transcript<S> {
    t.written(layer_words(hal, matrix, rows, top_size(rows), 2 * top_size(rows))).committed(
        node(hal, matrix, rows, 1),
    )
}

/// The transcript after row `r` has been opened.
pub open spec fn row_opened<H: Hal, S: Sha>(
    hal: H,
    t: Transcript<S>,
    matrix: Seq<H::Elem>,
    rows: nat,
    r: nat,
) -> Transcript<S> {
    t.written(words_of(matrix_row(matrix, rows, r as int))).written(
        path_words(hal, matrix, rows, r + rows),
    )
}

/// A matrix, with the Merkle tree over its rows.
pub struct MerkleTreeProver<H: Hal> {
    pub matrix: H::BufferElem,
    pub nodes: H::BufferDigest,
    pub rows: usize,
    pub cols: usize,
}

impl<H: Hal> MerkleTreeProver<H> {
    /// The nodes are those of the tree over the rows of the matrix.
    pub open spec fn wf(&self, hal: H) -> bool {
        &&& self.rows > 0
        &&& is_power_of_two(self.rows as nat)
        &&& 2 * self.rows <= usize::MAX
        &&& self.matrix.contents().len() == self.cols * self.rows
        &&& self.nodes.contents().len() == 2 * self.rows
        &&& forall|i: int|
            1 <= i < 2 * self.rows ==> #[trigger] self.nodes.contents()[i] == node(
                hal,
                self.matrix.contents(),
                self.rows as nat,
                i as nat,
            )
    }

    /// Builds the tree over the rows of `matrix`.
    pub fn new(hal: &H, matrix: H::BufferElem, rows: usize, cols: usize) -> (r: Self)
        requires
            rows > 0,
            is_power_of_two(rows as nat),
            2 * rows <= usize::MAX,
            matrix.contents().len() == cols * rows,
        ensures
            r.wf(*hal),
            r.matrix == matrix,
            r.rows == rows,
            r.cols == cols,
    {
        let mut nodes = hal.alloc_digest("nodes", 2 * rows);
        hal.sha_rows(&mut nodes, &matrix, rows, cols);
        let mut layer: usize = rows;
        let ghost mut k: nat = log2(rows as nat);
        while layer > 1
            invariant
                layer == pow2(k),
                0 < layer <= rows,
                2 * rows <= usize::MAX,
                nodes.contents().len() == 2 * rows,
                forall|i: int|
                    layer <= i < 2 * rows ==> #[trigger] nodes.contents()[i] == node(
                        *hal,
                        matrix.contents(),
                        rows as nat,
                        i as nat,
                    ),
            decreases layer,
        {
            proof {
                if k == 0 {
                    vstd::arithmetic::power2::lemma2_to64();
                }
                lemma_pow2_unfold(k);
                lemma_pow2_pos((k - 1) as nat);
                k = (k - 1) as nat;
            }
            let half: usize = layer / 2;
            let ghost before = nodes.contents();
            hal.sha_fold(&mut nodes, half);
            assert forall|i: int| half <= i < 2 * rows implies #[trigger] nodes.contents()[i] == node(
                *hal,
                matrix.contents(),
                rows as nat,
                i as nat,
            ) by {
                if i < 2 * half {
                    assert(before[2 * i] == node(*hal, matrix.contents(), rows as nat, (2 * i) as nat));
                    assert(before[2 * i + 1] == node(*hal, matrix.contents(), rows as nat, (2 * i + 1) as nat));
                } else {
                    assert(before[i] == node(*hal, matrix.contents(), rows as nat, i as nat));
                }
            }
            layer = half;
        }
        MerkleTreeProver { matrix, nodes, rows, cols }
    }

    fn top(&self) -> (r: usize)
        ensures
            r == top_size(self.rows as nat),
    {
        if self.rows > MAX_TOP_SIZE {
            MAX_TOP_SIZE
        } else if self.rows > 1 {
            self.rows / 2
        } else {
            1
        }
    }

    /// The digest that commits to all rows.
    pub fn root(&self, hal: &H) -> (r: Digest)
        requires
            self.wf(*hal),
        ensures
            r == node(*hal, self.matrix.contents(), self.rows as nat, 1),
    {
        self.nodes.get(1)
    }

    /// Writes the top of the tree to the proof and commits to its root.
    pub fn commit<S: Sha>(&self, hal: &H, iop: &mut WriteIOP<S>)
        requires
            self.wf(*hal),
        ensures
            final(iop)@ == tree_committed(*hal, old(iop)@, self.matrix.contents(), self.rows as nat),
    {
        let top = self.top();
        let ghost m = self.matrix.contents();
        let ghost n = self.rows as nat;
        let mut i: usize = top;
        assert(iop@.proof =~= old(iop)@.proof + layer_words(*hal, m, n, top as nat, i as nat));
        while i < 2 * top
            invariant
                top <= i <= 2 * top <= 2 * self.rows,
                1 <= top,
                self.wf(*hal),
                m == self.matrix.contents(),
                n == self.rows,
                iop@ == old(iop)@.written(layer_words(*hal, m, n, top as nat, i as nat)),
            decreases 2 * top - i,
        {
            let digest = self.nodes.get(i);
            iop.write_digest(&digest);
            assert(iop@.proof =~= old(iop)@.proof + layer_words(*hal, m, n, top as nat, i as nat + 1));
            i = i + 1;
        }
        let root = self.root(hal);
        iop.commit(&root);
    }

    /// Writes row `idx` to the proof, with what is needed to recompute the
    /// committed part of the tree from it.
    pub fn prove<S: Sha>(&self, hal: &H, iop: &mut WriteIOP<S>, idx: usize) -> (row: Vec<H::Elem>)
        requires
            self.wf(*hal),
            idx < self.rows,
        ensures
            row@ == matrix_row(self.matrix.contents(), self.rows as nat, idx as int),
            final(iop)@ == row_opened(*hal, old(iop)@, self.matrix.contents(), self.rows as nat, idx as nat),
    {
        let ghost m = self.matrix.contents();
        let ghost n = self.rows as nat;
        let mut row: Vec<H::Elem> = Vec::new();
        let mut col: usize = 0;
        while col < self.cols
            invariant
                col <= self.cols,
                self.wf(*hal),
                idx < self.rows,
                m == self.matrix.contents(),
                n == self.rows,
                row@.len() == col,
                forall|c: int| 0 <= c < col ==> row@[c] == m[c * n + idx],
            decreases self.cols - col,
        {
            proof {
                lemma_chunk_bounds(self.cols as nat, n, col as int);
            }
            let size = self.matrix.size();
            row.push(self.matrix.get(col * self.rows + idx));
            col = col + 1;
        }
        proof {
            lemma_fundamental_div_mod_converse(m.len() as int, n as int, self.cols as int, 0);
        }
        assert(row@ =~= matrix_row(m, n, idx as int));
        iop.write_field_elem_slice(row.as_slice());
        let ghost opened = iop@;
        let top = self.top();
        let mut i: usize = idx + self.rows;
        assert(iop@.proof =~= opened.proof + Seq::<u32>::empty());
        while i >= 2 * top
            invariant
                self.wf(*hal),
                m == self.matrix.contents(),
                n == self.rows,
                top == top_size(n),
                1 <= i < 2 * self.rows,
                top <= self.rows,
                iop@.rng == opened.rng,
                iop@.proof + path_words(*hal, m, n, i as nat) == opened.proof + path_words(
                    *hal,
                    m,
                    n,
                    (idx + self.rows) as nat,
                ),
            decreases i,
        {
            let low_bit: usize = i % 2;
            let ghost at = i as nat;
            i = i / 2;
            let other_idx: usize = 2 * i + (1 - low_bit);
            let ghost before = iop@.proof;
            proof {
                // Both children of an inner node lie in the tree: it has an even size.
                assert(other_idx == sibling(at));
            }
            let digest = self.nodes.get(other_idx);
            iop.write_digest(&digest);
            assert(before + path_words(*hal, m, n, at) =~= iop@.proof + path_words(*hal, m, n, i as nat));
        }
        assert(iop@.proof =~= opened.proof + path_words(*hal, m, n, (idx + self.rows) as nat));
        row
    }
}

} // verus!
