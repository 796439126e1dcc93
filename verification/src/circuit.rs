//! A circuit without constraints: its check polynomial is the combination of
//! all committed polynomials by powers of the mix.
use crate::cpu::{coordinates, eval_lifted};
use crate::field::ExtElem;
use crate::hal::{all_contents, by_coordinate, matrix_row, Buffer, EvalCheck, Hal, INV_RATE};
use crate::poly::eval;
use crate::transform::lifted;
use vstd::prelude::*;

verus! {

/// The values of all polynomials of the first `k` groups at point `i` of a
/// domain of size `n`.
pub open spec fn values_at<E>(groups: Seq<Seq<E>>, n: nat, k: nat, i: int) -> Seq<E>
    decreases k,
{
    if k == 0 {
        Seq::empty()
    } else {
        values_at(groups, n, (k - 1) as nat, i) + matrix_row(groups[k - 1], n, i)
    }
}

/// The circuit whose check polynomial is the combination of all committed
/// polynomials.
pub struct CombiningCircuit;

/// Collects the values of all polynomials at point `i`.
fn read_values<H: Hal>(groups: &[&H::BufferElem], n: usize, i: usize) -> (r: Vec<H::Elem>)
    requires
        i < n,
        forall|g: int| 0 <= g < groups@.len() ==> (#[trigger] groups@[g]).contents().len() % n as nat == 0,
    ensures
        r@ == values_at(all_contents::<H>(groups@), n as nat, groups@.len(), i as int),
{
    let ghost all = all_contents::<H>(groups@);
    let mut r: Vec<H::Elem> = Vec::new();
    let mut g: usize = 0;
    while g < groups.len()
        invariant
            g <= groups@.len(),
            i < n,
            all == all_contents::<H>(groups@),
            forall|g: int| 0 <= g < groups@.len() ==> (#[trigger] groups@[g]).contents().len() % n as nat == 0,
            r@ == values_at(all, n as nat, g as nat, i as int),
        decreases groups@.len() - g,
    {
        let group: &H::BufferElem = groups[g];
        let total: usize = group.size();
        let cols: usize = total / n;
        let ghost before = r@;
        let ghost row = matrix_row(all[g as int], n as nat, i as int);
        assert(group.contents() == all[g as int]);
        assert(groups@[g as int].contents().len() % n as nat == 0);
        assert(total == cols * n) by (nonlinear_arith)
            requires
                cols == total / n,
                total % n == 0,
                n > 0,
        ;
        let mut c: usize = 0;
        while c < cols
            invariant
                c <= cols,
                i < n,
                total == cols * n,
                total == group.contents().len(),
                row == matrix_row(group.contents(), n as nat, i as int),
                row.len() == cols,
                r@ == before + row.take(c as int),
            decreases cols - c,
        {
            assert(0 <= c * n && c * n + i < cols * n) by (nonlinear_arith)
                requires
                    0 <= c < cols,
                    i < n,
            ;
            r.push(group.get(c * n + i));
            assert(r@ =~= before + row.take(c + 1));
            c = c + 1;
        }
        assert(row.take(cols as int) =~= row);
        g = g + 1;
    }
    r
}

impl<H: Hal> EvalCheck<H> for CombiningCircuit {
    open spec fn accepts(&self, groups: Seq<Seq<H::Elem>>, globals: Seq<Seq<H::Elem>>, po2: nat, steps: nat) -> bool {
        forall|g: int| 0 <= g < groups.len() ==> (#[trigger] groups[g]).len() % (steps * INV_RATE as nat) == 0
    }

    open spec fn check_values(
        &self,
        groups: Seq<Seq<H::Elem>>,
        globals: Seq<Seq<H::Elem>>,
        poly_mix: H::ExtElem,
        po2: nat,
        steps: nat,
    ) -> Seq<H::Elem> {
        let n = steps * INV_RATE as nat;
        by_coordinate(
            Seq::new(n, |i: int| eval(lifted::<H::ExtElem>(values_at(groups, n, groups.len(), i)), poly_mix)),
        )
    }

    proof fn law_check_values(
        &self,
        groups: Seq<Seq<H::Elem>>,
        globals: Seq<Seq<H::Elem>>,
        poly_mix: H::ExtElem,
        po2: nat,
        steps: nat,
    ) {
    }

    fn eval_check(
        &self,
        check: &mut H::BufferElem,
        groups: &[&H::BufferElem],
        globals: &[&H::BufferElem],
        poly_mix: H::ExtElem,
        po2: usize,
        steps: usize,
    ) {
        let _total: usize = check.size();
        let ext: usize = H::ExtElem::ext_size();
        proof {
            H::ExtElem::law_ext_size();
            assert(steps * 4 <= ext * (steps * 4)) by (nonlinear_arith)
                requires
                    ext >= 1,
            ;
        }
        let n: usize = steps * INV_RATE;
        let ghost all = all_contents::<H>(groups@);
        let ghost target = Seq::new(
            n as nat,
            |i: int| eval(lifted::<H::ExtElem>(values_at(all, n as nat, all.len(), i)), poly_mix),
        );
        assert forall|g: int| 0 <= g < groups@.len() implies (#[trigger] groups@[g]).contents().len() % n as nat
            == 0 by {
            assert(all[g].len() % (steps as nat * INV_RATE as nat) == 0);
        }
        let mut values: Vec<H::ExtElem> = Vec::new();
        let mut i: usize = 0;
        while i < n
            invariant
                i <= n,
                all == all_contents::<H>(groups@),
                forall|g: int|
                    0 <= g < groups@.len() ==> (#[trigger] groups@[g]).contents().len() % n as nat == 0,
                target == Seq::new(
                    n as nat,
                    |i: int| eval(lifted::<H::ExtElem>(values_at(all, n as nat, all.len(), i)), poly_mix),
                ),
                values@ == target.take(i as int),
            decreases n - i,
        {
            let row = read_values::<H>(groups, n, i);
            values.push(eval_lifted::<H::ExtElem>(row.as_slice(), poly_mix));
            assert(values@ =~= target.take(i + 1));
            i = i + 1;
        }
        assert(values@ =~= target);
        let data = coordinates::<H::ExtElem>(values.as_slice());
        assert(data@.len() == ext * n);
        check.store(data.as_slice());
    }
}

} // verus!
