//! The constraint system restricted to the hypercube: evaluations at index
//! bits, and the tables of those values that the sumcheck prover folds.
use vstd::prelude::*;
use vstd::arithmetic::power2::*;
use crate::bits::{bit, lemma_bit_shift};
use crate::constraints::{lemma_lc_terms, lemma_quadratic_terms, lemma_var_index, ConstraintSetMatrix, Delta, LinearCombination, Quadratic, Trace, Var, BQCS};
use crate::fields::{fmul, fe, fsub, lemma_view_range, BaseField};
use crate::mle::{eq_poly, eq_prod, lemma_fsum_step, sel, sum, vals2};

verus! {

/// `1` where `index == bits`, `0` elsewhere.
pub open spec fn indicator(index: int, bits: int) -> int {
    if index == bits {
        1
    } else {
        0
    }
}

impl<const J: usize> Var<J> {
    pub fn evaluate_hypercube(&self, bits: usize) -> (r: BaseField)
        ensures
            r@ == indicator(self.index(), bits as int),
    {
        proof { lemma_var_index(*self); }
        if bits == self.0 {
            return BaseField::from_u64(1);
        }
        BaseField::from_u64(0)
    }
}

impl<const J: usize> LinearCombination<J> {
    /// The value at the hypercube vertex `bits`.
    pub open spec fn hc_value(self, bits: int) -> int {
        fe(sum(|k: int| fmul(self.terms()[k].0@, indicator(self.terms()[k].1.index(), bits)), self.terms().len() as int))
    }

    pub fn evaluate_hypercube(&self, bits: usize) -> (r: BaseField)
        ensures
            r@ == self.hc_value(bits as int),
    {
        let ghost f = |k: int| fmul(self.terms()[k].0@, indicator(self.terms()[k].1.index(), bits as int));
        let mut acc = BaseField::zero();
        let mut k: usize = 0;
        while k < self.0.len()
            invariant
                0 <= k <= self.0.len(),
                f == (|k: int| fmul(self.terms()[k].0@, indicator(self.terms()[k].1.index(), bits as int))),
                acc@ == fe(sum(f, k as int)),
            decreases self.0.len() - k,
        {
            proof { lemma_lc_terms(*self); }
            let (c, x) = self.0[k];
            let t = c.mul(x.evaluate_hypercube(bits));
            proof { lemma_fsum_step(f, k as int); }
            acc = acc.add(t);
            k = k + 1;
        }
        proof { lemma_lc_terms(*self); }
        acc
    }
}

impl<const J: usize> Quadratic<J> {
    /// The value at the hypercube vertices `b1` and `b2`.
    pub open spec fn hc_value(self, b1: int, b2: int) -> int {
        fe(sum(|k: int| fmul(self.terms()[k].0.hc_value(b1), self.terms()[k].1.hc_value(b2)), self.terms().len() as int))
    }

    pub fn evaluate_hypercube(&self, bits1: usize, bits2: usize) -> (r: BaseField)
        ensures
            r@ == self.hc_value(bits1 as int, bits2 as int),
    {
        let ghost f = |k: int| fmul(self.terms()[k].0.hc_value(bits1 as int), self.terms()[k].1.hc_value(bits2 as int));
        let mut acc = BaseField::zero();
        let mut k: usize = 0;
        while k < self.0.len()
            invariant
                0 <= k <= self.0.len(),
                f == (|k: int| fmul(self.terms()[k].0.hc_value(bits1 as int), self.terms()[k].1.hc_value(bits2 as int))),
                acc@ == fe(sum(f, k as int)),
            decreases self.0.len() - k,
        {
            proof { lemma_quadratic_terms(*self); }
            let t = self.0[k].0.evaluate_hypercube(bits1).mul(self.0[k].1.evaluate_hypercube(bits2));
            proof { lemma_fsum_step(f, k as int); }
            acc = acc.add(t);
            k = k + 1;
        }
        proof { lemma_quadratic_terms(*self); }
        acc
    }
}

impl<const J: usize, const K: usize> ConstraintSetMatrix<J, K> {
    /// The batching weight of each constraint: the equality polynomial of
    /// its index at the batching point.
    pub fn constraint_masks(&self) -> (r: Vec<BaseField>)
        requires
            self.wf(),
        ensures
            r.len() == self.set.expressions.len(),
            forall|k: int| 0 <= k < r.len() ==> (#[trigger] r@[k])@ == eq_poly(k, self.rk()),
    {
        let random_k = self.random_k.as_slice();
        let mut masks: Vec<BaseField> = Vec::new();
        let mut k: usize = 0;
        while k < self.set.expressions.len()
            invariant
                0 <= k <= self.set.expressions.len(),
                self.wf(),
                random_k@ == self.random_k@,
                masks.len() == k,
                forall|m: int| 0 <= m < k ==> (#[trigger] masks@[m])@ == eq_poly(m, self.rk()),
            decreases self.set.expressions.len() - k,
        {
            proof { lemma_var_index(Var::<K>(k)); }
            masks.push(Var::<K>(k).evaluate(random_k));
            k = k + 1;
        }
        masks
    }

    /// The batched constraint at the hypercube vertices `b1` and `b2`.
    pub open spec fn hc_value(self, b1: int, b2: int) -> int {
        fe(sum(|k: int| fmul(eq_poly(k, self.rk()), self.set.expressions@[k].hc_value(b1, b2)),
            self.set.expressions.len() as int))
    }

    pub fn evaluate_hypercube(&self, bits1: usize, bits2: usize) -> (r: BaseField)
        requires
            self.wf(),
        ensures
            r@ == self.hc_value(bits1 as int, bits2 as int),
    {
        let constraint_masks = self.constraint_masks();
        let ghost f = |k: int| fmul(eq_poly(k, self.rk()), self.set.expressions@[k].hc_value(bits1 as int, bits2 as int));
        let mut acc = BaseField::zero();
        let mut k: usize = 0;
        while k < self.set.expressions.len()
            invariant
                0 <= k <= self.set.expressions.len(),
                constraint_masks.len() == self.set.expressions.len(),
                forall|m: int| 0 <= m < constraint_masks.len() ==> (#[trigger] constraint_masks@[m])@ == eq_poly(m, self.rk()),
                f == (|k: int| fmul(eq_poly(k, self.rk()), self.set.expressions@[k].hc_value(bits1 as int, bits2 as int))),
                acc@ == fe(sum(f, k as int)),
            decreases self.set.expressions.len() - k,
        {
            let t = constraint_masks[k].mul(self.set.expressions[k].evaluate_hypercube(bits1, bits2));
            proof { lemma_fsum_step(f, k as int); }
            acc = acc.add(t);
            k = k + 1;
        }
        acc
    }

    /// The table of the batched constraint over all pairs of column vertices.
    pub fn build_table(&self) -> (r: Vec<Vec<BaseField>>)
        requires
            self.wf(),
        ensures
            r.len() == pow2(J as nat),
            forall|j1: int| 0 <= j1 < r.len() ==> (#[trigger] r@[j1]).len() == pow2(J as nat),
            forall|j1: int, j2: int| 0 <= j1 < r.len() && 0 <= j2 < pow2(J as nat) ==>
                #[trigger] vals2(r@)[j1][j2] == self.hc_value(j1, j2),
    {
        let n: usize = 1usize << J;
        proof {
            crate::bits::lemma_bit_ops(0, J);
        }
        let mut table: Vec<Vec<BaseField>> = Vec::new();
        let mut j1: usize = 0;
        while j1 < n
            invariant
                0 <= j1 <= n,
                self.wf(),
                n == pow2(J as nat),
                table.len() == j1,
                forall|a: int| 0 <= a < j1 ==> (#[trigger] table@[a]).len() == n,
                forall|a: int, b: int| 0 <= a < j1 && 0 <= b < n ==>
                    #[trigger] vals2(table@)[a][b] == self.hc_value(a, b),
            decreases n - j1,
        {
            let mut row: Vec<BaseField> = Vec::new();
            let mut j2: usize = 0;
            while j2 < n
                invariant
                    0 <= j2 <= n,
                    self.wf(),
                    row.len() == j2,
                    forall|b: int| 0 <= b < j2 ==> (#[trigger] row@[b])@ == self.hc_value(j1 as int, b),
                decreases n - j2,
            {
                row.push(self.evaluate_hypercube(j1, j2));
                j2 = j2 + 1;
            }
            let ghost old_table = table@;
            table.push(row);
            proof {
                assert forall|a: int, b: int| 0 <= a < j1 + 1 && 0 <= b < n implies
                    #[trigger] vals2(table@)[a][b] == self.hc_value(a, b) by {
                    assert(vals2(table@)[a][b] == table@[a]@[b]@);
                    if a < j1 {
                        assert(table@[a] == old_table[a]);
                        assert(vals2(old_table)[a][b] == old_table[a]@[b]@);
                    } else {
                        assert(table@[a] == row);
                    }
                }
            }
            j1 = j1 + 1;
        }
        table
    }
}

impl<const I: usize, const J: usize> Trace<I, J> {
    pub fn evaluate_hypercube(&self, row_bits: usize, col_bits: usize) -> (r: BaseField)
        requires
            self.wf(),
            row_bits < pow2(I as nat),
            col_bits < pow2(J as nat),
        ensures
            r@ == self.table()[row_bits as int][col_bits as int],
    {
        self.rows[row_bits][col_bits]
    }

    pub fn build_table(&self) -> (r: Vec<Vec<BaseField>>)
        ensures
            vals2(r@) == self.table(),
            r.len() == self.rows.len(),
            forall|i: int| 0 <= i < r.len() ==> (#[trigger] r@[i]).len() == self.rows@[i].len(),
    {
        let mut table: Vec<Vec<BaseField>> = Vec::new();
        let mut i: usize = 0;
        while i < self.rows.len()
            invariant
                0 <= i <= self.rows.len(),
                table.len() == i,
                forall|a: int| 0 <= a < i ==> (#[trigger] table@[a])@ == self.rows@[a]@,
            decreases self.rows.len() - i,
        {
            let row = self.rows[i].clone();
            proof {
                assert(row@ =~= self.rows@[i as int]@);
            }
            table.push(row);
            i = i + 1;
        }
        proof {
            assert(vals2(table@) =~= self.table());
        }
        table
    }
}

impl<const I: usize> Delta<I> {
    /// The value at the diagonal vertex `bits` (both row points equal).
    pub open spec fn hc_value(self, bits: int) -> int {
        eq_poly(bits, self.point())
    }

    // No need for two bits, since they must be equal
    pub fn evaluate_hypercube(&self, bits: usize) -> (r: BaseField)
        requires
            self.wf(),
        ensures
            r@ == self.hc_value(bits as int),
    {
        let ghost pts = self.point();
        let one = BaseField::from_u64(1);
        let mut acc = BaseField::from_u64(1);
        let mut i: usize = 0;
        while i < I
            invariant
                0 <= i <= I,
                self.wf(),
                one@ == 1,
                pts == self.point(),
                acc@ == eq_prod(bits as int, pts, i as nat),
            decreases I - i,
        {
            let a = self.data[I - 1 - i];
            proof { lemma_bit_shift(bits, i); }
            if (bits >> i) & 1 == 1 {
                acc = acc.mul(a);
            } else {
                acc = acc.mul(one.sub(a));
            }
            proof {
                assert(pts[I - (i + 1)] == a@);
            }
            i = i + 1;
        }
        acc
    }

    pub fn build_table(&self) -> (r: Vec<BaseField>)
        requires
            self.wf(),
        ensures
            r.len() == pow2(I as nat),
            forall|i: int| 0 <= i < r.len() ==> (#[trigger] r@[i])@ == self.hc_value(i),
    {
        let n: usize = 1usize << I;
        proof {
            crate::bits::lemma_bit_ops(0, I);
        }
        let mut table: Vec<BaseField> = Vec::new();
        let mut i: usize = 0;
        while i < n
            invariant
                0 <= i <= n,
                self.wf(),
                n == pow2(I as nat),
                table.len() == i,
                forall|a: int| 0 <= a < i ==> (#[trigger] table@[a])@ == self.hc_value(a),
            decreases n - i,
        {
            table.push(self.evaluate_hypercube(i));
            i = i + 1;
        }
        table
    }
}

impl<const I: usize, const J: usize, const K: usize> BQCS<I, J, K> {
    /// The summed polynomial at the hypercube vertex `(row, row, col1, col2)`.
    pub open spec fn hc_value(self, row: int, col1: int, col2: int) -> int {
        fmul(fmul(fmul(self.delta.hc_value(row), self.matrix.hc_value(col1, col2)),
            self.trace.table()[row][col1]), self.trace.table()[row][col2])
    }

    pub fn evaluate_hypercube(&self, row_bits: usize, col1_bits: usize, col2_bits: usize) -> (r: BaseField)
        requires
            self.wf(),
            row_bits < pow2(I as nat),
            col1_bits < pow2(J as nat),
            col2_bits < pow2(J as nat),
        ensures
            r@ == self.hc_value(row_bits as int, col1_bits as int, col2_bits as int),
    {
        let d = self.delta.evaluate_hypercube(row_bits);
        let a = self.matrix.evaluate_hypercube(col1_bits, col2_bits);
        let w1 = self.trace.evaluate_hypercube(row_bits, col1_bits);
        let w2 = self.trace.evaluate_hypercube(row_bits, col2_bits);
        d.mul(a).mul(w1).mul(w2)
    }
}

} // verus!
