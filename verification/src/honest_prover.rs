//! The verifier accepts the honest prover: for a constraint system whose
//! claimed sum is its sum over the hypercube, the quadratics that the prover
//! sends pass every check of the verifier, for every choice of challenges,
//! including the last one against the system's polynomial at the challenge
//! point.
use vstd::prelude::*;
use vstd::arithmetic::power2::*;
use crate::completeness::{lemma_sumcheck_complete, lemma_run_complete, run_inv, tables_shape, count_cols};
use crate::constraints::BQCS;
use crate::diagonal::{eq_table, lemma_ext_diag_eq_table, lemma_ext_final};
use crate::fields::{fe, fmul};
use crate::folding::{ext2, ext_diag, ext_tables, lemma_count_schedule, lemma_run_ext, rest_points, schedule};
use crate::matrix_ext::{
    lemma_at_points, lemma_matrix_ext, lemma_sum2_cong, lemma_sum2_ext, lemma_sum2_scale, matrix_vars_below, quad_at,
};
use crate::constraints::Quadratic;
use crate::fields::{lemma_mul_fe_right, lemma_reduce_args};
use crate::mle::lemma_sum_cong;
use crate::mle::{eq_poly, lemma_sum_ext, sum};
use crate::partial_sums::{
    coeffs_seq, cols_first, evens, odds, rows_first, run, sum3, sumcheck_verdict, term, total, SumcheckError, Tables,
};

verus! {

impl<const I: usize, const J: usize, const K: usize> BQCS<I, J, K> {
    /// Every variable of every constraint is a column of the trace.
    pub open spec fn vars_in_range(self) -> bool {
        matrix_vars_below(self.matrix, pow2(J as nat) as int)
    }

    /// The sum of the system's polynomial over the hypercube: over every row
    /// and every pair of columns.
    pub open spec fn hypercube_sum(self) -> int {
        fe(sum3(|i: int, j1: int, j2: int| self.hc_value(i, j1, j2), pow2(I as nat) as int, pow2(J as nat) as int,
            pow2(J as nat) as int))
    }
}

/// The prover's starting tables have the shapes of the system, and their
/// sum is the system's sum over the hypercube.
pub proof fn lemma_initial_tables<const I: usize, const J: usize, const K: usize>(sys: BQCS<I, J, K>)
    requires
        sys.wf(),
    ensures
        ({
            let st = sys.initial_tables();
            &&& tables_shape(st)
            &&& st.0.len() == pow2(I as nat)
            &&& st.1.len() == pow2(J as nat)
            &&& total(st.0, st.1, st.2, st.3) == sys.hypercube_sum()
        }),
{
    let st = sys.initial_tables();
    assert forall|i: int| 0 <= i < st.2.len() implies (#[trigger] st.2[i]).len() == st.1.len() by {
        assert(sys.trace.rows@[i].len() == pow2(J as nat));
    }
    let n0 = pow2(I as nat) as int;
    let n1 = pow2(J as nat) as int;
    crate::partial_sums::lemma_sum3_ext(
        |i: int, j1: int, j2: int| term(st.0[i], st.1[j1][j2], st.2[i][j1], st.3[i][j2]),
        |i: int, j1: int, j2: int| sys.hc_value(i, j1, j2),
        n0, n1, n1,
    );
}

/// The extension of the prover's starting tables at a point is the
/// system's polynomial there.
pub proof fn lemma_initial_ext<const I: usize, const J: usize, const K: usize>(
    sys: BQCS<I, J, K>,
    b: Seq<int>,
    c: Seq<int>,
    x: Seq<int>,
    y: Seq<int>,
)
    requires
        sys.wf(),
        sys.vars_in_range(),
        b.len() == I,
        c.len() == I,
        x.len() == J,
        y.len() == J,
    ensures
        ({
            let st = sys.initial_tables();
            ext_tables(st, b, c, x, y) == sys.value(b, c, x, y)
        }),
{
    let st = sys.initial_tables();
    let n0 = pow2(I as nat) as int;
    let n1 = pow2(J as nat) as int;
    // the diagonal factor
    assert(st.0 =~= eq_table(sys.delta.point()));
    lemma_ext_diag_eq_table(sys.delta.point(), b, c);
    // the matrix
    let ex = |j: int| eq_poly(j, x);
    let ey = |j: int| eq_poly(j, y);
    lemma_matrix_ext(sys.matrix, ex, ey, n1);
    lemma_at_points(sys.matrix, x, y);
    let m1 = |i: int| sum(|j: int| fmul(fmul(st.1[i][j], eq_poly(i, x)), eq_poly(j, y)), n1);
    let m2 = |j1: int| sum(|j2: int| fmul(fmul(sys.matrix.hc_value(j1, j2), ex(j1)), ey(j2)), n1);
    assert forall|i: int| 0 <= i < n1 implies #[trigger] m1(i) == m2(i) by {
        lemma_sum_ext(|j: int| fmul(fmul(st.1[i][j], eq_poly(i, x)), eq_poly(j, y)),
            |j2: int| fmul(fmul(sys.matrix.hc_value(i, j2), ex(i)), ey(j2)), n1);
    }
    lemma_sum_ext(m1, m2, n1);
    assert(ext2(st.1, x, y, n1, n1) == sys.matrix.value(x, y));
    // the traces
    assert(ext2(st.2, b, x, n0, n1) == sys.trace.value(b, x));
    assert(ext2(st.3, c, y, n0, n1) == sys.trace.value(c, y));
}

/// The points left after the last round are empty.
proof fn lemma_rest_points_end(rs: Seq<int>, cols: bool, ni: nat, nj: nat)
    ensures
        ({
            let pe = rest_points(rs, cols, ni, nj, (ni + nj) as nat);
            &&& pe.0 == Seq::<int>::empty()
            &&& pe.1 == Seq::<int>::empty()
            &&& pe.2 == Seq::<int>::empty()
            &&& pe.3 == Seq::<int>::empty()
        }),
{
    let pe = rest_points(rs, cols, ni, nj, (ni + nj) as nat);
    assert(pe.0 =~= Seq::<int>::empty());
    assert(pe.1 =~= Seq::<int>::empty());
    assert(pe.2 =~= Seq::<int>::empty());
    assert(pe.3 =~= Seq::<int>::empty());
}

/// The last claim of the prover is the system's polynomial at the point of
/// the challenges.
pub(crate) proof fn lemma_final_claim<const I: usize, const J: usize, const K: usize>(sys: BQCS<I, J, K>, sum: int, rs: Seq<int>, cols: bool)
    requires
        sys.wf(),
        sys.vars_in_range(),
        rs.len() == 2 * (I + J),
        sum == sys.hypercube_sum(),
    ensures
        ({
            let st0 = sys.initial_tables();
            let out = run(st0, sum, rs, schedule(cols, I as nat, J as nat), (I + J) as nat);
            let p0 = rest_points(rs, cols, I as nat, J as nat, 0);
            &&& out.2 == sys.value(p0.0, p0.1, p0.2, p0.3)
            &&& out.2 == total(out.1.0, out.1.1, out.1.2, out.1.3)
        }),
{
    let st0 = sys.initial_tables();
    let sched = schedule(cols, I as nat, J as nat);
    let n = (I + J) as nat;
    lemma_initial_tables(sys);
    lemma_count_schedule(cols, I as nat, J as nat, n);
    lemma_run_complete(st0, sum, rs, sched, I as nat, J as nat, n);
    lemma_count_schedule(cols, I as nat, J as nat, n);
    let out = run(st0, sum, rs, sched, n);
    assert(pow2(0) == 1) by { lemma2_to64(); }
    lemma_run_ext(st0, sum, rs, cols, I as nat, J as nat, n);
    lemma_rest_points_end(rs, cols, I as nat, J as nat);
    lemma_ext_final(out.1);
    let p0 = rest_points(rs, cols, I as nat, J as nat, 0);
    lemma_initial_ext(sys, p0.0, p0.1, p0.2, p0.3);
}

/// The verifier accepts the honest prover (column rounds first): if the
/// claimed sum is the system's sum over the hypercube, then for every choice
/// of challenges the quadratics the prover sends pass every check, the last
/// one against the system's polynomial at the point the challenges make.
pub proof fn lemma_sumcheck_accepts<const I: usize, const J: usize, const K: usize>(sys: BQCS<I, J, K>, sum: int, rs: Seq<int>)
    requires
        sys.wf(),
        sys.vars_in_range(),
        I + J > 0,
        rs.len() == 2 * (I + J),
        sum == sys.hypercube_sum(),
    ensures
        sumcheck_verdict(
            coeffs_seq(run(sys.initial_tables(), sum, rs, cols_first(I as nat, J as nat), (I + J) as nat).0),
            rs,
            sum,
            sys.value(evens(rs, 2 * J, I as nat), odds(rs, 2 * J, I as nat), evens(rs, 0, J as nat), odds(rs, 0, J as nat)),
        ) == Ok::<(), SumcheckError>(()),
{
    lemma_initial_tables(sys);
    lemma_count_schedule(true, I as nat, J as nat, (I + J) as nat);
    lemma_sumcheck_complete(sys.initial_tables(), sum, rs, cols_first(I as nat, J as nat), I as nat, J as nat);
    lemma_final_claim(sys, sum, rs, true);
}

/// The verifier accepts the honest prover, row rounds first.
pub proof fn lemma_sumcheck_transposed_accepts<const I: usize, const J: usize, const K: usize>(
    sys: BQCS<I, J, K>,
    sum: int,
    rs: Seq<int>,
)
    requires
        sys.wf(),
        sys.vars_in_range(),
        I + J > 0,
        rs.len() == 2 * (I + J),
        sum == sys.hypercube_sum(),
    ensures
        sumcheck_verdict(
            coeffs_seq(run(sys.initial_tables(), sum, rs, rows_first(I as nat, J as nat), (I + J) as nat).0),
            rs,
            sum,
            sys.value(evens(rs, 0, I as nat), odds(rs, 0, I as nat), evens(rs, 2 * I, J as nat), odds(rs, 2 * I, J as nat)),
        ) == Ok::<(), SumcheckError>(()),
{
    lemma_initial_tables(sys);
    lemma_count_schedule(false, I as nat, J as nat, (I + J) as nat);
    lemma_sumcheck_complete(sys.initial_tables(), sum, rs, rows_first(I as nat, J as nat), I as nat, J as nat);
    lemma_final_claim(sys, sum, rs, false);
}

/// A constraint on a row of the trace: each linear combination read with
/// the row's entries as the values of its columns.
pub open spec fn constraint_on_row<const J: usize>(q: Quadratic<J>, row: Seq<int>) -> int {
    quad_at(q, |j: int| row[j], |j: int| row[j])
}

impl<const I: usize, const J: usize, const K: usize> BQCS<I, J, K> {
    /// Every row of the trace satisfies every constraint.
    pub open spec fn satisfied(self) -> bool {
        forall|i: int, k: int| 0 <= i < pow2(I as nat) && 0 <= k < self.matrix.set.expressions.len() ==>
            #[trigger] constraint_on_row(self.matrix.set.expressions@[k], self.trace.table()[i]) == 0
    }
}

/// A system whose trace satisfies every constraint on every row sums to
/// zero over the hypercube, whatever its random points: the claim the
/// prover starts from.
pub proof fn lemma_satisfied_sum_zero<const I: usize, const J: usize, const K: usize>(sys: BQCS<I, J, K>)
    requires
        sys.wf(),
        sys.vars_in_range(),
        sys.satisfied(),
    ensures
        sys.hypercube_sum() == 0,
{
    let n0 = pow2(I as nat) as int;
    let n1 = pow2(J as nat) as int;
    let t = sys.trace.table();
    let hc = |i: int, j1: int, j2: int| sys.hc_value(i, j1, j2);
    let inner = |i: int| sum(|j1: int| sum(|j2: int| hc(i, j1, j2), n1), n1);
    let zero = |i: int| 0int;
    assert forall|i: int| 0 <= i < n0 implies #[trigger] fe(inner(i)) == fe(zero(i)) by {
        let wr = |j: int| t[i][j];
        let d = sys.delta.hc_value(i);
        let x = |j1: int, j2: int| fmul(fmul(sys.matrix.hc_value(j1, j2), wr(j1)), wr(j2));
        let dx = |j1: int, j2: int| d * x(j1, j2);
        let hi = |j1: int, j2: int| hc(i, j1, j2);
        assert forall|j1: int, j2: int| 0 <= j1 < n1 && 0 <= j2 < n1 implies #[trigger] fe(hi(j1, j2)) == fe(dx(j1, j2)) by {
            let m = sys.matrix.hc_value(j1, j2);
            crate::completeness::lemma_term_int(d, m, t[i][j1], t[i][j2]);
            crate::folding::lemma_fmul3(m, t[i][j1], t[i][j2]);
            lemma_mul_fe_right(d, m * t[i][j1] * t[i][j2]);
            lemma_reduce_args(hi(j1, j2), 0);
            assert(d * (m * t[i][j1] * t[i][j2]) == d * m * t[i][j1] * t[i][j2]) by (nonlinear_arith);
        }
        lemma_sum2_cong(hi, dx, n1, n1);
        lemma_sum2_scale(x, d, n1, n1);
        lemma_matrix_ext(sys.matrix, wr, wr, n1);
        // every constraint vanishes on the row
        let ex = sys.matrix.set.expressions@;
        let f = |k: int| fmul(eq_poly(k, sys.matrix.rk()), quad_at(ex[k], wr, wr));
        assert forall|k: int| 0 <= k < ex.len() implies #[trigger] f(k) == 0 by {
            assert(constraint_on_row(ex[k], t[i]) == 0);
        }
        assert(fe(sum(f, ex.len() as int)) == 0) by {
            crate::matrix_ext::lemma_sum_scale_right(f, 0, ex.len() as int);
            lemma_sum_ext(f, |k: int| f(k) * 0, ex.len() as int);
        }
        let l5 = |j1: int| sum(|j2: int| x(j1, j2), n1);
        let l6 = |j1: int| sum(|j2: int| fmul(fmul(sys.matrix.hc_value(j1, j2), wr(j1)), wr(j2)), n1);
        assert forall|j1: int| 0 <= j1 < n1 implies #[trigger] l5(j1) == l6(j1) by {
            lemma_sum_ext(|j2: int| x(j1, j2), |j2: int| fmul(fmul(sys.matrix.hc_value(j1, j2), wr(j1)), wr(j2)), n1);
        }
        lemma_sum_ext(l5, l6, n1);
        let xs = sum(|j1: int| sum(|j2: int| x(j1, j2), n1), n1);
        assert(fe(xs) == 0);
        lemma_mul_fe_right(d, xs);
        lemma_reduce_args(d * xs, 0);
        let l1 = |j1: int| sum(|j2: int| hi(j1, j2), n1);
        let l2 = |j1: int| sum(|j2: int| hc(i, j1, j2), n1);
        assert forall|j1: int| 0 <= j1 < n1 implies #[trigger] l1(j1) == l2(j1) by {
            lemma_sum_ext(|j2: int| hi(j1, j2), |j2: int| hc(i, j1, j2), n1);
        }
        lemma_sum_ext(l1, l2, n1);
        let l3 = |j1: int| sum(|j2: int| dx(j1, j2), n1);
        let l4 = |j1: int| sum(|j2: int| d * x(j1, j2), n1);
        assert forall|j1: int| 0 <= j1 < n1 implies #[trigger] l3(j1) == l4(j1) by {
            lemma_sum_ext(|j2: int| dx(j1, j2), |j2: int| d * x(j1, j2), n1);
        }
        lemma_sum_ext(l3, l4, n1);
    }
    lemma_sum_cong(inner, zero, n0);
    assert(sum(zero, n0) == 0) by {
        crate::matrix_ext::lemma_sum_scale_right(zero, 0, n0);
        lemma_sum_ext(zero, |i: int| zero(i) * 0, n0);
    }
}

/// A system whose trace satisfies its constraints passes the sumcheck on
/// the claim zero: the verifier accepts the prover's quadratics for every
/// choice of challenges.
pub proof fn lemma_satisfied_system_accepted<const I: usize, const J: usize, const K: usize>(sys: BQCS<I, J, K>, rs: Seq<int>)
    requires
        sys.wf(),
        sys.vars_in_range(),
        sys.satisfied(),
        I + J > 0,
        rs.len() == 2 * (I + J),
    ensures
        sumcheck_verdict(
            coeffs_seq(run(sys.initial_tables(), 0, rs, cols_first(I as nat, J as nat), (I + J) as nat).0),
            rs,
            0,
            sys.value(evens(rs, 2 * J, I as nat), odds(rs, 2 * J, I as nat), evens(rs, 0, J as nat), odds(rs, 0, J as nat)),
        ) == Ok::<(), SumcheckError>(()),
        sumcheck_verdict(
            coeffs_seq(run(sys.initial_tables(), 0, rs, rows_first(I as nat, J as nat), (I + J) as nat).0),
            rs,
            0,
            sys.value(evens(rs, 0, I as nat), odds(rs, 0, I as nat), evens(rs, 2 * I, J as nat), odds(rs, 2 * I, J as nat)),
        ) == Ok::<(), SumcheckError>(()),
{
    lemma_satisfied_sum_zero(sys);
    lemma_sumcheck_accepts(sys, 0, rs);
    lemma_sumcheck_transposed_accepts(sys, 0, rs);
}

/// The constraints on row `i`, batched by the equality polynomial of each
/// constraint's index at the batching point.
pub open spec fn batched_violation<const I: usize, const J: usize, const K: usize>(sys: BQCS<I, J, K>, i: int) -> int {
    let ex = sys.matrix.set.expressions@;
    fe(sum(|k: int| fmul(eq_poly(k, sys.matrix.rk()), constraint_on_row(ex[k], sys.trace.table()[i])), ex.len() as int))
}

/// The system's hypercube sum is the value, at the diagonal point and the
/// batching point, of the multilinear extension of the table of constraint
/// values: each row's constraints batched at the batching point, weighted by
/// the equality polynomial of the row at the diagonal point.
pub proof fn lemma_hypercube_sum_batches_violations<const I: usize, const J: usize, const K: usize>(sys: BQCS<I, J, K>)
    requires
        sys.wf(),
        sys.vars_in_range(),
    ensures
        sys.hypercube_sum() == fe(sum(|i: int| fmul(eq_poly(i, sys.delta.point()), batched_violation(sys, i)),
            pow2(I as nat) as int)),
{
    let n0 = pow2(I as nat) as int;
    let n1 = pow2(J as nat) as int;
    let t = sys.trace.table();
    let hc = |i: int, j1: int, j2: int| sys.hc_value(i, j1, j2);
    let inner = |i: int| sum(|j1: int| sum(|j2: int| hc(i, j1, j2), n1), n1);
    let outer = |i: int| fmul(eq_poly(i, sys.delta.point()), batched_violation(sys, i));
    assert forall|i: int| 0 <= i < n0 implies #[trigger] fe(inner(i)) == fe(outer(i)) by {
        let wr = |j: int| t[i][j];
        let d = sys.delta.hc_value(i);
        let x = |j1: int, j2: int| fmul(fmul(sys.matrix.hc_value(j1, j2), wr(j1)), wr(j2));
        let dx = |j1: int, j2: int| d * x(j1, j2);
        let hi = |j1: int, j2: int| hc(i, j1, j2);
        assert forall|j1: int, j2: int| 0 <= j1 < n1 && 0 <= j2 < n1 implies #[trigger] fe(hi(j1, j2)) == fe(dx(j1, j2)) by {
            let m = sys.matrix.hc_value(j1, j2);
            crate::completeness::lemma_term_int(d, m, t[i][j1], t[i][j2]);
            crate::folding::lemma_fmul3(m, t[i][j1], t[i][j2]);
            lemma_mul_fe_right(d, m * t[i][j1] * t[i][j2]);
            lemma_reduce_args(hi(j1, j2), 0);
            assert(d * (m * t[i][j1] * t[i][j2]) == d * m * t[i][j1] * t[i][j2]) by (nonlinear_arith);
        }
        lemma_sum2_cong(hi, dx, n1, n1);
        lemma_sum2_scale(x, d, n1, n1);
        lemma_matrix_ext(sys.matrix, wr, wr, n1);
        let ex = sys.matrix.set.expressions@;
        let f = |k: int| fmul(eq_poly(k, sys.matrix.rk()), quad_at(ex[k], wr, wr));
        let g = |k: int| fmul(eq_poly(k, sys.matrix.rk()), constraint_on_row(ex[k], t[i]));
        assert forall|k: int| 0 <= k < ex.len() implies #[trigger] f(k) == g(k) by {
        }
        lemma_sum_ext(f, g, ex.len() as int);
        let l5 = |j1: int| sum(|j2: int| x(j1, j2), n1);
        let l6 = |j1: int| sum(|j2: int| fmul(fmul(sys.matrix.hc_value(j1, j2), wr(j1)), wr(j2)), n1);
        assert forall|j1: int| 0 <= j1 < n1 implies #[trigger] l5(j1) == l6(j1) by {
            lemma_sum_ext(|j2: int| x(j1, j2), |j2: int| fmul(fmul(sys.matrix.hc_value(j1, j2), wr(j1)), wr(j2)), n1);
        }
        lemma_sum_ext(l5, l6, n1);
        let xs = sum(|j1: int| sum(|j2: int| x(j1, j2), n1), n1);
        assert(fe(xs) == batched_violation(sys, i));
        lemma_mul_fe_right(d, xs);
        let l1 = |j1: int| sum(|j2: int| hi(j1, j2), n1);
        let l2 = |j1: int| sum(|j2: int| hc(i, j1, j2), n1);
        assert forall|j1: int| 0 <= j1 < n1 implies #[trigger] l1(j1) == l2(j1) by {
            lemma_sum_ext(|j2: int| hi(j1, j2), |j2: int| hc(i, j1, j2), n1);
        }
        lemma_sum_ext(l1, l2, n1);
        let l3 = |j1: int| sum(|j2: int| dx(j1, j2), n1);
        let l4 = |j1: int| sum(|j2: int| d * x(j1, j2), n1);
        assert forall|j1: int| 0 <= j1 < n1 implies #[trigger] l3(j1) == l4(j1) by {
            lemma_sum_ext(|j2: int| dx(j1, j2), |j2: int| d * x(j1, j2), n1);
        }
        lemma_sum_ext(l3, l4, n1);
        assert(fe(inner(i)) == fe(d * xs));
        assert(outer(i) == fmul(d, fe(xs)));
        vstd::arithmetic::div_mod::lemma_mod_twice(d * xs, crate::fields::p());
    }
    lemma_sum_cong(inner, outer, n0);
}

/// At the vertex of a row for the diagonal point and the vertex of a
/// constraint for the batching point, the hypercube sum is that
/// constraint's value on that row. So a trace that breaks some constraint
/// on some row has random points at which the sum is not zero: the sum, a
/// multilinear polynomial in the points, is not identically zero.
pub proof fn lemma_hypercube_sum_at_vertices<const I: usize, const J: usize, const K: usize>(sys: BQCS<I, J, K>, r0: int, k0: int)
    requires
        sys.wf(),
        sys.vars_in_range(),
        0 <= r0 < pow2(I as nat),
        0 <= k0 < pow2(K as nat),
        sys.delta.point() == crate::mle::vertex(r0, I as nat),
        sys.matrix.rk() == crate::mle::vertex(k0, K as nat),
    ensures
        sys.hypercube_sum() == constraint_on_row(sys.matrix.set.expressions@[k0], sys.trace.table()[r0]),
{
    lemma_hypercube_sum_batches_violations(sys);
    let n0 = pow2(I as nat) as int;
    let ex = sys.matrix.set.expressions@;
    let nk = ex.len() as int;
    let t = sys.trace.table();
    // the batched constraints at a vertex of the batching point
    let cv = |k: int| constraint_on_row(ex[k], t[r0]);
    let f = |k: int| fmul(eq_poly(k, sys.matrix.rk()), constraint_on_row(ex[k], t[r0]));
    let fi = |k: int| crate::hypercube::indicator(k0, k) * cv(k);
    assert forall|k: int| 0 <= k < nk implies #[trigger] fe(f(k)) == fe(fi(k)) by {
        crate::vertices::lemma_eq_poly_vertex(k, k0, K as nat);
        vstd::arithmetic::div_mod::lemma_mod_twice(crate::hypercube::indicator(k, k0) * cv(k), crate::fields::p());
    }
    lemma_sum_cong(f, fi, nk);
    crate::matrix_ext::lemma_sum_indicator(cv, k0, nk);
    let c0 = cv(k0);
    assert(0 <= c0 < crate::fields::p());
    crate::fields::lemma_fe_small(c0);
    assert(batched_violation(sys, r0) == c0);
    // the rows at a vertex of the diagonal point
    let g = |i: int| fmul(eq_poly(i, sys.delta.point()), batched_violation(sys, i));
    let gi = |i: int| crate::hypercube::indicator(r0, i) * batched_violation(sys, i);
    assert forall|i: int| 0 <= i < n0 implies #[trigger] fe(g(i)) == fe(gi(i)) by {
        crate::vertices::lemma_eq_poly_vertex(i, r0, I as nat);
        vstd::arithmetic::div_mod::lemma_mod_twice(crate::hypercube::indicator(i, r0) * batched_violation(sys, i), crate::fields::p());
    }
    lemma_sum_cong(g, gi, n0);
    crate::matrix_ext::lemma_sum_indicator(|i: int| batched_violation(sys, i), r0, n0);
    assert(sum(gi, n0) == batched_violation(sys, r0)) by {
        lemma_sum_ext(gi, |j: int| crate::hypercube::indicator(r0, j) * (|i: int| batched_violation(sys, i))(j), n0);
    }
}

} // verus!
