//! A wrong claim is caught at the last check: the prover's quadratics pass
//! every check between rounds whatever the claim, and a claim off by `d`
//! leaves the last claim off by `d` times the product of `r(r+1)/2` over the
//! challenges, so the final comparison with the summed polynomial fails.
use vstd::prelude::*;
use vstd::arithmetic::power2::*;
use vstd::arithmetic::div_mod::*;
use crate::completeness::{lemma_fsub3_fadd4, lemma_no_break, lemma_polys_step};
use crate::constraints::BQCS;
use crate::fields::{
    fadd, fe, fmul, fsub, finv, invertible, inv2, lemma_add_fe, lemma_fmul_comm_assoc, lemma_mul_fe, lemma_mul_fe_right,
    lemma_reduce_args, p, quad,
};
use crate::folding::{rest_points, schedule, lemma_count_schedule};
use crate::honest_prover::lemma_final_claim;
use crate::identities::{lemma_quad_reduce, lemma_through_additive};
use crate::mle::fprod;
use crate::partial_sums::{
    chain_ok, coeffs_of, coeffs_seq, cols_first, evens, fold_tables, odds, partial, peval, round_evals, rows_first, run,
    sumcheck_verdict, SumcheckError, Tables,
};
use crate::polynomials::{lemma_through_interpolates, through, through_linear, through_square};

verus! {

/// `r(r+1)/2`: the quadratic through `(0, 0)`, `(1, 1)` and `(-1, 0)`, by
/// which a wrong value at `1` moves a quadratic's value at `r`.
pub open spec fn ell(r: int) -> int {
    through(0, 1, 0, r)
}

/// The product of `ell` over the first `n` challenges.
pub open spec fn ell_prod(rs: Seq<int>, n: int) -> int {
    fprod(|k: int| ell(rs[k]), n)
}

proof fn lemma_fadd_zero(x: int)
    requires
        0 <= x < p(),
    ensures
        fadd(x, 0) == x,
        fadd(0, x) == x,
{
    lemma_small_mod(x as nat, p() as nat);
}

/// The values of a round's quadratics lie in the field.
proof fn lemma_round_values(st: Tables, is_col: bool, prev: int, r1: int)
    ensures
        ({
            let e = round_evals(st, is_col, prev, r1);
            &&& 0 <= e.0.0 < p() && 0 <= e.0.1 < p() && 0 <= e.0.2 < p()
            &&& 0 <= e.1.0 < p() && 0 <= e.1.1 < p() && 0 <= e.1.2 < p()
        }),
{
}

/// A round's checks hold whatever the claim: the first quadratic's values
/// at `0` and `1` add up to the claim, and its value at the first challenge
/// is the sum of the second's values at `0` and `1`.
proof fn lemma_round_chain(st: Tables, is_col: bool, prev: int, r1: int)
    requires
        0 <= prev < p(),
    ensures
        ({
            let evals = round_evals(st, is_col, prev, r1);
            let q1 = coeffs_of(evals.0);
            let q2 = coeffs_of(evals.1);
            &&& fadd(peval(q1, 0), peval(q1, 1)) == prev
            &&& peval(q1, r1) == fadd(peval(q2, 0), peval(q2, 1))
        }),
{
    let evals = round_evals(st, is_col, prev, r1);
    let a00 = partial(st, is_col, 0, 0);
    let a01 = if is_col { partial(st, is_col, 0, 1) } else { 0 };
    let a10 = if is_col { partial(st, is_col, 1, 0) } else { 0 };
    let a11 = fsub(fsub(fsub(prev, a00), a01), a10);
    let b0 = partial(st, is_col, -1, 0);
    let b1 = partial(st, is_col, -1, 1);
    lemma_round_values(st, is_col, prev, r1);
    let e0 = evals.0;
    let e1 = evals.1;
    lemma_through_interpolates(e0.0, e0.1, e0.2);
    lemma_through_interpolates(e1.0, e1.1, e1.2);
    // the first check: a00 + a01 + a10 + a11 == prev
    lemma_fsub3_fadd4(a00, a01, a10, a11);
    assert(fadd(fadd(a00, a01), fadd(a10, a11)) == prev) by {
        lemma_add_fe(a00 + a01, a10 + a11);
        lemma_reduce_args(a00 + a01, a10);
        lemma_add_fe(a00 + a01 + a10, a11);
        lemma_reduce_args(a00 + a01 + a10, a11);
        lemma_add_fe(a00 + a01, a10);
        assert(fadd(fadd(fadd(a00, a01), a10), a11) == fe(a00 + a01 + a10 + a11));
        assert(a00 + a01 + (a10 + a11) == a00 + a01 + a10 + a11);
        // fsub(fsub(fsub(s, a00), a01), a10) == a11 for s the sum; and prev gives a11 the same way
        lemma_sub_back(prev, a00, a01, a10);
    }
    // the second check: additivity of the quadratic through three values
    lemma_through_additive(a00, a10, b0, a01, a11, b1, r1);
}

/// `a00 + a01 + a10 + (prev - a00 - a01 - a10)` is `prev`.
proof fn lemma_sub_back(prev: int, a00: int, a01: int, a10: int)
    requires
        0 <= prev < p(),
    ensures
        fe(a00 + a01 + a10 + fsub(fsub(fsub(prev, a00), a01), a10)) == prev,
{
    let a11 = fsub(fsub(fsub(prev, a00), a01), a10);
    vstd::arithmetic::div_mod::lemma_sub_mod_noop(prev, a00, p());
    lemma_reduce_args(prev - a00, a01);
    lemma_reduce_args(prev - a00 - a01, a10);
    assert(a11 == fe(prev - a00 - a01 - a10));
    lemma_add_mod_noop(a00 + a01 + a10, prev - a00 - a01 - a10, p());
    lemma_mod_twice(prev - a00 - a01 - a10, p());
    lemma_add_mod_noop(a00 + a01 + a10, a11, p());
    lemma_small_mod(prev as nat, p() as nat);
    lemma_mod_twice(a00 + a01 + a10, p());
}

/// What the first `k` rounds give from any claim in the field: the first
/// quadratic sums to the claim, the checks between consecutive quadratics
/// hold, and the last quadratic at its challenge is the claim left.
pub open spec fn chain_inv(st0: Tables, prev0: int, rs: Seq<int>, sched: Seq<bool>, k: nat) -> bool {
    let out = run(st0, prev0, rs, sched, k);
    let qs = coeffs_seq(out.0);
    &&& out.0.len() == 2 * k
    &&& 0 <= out.2 < p()
    &&& k > 0 ==> fadd(peval(qs[0], 0), peval(qs[0], 1)) == prev0
    &&& k > 0 ==> peval(qs[2 * k - 1], rs[2 * k - 1]) == out.2
    &&& forall|m: int| 1 <= m < 2 * k ==> #[trigger] chain_ok(qs, rs, m)
}

proof fn lemma_chain_run(st0: Tables, prev0: int, rs: Seq<int>, sched: Seq<bool>, k: nat)
    requires
        0 <= prev0 < p(),
        rs.len() >= 2 * k,
        sched.len() >= k,
    ensures
        chain_inv(st0, prev0, rs, sched, k),
    decreases k,
{
    if k > 0 {
        let j = (k - 1) as nat;
        lemma_chain_run(st0, prev0, rs, sched, j);
        let prior = run(st0, prev0, rs, sched, j);
        let is_col = sched[j as int];
        let r1 = rs[2 * k - 2];
        let r2 = rs[2 * k - 1];
        let evals = round_evals(prior.1, is_col, prior.2, r1);
        lemma_round_chain(prior.1, is_col, prior.2, r1);
        lemma_round_values(prior.1, is_col, prior.2, r1);
        assert(2 * j as int == 2 * k - 2);
        lemma_polys_step(prior.0, evals.0, evals.1, rs, j, prev0, prior.2, r2);
        let out = run(st0, prev0, rs, sched, k);
        assert(out.0 == prior.0.push(evals.0).push(evals.1));
    }
}

/// The quadratic through `(0, 0)`, `(1, d)`, `(-1, 0)` is `d` times `ell`.
proof fn lemma_ell_scale(d: int, r: int)
    requires
        0 <= d < p(),
    ensures
        through(0, d, 0, r) == fmul(d, ell(r)),
{
    let i = inv2();
    lemma_small_mod(d as nat, p() as nat);
    lemma_small_mod(0, p() as nat);
    lemma_small_mod(1, p() as nat);
    assert(fsub(d, 0) == d);
    assert(fadd(d, 0) == d);
    assert(through_linear(d, 0) == fe(d * i));
    lemma_mod_twice(d * i, p());
    assert(through_square(0, d, 0) == fe(d * i));
    assert(through_linear(1, 0) == fe(1 * i));
    lemma_mod_twice(1 * i, p());
    assert(through_square(0, 1, 0) == fe(1 * i));
    lemma_quad_reduce(0, d * i, d * i, r);
    lemma_quad_reduce(0, 1 * i, 1 * i, r);
    assert(fe(0int) == 0);
    let e = 0 + (1 * i) * r + (1 * i) * r * r;
    assert(ell(r) == fe(e));
    lemma_mul_fe_right(d, e);
    assert(d * e == 0 + (d * i) * r + (d * i) * r * r) by (nonlinear_arith)
        requires
            e == 0 + (1 * i) * r + (1 * i) * r * r;
}

/// Moving the claim by `x` moves the value at `1` of the corner that is
/// taken from it by `x`.
proof fn lemma_corner_shift(c: int, x: int, a0: int, a1: int, a2: int)
    ensures
        fsub(fsub(fsub(fadd(c, x), a0), a1), a2) == fadd(fsub(fsub(fsub(c, a0), a1), a2), x),
{
    lemma_reduce_args(c + x, a0);
    lemma_reduce_args(c + x - a0, a1);
    lemma_reduce_args(c + x - a0 - a1, a2);
    lemma_reduce_args(c - a0, a1);
    lemma_reduce_args(c - a0 - a1, a2);
    lemma_reduce_args(c - a0 - a1 - a2, x);
    assert(c + x - a0 - a1 - a2 == c - a0 - a1 - a2 + x);
}

/// The prover's runs from two claims differ only in the claims left, by
/// the difference of the claims times `ell` of each challenge; the tables
/// are the same.
#[verifier::spinoff_prover]
#[verifier::rlimit(60)]
pub proof fn lemma_run_shift(st0: Tables, pa: int, pb: int, rs: Seq<int>, sched: Seq<bool>, k: nat)
    requires
        0 <= pa < p(),
        0 <= pb < p(),
        rs.len() >= 2 * k,
        sched.len() >= k,
    ensures
        run(st0, pb, rs, sched, k).1 == run(st0, pa, rs, sched, k).1,
        run(st0, pb, rs, sched, k).2 == fadd(run(st0, pa, rs, sched, k).2, fmul(fsub(pb, pa), ell_prod(rs, 2 * k as int))),
    decreases k,
{
    let dd = fsub(pb, pa);
    if k == 0 {
        assert(ell_prod(rs, 0) == 1);
        lemma_mod_twice(pb - pa, p());
        assert(fmul(dd, 1) == dd) by {
            assert(dd * 1 == dd);
            lemma_mod_twice(pb - pa, p());
        }
        lemma_reduce_args(pa, pb - pa);
        lemma_small_mod(pb as nat, p() as nat);
    } else {
        let j = (k - 1) as nat;
        lemma_run_shift(st0, pa, pb, rs, sched, j);
        lemma_chain_run(st0, pa, rs, sched, j);
        let a = run(st0, pa, rs, sched, j);
        let b = run(st0, pb, rs, sched, j);
        let st = a.1;
        let is_col = sched[j as int];
        let r1 = rs[2 * k - 2];
        let r2 = rs[2 * k - 1];
        let ll = ell_prod(rs, 2 * j as int);
        let x = fmul(dd, ll);
        assert(b.2 == fadd(a.2, x));
        let ea = round_evals(st, is_col, a.2, r1);
        let eb = round_evals(st, is_col, b.2, r1);
        lemma_round_values(st, is_col, a.2, r1);
        let a00 = partial(st, is_col, 0, 0);
        let a01 = if is_col { partial(st, is_col, 0, 1) } else { 0 };
        let a10 = if is_col { partial(st, is_col, 1, 0) } else { 0 };
        let b1 = partial(st, is_col, -1, 1);
        let a11a = fsub(fsub(fsub(a.2, a00), a01), a10);
        lemma_corner_shift(a.2, x, a00, a01, a10);
        // the second quadratic's value at one moves by x * ell(r1)
        lemma_fadd_zero(a01);
        lemma_fadd_zero(b1);
        lemma_through_additive(a01, a11a, b1, 0, x, 0, r1);
        lemma_ell_scale(x, r1);
        let y = fmul(x, ell(r1));
        assert(eb.1.1 == fadd(ea.1.1, y));
        assert(eb.1.0 == ea.1.0 && eb.1.2 == ea.1.2);
        // the next claim moves by y * ell(r2)
        lemma_fadd_zero(ea.1.0);
        lemma_fadd_zero(ea.1.2);
        lemma_through_additive(ea.1.0, ea.1.1, ea.1.2, 0, y, 0, r2);
        lemma_ell_scale(y, r2);
        // and y * ell(r2) is dd times the product over the first 2k challenges
        let e1 = ell(r1);
        let e2 = ell(r2);
        let f = |m: int| ell(rs[m]);
        assert(ell_prod(rs, 2 * k as int) == fmul(fmul(ll, e1), e2)) by {
            assert(fprod(f, 2 * k - 1) == fmul(fprod(f, 2 * k - 2), f(2 * k - 2)));
            assert(fprod(f, 2 * k as int) == fmul(fprod(f, 2 * k - 1), f(2 * k - 1)));
        }
        lemma_fmul_comm_assoc(x, e1, e2);
        lemma_fmul_comm_assoc(dd, ll, fmul(e1, e2));
        lemma_fmul_comm_assoc(ll, e1, e2);
    }
}

/// A product of invertible elements is invertible.
proof fn lemma_invertible_mul(a: int, b: int)
    requires
        invertible(a),
        invertible(b),
    ensures
        invertible(fmul(a, b)),
{
    let x = choose|x: int| 0 <= x < p() && #[trigger] fmul(a, x) == 1;
    let y = choose|y: int| 0 <= y < p() && #[trigger] fmul(b, y) == 1;
    let w = fmul(x, y);
    lemma_mul_fe(a * b, x * y);
    lemma_mul_fe(a * x, b * y);
    assert((a * b) * (x * y) == (a * x) * (b * y)) by (nonlinear_arith);
    assert(fmul(1, 1) == 1) by { lemma_small_mod(1, p() as nat); }
    assert(0 <= w < p());
    assert(fmul(fmul(a, b), w) == 1);
}

/// An invertible element is not zero in the field.
proof fn lemma_invertible_nonzero(a: int)
    requires
        invertible(a),
    ensures
        fe(a) != 0,
{
    let x = choose|x: int| 0 <= x < p() && #[trigger] fmul(a, x) == 1;
    if fe(a) == 0 {
        lemma_mul_mod_noop_left(a, x, p());
        assert(fmul(a, x) == 0);
    }
}

proof fn lemma_ell_prod_invertible(rs: Seq<int>, m: int)
    requires
        0 <= m <= rs.len(),
        forall|k: int| 0 <= k < rs.len() ==> invertible(#[trigger] ell(rs[k])),
    ensures
        invertible(ell_prod(rs, m)),
    decreases m,
{
    if m == 0 {
        assert(fmul(1, 1) == 1) by { lemma_small_mod(1, p() as nat); }
        assert(invertible(1));
    } else {
        lemma_ell_prod_invertible(rs, m - 1);
        assert(invertible(ell(rs[m - 1])));
        lemma_invertible_mul(ell_prod(rs, m - 1), ell(rs[m - 1]));
    }
}

#[verifier::spinoff_prover]
proof fn lemma_wrong_claim<const I: usize, const J: usize, const K: usize>(sys: BQCS<I, J, K>, sum: int, rs: Seq<int>, cols: bool)
    requires
        sys.wf(),
        sys.vars_in_range(),
        I + J > 0,
        rs.len() == 2 * (I + J),
        0 <= sum < p(),
        invertible(fsub(sum, sys.hypercube_sum())),
        forall|k: int| 0 <= k < rs.len() ==> invertible(#[trigger] ell(rs[k])),
    ensures
        ({
            let out = run(sys.initial_tables(), sum, rs, schedule(cols, I as nat, J as nat), (I + J) as nat);
            let p0 = rest_points(rs, cols, I as nat, J as nat, 0);
            sumcheck_verdict(coeffs_seq(out.0), rs, sum, sys.value(p0.0, p0.1, p0.2, p0.3))
                == Err::<(), SumcheckError>(SumcheckError::EvaluationMismatch)
        }),
{
    let ss = sys.hypercube_sum();
    let st0 = sys.initial_tables();
    let sched = schedule(cols, I as nat, J as nat);
    let n = (I + J) as nat;
    lemma_final_claim(sys, ss, rs, cols);
    let a = run(st0, ss, rs, sched, n);
    let b = run(st0, sum, rs, sched, n);
    let p0 = rest_points(rs, cols, I as nat, J as nat, 0);
    assert(sched.len() == n);
    lemma_chain_run(st0, ss, rs, sched, n);
    lemma_chain_run(st0, sum, rs, sched, n);
    lemma_run_shift(st0, ss, sum, rs, sched, n);
    lemma_ell_prod_invertible(rs, 2 * n as int);
    let dd = fsub(sum, ss);
    let x = fmul(dd, ell_prod(rs, 2 * n as int));
    lemma_invertible_mul(dd, ell_prod(rs, 2 * n as int));
    lemma_invertible_nonzero(x);
    lemma_mod_twice(dd * ell_prod(rs, 2 * n as int), p());
    assert(x != 0);
    assert(b.2 == fadd(a.2, x));
    assert(b.2 != a.2) by {
        if b.2 == a.2 {
            if a.2 + x < p() {
                lemma_small_mod((a.2 + x) as nat, p() as nat);
            } else {
                lemma_fundamental_div_mod(a.2 + x, p());
                lemma_div_pos_is_pos(a.2 + x, p());
                assert((a.2 + x) / p() < 2) by {
                    lemma_div_is_ordered(a.2 + x, 2 * p() - 1, p());
                    lemma_fundamental_div_mod(2 * p() - 1, p());
                }
                assert((a.2 + x) / p() == 1) by {
                    lemma_div_by_multiple_is_strongly_ordered(p(), a.2 + x, 1, p());
                }
            }
        }
    }
    let qs = coeffs_seq(b.0);
    assert(qs.len() == 2 * n);
    lemma_no_break(qs, rs, 2 * n as int, 1);
    assert(a.2 == sys.value(p0.0, p0.1, p0.2, p0.3));
}

/// A wrong claim is rejected at the last check (column rounds first): if
/// the claim differs from the hypercube sum by an invertible amount and no
/// challenge makes `r(r+1)/2` zero, then the prover's quadratics for that
/// claim pass every check between rounds but fail the final comparison with
/// the system's polynomial at the challenge point.
pub proof fn lemma_wrong_claim_rejected<const I: usize, const J: usize, const K: usize>(sys: BQCS<I, J, K>, sum: int, rs: Seq<int>)
    requires
        sys.wf(),
        sys.vars_in_range(),
        I + J > 0,
        rs.len() == 2 * (I + J),
        0 <= sum < p(),
        invertible(fsub(sum, sys.hypercube_sum())),
        forall|k: int| 0 <= k < rs.len() ==> invertible(#[trigger] ell(rs[k])),
    ensures
        sumcheck_verdict(
            coeffs_seq(run(sys.initial_tables(), sum, rs, cols_first(I as nat, J as nat), (I + J) as nat).0),
            rs,
            sum,
            sys.value(evens(rs, 2 * J, I as nat), odds(rs, 2 * J, I as nat), evens(rs, 0, J as nat), odds(rs, 0, J as nat)),
        ) == Err::<(), SumcheckError>(SumcheckError::EvaluationMismatch),
{
    lemma_wrong_claim(sys, sum, rs, true);
}

/// A wrong claim is rejected at the last check, row rounds first.
pub proof fn lemma_wrong_claim_rejected_transposed<const I: usize, const J: usize, const K: usize>(
    sys: BQCS<I, J, K>,
    sum: int,
    rs: Seq<int>,
)
    requires
        sys.wf(),
        sys.vars_in_range(),
        I + J > 0,
        rs.len() == 2 * (I + J),
        0 <= sum < p(),
        invertible(fsub(sum, sys.hypercube_sum())),
        forall|k: int| 0 <= k < rs.len() ==> invertible(#[trigger] ell(rs[k])),
    ensures
        sumcheck_verdict(
            coeffs_seq(run(sys.initial_tables(), sum, rs, rows_first(I as nat, J as nat), (I + J) as nat).0),
            rs,
            sum,
            sys.value(evens(rs, 0, I as nat), odds(rs, 0, I as nat), evens(rs, 2 * I, J as nat), odds(rs, 2 * I, J as nat)),
        ) == Err::<(), SumcheckError>(SumcheckError::EvaluationMismatch),
{
    lemma_wrong_claim(sys, sum, rs, false);
}

} // verus!
