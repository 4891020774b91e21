//! The multilinear extension of the batched constraint matrix over the
//! hypercube is the batched constraint at the two column points: the
//! constraint polynomials are multilinear, so they agree with their
//! extension from the hypercube.
use vstd::prelude::*;
use vstd::arithmetic::power2::*;
use crate::constraints::{lemma_var_index, ConstraintSetMatrix, LinearCombination, Quadratic, Var};
use crate::fields::{fe, fmul, lemma_mul_fe, lemma_mul_fe_left, lemma_mul_fe_right, lemma_reduce_args, p};
use crate::hypercube::indicator;
use crate::mle::{eq_poly, lemma_sum_cong, lemma_sum_ext, lemma_sum_scale, sum};
use crate::completeness::lemma_sum_add;

verus! {

/// Exchanging two finite sums.
pub proof fn lemma_sum_swap(f: spec_fn(int, int) -> int, n: int, m: int)
    requires
        n >= 0,
        m >= 0,
    ensures
        sum(|i: int| sum(|j: int| f(i, j), m), n) == sum(|j: int| sum(|i: int| f(i, j), n), m),
    decreases n,
{
    if n > 0 {
        lemma_sum_swap(f, n - 1, m);
        let prev = |j: int| sum(|i: int| f(i, j), n - 1);
        let last = |j: int| f(n - 1, j);
        lemma_sum_add(prev, last, m);
        let full = |j: int| sum(|i: int| f(i, j), n);
        let both = |j: int| prev(j) + last(j);
        assert forall|j: int| 0 <= j < m implies #[trigger] full(j) == both(j) by {}
        lemma_sum_ext(full, both, m);
        let outer = |i: int| sum(|j: int| f(i, j), m);
        assert(sum(outer, n) == sum(outer, n - 1) + outer(n - 1));
        assert(outer(n - 1) == sum(last, m));
        assert(sum(|j: int| sum(|i: int| f(i, j), n - 1), m) == sum(prev, m));
    } else {
        let z = |j: int| sum(|i: int| f(i, j), n);
        assert forall|j: int| 0 <= j < m implies #[trigger] z(j) == 0 by {}
        lemma_sum_zero(z, m);
    }
}

/// Double sums of pointwise equal terms are equal.
pub proof fn lemma_sum2_ext(f: spec_fn(int, int) -> int, g: spec_fn(int, int) -> int, n: int, m: int)
    requires
        forall|i: int, j: int| 0 <= i < n && 0 <= j < m ==> #[trigger] f(i, j) == g(i, j),
    ensures
        sum(|i: int| sum(|j: int| f(i, j), m), n) == sum(|i: int| sum(|j: int| g(i, j), m), n),
{
    let fr = |i: int| sum(|j: int| f(i, j), m);
    let gr = |i: int| sum(|j: int| g(i, j), m);
    assert forall|i: int| 0 <= i < n implies #[trigger] fr(i) == gr(i) by {
        lemma_sum_ext(|j: int| f(i, j), |j: int| g(i, j), m);
    }
    lemma_sum_ext(fr, gr, n);
}

/// Exchanging the two inner sums of a triple sum at a fixed first index.
pub proof fn lemma_sum_swap_at(g: spec_fn(int, int, int) -> int, j1: int, n: int, m: int)
    requires
        n >= 0,
        m >= 0,
    ensures
        sum(|j2: int| sum(|k: int| g(j1, j2, k), m), n) == sum(|k: int| sum(|j2: int| g(j1, j2, k), n), m),
{
    let f = |a: int, b: int| g(j1, a, b);
    lemma_sum_swap(f, n, m);
    lemma_sum2_ext(f, |a: int, b: int| g(j1, a, b), n, m);
    let ft = |b: int, a: int| f(a, b);
    lemma_sum2_ext(ft, |b: int, a: int| g(j1, a, b), m, n);
    let l1 = |i: int| sum(|j: int| f(i, j), m);
    let l2 = |j2: int| sum(|k: int| g(j1, j2, k), m);
    assert forall|i: int| 0 <= i < n implies #[trigger] l1(i) == l2(i) by {
        lemma_sum_ext(|j: int| f(i, j), |k: int| g(j1, i, k), m);
    }
    lemma_sum_ext(l1, l2, n);
    let r1 = |j: int| sum(|i: int| f(i, j), n);
    let r2 = |k: int| sum(|j2: int| g(j1, j2, k), n);
    assert forall|j: int| 0 <= j < m implies #[trigger] r1(j) == r2(j) by {
        lemma_sum_ext(|i: int| f(i, j), |j2: int| g(j1, j2, j), n);
    }
    lemma_sum_ext(r1, r2, m);
}

/// Exchanging the first two sums of a triple sum.
pub proof fn lemma_sum_swap_outer(g: spec_fn(int, int, int) -> int, n: int, len: int)
    requires
        n >= 0,
        len >= 0,
    ensures
        sum(|j1: int| sum(|k: int| sum(|j2: int| g(j1, j2, k), n), len), n)
            == sum(|k: int| sum(|j1: int| sum(|j2: int| g(j1, j2, k), n), n), len),
{
    let f = |a: int, b: int| sum(|j2: int| g(a, j2, b), n);
    lemma_sum_swap(f, n, len);
    let l1 = |i: int| sum(|j: int| f(i, j), len);
    let l2 = |j1: int| sum(|k: int| sum(|j2: int| g(j1, j2, k), n), len);
    assert forall|i: int| 0 <= i < n implies #[trigger] l1(i) == l2(i) by {
        lemma_sum_ext(|j: int| f(i, j), |k: int| sum(|j2: int| g(i, j2, k), n), len);
    }
    lemma_sum_ext(l1, l2, n);
    let r1 = |j: int| sum(|i: int| f(i, j), n);
    let r2 = |k: int| sum(|j1: int| sum(|j2: int| g(j1, j2, k), n), n);
    assert forall|j: int| 0 <= j < len implies #[trigger] r1(j) == r2(j) by {
        lemma_sum_ext(|i: int| f(i, j), |j1: int| sum(|j2: int| g(j1, j2, j), n), n);
    }
    lemma_sum_ext(r1, r2, len);
}

/// A sum weighted by the indicator of `v` picks the term at `v`.
pub proof fn lemma_sum_indicator(g: spec_fn(int) -> int, v: int, n: int)
    requires
        0 <= v < n,
    ensures
        sum(|j: int| indicator(v, j) * g(j), n) == g(v),
    decreases n,
{
    let f = |j: int| indicator(v, j) * g(j);
    if n - 1 == v {
        lemma_sum_zero(f, n - 1);
    } else {
        lemma_sum_indicator(g, v, n - 1);
    }
}

/// A sum of zero terms is zero.
proof fn lemma_sum_zero(f: spec_fn(int) -> int, n: int)
    requires
        forall|j: int| 0 <= j < n ==> #[trigger] f(j) == 0,
    ensures
        sum(f, n) == 0,
    decreases n,
{
    if n > 0 {
        lemma_sum_zero(f, n - 1);
    }
}

/// A factor on the right comes out of a sum.
pub proof fn lemma_sum_scale_right(f: spec_fn(int) -> int, k: int, n: int)
    ensures
        sum(|x: int| f(x) * k, n) == sum(f, n) * k,
{
    lemma_sum_scale(f, k, n);
    let fk = |x: int| f(x) * k;
    let kf = |x: int| k * f(x);
    assert forall|x: int| 0 <= x < n implies #[trigger] fk(x) == kf(x) by {
        assert(f(x) * k == k * f(x)) by (nonlinear_arith);
    }
    lemma_sum_ext(fk, kf, n);
    assert(sum(f, n) * k == k * sum(f, n)) by (nonlinear_arith);
}

/// A linear combination with each variable's column worth `wx` there.
pub open spec fn lc_at<const J: usize>(lc: LinearCombination<J>, wx: spec_fn(int) -> int) -> int {
    fe(sum(|k: int| fmul(lc.terms()[k].0@, wx(lc.terms()[k].1.index())), lc.terms().len() as int))
}

/// A quadratic with the columns worth `wx` on the left of each product and
/// `wy` on the right.
pub open spec fn quad_at<const J: usize>(q: Quadratic<J>, wx: spec_fn(int) -> int, wy: spec_fn(int) -> int) -> int {
    fe(sum(|k: int| fmul(lc_at(q.terms()[k].0, wx), lc_at(q.terms()[k].1, wy)), q.terms().len() as int))
}

/// The batched constraints with the columns worth `wx` and `wy`.
pub open spec fn matrix_at<const J: usize, const K: usize>(m: ConstraintSetMatrix<J, K>, wx: spec_fn(int) -> int, wy: spec_fn(int) -> int) -> int {
    fe(sum(|k: int| fmul(eq_poly(k, m.rk()), quad_at(m.set.expressions@[k], wx, wy)), m.set.expressions.len() as int))
}

/// The variables of a linear combination index columns below `n`.
pub open spec fn lc_vars_below<const J: usize>(lc: LinearCombination<J>, n: int) -> bool {
    forall|k: int| 0 <= k < lc.terms().len() ==> #[trigger] lc.terms()[k].1.index() < n
}

/// The extension, from the column vertices below `n`, of the values of a
/// linear combination there is the linear combination.
pub proof fn lemma_lc_ext<const J: usize>(lc: LinearCombination<J>, wx: spec_fn(int) -> int, n: int)
    requires
        n >= 0,
        lc_vars_below(lc, n),
    ensures
        fe(sum(|j: int| fmul(lc.hc_value(j), wx(j)), n)) == lc_at(lc, wx),
{
    let t = lc.terms();
    let len = t.len() as int;
    let c = |k: int| t[k].0@;
    let v = |k: int| t[k].1.index();
    let fsum = |j: int| fmul(lc.hc_value(j), wx(j));
    let g = |j: int, k: int| c(k) * indicator(v(k), j) * wx(j);
    let hsum = |j: int| sum(|k: int| g(j, k), len);
    // each term of the extension, as an integer sum over the terms
    assert forall|j: int| 0 <= j < n implies #[trigger] fe(fsum(j)) == fe(hsum(j)) by {
        let a = |k: int| fmul(t[k].0@, indicator(t[k].1.index(), j));
        let ai = |k: int| c(k) * indicator(v(k), j);
        assert forall|k: int| 0 <= k < len implies #[trigger] fe(a(k)) == fe(ai(k)) by {
            lemma_reduce_args(a(k), 0);
            lemma_reduce_args(ai(k), 0);
        }
        lemma_sum_cong(a, ai, len);
        assert(lc.hc_value(j) == fe(sum(a, len)));
        lemma_mul_fe_left(sum(ai, len), wx(j));
        lemma_reduce_args(sum(a, len), 0);
        assert(fsum(j) == fmul(fe(sum(a, len)), wx(j)));
        lemma_reduce_args(sum(a, len), wx(j));
        lemma_reduce_args(sum(ai, len), wx(j));
        lemma_sum_scale_right(ai, wx(j), len);
        let ae = |k: int| ai(k) * wx(j);
        let gj = |k: int| g(j, k);
        assert forall|k: int| 0 <= k < len implies #[trigger] ae(k) == gj(k) by {}
        lemma_sum_ext(ae, gj, len);
        lemma_reduce_args(fsum(j), 0);
    }
    lemma_sum_cong(fsum, hsum, n);
    // exchange the sums and pick each variable's column
    lemma_sum_swap(g, n, len);
    let per_term = |k: int| sum(|j: int| g(j, k), n);
    assert forall|k: int| 0 <= k < len implies #[trigger] per_term(k) == c(k) * wx(v(k)) by {
        let w = |j: int| indicator(v(k), j) * wx(j);
        lemma_sum_scale(w, c(k), n);
        let gk = |j: int| g(j, k);
        let cw = |j: int| c(k) * w(j);
        assert forall|j: int| 0 <= j < n implies #[trigger] gk(j) == cw(j) by {
            assert(c(k) * indicator(v(k), j) * wx(j) == c(k) * (indicator(v(k), j) * wx(j)))
                by (nonlinear_arith);
        }
        lemma_sum_ext(gk, cw, n);
        lemma_var_index(t[k].1);
        assert(0 <= v(k) < n);
        lemma_sum_indicator(wx, v(k), n);
        lemma_sum_ext(w, |j: int| indicator(v(k), j) * wx(j), n);
    }
    let fin = |k: int| fmul(t[k].0@, wx(t[k].1.index()));
    assert forall|k: int| 0 <= k < len implies #[trigger] fe(per_term(k)) == fe(fin(k)) by {
        lemma_reduce_args(c(k) * wx(v(k)), 0);
    }
    lemma_sum_cong(per_term, fin, len);
    assert(sum(hsum, n) == sum(per_term, len));
}

/// The extension of a linear combination, with the terms as plain
/// integer products.
proof fn lemma_lc_ext_int<const J: usize>(lc: LinearCombination<J>, wx: spec_fn(int) -> int, n: int)
    requires
        n >= 0,
        lc_vars_below(lc, n),
    ensures
        fe(sum(|j: int| lc.hc_value(j) * wx(j), n)) == lc_at(lc, wx),
{
    lemma_lc_ext(lc, wx, n);
    let f = |j: int| fmul(lc.hc_value(j), wx(j));
    let g = |j: int| lc.hc_value(j) * wx(j);
    assert forall|j: int| 0 <= j < n implies #[trigger] fe(f(j)) == fe(g(j)) by {
        lemma_reduce_args(g(j), 0);
    }
    lemma_sum_cong(f, g, n);
}

/// The variables of both sides of every product index columns below `n`.
pub open spec fn quadratic_vars_below<const J: usize>(q: Quadratic<J>, n: int) -> bool {
    forall|t: int| 0 <= t < q.terms().len() ==> #[trigger] pair_vars_below(q.terms()[t], n)
}

/// The variables of both linear combinations index columns below `n`.
pub open spec fn pair_vars_below<const J: usize>(pr: (LinearCombination<J>, LinearCombination<J>), n: int) -> bool {
    lc_vars_below(pr.0, n) && lc_vars_below(pr.1, n)
}

/// The double sum of `g(., ., k) = a(k, .) * b(k, .)` is the product of the
/// sums of `a(k, .)` and `b(k, .)`.
proof fn lemma_sum_outer_product_at(
    a: spec_fn(int, int) -> int,
    b: spec_fn(int, int) -> int,
    g: spec_fn(int, int, int) -> int,
    k: int,
    n: int,
)
    requires
        n >= 0,
        forall|j1: int, j2: int| #[trigger] g(j1, j2, k) == a(k, j1) * b(k, j2),
    ensures
        sum(|j1: int| sum(|j2: int| g(j1, j2, k), n), n) == sum(|j1: int| a(k, j1), n) * sum(|j2: int| b(k, j2), n),
{
    let u = |j1: int| a(k, j1);
    let v = |j2: int| b(k, j2);
    let row = |j1: int| sum(|j2: int| g(j1, j2, k), n);
    let sv = sum(|j2: int| b(k, j2), n);
    assert forall|j1: int| 0 <= j1 < n implies #[trigger] row(j1) == a(k, j1) * sv by {
        lemma_sum_scale(v, a(k, j1), n);
        lemma_sum_ext(|j2: int| g(j1, j2, k), |x: int| a(k, j1) * v(x), n);
        lemma_sum_ext(v, |j2: int| b(k, j2), n);
    }
    lemma_sum_ext(row, |j1: int| a(k, j1) * sv, n);
    lemma_sum_scale_right(u, sv, n);
    lemma_sum_ext(|x: int| u(x) * sv, |j1: int| a(k, j1) * sv, n);
    lemma_sum_ext(u, |j1: int| a(k, j1), n);
}

/// The extension of the values of a quadratic on pairs of column vertices
/// below `n` is the quadratic.
pub proof fn lemma_quadratic_ext<const J: usize>(q: Quadratic<J>, wx: spec_fn(int) -> int, wy: spec_fn(int) -> int, n: int)
    requires
        n >= 0,
        quadratic_vars_below(q, n),
    ensures
        fe(sum(|j1: int| sum(|j2: int| fmul(fmul(q.hc_value(j1, j2), wx(j1)), wy(j2)), n), n)) == quad_at(q, wx, wy),
{
    let t = q.terms();
    let len = t.len() as int;
    let a = |k: int, j1: int| t[k].0.hc_value(j1) * wx(j1);
    let b = |k: int, j2: int| t[k].1.hc_value(j2) * wy(j2);
    let g = |j1: int, j2: int, k: int| a(k, j1) * b(k, j2);
    let term = |j1: int, j2: int| fmul(fmul(q.hc_value(j1, j2), wx(j1)), wy(j2));
    // each term as an integer sum over the products
    let rowt = |j1: int| sum(|j2: int| term(j1, j2), n);
    let rowg = |j1: int| sum(|j2: int| sum(|k: int| g(j1, j2, k), len), n);
    assert forall|j1: int| 0 <= j1 < n implies #[trigger] fe(rowt(j1)) == fe(rowg(j1)) by {
        let tj = |j2: int| term(j1, j2);
        let gj = |j2: int| sum(|k: int| g(j1, j2, k), len);
        assert forall|j2: int| 0 <= j2 < n implies #[trigger] fe(tj(j2)) == fe(gj(j2)) by {
            let s = |k: int| fmul(t[k].0.hc_value(j1), t[k].1.hc_value(j2));
            let si = |k: int| t[k].0.hc_value(j1) * t[k].1.hc_value(j2);
            assert forall|k: int| 0 <= k < len implies #[trigger] fe(s(k)) == fe(si(k)) by {
                lemma_reduce_args(si(k), 0);
            }
            lemma_sum_cong(s, si, len);
            let e1 = wx(j1);
            let e2 = wy(j2);
            assert(q.hc_value(j1, j2) == fe(sum(s, len)));
            crate::folding::lemma_fmul3(fe(sum(s, len)), e1, e2);
            lemma_mul_fe_left(sum(s, len) * e1, e2);
            lemma_mul_fe_left(sum(s, len), e1);
            lemma_mul_fe_left(sum(si, len), e1);
            lemma_reduce_args(sum(s, len) * e1, e2);
            lemma_reduce_args(sum(si, len) * e1, e2);
            lemma_mul_fe_left(sum(si, len) * e1, e2);
            assert(fe(fe(sum(s, len)) * e1 * e2) == fe(sum(si, len) * e1 * e2)) by {
                lemma_mul_fe_left(fe(sum(s, len)) * e1, e2);
                lemma_mul_fe_left(sum(s, len), e1);
                lemma_reduce_args(fe(sum(s, len)), e1);
                lemma_mul_fe_left(fe(sum(s, len)), e1);
                lemma_reduce_args(sum(s, len), 0);
                lemma_mul_fe_left(sum(si, len), e1);
                lemma_mul_fe_left(fe(sum(si, len)), e1);
            }
            lemma_sum_scale_right(si, e1, len);
            let se1 = |k: int| si(k) * e1;
            lemma_sum_scale_right(se1, e2, len);
            let se2 = |k: int| se1(k) * e2;
            let gk = |k: int| g(j1, j2, k);
            assert forall|k: int| 0 <= k < len implies #[trigger] se2(k) == gk(k) by {
                let (p1, p2) = (t[k].0.hc_value(j1), t[k].1.hc_value(j2));
                assert(p1 * p2 * e1 * e2 == (p1 * e1) * (p2 * e2)) by (nonlinear_arith);
            }
            lemma_sum_ext(|k: int| si(k) * e1, se1, len);
            lemma_sum_ext(|k: int| se1(k) * e2, se2, len);
            lemma_sum_ext(se2, gk, len);
            lemma_reduce_args(tj(j2), 0);
        }
        lemma_sum_cong(tj, gj, n);
    }
    lemma_sum_cong(rowt, rowg, n);
    // move the sum over the products outside
    let rowk = |j1: int| sum(|k: int| sum(|j2: int| g(j1, j2, k), n), len);
    assert forall|j1: int| 0 <= j1 < n implies #[trigger] rowg(j1) == rowk(j1) by {
        lemma_sum_swap_at(g, j1, n, len);
    }
    lemma_sum_ext(rowg, rowk, n);
    lemma_sum_swap_outer(g, n, len);
    let perk = |k: int| sum(|j1: int| sum(|j2: int| g(j1, j2, k), n), n);
    let prodk = |k: int| sum(|j1: int| a(k, j1), n) * sum(|j2: int| b(k, j2), n);
    assert forall|k: int| 0 <= k < len implies #[trigger] perk(k) == prodk(k) by {
        lemma_sum_outer_product_at(a, b, g, k, n);
    }
    // each factor is a linear combination's extension
    let fin = |k: int| fmul(lc_at(t[k].0, wx), lc_at(t[k].1, wy));
    assert forall|k: int| 0 <= k < len implies #[trigger] fe(prodk(k)) == fe(fin(k)) by {
        assert(pair_vars_below(t[k], n));
        lemma_lc_ext_int(t[k].0, wx, n);
        lemma_lc_ext_int(t[k].1, wy, n);
        lemma_sum_ext(|j1: int| a(k, j1), |j: int| t[k].0.hc_value(j) * wx(j), n);
        lemma_sum_ext(|j2: int| b(k, j2), |j: int| t[k].1.hc_value(j) * wy(j), n);
        lemma_mul_fe(sum(|j1: int| a(k, j1), n), sum(|j2: int| b(k, j2), n));
        lemma_reduce_args(fin(k), 0);
    }
    lemma_sum_cong(prodk, fin, len);
    lemma_sum_ext(perk, prodk, len);
    assert(fe(sum(rowt, n)) == fe(sum(fin, len)));
    let direct = |j1: int, j2: int| fmul(fmul(q.hc_value(j1, j2), wx(j1)), wy(j2));
    lemma_sum2_ext(term, direct, n, n);
    let rt = |j1: int| sum(|j2: int| term(j1, j2), n);
    assert(sum(rowt, n) == sum(rt, n));
    assert(quad_at(q, wx, wy) == fe(sum(fin, len)));
    assert(sum(|j1: int| sum(|j2: int| direct(j1, j2), n), n) == sum(rowt, n));
    let inl = |j1: int| sum(|j2: int| fmul(fmul(q.hc_value(j1, j2), wx(j1)), wy(j2)), n);
    let dl = |j1: int| sum(|j2: int| direct(j1, j2), n);
    assert forall|j1: int| 0 <= j1 < n implies #[trigger] inl(j1) == dl(j1) by {
        lemma_sum_ext(|j2: int| fmul(fmul(q.hc_value(j1, j2), wx(j1)), wy(j2)), |j2: int| direct(j1, j2), n);
    }
    lemma_sum_ext(inl, dl, n);
}

/// Double sums of pointwise congruent terms are congruent.
pub proof fn lemma_sum2_cong(f: spec_fn(int, int) -> int, g: spec_fn(int, int) -> int, n: int, m: int)
    requires
        forall|i: int, j: int| 0 <= i < n && 0 <= j < m ==> #[trigger] fe(f(i, j)) == fe(g(i, j)),
    ensures
        fe(sum(|i: int| sum(|j: int| f(i, j), m), n)) == fe(sum(|i: int| sum(|j: int| g(i, j), m), n)),
{
    let fr = |i: int| sum(|j: int| f(i, j), m);
    let gr = |i: int| sum(|j: int| g(i, j), m);
    assert forall|i: int| 0 <= i < n implies #[trigger] fe(fr(i)) == fe(gr(i)) by {
        lemma_sum_cong(|j: int| f(i, j), |j: int| g(i, j), m);
    }
    lemma_sum_cong(fr, gr, n);
}

/// A factor comes out of a double sum.
pub proof fn lemma_sum2_scale(f: spec_fn(int, int) -> int, w: int, n: int, m: int)
    ensures
        sum(|i: int| sum(|j: int| w * f(i, j), m), n) == w * sum(|i: int| sum(|j: int| f(i, j), m), n),
{
    let fr = |i: int| sum(|j: int| f(i, j), m);
    let wr = |i: int| sum(|j: int| w * f(i, j), m);
    assert forall|i: int| 0 <= i < n implies #[trigger] wr(i) == w * fr(i) by {
        lemma_sum_scale(|j: int| f(i, j), w, m);
        lemma_sum_ext(|j: int| w * f(i, j), |x: int| w * (|j: int| f(i, j))(x), m);
    }
    lemma_sum_ext(wr, |i: int| w * fr(i), n);
    lemma_sum_scale(fr, w, n);
}

/// The variables of every constraint index columns below `n`.
pub open spec fn matrix_vars_below<const J: usize, const K: usize>(m: ConstraintSetMatrix<J, K>, n: int) -> bool {
    forall|k: int| 0 <= k < m.set.expressions.len() ==> quadratic_vars_below(#[trigger] m.set.expressions@[k], n)
}

/// The extension of the batched constraint matrix over pairs of column
/// vertices below `n` is the batched constraint.
pub proof fn lemma_matrix_ext<const J: usize, const K: usize>(m: ConstraintSetMatrix<J, K>, wx: spec_fn(int) -> int, wy: spec_fn(int) -> int, n: int)
    requires
        n >= 0,
        matrix_vars_below(m, n),
    ensures
        fe(sum(|j1: int| sum(|j2: int| fmul(fmul(m.hc_value(j1, j2), wx(j1)), wy(j2)), n), n)) == matrix_at(m, wx, wy),
{
    let ex = m.set.expressions@;
    let len = ex.len() as int;
    let w = |k: int| eq_poly(k, m.rk());
    let h = |k: int, j1: int, j2: int| ex[k].hc_value(j1, j2) * wx(j1) * wy(j2);
    let g = |j1: int, j2: int, k: int| w(k) * h(k, j1, j2);
    let direct = |j1: int, j2: int| fmul(fmul(m.hc_value(j1, j2), wx(j1)), wy(j2));
    let gsum = |j1: int, j2: int| sum(|k: int| g(j1, j2, k), len);
    assert forall|j1: int, j2: int| 0 <= j1 < n && 0 <= j2 < n implies #[trigger] fe(direct(j1, j2)) == fe(gsum(j1, j2)) by {
        let e1 = wx(j1);
        let e2 = wy(j2);
        let s = |k: int| fmul(eq_poly(k, m.rk()), ex[k].hc_value(j1, j2));
        let si = |k: int| w(k) * ex[k].hc_value(j1, j2);
        assert forall|k: int| 0 <= k < len implies #[trigger] fe(s(k)) == fe(si(k)) by {
            lemma_reduce_args(si(k), 0);
        }
        lemma_sum_cong(s, si, len);
        assert(m.hc_value(j1, j2) == fe(sum(s, len)));
        assert(fe(direct(j1, j2)) == fe(sum(si, len) * e1 * e2)) by {
            crate::folding::lemma_fmul3(fe(sum(s, len)), e1, e2);
            lemma_reduce_args(direct(j1, j2), 0);
            lemma_mul_fe_left(fe(sum(s, len)) * e1, e2);
            lemma_mul_fe_left(sum(si, len) * e1, e2);
            lemma_mul_fe_left(fe(sum(s, len)), e1);
            lemma_mul_fe_left(sum(si, len), e1);
            lemma_mul_fe_left(fe(sum(si, len)), e1);
            lemma_reduce_args(sum(si, len), 0);
            lemma_reduce_args(fe(sum(s, len)) * e1, e2);
            lemma_reduce_args(sum(si, len) * e1, e2);
        }
        lemma_sum_scale_right(si, e1, len);
        let se1 = |k: int| si(k) * e1;
        lemma_sum_scale_right(se1, e2, len);
        let se2 = |k: int| se1(k) * e2;
        let gk = |k: int| g(j1, j2, k);
        assert forall|k: int| 0 <= k < len implies #[trigger] se2(k) == gk(k) by {
            let (wk, hk) = (w(k), ex[k].hc_value(j1, j2));
            assert(wk * hk * e1 * e2 == wk * (hk * e1 * e2)) by (nonlinear_arith);
        }
        lemma_sum_ext(|k: int| si(k) * e1, se1, len);
        lemma_sum_ext(|k: int| se1(k) * e2, se2, len);
        lemma_sum_ext(se2, gk, len);
    }
    lemma_sum2_cong(direct, gsum, n, n);
    // the sum over the constraints outside
    let rowg = |j1: int| sum(|j2: int| sum(|k: int| g(j1, j2, k), len), n);
    let rowk = |j1: int| sum(|k: int| sum(|j2: int| g(j1, j2, k), n), len);
    assert forall|j1: int| 0 <= j1 < n implies #[trigger] rowg(j1) == rowk(j1) by {
        lemma_sum_swap_at(g, j1, n, len);
    }
    lemma_sum_ext(rowg, rowk, n);
    lemma_sum_swap_outer(g, n, len);
    let perk = |k: int| sum(|j1: int| sum(|j2: int| g(j1, j2, k), n), n);
    let scaled = |k: int| w(k) * sum(|j1: int| sum(|j2: int| h(k, j1, j2), n), n);
    assert forall|k: int| 0 <= k < len implies #[trigger] perk(k) == scaled(k) by {
        let hk = |j1: int, j2: int| h(k, j1, j2);
        lemma_sum2_scale(hk, w(k), n, n);
        lemma_sum2_ext(|j1: int, j2: int| w(k) * hk(j1, j2), |j1: int, j2: int| g(j1, j2, k), n, n);
        lemma_sum2_ext(hk, |j1: int, j2: int| h(k, j1, j2), n, n);
        let a1 = |i: int| sum(|j: int| (|j1: int, j2: int| g(j1, j2, k))(i, j), n);
        let a2 = |j1: int| sum(|j2: int| g(j1, j2, k), n);
        assert forall|i: int| 0 <= i < n implies #[trigger] a1(i) == a2(i) by {
            lemma_sum_ext(|j: int| (|j1: int, j2: int| g(j1, j2, k))(i, j), |j2: int| g(i, j2, k), n);
        }
        lemma_sum_ext(a1, a2, n);
        let b1 = |i: int| sum(|j: int| (|j1: int, j2: int| h(k, j1, j2))(i, j), n);
        let b2 = |j1: int| sum(|j2: int| h(k, j1, j2), n);
        assert forall|i: int| 0 <= i < n implies #[trigger] b1(i) == b2(i) by {
            lemma_sum_ext(|j: int| (|j1: int, j2: int| h(k, j1, j2))(i, j), |j2: int| h(k, i, j2), n);
        }
        lemma_sum_ext(b1, b2, n);
        let c1 = |i: int| sum(|j: int| (|j1: int, j2: int| w(k) * hk(j1, j2))(i, j), n);
        let c2 = |i: int| sum(|j: int| w(k) * hk(i, j), n);
        assert forall|i: int| 0 <= i < n implies #[trigger] c1(i) == c2(i) by {
            lemma_sum_ext(|j: int| (|j1: int, j2: int| w(k) * hk(j1, j2))(i, j), |j: int| w(k) * hk(i, j), n);
        }
        lemma_sum_ext(c1, c2, n);
        let d1 = |i: int| sum(|j: int| hk(i, j), n);
        assert forall|i: int| 0 <= i < n implies #[trigger] d1(i) == b2(i) by {
            lemma_sum_ext(|j: int| hk(i, j), |j2: int| h(k, i, j2), n);
        }
        lemma_sum_ext(d1, b2, n);
    }
    lemma_sum_ext(perk, scaled, len);
    // each constraint's double sum is the constraint
    let fin = |k: int| fmul(eq_poly(k, m.rk()), quad_at(ex[k], wx, wy));
    assert forall|k: int| 0 <= k < len implies #[trigger] fe(scaled(k)) == fe(fin(k)) by {
        assert(quadratic_vars_below(ex[k], n));
        lemma_quadratic_ext(ex[k], wx, wy, n);
        let hf = |j1: int, j2: int| fmul(fmul(ex[k].hc_value(j1, j2), wx(j1)), wy(j2));
        let hi = |j1: int, j2: int| h(k, j1, j2);
        assert forall|j1: int, j2: int| 0 <= j1 < n && 0 <= j2 < n implies #[trigger] fe(hf(j1, j2)) == fe(hi(j1, j2)) by {
            crate::folding::lemma_fmul3(ex[k].hc_value(j1, j2), wx(j1), wy(j2));
            lemma_reduce_args(hf(j1, j2), 0);
        }
        lemma_sum2_cong(hf, hi, n, n);
        let i1 = |j1: int| sum(|j2: int| fmul(fmul(ex[k].hc_value(j1, j2), wx(j1)), wy(j2)), n);
        let i2 = |j1: int| sum(|j2: int| hf(j1, j2), n);
        assert forall|j1: int| 0 <= j1 < n implies #[trigger] i1(j1) == i2(j1) by {
            lemma_sum_ext(|j2: int| fmul(fmul(ex[k].hc_value(j1, j2), wx(j1)), wy(j2)), |j2: int| hf(j1, j2), n);
        }
        lemma_sum_ext(i1, i2, n);
        let i3 = |j1: int| sum(|j2: int| hi(j1, j2), n);
        let i4 = |j1: int| sum(|j2: int| h(k, j1, j2), n);
        assert forall|j1: int| 0 <= j1 < n implies #[trigger] i3(j1) == i4(j1) by {
            lemma_sum_ext(|j2: int| hi(j1, j2), |j2: int| h(k, j1, j2), n);
        }
        lemma_sum_ext(i3, i4, n);
        let dk = sum(i4, n);
        lemma_mul_fe_right(w(k), dk);
        lemma_reduce_args(fin(k), 0);
    }
    lemma_sum_cong(scaled, fin, len);
    let inl = |j1: int| sum(|j2: int| fmul(fmul(m.hc_value(j1, j2), wx(j1)), wy(j2)), n);
    let dl = |j1: int| sum(|j2: int| direct(j1, j2), n);
    assert forall|j1: int| 0 <= j1 < n implies #[trigger] inl(j1) == dl(j1) by {
        lemma_sum_ext(|j2: int| fmul(fmul(m.hc_value(j1, j2), wx(j1)), wy(j2)), |j2: int| direct(j1, j2), n);
    }
    lemma_sum_ext(inl, dl, n);
    let gl = |j1: int| sum(|j2: int| gsum(j1, j2), n);
    assert forall|j1: int| 0 <= j1 < n implies #[trigger] gl(j1) == rowg(j1) by {
        lemma_sum_ext(|j2: int| gsum(j1, j2), |j2: int| sum(|k: int| g(j1, j2, k), len), n);
    }
    lemma_sum_ext(gl, rowg, n);
    assert(matrix_at(m, wx, wy) == fe(sum(fin, len)));
}

/// At the equality polynomials of two points, the weighted forms are the
/// values there.
pub proof fn lemma_at_points<const J: usize, const K: usize>(m: ConstraintSetMatrix<J, K>, x: Seq<int>, y: Seq<int>)
    ensures
        matrix_at(m, |j: int| eq_poly(j, x), |j: int| eq_poly(j, y)) == m.value(x, y),
{
    let ex = |j: int| eq_poly(j, x);
    let ey = |j: int| eq_poly(j, y);
    let ex_ = m.set.expressions@;
    let len = ex_.len() as int;
    let f = |k: int| fmul(eq_poly(k, m.rk()), quad_at(ex_[k], ex, ey));
    let g = |k: int| fmul(eq_poly(k, m.rk()), ex_[k].value(x, y));
    assert forall|k: int| 0 <= k < len implies #[trigger] f(k) == g(k) by {
        let q = ex_[k];
        let t = q.terms();
        let qf = |i: int| fmul(lc_at(t[i].0, ex), lc_at(t[i].1, ey));
        let qg = |i: int| fmul(t[i].0.value(x), t[i].1.value(y));
        assert forall|i: int| 0 <= i < t.len() implies #[trigger] qf(i) == qg(i) by {
            lemma_lc_at_point(t[i].0, x);
            lemma_lc_at_point(t[i].1, y);
        }
        lemma_sum_ext(qf, qg, t.len() as int);
    }
    lemma_sum_ext(f, g, len);
}

/// At the equality polynomials of a point, a linear combination's weighted
/// form is its value there.
pub proof fn lemma_lc_at_point<const J: usize>(lc: LinearCombination<J>, x: Seq<int>)
    ensures
        lc_at(lc, |j: int| eq_poly(j, x)) == lc.value(x),
{
    let t = lc.terms();
    lemma_sum_ext(
        |k: int| fmul(t[k].0@, (|j: int| eq_poly(j, x))(t[k].1.index())),
        |k: int| fmul(t[k].0@, eq_poly(t[k].1.index(), x)),
        t.len() as int,
    );
}

} // verus!
