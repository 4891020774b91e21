//! The extensions of the prover's starting tables: the diagonal factor's
//! is the product of its factors, and the fully folded tables sum to their
//! extension at no point left.
use vstd::prelude::*;
use vstd::arithmetic::power2::*;
use crate::constraints::pass;
use crate::fields::{fadd, fe, fmul, fsub, lemma_add_fe, lemma_fmul_comm_assoc, lemma_mul_fe, lemma_mul_fe_left, lemma_mul_fe_right, lemma_reduce_args};
use crate::folding::{ext2, ext_diag, ext_tables, lemma_eq_poly_top, lemma_ext_diag_fold, lemma_fmul3};
use crate::completeness::tables_shape;
use crate::mle::{eq_poly, fprod, lemma_sum_cong, lemma_sum_ext, lemma_sum_scale, sum};
use crate::partial_sums::{fold_diag, lemma_diag_poly, term, total, Tables};

verus! {

/// The sum of the fully folded tables is their extension at no point left.
pub proof fn lemma_ext_final(st: Tables)
    requires
        tables_shape(st),
        st.0.len() == 1,
        st.1.len() == 1,
    ensures
        ext_tables(st, Seq::empty(), Seq::empty(), Seq::empty(), Seq::empty()) == total(st.0, st.1, st.2, st.3),
{
    let e: Seq<int> = Seq::empty();
    assert(eq_poly(0, e) == 1);
    let (d0, a0, w1, w2) = (st.0[0], st.1[0][0], st.2[0][0], st.3[0][0]);
    assert(st.2[0].len() == 1);
    assert(st.3[0].len() == 1);
    let fd = |i: int| fmul(fmul(st.0[i], eq_poly(i, e)), eq_poly(i, e));
    assert(sum(fd, 0) == 0);
    assert(ext_diag(st.0, e, e) == fe(fd(0)));
    lemma_fmul3(d0, 1, 1);
    lemma_reduce_args(d0, 0);
    assert(ext_diag(st.0, e, e) == fe(d0));
    let ga = |j: int| fmul(fmul(st.1[0][j], eq_poly(0, e)), eq_poly(j, e));
    assert(sum(ga, 0) == 0);
    let oa = |i: int| sum(|j: int| fmul(fmul(st.1[i][j], eq_poly(i, e)), eq_poly(j, e)), 1);
    assert(sum(oa, 0) == 0);
    assert(oa(0) == ga(0));
    lemma_fmul3(a0, 1, 1);
    assert(ext2(st.1, e, e, 1, 1) == fe(a0));
    let g1 = |j: int| fmul(fmul(st.2[0][j], eq_poly(0, e)), eq_poly(j, e));
    assert(sum(g1, 0) == 0);
    let o1 = |i: int| sum(|j: int| fmul(fmul(st.2[i][j], eq_poly(i, e)), eq_poly(j, e)), 1);
    assert(sum(o1, 0) == 0);
    assert(o1(0) == g1(0));
    lemma_fmul3(w1, 1, 1);
    assert(ext2(st.2, e, e, 1, 1) == fe(w1));
    let g2 = |j: int| fmul(fmul(st.3[0][j], eq_poly(0, e)), eq_poly(j, e));
    assert(sum(g2, 0) == 0);
    let o2 = |i: int| sum(|j: int| fmul(fmul(st.3[i][j], eq_poly(i, e)), eq_poly(j, e)), 1);
    assert(sum(o2, 0) == 0);
    assert(o2(0) == g2(0));
    lemma_fmul3(w2, 1, 1);
    assert(ext2(st.3, e, e, 1, 1) == fe(w2));
    crate::completeness::lemma_term_int(d0, a0, w1, w2);
    crate::completeness::lemma_term_int(fe(d0), fe(a0), w1, w2);
    lemma_reduce_args(d0, a0);
    lemma_reduce_args(d0 * a0, 0);
    // total over one entry
    let g = |i: int, j1: int, j2: int| term(st.0[i], st.1[j1][j2], st.2[i][j1], st.3[i][j2]);
    let s2 = |j2: int| g(0, 0, j2);
    assert(sum(s2, 0) == 0);
    let s1 = |j1: int| sum(|j2: int| g(0, j1, j2), 1);
    assert(sum(s1, 0) == 0);
    assert(s1(0) == s2(0));
    let s0 = |i: int| sum(|j1: int| sum(|j2: int| g(i, j1, j2), 1), 1);
    assert(sum(s0, 0) == 0);
    assert(s0(0) == s1(0));
    assert(total(st.0, st.1, st.2, st.3) == fe(term(d0, a0, w1, w2)));
    lemma_reduce_args(term(d0, a0, w1, w2), 0);
    assert(term(fe(d0), fe(a0), fe(w1), fe(w2)) == fe(d0 * a0 * w1 * w2)) by {
        lemma_mul_fe(d0, a0);
        lemma_mul_fe_left(d0 * a0, w1);
        lemma_reduce_args(d0 * a0 * w1, w2);
        lemma_mul_fe(d0 * a0 * w1, w2);
        lemma_reduce_args(d0 * a0, w1);
        lemma_mul_fe_right(d0 * a0, w1);
    }
}

/// The equality polynomials of all vertices of the hypercube of `pt`.
pub open spec fn eq_table(pt: Seq<int>) -> Seq<int> {
    Seq::new(pow2(pt.len()), |i: int| eq_poly(i, pt))
}

/// The product peeled from the front.
pub proof fn lemma_fprod_first(f: spec_fn(int) -> int, n: int)
    requires
        n >= 1,
    ensures
        fprod(f, n) == fmul(f(0), fprod(|i: int| f(i + 1), n - 1)),
    decreases n,
{
    let g = |i: int| f(i + 1);
    if n == 1 {
        assert(fprod(f, 0) == 1);
        assert(fprod(f, 1) == fmul(1, f(0)));
        assert(fprod(g, 0) == 1);
        lemma_fmul_comm_assoc(1, f(0), 0);
    } else {
        lemma_fprod_first(f, n - 1);
        assert(g(n - 2) == f(n - 1));
        assert(fprod(g, n - 1) == fmul(fprod(g, n - 2), g(n - 2)));
        lemma_fmul_comm_assoc(f(0), fprod(g, n - 2), f(n - 1));
        assert(fprod(f, n) == fmul(fprod(f, n - 1), f(n - 1)));
    }
}

/// Scaling every entry scales the diagonal extension.
proof fn lemma_ext_diag_scale(v: Seq<int>, lam: int, bp: Seq<int>, cp: Seq<int>)
    ensures
        ext_diag(Seq::new(v.len(), |i: int| fmul(lam, v[i])), bp, cp) == fmul(lam, ext_diag(v, bp, cp)),
{
    let w = Seq::new(v.len(), |i: int| fmul(lam, v[i]));
    let f = |i: int| fmul(fmul(v[i], eq_poly(i, bp)), eq_poly(i, cp));
    let g = |i: int| fmul(fmul(w[i], eq_poly(i, bp)), eq_poly(i, cp));
    let lf = |i: int| lam * f(i);
    assert forall|i: int| 0 <= i < v.len() implies #[trigger] fe(g(i)) == fe(lf(i)) by {
        lemma_fmul3(lam, v[i], eq_poly(i, bp));
        lemma_fmul3(v[i], eq_poly(i, bp), eq_poly(i, cp));
        lemma_mul_fe_left(lam * v[i] * eq_poly(i, bp), eq_poly(i, cp));
        lemma_reduce_args(lam * v[i], eq_poly(i, bp));
        lemma_mul_fe_right(lam, v[i]);
        lemma_mul_fe_left(lam * v[i], eq_poly(i, bp));
        lemma_mul_fe_right(lam, v[i] * eq_poly(i, bp) * eq_poly(i, cp));
        assert(lam * (v[i] * eq_poly(i, bp) * eq_poly(i, cp)) == lam * v[i] * eq_poly(i, bp) * eq_poly(i, cp))
            by (nonlinear_arith);
        lemma_reduce_args(g(i), 0);
    }
    lemma_sum_cong(g, lf, v.len() as int);
    lemma_sum_scale(f, lam, v.len() as int);
    lemma_sum_ext(lf, |i: int| lam * f(i), v.len() as int);
    lemma_mul_fe_right(lam, sum(f, v.len() as int));
}

/// `k1 * X + k2 * Y` modulo `p` reads `X` and `Y` modulo `p`.
proof fn lemma_fe_lin2(k1: int, x: int, k2: int, y: int)
    ensures
        fe(k1 * fe(x) + k2 * fe(y)) == fe(k1 * x + k2 * y),
{
    lemma_mul_fe_right(k1, x);
    lemma_mul_fe_right(k2, y);
    lemma_add_fe(k1 * fe(x), k2 * fe(y));
    lemma_add_fe(k1 * x, k2 * y);
}

/// One entry of the folded table of equality polynomials.
proof fn lemma_fold_eq_entry(a0: int, b0: int, c0: int, e: int)
    ensures
        fadd(fmul(fmul(fsub(1, b0), fsub(1, c0)), fmul(e, fsub(1, a0))), fmul(fmul(b0, c0), fmul(e, a0)))
            == fmul(pass(a0, b0, c0), e),
{
    lemma_diag_poly(fmul(e, fsub(1, a0)), fmul(e, a0), b0, c0);
    lemma_mul_fe_right(e, 1 - a0);
    let ka = (1 - b0) * (1 - c0);
    let kb = b0 * c0;
    lemma_fe_lin2(ka, e * (1 - a0), kb, e * a0);
    let q = a0 * b0 * c0 + (1 - a0) * (1 - b0) * (1 - c0);
    assert(pass(a0, b0, c0) == fe(q)) by {
        lemma_fmul3(a0, b0, c0);
        lemma_mul_fe(1 - a0, 1 - b0);
        lemma_mul_fe_left((1 - a0) * (1 - b0), 1 - c0);
        lemma_reduce_args((1 - a0) * (1 - b0), fsub(1, c0));
        lemma_mul_fe_right((1 - a0) * (1 - b0), 1 - c0);
        lemma_add_fe(a0 * b0 * c0, (1 - a0) * (1 - b0) * (1 - c0));
    }
    lemma_mul_fe_left(q, e);
    let aa = 1 - a0;
    let bb = 1 - b0;
    let cc = 1 - c0;
    assert(ka * (e * aa) == (aa * bb * cc) * e) by (nonlinear_arith)
        requires ka == bb * cc;
    assert(kb * (e * a0) == (a0 * b0 * c0) * e) by (nonlinear_arith)
        requires kb == b0 * c0;
    assert(q * e == (a0 * b0 * c0) * e + (aa * bb * cc) * e) by (nonlinear_arith)
        requires q == a0 * b0 * c0 + aa * bb * cc;
}

/// Folding the table of equality polynomials of `a0 :: rest` at `(b0, c0)`
/// scales the table of `rest` by one factor of the diagonal product.
proof fn lemma_fold_eq_table(a0: int, rest: Seq<int>, b0: int, c0: int)
    ensures
        fold_diag(eq_table(seq![a0] + rest), b0, c0)
            == Seq::new(pow2(rest.len()), |i: int| fmul(pass(a0, b0, c0), eq_table(rest)[i])),
{
    let pt = seq![a0] + rest;
    let h = pow2(rest.len()) as int;
    lemma_pow2_unfold(pt.len());
    assert(pt.len() == rest.len() + 1);
    let t = eq_table(pt);
    let fd = fold_diag(t, b0, c0);
    let target = Seq::new(pow2(rest.len()), |i: int| fmul(pass(a0, b0, c0), eq_table(rest)[i]));
    assert forall|i: int| 0 <= i < h implies #[trigger] fd[i] == target[i] by {
        lemma_eq_poly_top(i, 0, a0, rest);
        lemma_eq_poly_top(i, 1, a0, rest);
        assert(i + 0 * h == i);
        assert(i + 1 * h == i + h);
        let e = eq_poly(i, rest);
        assert(t[i] == fmul(e, fsub(1, a0)));
        assert(t[i + h] == fmul(e, a0));
        lemma_fold_eq_entry(a0, b0, c0, e);
    }
    assert(fd =~= target);
}

/// The diagonal extension of the equality polynomials of `pt` at `b` and
/// `c` is the product of the factors `pass(pt[i], b[i], c[i])`.
pub proof fn lemma_ext_diag_eq_table(pt: Seq<int>, b: Seq<int>, c: Seq<int>)
    requires
        b.len() == pt.len(),
        c.len() == pt.len(),
    ensures
        ext_diag(eq_table(pt), b, c) == fprod(|i: int| pass(pt[i], b[i], c[i]), pt.len() as int),
    decreases pt.len(),
{
    let n = pt.len();
    if n == 0 {
        let t = eq_table(pt);
        assert(pow2(0) == 1) by { lemma2_to64(); }
        assert(t[0] == 1);
        let f = |i: int| fmul(fmul(t[i], eq_poly(i, b)), eq_poly(i, c));
        assert(sum(f, 0) == 0);
        assert(eq_poly(0, b) == 1);
        lemma_fmul3(1, 1, 1);
        lemma_reduce_args(1, 0);
        crate::fields::lemma_fe_small(1);
    } else {
        let pr = pt.subrange(1, n as int);
        let br = b.subrange(1, n as int);
        let cr = c.subrange(1, n as int);
        assert(pt == seq![pt[0]] + pr);
        assert(b == seq![b[0]] + br);
        assert(c == seq![c[0]] + cr);
        lemma_pow2_unfold(n);
        lemma_ext_diag_fold(eq_table(pt), b[0], c[0], br, cr);
        lemma_fold_eq_table(pt[0], pr, b[0], c[0]);
        lemma_ext_diag_scale(eq_table(pr), pass(pt[0], b[0], c[0]), br, cr);
        lemma_ext_diag_eq_table(pr, br, cr);
        let f = |i: int| pass(pt[i], b[i], c[i]);
        lemma_fprod_first(f, n as int);
        let g = |i: int| pass(pr[i], br[i], cr[i]);
        assert forall|i: int| 0 <= i < n - 1 implies #[trigger] g(i) == (|i: int| f(i + 1))(i) by {}
        lemma_fprod_ext(g, |i: int| f(i + 1), n - 1);
    }
}

/// Products of pointwise equal factors are equal.
pub proof fn lemma_fprod_ext(f: spec_fn(int) -> int, g: spec_fn(int) -> int, n: int)
    requires
        forall|k: int| 0 <= k < n ==> #[trigger] f(k) == g(k),
    ensures
        fprod(f, n) == fprod(g, n),
    decreases n,
{
    if n > 0 {
        lemma_fprod_ext(f, g, n - 1);
    }
}

} // verus!
