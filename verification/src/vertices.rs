//! At the vertices of the hypercube, the multilinear extensions take the
//! values they extend: evaluating at a vertex is evaluating on the
//! hypercube.
use vstd::prelude::*;
use vstd::arithmetic::power2::*;
use vstd::arithmetic::div_mod::*;
use crate::bits::bit;
use crate::fields::{fe, fmul, fsub, lemma_fe_small, lemma_mul_fe_left, lemma_reduce_args, p};
use crate::hypercube::indicator;
use crate::mle::{eq_poly, eq_prod, lemma_sum_cong, lemma_sum_ext, lemma_sum_scale, sel, sum, vertex};
use crate::constraints::{lemma_var_index, ConstraintSetMatrix, Delta, LinearCombination, Quadratic, Trace, Var, BQCS};
use crate::matrix_ext::{lc_vars_below, matrix_vars_below, pair_vars_below, quadratic_vars_below, lemma_sum_indicator};
use crate::diagonal::{eq_table, lemma_ext_diag_eq_table};
use crate::folding::ext_diag;

verus! {

/// The low `k` bits of `i` and `b` agree.
pub open spec fn bits_agree(i: int, b: int, k: nat) -> bool {
    forall|t: nat| t < k ==> #[trigger] bit(i, t) == bit(b, t)
}

/// Bit `t + 1` of `x` is bit `t` of `x / 2`.
proof fn lemma_bit_half(x: int, t: nat)
    requires
        x >= 0,
    ensures
        bit(x, t + 1) == bit(x / 2, t),
{
    lemma_pow2_unfold(t + 1);
    lemma_pow2_pos(t);
    lemma_div_denominator(x, 2, pow2(t) as int);
    assert(pow2(t + 1) as int == 2 * pow2(t));
}

/// Two numbers below `2^n` whose low `n` bits agree are equal.
pub proof fn lemma_bits_agree_equal(i: int, b: int, n: nat)
    requires
        0 <= i < pow2(n),
        0 <= b < pow2(n),
        bits_agree(i, b, n),
    ensures
        i == b,
    decreases n,
{
    if n == 0 {
        assert(pow2(0) == 1) by { lemma2_to64(); }
    } else {
        lemma_pow2_unfold(n);
        assert forall|t: nat| t < (n - 1) as nat implies #[trigger] bit(i / 2, t) == bit(b / 2, t) by {
            lemma_bit_half(i, t);
            lemma_bit_half(b, t);
            assert(bit(i, t + 1) == bit(b, t + 1));
        }
        lemma_div_is_ordered(i, pow2(n) as int - 1, 2);
        lemma_div_is_ordered(b, pow2(n) as int - 1, 2);
        lemma_bits_agree_equal(i / 2, b / 2, (n - 1) as nat);
        assert(bit(i, 0) == bit(b, 0));
        assert(pow2(0) == 1) by { lemma2_to64(); }
        lemma_fundamental_div_mod(i, 2);
        lemma_fundamental_div_mod(b, 2);
    }
}

/// The factor of the equality polynomial at a vertex coordinate is `1`
/// where the bits agree and `0` where they differ.
proof fn lemma_sel_vertex(bi: bool, bb: bool)
    ensures
        sel(bi, if bb { 1int } else { 0int }) == (if bi == bb { 1int } else { 0int }),
{
    lemma_fe_small(0);
    lemma_fe_small(1);
}

/// The first `k` factors of the equality polynomial of `i` at the vertex
/// `b` multiply to `1` where the low `k` bits agree, `0` elsewhere.
proof fn lemma_eq_prod_vertex(i: int, b: int, n: nat, k: nat)
    requires
        k <= n,
    ensures
        eq_prod(i, vertex(b, n), k) == (if bits_agree(i, b, k) { 1int } else { 0int }),
    decreases k,
{
    if k > 0 {
        lemma_eq_prod_vertex(i, b, n, (k - 1) as nat);
        let pts = vertex(b, n);
        assert(pts[pts.len() - k] == (if bit(b, (k - 1) as nat) { 1int } else { 0int }));
        lemma_sel_vertex(bit(i, (k - 1) as nat), bit(b, (k - 1) as nat));
        lemma_fe_small(0);
        lemma_fe_small(1);
        if bits_agree(i, b, k) {
            assert(bits_agree(i, b, (k - 1) as nat));
        } else if bits_agree(i, b, (k - 1) as nat) {
            assert(bit(i, (k - 1) as nat) != bit(b, (k - 1) as nat));
        }
    }
}

/// The equality polynomial of `i` at the vertex `b` is the indicator of
/// `i == b`.
pub proof fn lemma_eq_poly_vertex(i: int, b: int, n: nat)
    requires
        0 <= i < pow2(n),
        0 <= b < pow2(n),
    ensures
        eq_poly(i, vertex(b, n)) == indicator(i, b),
{
    lemma_eq_prod_vertex(i, b, n, n);
    if bits_agree(i, b, n) {
        lemma_bits_agree_equal(i, b, n);
    } else {
        assert(i != b);
    }
}

/// A column variable at a column vertex: `1` at its own column, `0`
/// elsewhere.
pub proof fn lemma_var_at_vertex<const J: usize>(v: Var<J>, bits: int)
    requires
        v.index() < pow2(J as nat),
        0 <= bits < pow2(J as nat),
    ensures
        eq_poly(v.index(), vertex(bits, J as nat)) == indicator(v.index(), bits),
{
    lemma_var_index(v);
    lemma_eq_poly_vertex(v.index(), bits, J as nat);
}

/// A linear combination at a column vertex is its value on the hypercube
/// there.
pub proof fn lemma_lc_at_vertex<const J: usize>(lc: LinearCombination<J>, bits: int)
    requires
        lc_vars_below(lc, pow2(J as nat) as int),
        0 <= bits < pow2(J as nat),
    ensures
        lc.value(vertex(bits, J as nat)) == lc.hc_value(bits),
{
    let t = lc.terms();
    let vb = vertex(bits, J as nat);
    let f = |k: int| fmul(t[k].0@, eq_poly(t[k].1.index(), vb));
    let g = |k: int| fmul(t[k].0@, indicator(t[k].1.index(), bits));
    assert forall|k: int| 0 <= k < t.len() implies #[trigger] f(k) == g(k) by {
        lemma_var_at_vertex(t[k].1, bits);
    }
    lemma_sum_ext(f, g, t.len() as int);
}

/// A quadratic at two column vertices is its value on the hypercube there.
pub proof fn lemma_quadratic_at_vertex<const J: usize>(q: Quadratic<J>, b1: int, b2: int)
    requires
        quadratic_vars_below(q, pow2(J as nat) as int),
        0 <= b1 < pow2(J as nat),
        0 <= b2 < pow2(J as nat),
    ensures
        q.value(vertex(b1, J as nat), vertex(b2, J as nat)) == q.hc_value(b1, b2),
{
    let t = q.terms();
    let f = |k: int| fmul(t[k].0.value(vertex(b1, J as nat)), t[k].1.value(vertex(b2, J as nat)));
    let g = |k: int| fmul(t[k].0.hc_value(b1), t[k].1.hc_value(b2));
    assert forall|k: int| 0 <= k < t.len() implies #[trigger] f(k) == g(k) by {
        assert(pair_vars_below(t[k], pow2(J as nat) as int));
        lemma_lc_at_vertex(t[k].0, b1);
        lemma_lc_at_vertex(t[k].1, b2);
    }
    lemma_sum_ext(f, g, t.len() as int);
}

/// The batched constraints at two column vertices are their value on the
/// hypercube there.
pub proof fn lemma_matrix_at_vertex<const J: usize, const K: usize>(m: ConstraintSetMatrix<J, K>, b1: int, b2: int)
    requires
        matrix_vars_below(m, pow2(J as nat) as int),
        0 <= b1 < pow2(J as nat),
        0 <= b2 < pow2(J as nat),
    ensures
        m.value(vertex(b1, J as nat), vertex(b2, J as nat)) == m.hc_value(b1, b2),
{
    let ex = m.set.expressions@;
    let f = |k: int| fmul(eq_poly(k, m.rk()), ex[k].value(vertex(b1, J as nat), vertex(b2, J as nat)));
    let g = |k: int| fmul(eq_poly(k, m.rk()), ex[k].hc_value(b1, b2));
    assert forall|k: int| 0 <= k < ex.len() implies #[trigger] f(k) == g(k) by {
        assert(quadratic_vars_below(ex[k], pow2(J as nat) as int));
        lemma_quadratic_at_vertex(ex[k], b1, b2);
    }
    lemma_sum_ext(f, g, ex.len() as int);
}

/// The trace at a row vertex and a column vertex is its entry there.
pub proof fn lemma_trace_at_vertex<const I: usize, const J: usize>(tr: Trace<I, J>, r: int, c: int)
    requires
        tr.wf(),
        0 <= r < pow2(I as nat),
        0 <= c < pow2(J as nat),
    ensures
        tr.value(vertex(r, I as nat), vertex(c, J as nat)) == tr.table()[r][c],
{
    let t = tr.table();
    let ni = pow2(I as nat) as int;
    let nj = pow2(J as nat) as int;
    let vr = vertex(r, I as nat);
    let vc = vertex(c, J as nat);
    let row_f = |i: int| sum(|j: int| fmul(fmul(t[i][j], eq_poly(i, vr)), eq_poly(j, vc)), nj);
    let row_g = |i: int| indicator(r, i) * t[i][c];
    assert forall|i: int| 0 <= i < ni implies #[trigger] fe(row_f(i)) == fe(row_g(i)) by {
        let f = |j: int| fmul(fmul(t[i][j], eq_poly(i, vr)), eq_poly(j, vc));
        let g = |j: int| indicator(c, j) * (indicator(r, i) * t[i][j]);
        assert forall|j: int| 0 <= j < nj implies #[trigger] fe(f(j)) == fe(g(j)) by {
            lemma_eq_poly_vertex(i, r, I as nat);
            lemma_eq_poly_vertex(j, c, J as nat);
            crate::folding::lemma_fmul3(t[i][j], indicator(i, r), indicator(j, c));
            lemma_reduce_args(f(j), 0);
            assert(t[i][j] * indicator(i, r) * indicator(j, c) == indicator(c, j) * (indicator(r, i) * t[i][j]))
                by (nonlinear_arith)
                requires
                    indicator(i, r) == indicator(r, i),
                    indicator(j, c) == indicator(c, j);
        }
        lemma_sum_cong(f, g, nj);
        lemma_sum_indicator(|j: int| indicator(r, i) * t[i][j], c, nj);
        lemma_sum_ext(g, |j: int| indicator(c, j) * (|j: int| indicator(r, i) * t[i][j])(j), nj);
    }
    lemma_sum_cong(row_f, row_g, ni);
    lemma_sum_indicator(|i: int| t[i][c], r, ni);
    lemma_sum_ext(row_g, |i: int| indicator(r, i) * (|i: int| t[i][c])(i), ni);
    assert(t[r].len() == nj);
    crate::partial_sums::lemma_vals2_range(tr.rows@, r, c);
    lemma_fe_small(t[r][c]);
}

/// The diagonal factor at a row vertex, taken for both row points, is its
/// value on the hypercube there.
pub proof fn lemma_delta_at_vertex<const I: usize>(d: Delta<I>, b: int)
    requires
        d.wf(),
        0 <= b < pow2(I as nat),
    ensures
        d.value(vertex(b, I as nat), vertex(b, I as nat)) == d.hc_value(b),
{
    let pt = d.point();
    let vb = vertex(b, I as nat);
    let n = pow2(I as nat) as int;
    lemma_ext_diag_eq_table(pt, vb, vb);
    let et = eq_table(pt);
    let f = |i: int| fmul(fmul(et[i], eq_poly(i, vb)), eq_poly(i, vb));
    let g = |i: int| indicator(b, i) * eq_poly(i, pt);
    assert forall|i: int| 0 <= i < n implies #[trigger] fe(f(i)) == fe(g(i)) by {
        lemma_eq_poly_vertex(i, b, I as nat);
        crate::folding::lemma_fmul3(et[i], indicator(i, b), indicator(i, b));
        lemma_reduce_args(f(i), 0);
        assert(et[i] * indicator(i, b) * indicator(i, b) == indicator(b, i) * eq_poly(i, pt)) by (nonlinear_arith)
            requires
                et[i] == eq_poly(i, pt),
                indicator(i, b) == indicator(b, i),
                indicator(i, b) == 0 || indicator(i, b) == 1;
    }
    lemma_sum_cong(f, g, n);
    lemma_sum_indicator(|i: int| eq_poly(i, pt), b, n);
    lemma_sum_ext(g, |i: int| indicator(b, i) * (|i: int| eq_poly(i, pt))(i), n);
    crate::mle::lemma_eq_poly_range(b, pt);
    lemma_fe_small(eq_poly(b, pt));
}

/// The system's polynomial at the vertex of a row, taken for both row
/// points, and two column vertices is its value on the hypercube there.
pub proof fn lemma_system_at_vertex<const I: usize, const J: usize, const K: usize>(sys: BQCS<I, J, K>, r: int, c1: int, c2: int)
    requires
        sys.wf(),
        matrix_vars_below(sys.matrix, pow2(J as nat) as int),
        0 <= r < pow2(I as nat),
        0 <= c1 < pow2(J as nat),
        0 <= c2 < pow2(J as nat),
    ensures
        sys.value(vertex(r, I as nat), vertex(r, I as nat), vertex(c1, J as nat), vertex(c2, J as nat))
            == sys.hc_value(r, c1, c2),
{
    lemma_delta_at_vertex(sys.delta, r);
    lemma_matrix_at_vertex(sys.matrix, c1, c2);
    lemma_trace_at_vertex(sys.trace, r, c1);
    lemma_trace_at_vertex(sys.trace, r, c2);
}

} // verus!
