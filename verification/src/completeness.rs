//! Completeness of the sumcheck prover: run on a claim that is the true sum
//! of its tables, every check of the verifier holds, and the last claim is
//! the sum of the fully folded tables.
//!
//! The argument is the usual one. With the other variables summed out, the
//! sum is a quadratic in each of the two variables a round fixes, so the
//! quadratic through its values at `0`, `1` and `-1` is that sum; and the
//! values at `0` and `1` of the top variable split the sum in two halves.
use vstd::prelude::*;
use vstd::arithmetic::power2::*;
use crate::bits::is_pow2_len;
use crate::fields::{
    fadd, fe, fmul, fsub, lemma_add_fe, lemma_fadd_comm_assoc, lemma_fe_small, lemma_interpolate_quadratic, lemma_mul_fe,
    lemma_mul_fe_left, lemma_mul_fe_right, lemma_reduce_args, lemma_sub_fe, p, quad,
};
use crate::mle::{lemma_sum_cong, lemma_sum_ext, lemma_sum_scale, lemma_sum_split, sum};
use crate::partial_sums::{
    bilin, chain_ok, coeffs_of, coeffs_seq, first_break, fold_cols, fold_diag, fold_matrix, fold_rows, fold_tables, fold_vec,
    lemma_diag_poly, lemma_pow2_step, lemma_sum3_cong, lemma_sum3_ext, lerp, partial, peval, round_evals, run, sum3,
    sumcheck_verdict, term, total, SumcheckError, Tables,
};
use crate::polynomials::{through, through_linear, through_square};

verus! {

// ---------------------------------------------------------------------
// Polynomials in one variable, modulo p.

/// `f` is the quadratic with coefficients `a`, `b`, `c`, modulo `p`.
pub open spec fn has_coeffs(f: spec_fn(int) -> int, a: int, b: int, c: int) -> bool {
    forall|x: int| #[trigger] f(x) == quad(a, b, c, x)
}

/// `f` is a quadratic in its argument, modulo `p`.
pub open spec fn is_quadratic_fn(f: spec_fn(int) -> int) -> bool {
    exists|a: int, b: int, c: int| #[trigger] has_coeffs(f, a, b, c)
}

/// The quadratic through the values of a quadratic at `0`, `1`, `-1` is it.
pub proof fn lemma_quadratic_fn_through(f: spec_fn(int) -> int, r: int)
    requires
        is_quadratic_fn(f),
    ensures
        through(f(0), f(1), f(-1), r) == f(r),
{
    let (a, b, c) = choose|a: int, b: int, c: int| #[trigger] has_coeffs(f, a, b, c);
    assert(f(0) == quad(a, b, c, 0));
    assert(f(1) == quad(a, b, c, 1));
    assert(f(-1) == quad(a, b, c, -1));
    assert(f(r) == quad(a, b, c, r));
    lemma_interpolate_quadratic(a, b, c, r);
}

/// The sum of two quadratics is a quadratic.
pub proof fn lemma_quadratic_fn_add(f: spec_fn(int) -> int, g: spec_fn(int) -> int)
    requires
        is_quadratic_fn(f),
        is_quadratic_fn(g),
    ensures
        is_quadratic_fn(|x: int| fadd(f(x), g(x))),
{
    let (a, b, c) = choose|a: int, b: int, c: int| #[trigger] has_coeffs(f, a, b, c);
    let (a2, b2, c2) = choose|a: int, b: int, c: int| #[trigger] has_coeffs(g, a, b, c);
    let h = |x: int| fadd(f(x), g(x));
    assert forall|x: int| #[trigger] h(x) == quad(a + a2, b + b2, c + c2, x) by {
        assert(f(x) == quad(a, b, c, x));
        assert(g(x) == quad(a2, b2, c2, x));
        lemma_add_fe(a + b * x + c * x * x, a2 + b2 * x + c2 * x * x);
        assert((a + b * x + c * x * x) + (a2 + b2 * x + c2 * x * x) == (a + a2) + (b + b2) * x + (c + c2) * x * x)
            by (nonlinear_arith);
    }
    assert(has_coeffs(h, a + a2, b + b2, c + c2));
}

/// `k * (g0 + g1 x) * (u0 + u1 x)` as a quadratic in `x`.
proof fn lemma_lin_prod(k: int, g0: int, g1: int, u0: int, u1: int, x: int)
    ensures
        k * (g0 + g1 * x) * (u0 + u1 * x) == k * g0 * u0 + k * (g0 * u1 + g1 * u0) * x + k * g1 * u1 * x * x,
{
    let a = g0 + g1 * x;
    let b = u0 + u1 * x;
    assert(a * b == g0 * b + (g1 * x) * b) by (nonlinear_arith)
        requires a == g0 + g1 * x;
    assert(g0 * b == g0 * u0 + (g0 * u1) * x) by (nonlinear_arith)
        requires b == u0 + u1 * x;
    assert((g1 * x) * b == (g1 * u0) * x + (g1 * u1) * (x * x)) by (nonlinear_arith)
        requires b == u0 + u1 * x;
    assert(a * b == g0 * u0 + (g0 * u1 + g1 * u0) * x + (g1 * u1) * (x * x)) by (nonlinear_arith)
        requires
            a * b == g0 * b + (g1 * x) * b,
            g0 * b == g0 * u0 + (g0 * u1) * x,
            (g1 * x) * b == (g1 * u0) * x + (g1 * u1) * (x * x);
    let s0 = g0 * u0;
    let s1 = g0 * u1 + g1 * u0;
    let s2 = g1 * u1;
    assert(k * (a * b) == k * s0 + k * s1 * x + k * s2 * x * x) by (nonlinear_arith)
        requires
            a * b == s0 + s1 * x + s2 * (x * x);
    assert(k * a * b == k * (a * b)) by (nonlinear_arith);
    assert(k * s0 == k * g0 * u0) by (nonlinear_arith)
        requires s0 == g0 * u0;
    assert(k * s2 * x * x == k * g1 * u1 * x * x) by (nonlinear_arith)
        requires s2 == g1 * u1;
}

// ---------------------------------------------------------------------
// The folds as integer polynomials, modulo p.

pub proof fn lemma_lerp_int(u: int, v: int, x: int)
    ensures
        lerp(u, v, x) == fe((1 - x) * u + x * v),
{
    lemma_mul_fe_left(1 - x, u);
    lemma_add_fe((1 - x) * u, x * v);
    lemma_reduce_args((1 - x) * u, x * v);
}

pub proof fn lemma_bilin_int(a00: int, a10: int, a01: int, a11: int, b: int, c: int)
    ensures
        bilin(a00, a10, a01, a11, b, c) == fe((1 - b) * (1 - c) * a00 + b * (1 - c) * a10 + (1 - b) * c * a01 + b * c * a11),
{
    lemma_mul_fe(1 - b, 1 - c);
    lemma_mul_fe_left((1 - b) * (1 - c), a00);
    lemma_mul_fe_right(b, 1 - c);
    lemma_mul_fe_left(b * (1 - c), a10);
    lemma_mul_fe_left(1 - b, c);
    lemma_mul_fe_left((1 - b) * c, a01);
    lemma_mul_fe_left(b * c, a11);
    lemma_add_fe((1 - b) * (1 - c) * a00, b * (1 - c) * a10);
    lemma_add_fe((1 - b) * (1 - c) * a00 + b * (1 - c) * a10, (1 - b) * c * a01);
    lemma_add_fe((1 - b) * (1 - c) * a00 + b * (1 - c) * a10 + (1 - b) * c * a01, b * c * a11);
    lemma_reduce_args((1 - b) * (1 - c) * a00, b * (1 - c) * a10);
}

/// A term is the reduced product of its four factors, whether or not they
/// are reduced.
pub proof fn lemma_term_int(a0: int, a1: int, a2: int, a3: int)
    ensures
        term(a0, a1, a2, a3) == fe(a0 * a1 * a2 * a3),
        term(a0, fe(a1), fe(a2), fe(a3)) == fe(a0 * a1 * a2 * a3),
        term(fe(a0), a1, fe(a2), fe(a3)) == fe(a0 * a1 * a2 * a3),
{
    lemma_mul_fe_left(a0 * a1, a2);
    lemma_mul_fe_left(a0 * a1 * a2, a3);
    lemma_reduce_args(a0, a1);
    lemma_reduce_args(a0 * a1, a2);
    lemma_reduce_args(a0 * a1 * a2, a3);
    lemma_reduce_args(fmul(a0, a1), a2);
    lemma_reduce_args(fmul(fmul(a0, a1), a2), a3);
}

// ---------------------------------------------------------------------
// Triple sums.

pub proof fn lemma_sum_add(f: spec_fn(int) -> int, g: spec_fn(int) -> int, n: int)
    ensures
        sum(|k: int| f(k) + g(k), n) == sum(f, n) + sum(g, n),
    decreases n,
{
    if n > 0 {
        lemma_sum_add(f, g, n - 1);
    }
}

pub proof fn lemma_sum3_add(g: spec_fn(int, int, int) -> int, h: spec_fn(int, int, int) -> int, n0: int, n1: int, n2: int)
    ensures
        sum3(|i: int, j1: int, j2: int| g(i, j1, j2) + h(i, j1, j2), n0, n1, n2) == sum3(g, n0, n1, n2) + sum3(h, n0, n1, n2),
{
    let s = |i: int, j1: int, j2: int| g(i, j1, j2) + h(i, j1, j2);
    let fs = |i: int| sum(|j1: int| sum(|j2: int| s(i, j1, j2), n2), n1);
    let fg = |i: int| sum(|j1: int| sum(|j2: int| g(i, j1, j2), n2), n1);
    let fh = |i: int| sum(|j1: int| sum(|j2: int| h(i, j1, j2), n2), n1);
    assert forall|i: int| 0 <= i < n0 implies #[trigger] fs(i) == fg(i) + fh(i) by {
        let ss = |j1: int| sum(|j2: int| s(i, j1, j2), n2);
        let gg = |j1: int| sum(|j2: int| g(i, j1, j2), n2);
        let hh = |j1: int| sum(|j2: int| h(i, j1, j2), n2);
        assert forall|j1: int| 0 <= j1 < n1 implies #[trigger] ss(j1) == gg(j1) + hh(j1) by {
            lemma_sum_add(|j2: int| g(i, j1, j2), |j2: int| h(i, j1, j2), n2);
            lemma_sum_ext(|j2: int| s(i, j1, j2), |j2: int| (|j2: int| g(i, j1, j2))(j2) + (|j2: int| h(i, j1, j2))(j2), n2);
        }
        lemma_sum_add(gg, hh, n1);
        lemma_sum_ext(ss, |j1: int| gg(j1) + hh(j1), n1);
    }
    lemma_sum_add(fg, fh, n0);
    lemma_sum_ext(fs, |i: int| fg(i) + fh(i), n0);
}

pub proof fn lemma_sum3_scale_int(g: spec_fn(int, int, int) -> int, k: int, n0: int, n1: int, n2: int)
    ensures
        sum3(|i: int, j1: int, j2: int| k * g(i, j1, j2), n0, n1, n2) == k * sum3(g, n0, n1, n2),
{
    let kg = |i: int, j1: int, j2: int| k * g(i, j1, j2);
    let f0 = |i: int| sum(|j1: int| sum(|j2: int| g(i, j1, j2), n2), n1);
    let k0 = |i: int| sum(|j1: int| sum(|j2: int| kg(i, j1, j2), n2), n1);
    assert forall|i: int| 0 <= i < n0 implies #[trigger] k0(i) == k * f0(i) by {
        let f1 = |j1: int| sum(|j2: int| g(i, j1, j2), n2);
        let k1 = |j1: int| sum(|j2: int| kg(i, j1, j2), n2);
        assert forall|j1: int| 0 <= j1 < n1 implies #[trigger] k1(j1) == k * f1(j1) by {
            lemma_sum_scale(|j2: int| g(i, j1, j2), k, n2);
            lemma_sum_ext(|j2: int| kg(i, j1, j2), |j2: int| k * (|j2: int| g(i, j1, j2))(j2), n2);
        }
        lemma_sum_scale(f1, k, n1);
        lemma_sum_ext(k1, |j1: int| k * f1(j1), n1);
    }
    lemma_sum_scale(f0, k, n0);
    lemma_sum_ext(k0, |i: int| k * f0(i), n0);
}

/// A triple sum of quadratics in `x` is a quadratic in `x`, with the summed
/// coefficients.
pub proof fn lemma_sum3_quad(
    g: spec_fn(int, int, int) -> int,
    ca: spec_fn(int, int, int) -> int,
    cb: spec_fn(int, int, int) -> int,
    cc: spec_fn(int, int, int) -> int,
    x: int,
    n0: int,
    n1: int,
    n2: int,
)
    requires
        forall|i: int, j1: int, j2: int| 0 <= i < n0 && 0 <= j1 < n1 && 0 <= j2 < n2 ==>
            #[trigger] g(i, j1, j2) == fe(ca(i, j1, j2) + cb(i, j1, j2) * x + cc(i, j1, j2) * x * x),
    ensures
        fe(sum3(g, n0, n1, n2)) == quad(sum3(ca, n0, n1, n2), sum3(cb, n0, n1, n2), sum3(cc, n0, n1, n2), x),
{
    let h = |i: int, j1: int, j2: int| ca(i, j1, j2) + cb(i, j1, j2) * x + cc(i, j1, j2) * x * x;
    assert forall|i: int, j1: int, j2: int| 0 <= i < n0 && 0 <= j1 < n1 && 0 <= j2 < n2
        implies #[trigger] fe(g(i, j1, j2)) == fe(h(i, j1, j2)) by {
        lemma_reduce_args(h(i, j1, j2), 0);
    }
    lemma_sum3_cong(g, h, n0, n1, n2);
    let bx = |i: int, j1: int, j2: int| x * cb(i, j1, j2);
    let cx = |i: int, j1: int, j2: int| (x * x) * cc(i, j1, j2);
    let ab = |i: int, j1: int, j2: int| ca(i, j1, j2) + bx(i, j1, j2);
    lemma_sum3_add(ca, bx, n0, n1, n2);
    lemma_sum3_add(ab, cx, n0, n1, n2);
    lemma_sum3_scale_int(cb, x, n0, n1, n2);
    lemma_sum3_scale_int(cc, x * x, n0, n1, n2);
    assert forall|i: int, j1: int, j2: int| 0 <= i < n0 && 0 <= j1 < n1 && 0 <= j2 < n2
        implies #[trigger] h(i, j1, j2) == ab(i, j1, j2) + cx(i, j1, j2) by {
        assert(cb(i, j1, j2) * x == x * cb(i, j1, j2)) by (nonlinear_arith);
        assert(cc(i, j1, j2) * x * x == (x * x) * cc(i, j1, j2)) by (nonlinear_arith);
    }
    lemma_sum3_ext(h, |i: int, j1: int, j2: int| ab(i, j1, j2) + cx(i, j1, j2), n0, n1, n2);
    lemma_sum3_ext(|i: int, j1: int, j2: int| ca(i, j1, j2) + bx(i, j1, j2), ab, n0, n1, n2);
    let sa = sum3(ca, n0, n1, n2);
    let sb = sum3(cb, n0, n1, n2);
    let sc = sum3(cc, n0, n1, n2);
    assert(x * sb + (x * x) * sc == sb * x + sc * x * x) by (nonlinear_arith);
}

// ---------------------------------------------------------------------
// One term of a folded sum, in the variable that a round fixes.

/// `(1 - x)(1 - y) a00 + x (1 - y) a10 + (1 - x) y a01 + x y a11`, the
/// bilinear interpolation over the integers.
pub open spec fn bil(a00: int, a10: int, a01: int, a11: int, x: int, y: int) -> int {
    (1 - x) * (1 - y) * a00 + x * (1 - y) * a10 + (1 - x) * y * a01 + x * y * a11
}

pub proof fn lemma_bil_in_x(a00: int, a10: int, a01: int, a11: int, x: int, y: int)
    ensures
        bil(a00, a10, a01, a11, x, y) == ((1 - y) * a00 + y * a01) + ((1 - y) * (a10 - a00) + y * (a11 - a01)) * x,
        bil(a00, a10, a01, a11, x, y) == ((1 - x) * a00 + x * a10) + ((1 - x) * (a01 - a00) + x * (a11 - a10)) * y,
{
    let ya = 1 - y;
    let xa = 1 - x;
    assert((1 - x) * (1 - y) * a00 == xa * (ya * a00)) by (nonlinear_arith) requires xa == 1 - x, ya == 1 - y;
    assert(x * (1 - y) * a10 == x * (ya * a10)) by (nonlinear_arith) requires ya == 1 - y;
    assert((1 - x) * y * a01 == xa * (y * a01)) by (nonlinear_arith) requires xa == 1 - x;
    assert(x * y * a11 == x * (y * a11)) by (nonlinear_arith);
    let p0 = ya * a00;
    let q0 = ya * a10;
    let r0 = y * a01;
    let s0 = y * a11;
    assert(xa * p0 == p0 - x * p0) by (nonlinear_arith) requires xa == 1 - x;
    assert(xa * r0 == r0 - x * r0) by (nonlinear_arith) requires xa == 1 - x;
    assert(x * q0 - x * p0 + x * s0 - x * r0 == (q0 - p0 + s0 - r0) * x) by (nonlinear_arith);
    assert(q0 - p0 == ya * (a10 - a00)) by (nonlinear_arith) requires p0 == ya * a00, q0 == ya * a10;
    assert(s0 - r0 == y * (a11 - a01)) by (nonlinear_arith) requires r0 == y * a01, s0 == y * a11;
    // the same in y
    assert((1 - x) * (1 - y) * a00 == ya * (xa * a00)) by (nonlinear_arith) requires xa == 1 - x, ya == 1 - y;
    assert(x * (1 - y) * a10 == ya * (x * a10)) by (nonlinear_arith) requires ya == 1 - y;
    assert((1 - x) * y * a01 == y * (xa * a01)) by (nonlinear_arith) requires xa == 1 - x;
    assert(x * y * a11 == y * (x * a11)) by (nonlinear_arith);
    let p1 = xa * a00;
    let q1 = x * a10;
    let r1 = xa * a01;
    let s1 = x * a11;
    assert(ya * p1 == p1 - y * p1) by (nonlinear_arith) requires ya == 1 - y;
    assert(ya * q1 == q1 - y * q1) by (nonlinear_arith) requires ya == 1 - y;
    assert(y * r1 - y * p1 + y * s1 - y * q1 == (r1 - p1 + s1 - q1) * y) by (nonlinear_arith);
    assert(r1 - p1 == xa * (a01 - a00)) by (nonlinear_arith) requires p1 == xa * a00, r1 == xa * a01;
    assert(s1 - q1 == x * (a11 - a10)) by (nonlinear_arith) requires q1 == x * a10, s1 == x * a11;
}

pub proof fn lemma_line_in_x(u: int, v: int, x: int)
    ensures
        (1 - x) * u + x * v == u + (v - u) * x,
{
    assert((1 - x) * u + x * v == u + (v - u) * x) by (nonlinear_arith);
}

/// Reordering four factors: `d * b * l1 * l2 == (d * l2) * b * l1`.
proof fn lemma_reorder4(d: int, b: int, l1: int, l2: int)
    ensures
        d * b * l1 * l2 == (d * l2) * b * l1,
        d * b * l1 * l2 == (d * l1) * b * l2,
        d * b * l1 * l2 == (b * l2) * d * l1,
        d * b * l1 * l2 == (b * l1) * d * l2,
{
    assert(d * b * l1 * l2 == (d * l2) * b * l1) by (nonlinear_arith);
    assert(d * b * l1 * l2 == (d * l1) * b * l2) by (nonlinear_arith);
    assert(d * b * l1 * l2 == (b * l2) * d * l1) by (nonlinear_arith);
    assert(d * b * l1 * l2 == (b * l1) * d * l2) by (nonlinear_arith);
}

/// A term of a column round: the matrix and the first trace folded at `x`,
/// the second trace at `y`.
proof fn lemma_col_term(d: int, a00: int, a10: int, a01: int, a11: int, u: int, v: int, s: int, t: int, x: int, y: int)
    ensures
        term(d, bilin(a00, a10, a01, a11, x, y), lerp(u, v, x), lerp(s, t, y))
            == fe(d * bil(a00, a10, a01, a11, x, y) * ((1 - x) * u + x * v) * ((1 - y) * s + y * t)),
{
    lemma_bilin_int(a00, a10, a01, a11, x, y);
    lemma_lerp_int(u, v, x);
    lemma_lerp_int(s, t, y);
    lemma_term_int(d, bil(a00, a10, a01, a11, x, y), (1 - x) * u + x * v, (1 - y) * s + y * t);
}

/// A term of a row round: the diagonal factor and the first trace folded at
/// `x`, the second trace at `y`.
proof fn lemma_row_term(d0: int, d1: int, a: int, u: int, v: int, s: int, t: int, x: int, y: int)
    ensures
        term(fadd(fmul(fmul(fsub(1, x), fsub(1, y)), d0), fmul(fmul(x, y), d1)), a, lerp(u, v, x), lerp(s, t, y))
            == fe(bil(d0, 0, 0, d1, x, y) * a * ((1 - x) * u + x * v) * ((1 - y) * s + y * t)),
{
    lemma_diag_poly(d0, d1, x, y);
    assert((1 - x) * (1 - y) * d0 + x * y * d1 == bil(d0, 0, 0, d1, x, y)) by (nonlinear_arith);
    lemma_lerp_int(u, v, x);
    lemma_lerp_int(s, t, y);
    lemma_term_int(bil(d0, 0, 0, d1, x, y), a, (1 - x) * u + x * v, (1 - y) * s + y * t);
}

// ---------------------------------------------------------------------
// The sum with a round's variables fixed is quadratic in each of them.

/// The shapes of the prover's tables: the traces have a row per diagonal
/// entry and a column per matrix row; the matrix is square.
pub open spec fn tables_shape(st: Tables) -> bool {
    &&& st.2.len() == st.0.len()
    &&& st.3.len() == st.0.len()
    &&& forall|j: int| 0 <= j < st.1.len() ==> (#[trigger] st.1[j]).len() == st.1.len()
    &&& forall|i: int| 0 <= i < st.2.len() ==> (#[trigger] st.2[i]).len() == st.1.len()
    &&& forall|i: int| 0 <= i < st.3.len() ==> (#[trigger] st.3[i]).len() == st.1.len()
}

/// In a column round, the sum with the variables fixed to `(x, y)` is a
/// quadratic in `x` for each `y`, and in `y` for each `x`.
pub proof fn lemma_partial_col_quadratic(st: Tables, x0: int, y0: int)
    requires
        tables_shape(st),
        st.1.len() >= 2,
        st.1.len() % 2 == 0,
    ensures
        is_quadratic_fn(|x: int| partial(st, true, x, y0)),
        is_quadratic_fn(|y: int| partial(st, true, x0, y)),
{
    let d = st.0;
    let a = st.1;
    let t1 = st.2;
    let t2 = st.3;
    let h = (a.len() / 2) as int;
    let n0 = d.len() as int;
    // in x, with y = y0
    let y = y0;
    let kx = |i: int, j1: int, j2: int| d[i] * ((1 - y) * t2[i][j2] + y * t2[i][j2 + h]);
    let g0x = |j1: int, j2: int| (1 - y) * a[j1][j2] + y * a[j1][j2 + h];
    let g1x = |j1: int, j2: int| (1 - y) * (a[j1 + h][j2] - a[j1][j2]) + y * (a[j1 + h][j2 + h] - a[j1][j2 + h]);
    let u0x = |i: int, j1: int| t1[i][j1];
    let u1x = |i: int, j1: int| t1[i][j1 + h] - t1[i][j1];
    let cax = |i: int, j1: int, j2: int| kx(i, j1, j2) * g0x(j1, j2) * u0x(i, j1);
    let cbx = |i: int, j1: int, j2: int| kx(i, j1, j2) * (g0x(j1, j2) * u1x(i, j1) + g1x(j1, j2) * u0x(i, j1));
    let ccx = |i: int, j1: int, j2: int| kx(i, j1, j2) * g1x(j1, j2) * u1x(i, j1);
    let fx = |x: int| partial(st, true, x, y0);
    assert forall|x: int| #[trigger] fx(x) == quad(sum3(cax, n0, h, h), sum3(cbx, n0, h, h), sum3(ccx, n0, h, h), x) by {
        let fm = fold_matrix(a, x, y);
        let f2 = fold_cols(t1, x);
        let f3 = fold_cols(t2, y);
        let g = |i: int, j1: int, j2: int| term(d[i], fm[j1][j2], f2[i][j1], f3[i][j2]);
        assert forall|i: int, j1: int, j2: int| 0 <= i < n0 && 0 <= j1 < h && 0 <= j2 < h implies
            #[trigger] g(i, j1, j2) == fe(cax(i, j1, j2) + cbx(i, j1, j2) * x + ccx(i, j1, j2) * x * x) by {
            assert(t1[i].len() == a.len());
            assert(t2[i].len() == a.len());
            let (a00, a10, a01, a11) = (a[j1][j2], a[j1 + h][j2], a[j1][j2 + h], a[j1 + h][j2 + h]);
            let (u, v, ss, tt) = (t1[i][j1], t1[i][j1 + h], t2[i][j2], t2[i][j2 + h]);
            assert(fm[j1][j2] == bilin(a00, a10, a01, a11, x, y));
            assert(f2[i][j1] == lerp(u, v, x));
            assert(f3[i][j2] == lerp(ss, tt, y));
            lemma_col_term(d[i], a00, a10, a01, a11, u, v, ss, tt, x, y);
            let bl = bil(a00, a10, a01, a11, x, y);
            let l1 = (1 - x) * u + x * v;
            let l2 = (1 - y) * ss + y * tt;
            lemma_reorder4(d[i], bl, l1, l2);
            lemma_bil_in_x(a00, a10, a01, a11, x, y);
            lemma_line_in_x(u, v, x);
            lemma_lin_prod(d[i] * l2, g0x(j1, j2), g1x(j1, j2), u0x(i, j1), u1x(i, j1), x);
        }
        lemma_sum3_quad(g, cax, cbx, ccx, x, n0, h, h);
        assert(fx(x) == fe(sum3(g, n0, h, h)));
    }
    assert(has_coeffs(fx, sum3(cax, n0, h, h), sum3(cbx, n0, h, h), sum3(ccx, n0, h, h)));
    // in y, with x = x0
    let x = x0;
    let ky = |i: int, j1: int, j2: int| d[i] * ((1 - x) * t1[i][j1] + x * t1[i][j1 + h]);
    let g0y = |j1: int, j2: int| (1 - x) * a[j1][j2] + x * a[j1 + h][j2];
    let g1y = |j1: int, j2: int| (1 - x) * (a[j1][j2 + h] - a[j1][j2]) + x * (a[j1 + h][j2 + h] - a[j1 + h][j2]);
    let u0y = |i: int, j2: int| t2[i][j2];
    let u1y = |i: int, j2: int| t2[i][j2 + h] - t2[i][j2];
    let cay = |i: int, j1: int, j2: int| ky(i, j1, j2) * g0y(j1, j2) * u0y(i, j2);
    let cby = |i: int, j1: int, j2: int| ky(i, j1, j2) * (g0y(j1, j2) * u1y(i, j2) + g1y(j1, j2) * u0y(i, j2));
    let ccy = |i: int, j1: int, j2: int| ky(i, j1, j2) * g1y(j1, j2) * u1y(i, j2);
    let fy = |y: int| partial(st, true, x0, y);
    assert forall|y: int| #[trigger] fy(y) == quad(sum3(cay, n0, h, h), sum3(cby, n0, h, h), sum3(ccy, n0, h, h), y) by {
        let fm = fold_matrix(a, x, y);
        let f2 = fold_cols(t1, x);
        let f3 = fold_cols(t2, y);
        let g = |i: int, j1: int, j2: int| term(d[i], fm[j1][j2], f2[i][j1], f3[i][j2]);
        assert forall|i: int, j1: int, j2: int| 0 <= i < n0 && 0 <= j1 < h && 0 <= j2 < h implies
            #[trigger] g(i, j1, j2) == fe(cay(i, j1, j2) + cby(i, j1, j2) * y + ccy(i, j1, j2) * y * y) by {
            assert(t1[i].len() == a.len());
            assert(t2[i].len() == a.len());
            let (a00, a10, a01, a11) = (a[j1][j2], a[j1 + h][j2], a[j1][j2 + h], a[j1 + h][j2 + h]);
            let (u, v, ss, tt) = (t1[i][j1], t1[i][j1 + h], t2[i][j2], t2[i][j2 + h]);
            assert(fm[j1][j2] == bilin(a00, a10, a01, a11, x, y));
            assert(f2[i][j1] == lerp(u, v, x));
            assert(f3[i][j2] == lerp(ss, tt, y));
            lemma_col_term(d[i], a00, a10, a01, a11, u, v, ss, tt, x, y);
            let bl = bil(a00, a10, a01, a11, x, y);
            let l1 = (1 - x) * u + x * v;
            let l2 = (1 - y) * ss + y * tt;
            lemma_reorder4(d[i], bl, l1, l2);
            lemma_bil_in_x(a00, a10, a01, a11, x, y);
            lemma_line_in_x(ss, tt, y);
            lemma_lin_prod(d[i] * l1, g0y(j1, j2), g1y(j1, j2), u0y(i, j2), u1y(i, j2), y);
        }
        lemma_sum3_quad(g, cay, cby, ccy, y, n0, h, h);
        assert(fy(y) == fe(sum3(g, n0, h, h)));
    }
    assert(has_coeffs(fy, sum3(cay, n0, h, h), sum3(cby, n0, h, h), sum3(ccy, n0, h, h)));
}

/// In a row round, the sum with the variables fixed to `(x, y)` is a
/// quadratic in `x` for each `y`, and in `y` for each `x`.
pub proof fn lemma_partial_row_quadratic(st: Tables, x0: int, y0: int)
    requires
        tables_shape(st),
        st.0.len() >= 2,
        st.0.len() % 2 == 0,
    ensures
        is_quadratic_fn(|x: int| partial(st, false, x, y0)),
        is_quadratic_fn(|y: int| partial(st, false, x0, y)),
{
    let d = st.0;
    let a = st.1;
    let t1 = st.2;
    let t2 = st.3;
    let h = (d.len() / 2) as int;
    let m = a.len() as int;
    // in x, with y = y0
    let y = y0;
    let kx = |i: int, j1: int, j2: int| a[j1][j2] * ((1 - y) * t2[i][j2] + y * t2[i + h][j2]);
    let g0x = |i: int| (1 - y) * d[i] + y * 0;
    let g1x = |i: int| (1 - y) * (0 - d[i]) + y * (d[i + h] - 0);
    let u0x = |i: int, j1: int| t1[i][j1];
    let u1x = |i: int, j1: int| t1[i + h][j1] - t1[i][j1];
    let cax = |i: int, j1: int, j2: int| kx(i, j1, j2) * g0x(i) * u0x(i, j1);
    let cbx = |i: int, j1: int, j2: int| kx(i, j1, j2) * (g0x(i) * u1x(i, j1) + g1x(i) * u0x(i, j1));
    let ccx = |i: int, j1: int, j2: int| kx(i, j1, j2) * g1x(i) * u1x(i, j1);
    let fx = |x: int| partial(st, false, x, y0);
    assert forall|x: int| #[trigger] fx(x) == quad(sum3(cax, h, m, m), sum3(cbx, h, m, m), sum3(ccx, h, m, m), x) by {
        let fd = fold_diag(d, x, y);
        let f2 = fold_rows(t1, x);
        let f3 = fold_rows(t2, y);
        let g = |i: int, j1: int, j2: int| term(fd[i], a[j1][j2], f2[i][j1], f3[i][j2]);
        assert forall|i: int, j1: int, j2: int| 0 <= i < h && 0 <= j1 < m && 0 <= j2 < m implies
            #[trigger] g(i, j1, j2) == fe(cax(i, j1, j2) + cbx(i, j1, j2) * x + ccx(i, j1, j2) * x * x) by {
            assert(t1[i].len() == m);
            assert(t2[i].len() == m);
            let (d0, d1, aa) = (d[i], d[i + h], a[j1][j2]);
            let (u, v, ss, tt) = (t1[i][j1], t1[i + h][j1], t2[i][j2], t2[i + h][j2]);
            assert(fd[i] == fadd(fmul(fmul(fsub(1, x), fsub(1, y)), d0), fmul(fmul(x, y), d1)));
            assert(f2[i][j1] == lerp(u, v, x));
            assert(f3[i][j2] == lerp(ss, tt, y));
            lemma_row_term(d0, d1, aa, u, v, ss, tt, x, y);
            let bl = bil(d0, 0, 0, d1, x, y);
            let l1 = (1 - x) * u + x * v;
            let l2 = (1 - y) * ss + y * tt;
            lemma_reorder4(bl, aa, l1, l2);
            lemma_bil_in_x(d0, 0, 0, d1, x, y);
            lemma_line_in_x(u, v, x);
            lemma_lin_prod(aa * l2, g0x(i), g1x(i), u0x(i, j1), u1x(i, j1), x);
        }
        lemma_sum3_quad(g, cax, cbx, ccx, x, h, m, m);
        assert(fx(x) == fe(sum3(g, h, m, m)));
    }
    assert(has_coeffs(fx, sum3(cax, h, m, m), sum3(cbx, h, m, m), sum3(ccx, h, m, m)));
    // in y, with x = x0
    let x = x0;
    let ky = |i: int, j1: int, j2: int| a[j1][j2] * ((1 - x) * t1[i][j1] + x * t1[i + h][j1]);
    let g0y = |i: int| (1 - x) * d[i] + x * 0;
    let g1y = |i: int| (1 - x) * (0 - d[i]) + x * (d[i + h] - 0);
    let u0y = |i: int, j2: int| t2[i][j2];
    let u1y = |i: int, j2: int| t2[i + h][j2] - t2[i][j2];
    let cay = |i: int, j1: int, j2: int| ky(i, j1, j2) * g0y(i) * u0y(i, j2);
    let cby = |i: int, j1: int, j2: int| ky(i, j1, j2) * (g0y(i) * u1y(i, j2) + g1y(i) * u0y(i, j2));
    let ccy = |i: int, j1: int, j2: int| ky(i, j1, j2) * g1y(i) * u1y(i, j2);
    let fy = |y: int| partial(st, false, x0, y);
    assert forall|y: int| #[trigger] fy(y) == quad(sum3(cay, h, m, m), sum3(cby, h, m, m), sum3(ccy, h, m, m), y) by {
        let fd = fold_diag(d, x, y);
        let f2 = fold_rows(t1, x);
        let f3 = fold_rows(t2, y);
        let g = |i: int, j1: int, j2: int| term(fd[i], a[j1][j2], f2[i][j1], f3[i][j2]);
        assert forall|i: int, j1: int, j2: int| 0 <= i < h && 0 <= j1 < m && 0 <= j2 < m implies
            #[trigger] g(i, j1, j2) == fe(cay(i, j1, j2) + cby(i, j1, j2) * y + ccy(i, j1, j2) * y * y) by {
            assert(t1[i].len() == m);
            assert(t2[i].len() == m);
            let (d0, d1, aa) = (d[i], d[i + h], a[j1][j2]);
            let (u, v, ss, tt) = (t1[i][j1], t1[i + h][j1], t2[i][j2], t2[i + h][j2]);
            assert(fd[i] == fadd(fmul(fmul(fsub(1, x), fsub(1, y)), d0), fmul(fmul(x, y), d1)));
            assert(f2[i][j1] == lerp(u, v, x));
            assert(f3[i][j2] == lerp(ss, tt, y));
            lemma_row_term(d0, d1, aa, u, v, ss, tt, x, y);
            let bl = bil(d0, 0, 0, d1, x, y);
            let l1 = (1 - x) * u + x * v;
            let l2 = (1 - y) * ss + y * tt;
            lemma_reorder4(bl, aa, l1, l2);
            lemma_bil_in_x(d0, 0, 0, d1, x, y);
            lemma_line_in_x(ss, tt, y);
            lemma_lin_prod(aa * l1, g0y(i), g1y(i), u0y(i, j2), u1y(i, j2), y);
        }
        lemma_sum3_quad(g, cay, cby, ccy, y, h, m, m);
        assert(fy(y) == fe(sum3(g, h, m, m)));
    }
    assert(has_coeffs(fy, sum3(cay, h, m, m), sum3(cby, h, m, m), sum3(ccy, h, m, m)));
}

// ---------------------------------------------------------------------
// The values at the bits of the top variables split the sum.

pub proof fn lemma_sum_halves_pub(f: spec_fn(int) -> int, h: int)
    requires
        h >= 0,
    ensures
        sum(f, 2 * h) == sum(f, h) + sum(|k: int| f(k + h), h),
{
    lemma_sum_halves(f, h);
}

proof fn lemma_sum_halves(f: spec_fn(int) -> int, h: int)
    requires
        h >= 0,
    ensures
        sum(f, 2 * h) == sum(f, h) + sum(|k: int| f(k + h), h),
{
    assert forall|k: int| 0 <= k < h implies #[trigger] f(h + k) == (|k: int| f(k + h))(k) by {
        assert(h + k == k + h);
    }
    lemma_sum_split(f, f, |k: int| f(k + h), h, h);
    assert(h + h == 2 * h);
}

/// Splitting a triple sum in the two halves of its second and third index.
proof fn lemma_sum3_quadrants(g: spec_fn(int, int, int) -> int, n0: int, h: int)
    requires
        h >= 0,
        n0 >= 0,
    ensures
        sum3(g, n0, 2 * h, 2 * h)
            == sum3(g, n0, h, h)
            + sum3(|i: int, j1: int, j2: int| g(i, j1, j2 + h), n0, h, h)
            + sum3(|i: int, j1: int, j2: int| g(i, j1 + h, j2), n0, h, h)
            + sum3(|i: int, j1: int, j2: int| g(i, j1 + h, j2 + h), n0, h, h),
{
    let g01 = |i: int, j1: int, j2: int| g(i, j1, j2 + h);
    let g10 = |i: int, j1: int, j2: int| g(i, j1 + h, j2);
    let g11 = |i: int, j1: int, j2: int| g(i, j1 + h, j2 + h);
    let s00 = |i: int| sum(|j1: int| sum(|j2: int| g(i, j1, j2), h), h);
    let s01 = |i: int| sum(|j1: int| sum(|j2: int| g01(i, j1, j2), h), h);
    let s10 = |i: int| sum(|j1: int| sum(|j2: int| g10(i, j1, j2), h), h);
    let s11 = |i: int| sum(|j1: int| sum(|j2: int| g11(i, j1, j2), h), h);
    let full = |i: int| sum(|j1: int| sum(|j2: int| g(i, j1, j2), 2 * h), 2 * h);
    let all4 = |i: int| s00(i) + s01(i) + s10(i) + s11(i);
    assert forall|i: int| 0 <= i < n0 implies #[trigger] full(i) == all4(i) by {
        // split the inner sums
        let inner = |j1: int| sum(|j2: int| g(i, j1, j2), 2 * h);
        let lo = |j1: int| sum(|j2: int| g(i, j1, j2), h);
        let hi = |j1: int| sum(|j2: int| g(i, j1, j2 + h), h);
        assert forall|j1: int| #[trigger] inner(j1) == lo(j1) + hi(j1) by {
            lemma_sum_halves(|j2: int| g(i, j1, j2), h);
            lemma_sum_ext(|k: int| (|j2: int| g(i, j1, j2))(k + h), |j2: int| g(i, j1, j2 + h), h);
        }
        // split the middle sum
        lemma_sum_halves(inner, h);
        lemma_sum_ext(inner, |j1: int| lo(j1) + hi(j1), 2 * h);
        lemma_sum_ext(|k: int| inner(k + h), |j1: int| lo(j1 + h) + hi(j1 + h), h);
        lemma_sum_ext(inner, |j1: int| lo(j1) + hi(j1), h);
        lemma_sum_add(lo, hi, h);
        lemma_sum_add(|j1: int| lo(j1 + h), |j1: int| hi(j1 + h), h);
        lemma_sum_ext(|j1: int| lo(j1 + h) + hi(j1 + h),
            |j1: int| (|j1: int| lo(j1 + h))(j1) + (|j1: int| hi(j1 + h))(j1), h);
        lemma_sum_ext(|j1: int| lo(j1) + hi(j1), |j1: int| lo(j1) + hi(j1), 2 * h);
        assert(sum(lo, h) == s00(i));
        assert forall|j1: int| 0 <= j1 < h implies #[trigger] hi(j1) == sum(|j2: int| g01(i, j1, j2), h) by {
            lemma_sum_ext(|j2: int| g(i, j1, j2 + h), |j2: int| g01(i, j1, j2), h);
        }
        lemma_sum_ext(hi, |j1: int| sum(|j2: int| g01(i, j1, j2), h), h);
        assert forall|j1: int| 0 <= j1 < h implies #[trigger] lo(j1 + h) == sum(|j2: int| g10(i, j1, j2), h) by {
            lemma_sum_ext(|j2: int| g(i, j1 + h, j2), |j2: int| g10(i, j1, j2), h);
        }
        lemma_sum_ext(|j1: int| lo(j1 + h), |j1: int| sum(|j2: int| g10(i, j1, j2), h), h);
        assert forall|j1: int| 0 <= j1 < h implies #[trigger] hi(j1 + h) == sum(|j2: int| g11(i, j1, j2), h) by {
            lemma_sum_ext(|j2: int| g(i, j1 + h, j2 + h), |j2: int| g11(i, j1, j2), h);
        }
        lemma_sum_ext(|j1: int| hi(j1 + h), |j1: int| sum(|j2: int| g11(i, j1, j2), h), h);
        assert(full(i) == sum(inner, 2 * h));
    }
    lemma_sum_ext(full, all4, n0);
    let a01 = |i: int| s00(i) + s01(i);
    let a10 = |i: int| a01(i) + s10(i);
    lemma_sum_add(s00, s01, n0);
    lemma_sum_add(a01, s10, n0);
    lemma_sum_add(a10, s11, n0);
    lemma_sum_ext(all4, |i: int| a10(i) + s11(i), n0);
    lemma_sum_ext(|i: int| a01(i) + s10(i), a10, n0);
    lemma_sum_ext(|i: int| s00(i) + s01(i), a01, n0);
}

/// Four reduced values add up to the reduced total.
proof fn lemma_fadd4(a: int, b: int, c: int, d: int)
    ensures
        fadd(fadd(fadd(fe(a), fe(b)), fe(c)), fe(d)) == fe(a + b + c + d),
{
    lemma_add_fe(a, b);
    lemma_add_fe(a + b, c);
    lemma_add_fe(a + b + c, d);
    lemma_reduce_args(a + b, c);
    lemma_reduce_args(a + b + c, d);
}

/// In a column round, the sum is the sum of its values at the four corners
/// of the top column bits.
pub proof fn lemma_col_split(st: Tables)
    requires
        tables_shape(st),
        st.1.len() >= 2,
        st.1.len() % 2 == 0,
    ensures
        total(st.0, st.1, st.2, st.3) == fadd(fadd(fadd(partial(st, true, 0, 0), partial(st, true, 0, 1)),
            partial(st, true, 1, 0)), partial(st, true, 1, 1)),
{
    let d = st.0;
    let a = st.1;
    let t1 = st.2;
    let t2 = st.3;
    let h = (a.len() / 2) as int;
    let n0 = d.len() as int;
    let g = |i: int, j1: int, j2: int| term(d[i], a[j1][j2], t1[i][j1], t2[i][j2]);
    lemma_sum3_quadrants(g, n0, h);
    assert(2 * h == a.len());
    assert(total(d, a, t1, t2) == fe(sum3(g, n0, 2 * h, 2 * h)));
    let corner = |bx: int, by: int| |i: int, j1: int, j2: int| g(i, j1 + bx * h, j2 + by * h);
    assert forall|bx: int, by: int| (bx == 0 || bx == 1) && (by == 0 || by == 1) implies
        #[trigger] partial(st, true, bx, by) == fe(sum3(corner(bx, by), n0, h, h)) by {
        let fm = fold_matrix(a, bx, by);
        let f2 = fold_cols(t1, bx);
        let f3 = fold_cols(t2, by);
        let gp = |i: int, j1: int, j2: int| term(d[i], fm[j1][j2], f2[i][j1], f3[i][j2]);
        assert forall|i: int, j1: int, j2: int| 0 <= i < n0 && 0 <= j1 < h && 0 <= j2 < h implies
            #[trigger] gp(i, j1, j2) == corner(bx, by)(i, j1, j2) by {
            assert(t1[i].len() == a.len());
            assert(t2[i].len() == a.len());
            let (a00, a10, a01, a11) = (a[j1][j2], a[j1 + h][j2], a[j1][j2 + h], a[j1 + h][j2 + h]);
            let (u, v, ss, tt) = (t1[i][j1], t1[i][j1 + h], t2[i][j2], t2[i][j2 + h]);
            assert(fm[j1][j2] == bilin(a00, a10, a01, a11, bx, by));
            assert(f2[i][j1] == lerp(u, v, bx));
            assert(f3[i][j2] == lerp(ss, tt, by));
            lemma_col_term(d[i], a00, a10, a01, a11, u, v, ss, tt, bx, by);
            assert(bx * h == (if bx == 0 { 0 } else { h })) by (nonlinear_arith)
                requires bx == 0 || bx == 1;
            assert(by * h == (if by == 0 { 0 } else { h })) by (nonlinear_arith)
                requires by == 0 || by == 1;
            let ac = a[j1 + bx * h][j2 + by * h];
            let uc = t1[i][j1 + bx * h];
            let sc = t2[i][j2 + by * h];
            assert(bil(a00, a10, a01, a11, bx, by) == ac) by {
                if bx == 0 && by == 0 {
                    assert(bil(a00, a10, a01, a11, 0, 0) == a00) by (nonlinear_arith);
                } else if bx == 1 && by == 0 {
                    assert(bil(a00, a10, a01, a11, 1, 0) == a10) by (nonlinear_arith);
                } else if bx == 0 && by == 1 {
                    assert(bil(a00, a10, a01, a11, 0, 1) == a01) by (nonlinear_arith);
                } else {
                    assert(bil(a00, a10, a01, a11, 1, 1) == a11) by (nonlinear_arith);
                }
            }
            assert((1 - bx) * u + bx * v == uc) by {
                if bx == 0 {
                    assert((1 - 0) * u + 0 * v == u) by (nonlinear_arith);
                } else {
                    assert((1 - 1) * u + 1 * v == v) by (nonlinear_arith);
                }
            }
            assert((1 - by) * ss + by * tt == sc) by {
                if by == 0 {
                    assert((1 - 0) * ss + 0 * tt == ss) by (nonlinear_arith);
                } else {
                    assert((1 - 1) * ss + 1 * tt == tt) by (nonlinear_arith);
                }
            }
            lemma_term_int(d[i], ac, uc, sc);
        }
        lemma_sum3_ext(gp, corner(bx, by), n0, h, h);
        assert(partial(st, true, bx, by) == fe(sum3(gp, n0, h, h)));
    }
    let c00 = corner(0, 0);
    let c01 = corner(0, 1);
    let c10 = corner(1, 0);
    let c11 = corner(1, 1);
    assert(partial(st, true, 0, 0) == fe(sum3(c00, n0, h, h)));
    assert(partial(st, true, 0, 1) == fe(sum3(c01, n0, h, h)));
    assert(partial(st, true, 1, 0) == fe(sum3(c10, n0, h, h)));
    assert(partial(st, true, 1, 1) == fe(sum3(c11, n0, h, h)));
    lemma_sum3_ext(c00, g, n0, h, h);
    lemma_sum3_ext(c01, |i: int, j1: int, j2: int| g(i, j1, j2 + h), n0, h, h);
    lemma_sum3_ext(c10, |i: int, j1: int, j2: int| g(i, j1 + h, j2), n0, h, h);
    lemma_sum3_ext(c11, |i: int, j1: int, j2: int| g(i, j1 + h, j2 + h), n0, h, h);
    lemma_fadd4(sum3(c00, n0, h, h), sum3(c01, n0, h, h), sum3(c10, n0, h, h), sum3(c11, n0, h, h));
}

/// In a row round, the sum is the sum of its values where both top row
/// bits are `0` and where both are `1`; where they differ the diagonal
/// factor vanishes.
pub proof fn lemma_row_split(st: Tables)
    requires
        tables_shape(st),
        st.0.len() >= 2,
        st.0.len() % 2 == 0,
    ensures
        partial(st, false, 0, 1) == 0,
        partial(st, false, 1, 0) == 0,
        total(st.0, st.1, st.2, st.3) == fadd(fadd(fadd(partial(st, false, 0, 0), partial(st, false, 0, 1)),
            partial(st, false, 1, 0)), partial(st, false, 1, 1)),
{
    let d = st.0;
    let a = st.1;
    let t1 = st.2;
    let t2 = st.3;
    let h = (d.len() / 2) as int;
    let m = a.len() as int;
    let g = |i: int, j1: int, j2: int| term(d[i], a[j1][j2], t1[i][j1], t2[i][j2]);
    let gh = |i: int, j1: int, j2: int| g(i + h, j1, j2);
    // the split of the rows
    let f = |i: int| sum(|j1: int| sum(|j2: int| g(i, j1, j2), m), m);
    lemma_sum_halves(f, h);
    let fh = |k: int| f(k + h);
    let fs = |k: int| sum(|j1: int| sum(|j2: int| gh(k, j1, j2), m), m);
    assert forall|k: int| 0 <= k < h implies #[trigger] fh(k) == fs(k) by {
        let fk = |j1: int| sum(|j2: int| g(k + h, j1, j2), m);
        let gk = |j1: int| sum(|j2: int| gh(k, j1, j2), m);
        assert forall|j1: int| 0 <= j1 < m implies #[trigger] fk(j1) == gk(j1) by {
            lemma_sum_ext(|j2: int| g(k + h, j1, j2), |j2: int| gh(k, j1, j2), m);
        }
        lemma_sum_ext(fk, gk, m);
    }
    lemma_sum_ext(fh, fs, h);
    assert(2 * h == d.len());
    assert(total(d, a, t1, t2) == fe(sum3(g, 2 * h, m, m)));
    assert(sum3(g, 2 * h, m, m) == sum3(g, h, m, m) + sum3(gh, h, m, m));
    // the four corners
    let zero = |i: int, j1: int, j2: int| 0 * g(i, j1, j2);
    lemma_sum3_scale_int(g, 0, h, m, m);
    assert forall|bx: int, by: int| (bx == 0 || bx == 1) && (by == 0 || by == 1) implies
        #[trigger] partial(st, false, bx, by) == fe(sum3(
            if bx == 0 && by == 0 { g } else if bx == 1 && by == 1 { gh } else { zero }, h, m, m)) by {
        let fd = fold_diag(d, bx, by);
        let f2 = fold_rows(t1, bx);
        let f3 = fold_rows(t2, by);
        let gp = |i: int, j1: int, j2: int| term(fd[i], a[j1][j2], f2[i][j1], f3[i][j2]);
        let target = if bx == 0 && by == 0 { g } else if bx == 1 && by == 1 { gh } else { zero };
        assert forall|i: int, j1: int, j2: int| 0 <= i < h && 0 <= j1 < m && 0 <= j2 < m implies
            #[trigger] gp(i, j1, j2) == target(i, j1, j2) by {
            assert(t1[i].len() == m);
            assert(t2[i].len() == m);
            let (d0, d1, aa) = (d[i], d[i + h], a[j1][j2]);
            let (u, v, ss, tt) = (t1[i][j1], t1[i + h][j1], t2[i][j2], t2[i + h][j2]);
            assert(fd[i] == fadd(fmul(fmul(fsub(1, bx), fsub(1, by)), d0), fmul(fmul(bx, by), d1)));
            assert(f2[i][j1] == lerp(u, v, bx));
            assert(f3[i][j2] == lerp(ss, tt, by));
            lemma_row_term(d0, d1, aa, u, v, ss, tt, bx, by);
            if bx == 0 && by == 0 {
                assert(bil(d0, 0, 0, d1, 0, 0) == d0) by (nonlinear_arith);
                assert((1 - 0) * u + 0 * v == u) by (nonlinear_arith);
                assert((1 - 0) * ss + 0 * tt == ss) by (nonlinear_arith);
                lemma_term_int(d0, aa, u, ss);
            } else if bx == 1 && by == 1 {
                assert(bil(d0, 0, 0, d1, 1, 1) == d1) by (nonlinear_arith);
                assert((1 - 1) * u + 1 * v == v) by (nonlinear_arith);
                assert((1 - 1) * ss + 1 * tt == tt) by (nonlinear_arith);
                lemma_term_int(d1, aa, v, tt);
            } else {
                assert(bil(d0, 0, 0, d1, bx, by) == 0) by (nonlinear_arith)
                    requires (bx == 0 && by == 1) || (bx == 1 && by == 0);
                let l1 = (1 - bx) * u + bx * v;
                let l2 = (1 - by) * ss + by * tt;
                assert(0 * aa * l1 * l2 == 0) by (nonlinear_arith);
                assert(0 * g(i, j1, j2) == 0);
                lemma_fe_small(0);
            }
        }
        lemma_sum3_ext(gp, target, h, m, m);
        assert(partial(st, false, bx, by) == fe(sum3(gp, h, m, m)));
    }
    assert(partial(st, false, 0, 0) == fe(sum3(g, h, m, m)));
    assert(partial(st, false, 0, 1) == fe(sum3(zero, h, m, m)));
    assert(partial(st, false, 1, 0) == fe(sum3(zero, h, m, m)));
    assert(partial(st, false, 1, 1) == fe(sum3(gh, h, m, m)));
    lemma_fe_small(0);
    lemma_fadd4(sum3(g, h, m, m), 0, 0, sum3(gh, h, m, m));
}

// ---------------------------------------------------------------------
// One round.

/// The sum with a round's variables fixed is quadratic in each of them.
pub proof fn lemma_partial_quadratic(st: Tables, is_col: bool, x0: int, y0: int)
    requires
        tables_shape(st),
        is_col ==> st.1.len() >= 2 && st.1.len() % 2 == 0,
        !is_col ==> st.0.len() >= 2 && st.0.len() % 2 == 0,
    ensures
        is_quadratic_fn(|x: int| partial(st, is_col, x, y0)),
        is_quadratic_fn(|y: int| partial(st, is_col, x0, y)),
{
    if is_col {
        lemma_partial_col_quadratic(st, x0, y0);
        assert((|x: int| partial(st, is_col, x, y0)) =~= (|x: int| partial(st, true, x, y0)));
        assert((|y: int| partial(st, is_col, x0, y)) =~= (|y: int| partial(st, true, x0, y)));
    } else {
        lemma_partial_row_quadratic(st, x0, y0);
        assert((|x: int| partial(st, is_col, x, y0)) =~= (|x: int| partial(st, false, x, y0)));
        assert((|y: int| partial(st, is_col, x0, y)) =~= (|y: int| partial(st, false, x0, y)));
    }
}

/// Taking three summands back off a reduced sum of four leaves the fourth.
pub(crate) proof fn lemma_fsub3_fadd4(x0: int, x1: int, x2: int, x3: int)
    requires
        0 <= x3 < p(),
    ensures
        fsub(fsub(fsub(fadd(fadd(fadd(x0, x1), x2), x3), x0), x1), x2) == x3,
{
    lemma_add_fe(x0 + x1, x2);
    lemma_reduce_args(x0 + x1, x2);
    lemma_reduce_args(x0 + x1 + x2, x3);
    let s = fadd(fadd(fadd(x0, x1), x2), x3);
    assert(s == fe(x0 + x1 + x2 + x3));
    lemma_reduce_args(x0 + x1 + x2 + x3, x0);
    assert(fsub(s, x0) == fe(x1 + x2 + x3)) by {
        assert(x0 + x1 + x2 + x3 - x0 == x1 + x2 + x3);
    }
    lemma_reduce_args(x1 + x2 + x3, x1);
    assert(fsub(fsub(s, x0), x1) == fe(x2 + x3)) by {
        assert(x1 + x2 + x3 - x1 == x2 + x3);
    }
    lemma_reduce_args(x2 + x3, x2);
    assert(x2 + x3 - x2 == x3);
    lemma_fe_small(x3);
}

/// A round of the prover on a claim that is the true sum of its tables:
/// the first quadratic's values at `0` and `1` add up to the claim, its
/// value at the first challenge is the sum of the second's values at `0` and
/// `1`, and the second's value at the second challenge, the next claim, is
/// the true sum of the folded tables.
pub proof fn lemma_round_complete(st: Tables, is_col: bool, prev: int, r1: int, r2: int)
    requires
        tables_shape(st),
        is_col ==> st.1.len() >= 2 && st.1.len() % 2 == 0,
        !is_col ==> st.0.len() >= 2 && st.0.len() % 2 == 0,
        prev == total(st.0, st.1, st.2, st.3),
    ensures
        ({
            let evals = round_evals(st, is_col, prev, r1);
            let q1 = coeffs_of(evals.0);
            let q2 = coeffs_of(evals.1);
            let next = fold_tables(st, is_col, r1, r2);
            &&& fadd(peval(q1, 0), peval(q1, 1)) == prev
            &&& peval(q1, r1) == fadd(peval(q2, 0), peval(q2, 1))
            &&& peval(q2, r2) == through(evals.1.0, evals.1.1, evals.1.2, r2)
            &&& through(evals.1.0, evals.1.1, evals.1.2, r2) == total(next.0, next.1, next.2, next.3)
        }),
{
    let evals = round_evals(st, is_col, prev, r1);
    let p00 = partial(st, is_col, 0, 0);
    let p01 = partial(st, is_col, 0, 1);
    let p10 = partial(st, is_col, 1, 0);
    let p11 = partial(st, is_col, 1, 1);
    if is_col {
        lemma_col_split(st);
    } else {
        lemma_row_split(st);
    }
    let a01 = if is_col { partial(st, is_col, 0, 1) } else { 0 };
    let a10 = if is_col { partial(st, is_col, 1, 0) } else { 0 };
    assert(a01 == p01);
    assert(a10 == p10);
    lemma_fsub3_fadd4(p00, p01, p10, p11);
    assert(fsub(fsub(fsub(prev, p00), a01), a10) == p11);
    // the quadratics in the first variable
    let f0 = |x: int| partial(st, is_col, x, 0);
    let f1 = |x: int| partial(st, is_col, x, 1);
    lemma_partial_quadratic(st, is_col, r1, 0);
    lemma_partial_quadratic(st, is_col, r1, 1);
    lemma_quadratic_fn_add(f0, f1);
    let g = |x: int| fadd(f0(x), f1(x));
    assert(evals.0 == (g(0), g(1), g(-1)));
    let q1 = coeffs_of(evals.0);
    assert forall|x: int| #[trigger] peval(q1, x) == g(x) by {
        lemma_quadratic_fn_through(g, x);
    }
    lemma_fadd_comm_assoc(fadd(p00, p01), p10, p11);
    assert(fadd(peval(q1, 0), peval(q1, 1)) == prev);
    // the quadratic in the second variable, with the first at `r1`
    let hq = |y: int| partial(st, is_col, r1, y);
    lemma_quadratic_fn_through(f0, r1);
    lemma_quadratic_fn_through(f1, r1);
    assert(evals.1 == (hq(0), hq(1), hq(-1)));
    let q2 = coeffs_of(evals.1);
    assert forall|y: int| #[trigger] peval(q2, y) == hq(y) by {
        lemma_quadratic_fn_through(hq, y);
    }
    assert(peval(q1, r1) == fadd(peval(q2, 0), peval(q2, 1)));
    assert(peval(q2, r2) == through(evals.1.0, evals.1.1, evals.1.2, r2));
    let next = fold_tables(st, is_col, r1, r2);
    assert(partial(st, is_col, r1, r2) == total(next.0, next.1, next.2, next.3));
}

// ---------------------------------------------------------------------
// All rounds.

/// The number of column rounds among the first `k` of the schedule.
pub open spec fn count_cols(sched: Seq<bool>, k: nat) -> nat
    decreases k,
{
    if k == 0 {
        0
    } else {
        count_cols(sched, (k - 1) as nat) + (if sched[k - 1] { 1nat } else { 0nat })
    }
}

proof fn lemma_count_cols_mono(sched: Seq<bool>, k: nat, n: nat)
    requires
        k <= n,
    ensures
        count_cols(sched, k) <= count_cols(sched, n),
        k - count_cols(sched, k) <= n - count_cols(sched, n),
        count_cols(sched, k) <= k,
    decreases n,
{
    if k < n {
        lemma_count_cols_mono(sched, k, (n - 1) as nat);
    }
    if k > 0 {
        lemma_count_cols_mono(sched, (k - 1) as nat, (k - 1) as nat);
    }
}

/// Folding a round's variables keeps the shapes and halves the dimension.
proof fn lemma_fold_shape(st: Tables, is_col: bool, r1: int, r2: int)
    requires
        tables_shape(st),
        is_col ==> st.1.len() >= 2 && st.1.len() % 2 == 0,
        !is_col ==> st.0.len() >= 2 && st.0.len() % 2 == 0,
    ensures
        ({
            let next = fold_tables(st, is_col, r1, r2);
            &&& tables_shape(next)
            &&& is_col ==> next.1.len() * 2 == st.1.len() && next.0.len() == st.0.len()
            &&& !is_col ==> next.0.len() * 2 == st.0.len() && next.1.len() == st.1.len()
        }),
{
    let next = fold_tables(st, is_col, r1, r2);
    if is_col {
        assert forall|i: int| 0 <= i < next.2.len() implies (#[trigger] next.2[i]).len() == next.1.len() by {
            assert(st.2[i].len() == st.1.len());
        }
        assert forall|i: int| 0 <= i < next.3.len() implies (#[trigger] next.3[i]).len() == next.1.len() by {
            assert(st.3[i].len() == st.1.len());
        }
    } else {
        assert forall|i: int| 0 <= i < next.2.len() implies (#[trigger] next.2[i]).len() == next.1.len() by {
            assert(st.2[i].len() == st.1.len());
        }
        assert forall|i: int| 0 <= i < next.3.len() implies (#[trigger] next.3[i]).len() == next.1.len() by {
            assert(st.3[i].len() == st.1.len());
        }
    }
}

/// A power of two with a positive exponent is even and at least two.
proof fn lemma_pow2_even(e: nat)
    requires
        e >= 1,
    ensures
        pow2(e) >= 2,
        pow2(e) % 2 == 0,
        pow2(e) / 2 == pow2((e - 1) as nat),
{
    lemma_pow2_step((e - 1) as nat);
}

/// The facts about the first `k` rounds of the prover that carry from one
/// round to the next.
pub open spec fn run_inv(st0: Tables, prev0: int, rs: Seq<int>, sched: Seq<bool>, ni: nat, nj: nat, k: nat) -> bool {
    let out = run(st0, prev0, rs, sched, k);
    let qs = coeffs_seq(out.0);
    &&& tables_shape(out.1)
    &&& out.1.0.len() == pow2((ni - (k - count_cols(sched, k))) as nat)
    &&& out.1.1.len() == pow2((nj - count_cols(sched, k)) as nat)
    &&& out.2 == total(out.1.0, out.1.1, out.1.2, out.1.3)
    &&& out.0.len() == 2 * k
    &&& k > 0 ==> fadd(peval(qs[0], 0), peval(qs[0], 1)) == prev0
    &&& k > 0 ==> peval(qs[2 * k - 1], rs[2 * k - 1]) == out.2
    &&& forall|m: int| 1 <= m < 2 * k ==> #[trigger] chain_ok(qs, rs, m)
}

/// The checks between quadratics carry over to a longer list that extends
/// the shorter one, and hold at the two new positions.
proof fn lemma_chain_extend(qp: Seq<(int, int, int)>, qs: Seq<(int, int, int)>, rs: Seq<int>, j: int)
    requires
        j >= 0,
        qp.len() == 2 * j,
        qs.len() == 2 * j + 2,
        forall|m: int| 0 <= m < 2 * j ==> #[trigger] qs[m] == qp[m],
        forall|m: int| 1 <= m < 2 * j ==> #[trigger] chain_ok(qp, rs, m),
        j > 0 ==> chain_ok(qs, rs, 2 * j),
        chain_ok(qs, rs, 2 * j + 1),
    ensures
        forall|m: int| 1 <= m < 2 * j + 2 ==> #[trigger] chain_ok(qs, rs, m),
{
    assert forall|m: int| 1 <= m < 2 * j + 2 implies #[trigger] chain_ok(qs, rs, m) by {
        if m < 2 * j {
            assert(chain_ok(qp, rs, m));
            assert(qs[m - 1] == qp[m - 1]);
            assert(qs[m] == qp[m]);
        }
    }
}

/// The list of quadratics after one more round: the checks carry over and
/// hold at the two new positions.
pub(crate) proof fn lemma_polys_step(
    prior0: Seq<(int, int, int)>,
    e0: (int, int, int),
    e1: (int, int, int),
    rs: Seq<int>,
    j: nat,
    prev0: int,
    prior_claim: int,
    r2: int,
)
    requires
        prior0.len() == 2 * j,
        rs.len() >= 2 * j + 2,
        j > 0 ==> fadd(peval(coeffs_seq(prior0)[0], 0), peval(coeffs_seq(prior0)[0], 1)) == prev0,
        j > 0 ==> peval(coeffs_seq(prior0)[2 * j - 1], rs[2 * j - 1]) == prior_claim,
        forall|m: int| 1 <= m < 2 * j ==> #[trigger] chain_ok(coeffs_seq(prior0), rs, m),
        fadd(peval(coeffs_of(e0), 0), peval(coeffs_of(e0), 1)) == prior_claim,
        peval(coeffs_of(e0), rs[2 * j as int]) == fadd(peval(coeffs_of(e1), 0), peval(coeffs_of(e1), 1)),
        j == 0 ==> prior_claim == prev0,
        r2 == rs[2 * j as int + 1],
    ensures
        ({
            let qs = coeffs_seq(prior0.push(e0).push(e1));
            &&& fadd(peval(qs[0], 0), peval(qs[0], 1)) == prev0
            &&& peval(qs[2 * j as int + 1], rs[2 * j as int + 1]) == peval(coeffs_of(e1), r2)
            &&& forall|m: int| 1 <= m < 2 * j + 2 ==> #[trigger] chain_ok(qs, rs, m)
        }),
{
    let out0 = prior0.push(e0).push(e1);
    let qs = coeffs_seq(out0);
    let qp = coeffs_seq(prior0);
    assert forall|m: int| 0 <= m < 2 * j implies #[trigger] qs[m] == qp[m] by {
        assert(out0[m] == prior0[m]);
    }
    assert(qs[2 * j as int] == coeffs_of(e0));
    assert(qs[2 * j as int + 1] == coeffs_of(e1));
    if j > 0 {
        assert(qs[2 * j - 1] == qp[2 * j - 1]);
        assert(chain_ok(qs, rs, 2 * j as int));
        assert(qs[0] == qp[0]);
    }
    assert(chain_ok(qs, rs, 2 * j as int + 1));
    lemma_chain_extend(qp, qs, rs, j as int);
}

/// One more round keeps the facts.
#[verifier::spinoff_prover]
proof fn lemma_run_step(st0: Tables, prev0: int, rs: Seq<int>, sched: Seq<bool>, ni: nat, nj: nat, j: nat)
    requires
        sched.len() == ni + nj,
        count_cols(sched, (ni + nj) as nat) == nj,
        rs.len() == 2 * (ni + nj),
        j < ni + nj,
        prev0 == total(st0.0, st0.1, st0.2, st0.3),
        run_inv(st0, prev0, rs, sched, ni, nj, j),
    ensures
        run_inv(st0, prev0, rs, sched, ni, nj, j + 1),
{
    let k = j + 1;
    lemma_count_cols_mono(sched, k, (ni + nj) as nat);
    lemma_count_cols_mono(sched, j, (ni + nj) as nat);
    let prior = run(st0, prev0, rs, sched, j);
    let is_col = sched[j as int];
    let r1 = rs[2 * k - 2];
    let r2 = rs[2 * k - 1];
    let cj = count_cols(sched, j);
    assert(count_cols(sched, k) == cj + (if is_col { 1nat } else { 0nat }));
    if is_col {
        lemma_pow2_even((nj - cj) as nat);
    } else {
        lemma_pow2_even((ni - (j - cj)) as nat);
    }
    lemma_round_complete(prior.1, is_col, prior.2, r1, r2);
    lemma_fold_shape(prior.1, is_col, r1, r2);
    let out = run(st0, prev0, rs, sched, k);
    let evals = round_evals(prior.1, is_col, prior.2, r1);
    assert(out.0 == prior.0.push(evals.0).push(evals.1));
    assert(out.1 == fold_tables(prior.1, is_col, r1, r2));
    assert(out.2 == through(evals.1.0, evals.1.1, evals.1.2, r2));
    lemma_polys_step(prior.0, evals.0, evals.1, rs, j, prev0, prior.2, r2);
}

/// What the first `k` rounds of the prover give, from a claim that is the
/// true sum of the tables, on a schedule with `nj` column rounds among
/// `ni + nj`: the tables keep their shapes, the claim stays the true sum,
/// and every check between consecutive quadratics holds.
pub proof fn lemma_run_complete(st0: Tables, prev0: int, rs: Seq<int>, sched: Seq<bool>, ni: nat, nj: nat, k: nat)
    requires
        tables_shape(st0),
        st0.0.len() == pow2(ni),
        st0.1.len() == pow2(nj),
        sched.len() == ni + nj,
        count_cols(sched, (ni + nj) as nat) == nj,
        rs.len() == 2 * (ni + nj),
        k <= ni + nj,
        prev0 == total(st0.0, st0.1, st0.2, st0.3),
    ensures
        run_inv(st0, prev0, rs, sched, ni, nj, k),
    decreases k,
{
    if k == 0 {
        assert((ni - (0 - count_cols(sched, 0))) as nat == ni);
    } else {
        lemma_run_complete(st0, prev0, rs, sched, ni, nj, (k - 1) as nat);
        lemma_run_step(st0, prev0, rs, sched, ni, nj, (k - 1) as nat);
    }
}

/// `first_break` finds nothing where every check holds.
pub(crate) proof fn lemma_no_break(qs: Seq<(int, int, int)>, rs: Seq<int>, n: int, from: int)
    requires
        forall|m: int| from <= m < n ==> #[trigger] chain_ok(qs, rs, m),
    ensures
        first_break(qs, rs, n, from) == None::<int>,
    decreases n - from,
{
    if from < n {
        assert(chain_ok(qs, rs, from));
        lemma_no_break(qs, rs, n, from + 1);
    }
}

/// The sumcheck is complete: if the claim is the true sum of the tables,
/// then for every choice of challenges the verifier accepts the prover's
/// quadratics, given the value of the summed polynomial at the challenge
/// point that the fully folded tables sum to.
pub proof fn lemma_sumcheck_complete(st0: Tables, sum: int, rs: Seq<int>, sched: Seq<bool>, ni: nat, nj: nat)
    requires
        tables_shape(st0),
        st0.0.len() == pow2(ni),
        st0.1.len() == pow2(nj),
        sched.len() == ni + nj,
        count_cols(sched, (ni + nj) as nat) == nj,
        rs.len() == 2 * (ni + nj),
        ni + nj > 0,
        sum == total(st0.0, st0.1, st0.2, st0.3),
    ensures
        ({
            let out = run(st0, sum, rs, sched, (ni + nj) as nat);
            &&& out.2 == total(out.1.0, out.1.1, out.1.2, out.1.3)
            &&& out.1.0.len() == 1
            &&& out.1.1.len() == 1
            &&& sumcheck_verdict(coeffs_seq(out.0), rs, sum, out.2) == Ok::<(), SumcheckError>(())
        }),
{
    let n = (ni + nj) as nat;
    lemma_run_complete(st0, sum, rs, sched, ni, nj, n);
    lemma_count_cols_mono(sched, n, n);
    let out = run(st0, sum, rs, sched, n);
    let qs = coeffs_seq(out.0);
    lemma_no_break(qs, rs, 2 * n as int, 1);
    assert(pow2(0) == 1) by {
        lemma2_to64();
    }
}

} // verus!
