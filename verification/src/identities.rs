//! Identities of the building blocks: the equality polynomial is a
//! partition of unity, the diagonal factor is symmetric and vanishes off the
//! diagonal of the hypercube, the batched constraints pick out one
//! constraint at a vertex of the batching point.
use vstd::prelude::*;
use vstd::arithmetic::power2::*;
use vstd::arithmetic::div_mod::*;
use vstd::arithmetic::mul::*;
use crate::constraints::{pass, ConstraintSetMatrix, Delta, BQCS};
use crate::fields::{
    fadd, fe, fmul, fsub, inv2, lemma_add_fe, lemma_fe_eq_from_diff, lemma_mul_fe, lemma_mul_fe_left, lemma_reduce_args,
    lemma_sub_fe, lemma_fmul_fadd, lemma_fmul_comm_assoc, p, quad,
};
use crate::partial_sums::{chain_ok, first_break, peval, sumcheck_verdict, SumcheckError};
use crate::polynomials::{through, through_linear, through_square};
use crate::folding::{lemma_eq_poly_top, lemma_fmul3};
use crate::hypercube::indicator;
use crate::matrix_ext::lemma_sum_indicator;
use crate::mle::{eq_poly, eq_prod, fprod, lemma_sum_cong, lemma_sum_ext, lemma_sum_scale, lemma_sum_split, sel, sum, vertex};
use crate::vertices::{lemma_eq_poly_vertex, lemma_system_at_vertex};
use crate::partial_sums::sum3;

verus! {

/// A factor `s` taken out of a reduced sum of products.
proof fn lemma_fsum_factor(e: spec_fn(int) -> int, s: int, n: int)
    ensures
        fe(sum(|k: int| fmul(e(k), s), n)) == fe(s * sum(e, n)),
{
    let f = |k: int| fmul(e(k), s);
    let g = |k: int| s * e(k);
    assert forall|k: int| 0 <= k < n implies #[trigger] fe(f(k)) == fe(g(k)) by {
        lemma_mod_twice(e(k) * s, p());
        lemma_mul_is_commutative(e(k), s);
    }
    lemma_sum_cong(f, g, n);
    lemma_sum_scale(e, s, n);
}

/// The equality polynomials of all the hypercube indices sum to one, at
/// every point: they are a partition of unity.
pub proof fn lemma_eq_poly_sum_one(pts: Seq<int>)
    ensures
        fe(sum(|i: int| eq_poly(i, pts), pow2(pts.len()) as int)) == 1,
    decreases pts.len(),
{
    let n = pts.len();
    if n == 0 {
        assert(pow2(0) == 1) by { lemma2_to64(); }
        let f = |i: int| eq_poly(i, pts);
        assert(sum(f, 1) == sum(f, 0) + f(0));
        assert(fe(1) == 1) by { lemma_small_mod(1, p() as nat); }
    } else {
        let r = pts[0];
        let rest = pts.drop_first();
        assert(pts =~= seq![r] + rest);
        lemma_eq_poly_sum_one(rest);
        let m = pow2((n - 1) as nat) as int;
        lemma_pow2_unfold(n);
        lemma_pow2_pos((n - 1) as nat);
        let e = |k: int| eq_poly(k, rest);
        let f = |i: int| eq_poly(i, pts);
        let g = |k: int| fmul(e(k), sel(false, r));
        let h = |k: int| fmul(e(k), sel(true, r));
        assert forall|k: int| 0 <= k < m implies #[trigger] f(k) == g(k) by {
            lemma_eq_poly_top(k, 0, r, rest);
            assert(k + 0 * pow2(rest.len()) == k);
        }
        assert forall|k: int| 0 <= k < m implies #[trigger] f(m + k) == h(k) by {
            lemma_eq_poly_top(k, 1, r, rest);
            assert(k + 1 * pow2(rest.len()) == m + k);
        }
        lemma_sum_split(f, g, h, m, m);
        assert(m + m == pow2(n) as int);
        let se = sum(e, m);
        let s0 = fsub(1, r);
        lemma_fsum_factor(e, s0, m);
        lemma_fsum_factor(e, r, m);
        // fe(A + B) = fe(fe(A) + fe(B)) = fe(s0 * se + r * se) = fe((s0 + r) * se)
        lemma_add_fe(sum(g, m), sum(h, m));
        lemma_add_fe(s0 * se, r * se);
        lemma_mul_is_distributive_add_other_way(se, s0, r);
        // fe(s0 + r) = 1
        lemma_add_fe(1 - r, r);
        lemma_mod_twice(1 - r, p());
        assert(fe(1) == 1) by { lemma_small_mod(1, p() as nat); }
        assert(fe(s0 + r) == 1) by {
            lemma_add_mod_noop(1 - r, r, p());
            lemma_add_mod_noop(s0, r, p());
        }
        lemma_mul_fe(s0 + r, se);
        assert(fe(se) == 1);
        assert(fmul(fe(s0 + r), fe(se)) == fmul(1, 1));
        assert(fmul(1, 1) == 1) by { lemma_small_mod(1, p() as nat); }
    }
}

/// The diagonal factor's values on the hypercube sum to one, whatever its
/// random point.
pub proof fn lemma_delta_hypercube_sum_one<const I: usize>(d: Delta<I>)
    requires
        d.wf(),
    ensures
        fe(sum(|b: int| d.hc_value(b), pow2(I as nat) as int)) == 1,
{
    let pt = d.point();
    assert(pt.len() == I);
    lemma_eq_poly_sum_one(pt);
    lemma_sum_ext(|b: int| d.hc_value(b), |i: int| eq_poly(i, pt), pow2(I as nat) as int);
}

/// The diagonal factor is symmetric in its two row points.
pub proof fn lemma_delta_symmetric<const I: usize>(d: Delta<I>, b: Seq<int>, c: Seq<int>)
    ensures
        d.value(b, c) == d.value(c, b),
{
    let a = d.point();
    let f = |i: int| pass(a[i], b[i], c[i]);
    let g = |i: int| pass(a[i], c[i], b[i]);
    assert forall|i: int| 0 <= i < I implies #[trigger] f(i) == g(i) by {
        let (x, y, z) = (a[i], b[i], c[i]);
        lemma_fmul3(x, y, z);
        lemma_fmul3(x, z, y);
        lemma_fmul3(fsub(1, x), fsub(1, y), fsub(1, z));
        lemma_fmul3(fsub(1, x), fsub(1, z), fsub(1, y));
        assert(x * y * z == x * z * y) by (nonlinear_arith);
        let (u, v, w) = (fsub(1, x), fsub(1, y), fsub(1, z));
        assert(u * v * w == u * w * v) by (nonlinear_arith);
    }
    crate::diagonal::lemma_fprod_ext(f, g, I as int);
}

/// A product with a zero factor is zero.
proof fn lemma_fprod_zero(f: spec_fn(int) -> int, n: int, t: int)
    requires
        0 <= t < n,
        f(t) == 0,
    ensures
        fprod(f, n) == 0,
    decreases n,
{
    if t < n - 1 {
        lemma_fprod_zero(f, n - 1, t);
        assert(fmul(0, f(n - 1)) == 0);
    } else {
        assert(fmul(fprod(f, n - 1), 0) == 0);
    }
}

/// Every coordinate of the point is `0` or `1`.
pub open spec fn is_boolean(b: Seq<int>) -> bool {
    forall|t: int| 0 <= t < b.len() ==> #[trigger] b[t] == 0 || b[t] == 1
}

/// The diagonal factor vanishes at two distinct points of the hypercube.
pub proof fn lemma_delta_off_diagonal<const I: usize>(d: Delta<I>, b: Seq<int>, c: Seq<int>)
    requires
        b.len() == I,
        c.len() == I,
        is_boolean(b),
        is_boolean(c),
        b != c,
    ensures
        d.value(b, c) == 0,
{
    let t = choose|t: int| 0 <= t < I && b[t] != c[t];
    if !(0 <= t < I && b[t] != c[t]) {
        assert(b =~= c);
    }
    let a = d.point();
    let f = |i: int| pass(a[i], b[i], c[i]);
    assert(b[t] == 0 || b[t] == 1);
    assert(c[t] == 0 || c[t] == 1);
    let (x, y, z) = (a[t], b[t], c[t]);
    assert(fsub(1, 1) == 0);
    assert(fmul(fmul(x, y), z) == 0) by {
        assert(fmul(x, 0) == 0);
        assert(fmul(0, z) == 0);
        assert(fmul(fmul(x, 1), 0) == 0);
    }
    assert(fmul(fmul(fsub(1, x), fsub(1, y)), fsub(1, z)) == 0) by {
        assert(fmul(fsub(1, x), 0) == 0);
        assert(fmul(0, fsub(1, z)) == 0);
        assert(fmul(fmul(fsub(1, x), fsub(1, y)), 0) == 0);
    }
    assert(fadd(0, 0) == 0);
    assert(f(t) == 0);
    lemma_fprod_zero(f, I as int, t);
}

/// The system's polynomial vanishes at two distinct rows of the hypercube,
/// whatever the column points.
pub proof fn lemma_system_off_diagonal<const I: usize, const J: usize, const K: usize>(
    sys: BQCS<I, J, K>,
    b: Seq<int>,
    c: Seq<int>,
    x: Seq<int>,
    y: Seq<int>,
)
    requires
        b.len() == I,
        c.len() == I,
        is_boolean(b),
        is_boolean(c),
        b != c,
    ensures
        sys.value(b, c, x, y) == 0,
{
    lemma_delta_off_diagonal(sys.delta, b, c);
    let m = sys.matrix.value(x, y);
    assert(fmul(0, m) == 0);
    assert(fmul(0, sys.trace.value(b, x)) == 0);
    assert(fmul(0, sys.trace.value(c, y)) == 0);
}

/// At a vertex of the batching point, the batched constraints are the one
/// constraint with that index.
pub proof fn lemma_matrix_at_batching_vertex<const J: usize, const K: usize>(
    m: ConstraintSetMatrix<J, K>,
    k0: int,
    c1: Seq<int>,
    c2: Seq<int>,
)
    requires
        m.wf(),
        0 <= k0 < pow2(K as nat),
        m.rk() == vertex(k0, K as nat),
    ensures
        m.value(c1, c2) == fe(m.set.expressions@[k0].value(c1, c2)),
{
    let ex = m.set.expressions@;
    let n = ex.len() as int;
    let v = |k: int| ex[k].value(c1, c2);
    let f = |k: int| fmul(eq_poly(k, m.rk()), ex[k].value(c1, c2));
    let g = |k: int| indicator(k0, k) * v(k);
    assert forall|k: int| 0 <= k < n implies #[trigger] fe(f(k)) == fe(g(k)) by {
        lemma_eq_poly_vertex(k, k0, K as nat);
        lemma_mod_twice(indicator(k, k0) * v(k), p());
    }
    lemma_sum_cong(f, g, n);
    lemma_sum_indicator(v, k0, n);
    lemma_mod_twice(sum(f, n), p());
}

/// A quadratic with coefficients `fe(a)`, `fe(b)`, `fe(c)` is the one with
/// coefficients `a`, `b`, `c`.
pub(crate) proof fn lemma_quad_reduce(a: int, b: int, c: int, x: int)
    ensures
        quad(fe(a), fe(b), fe(c), x) == quad(a, b, c, x),
{
    let pp = p();
    lemma_fundamental_div_mod(a, pp);
    lemma_fundamental_div_mod(b, pp);
    lemma_fundamental_div_mod(c, pp);
    let (qa, qb, qc) = (a / pp, b / pp, c / pp);
    let s = fe(a) + fe(b) * x + fe(c) * x * x;
    let t = a + b * x + c * x * x;
    let k = 0 - qa - qb * x - qc * x * x;
    assert(s - t == k * pp) by (nonlinear_arith)
        requires
            a == pp * qa + fe(a),
            b == pp * qb + fe(b),
            c == pp * qc + fe(c),
            s == fe(a) + fe(b) * x + fe(c) * x * x,
            t == a + b * x + c * x * x,
            k == 0 - qa - qb * x - qc * x * x;
    lemma_fe_eq_from_diff(s, t, k);
}

/// The value of a quadratic is additive in its coefficients.
pub proof fn lemma_quad_additive(a1: int, b1: int, c1: int, a2: int, b2: int, c2: int, x: int)
    ensures
        quad(fadd(a1, a2), fadd(b1, b2), fadd(c1, c2), x) == fadd(quad(a1, b1, c1, x), quad(a2, b2, c2, x)),
{
    lemma_quad_reduce(a1 + a2, b1 + b2, c1 + c2, x);
    lemma_add_fe(a1 + b1 * x + c1 * x * x, a2 + b2 * x + c2 * x * x);
    assert((a1 + a2) + (b1 + b2) * x + (c1 + c2) * x * x == (a1 + b1 * x + c1 * x * x) + (a2 + b2 * x + c2 * x * x))
        by (nonlinear_arith);
}

/// Turning values into coefficients is additive: the quadratic through the
/// sums of two triples of values has the sums of their coefficients, and
/// its value anywhere is the sum of their values.
pub proof fn lemma_through_additive(z1: int, o1: int, m1: int, z2: int, o2: int, m2: int, x: int)
    ensures
        through_linear(fadd(o1, o2), fadd(m1, m2)) == fadd(through_linear(o1, m1), through_linear(o2, m2)),
        through_square(fadd(z1, z2), fadd(o1, o2), fadd(m1, m2))
            == fadd(through_square(z1, o1, m1), through_square(z2, o2, m2)),
        through(fadd(z1, z2), fadd(o1, o2), fadd(m1, m2), x) == fadd(through(z1, o1, m1, x), through(z2, o2, m2, x)),
{
    let i = inv2();
    // linear coefficient
    lemma_sub_fe(o1 + o2, m1 + m2);
    lemma_mul_fe_left((o1 + o2) - (m1 + m2), i);
    lemma_mul_fe_left(o1 - m1, i);
    lemma_mul_fe_left(o2 - m2, i);
    lemma_add_fe((o1 - m1) * i, (o2 - m2) * i);
    assert(((o1 + o2) - (m1 + m2)) * i == (o1 - m1) * i + (o2 - m2) * i) by (nonlinear_arith);
    // square coefficient
    lemma_add_fe(o1 + o2, m1 + m2);
    lemma_mul_fe_left((o1 + o2) + (m1 + m2), i);
    lemma_sub_fe(((o1 + o2) + (m1 + m2)) * i, z1 + z2);
    lemma_mul_fe_left(o1 + m1, i);
    lemma_mul_fe_left(o2 + m2, i);
    lemma_reduce_args((o1 + m1) * i, z1);
    lemma_reduce_args((o2 + m2) * i, z2);
    lemma_add_fe((o1 + m1) * i - z1, (o2 + m2) * i - z2);
    assert(((o1 + o2) + (m1 + m2)) * i - (z1 + z2) == ((o1 + m1) * i - z1) + ((o2 + m2) * i - z2)) by (nonlinear_arith);
    // the values
    lemma_quad_additive(z1, through_linear(o1, m1), through_square(z1, o1, m1), z2, through_linear(o2, m2),
        through_square(z2, o2, m2), x);
}

/// A wrong value of the summed polynomial fails only at the last check: the
/// verdict does not depend on the value unless every earlier check passes,
/// and then it is `Ok` for the last polynomial's value at its challenge and
/// `EvaluationMismatch` for every other value.
pub proof fn lemma_verdict_last_check(pols: Seq<(int, int, int)>, rs: Seq<int>, sum: int, v1: int, v2: int)
    ensures
        sumcheck_verdict(pols, rs, sum, v1) is Ok && v1 != v2
            ==> sumcheck_verdict(pols, rs, sum, v2) == Err::<(), SumcheckError>(SumcheckError::EvaluationMismatch),
        sumcheck_verdict(pols, rs, sum, v1) != Err::<(), SumcheckError>(SumcheckError::EvaluationMismatch)
            && !(sumcheck_verdict(pols, rs, sum, v1) is Ok)
            ==> sumcheck_verdict(pols, rs, sum, v2) == sumcheck_verdict(pols, rs, sum, v1),
{
}

/// The affine combination `(1 - x) * u + x * v`.
pub open spec fn affine(x: int, u: int, v: int) -> int {
    fadd(fmul(fsub(1, x), u), fmul(x, v))
}

proof fn lemma_eq_prod_affine(index: int, pts: Seq<int>, t: int, x: int, k: nat)
    requires
        0 <= t < pts.len(),
        k <= pts.len(),
    ensures
        t < pts.len() - k ==> eq_prod(index, pts.update(t, x), k) == eq_prod(index, pts.update(t, 0), k)
            && eq_prod(index, pts.update(t, x), k) == eq_prod(index, pts.update(t, 1), k),
        t >= pts.len() - k ==> eq_prod(index, pts.update(t, x), k)
            == affine(x, eq_prod(index, pts.update(t, 0), k), eq_prod(index, pts.update(t, 1), k)),
    decreases k,
{
    let n = pts.len() as int;
    let px = pts.update(t, x);
    let p0 = pts.update(t, 0);
    let p1 = pts.update(t, 1);
    if k > 0 {
        let k1 = (k - 1) as nat;
        lemma_eq_prod_affine(index, pts, t, x, k1);
        let q = n - k;
        let b = crate::bits::bit(index, k1);
        let (ax, a0, a1) = (eq_prod(index, px, k1), eq_prod(index, p0, k1), eq_prod(index, p1, k1));
        if t < q {
            assert(px[q] == p0[q] && px[q] == p1[q]);
        } else if t == q {
            assert(ax == a0 && ax == a1);
            assert(px[q] == x && p0[q] == 0 && p1[q] == 1);
            let c = ax;
            assert(fmul(fsub(1, x), 0) == 0);
            assert(fmul(0, c) == 0);
            lemma_mod_twice(c, p());
            if b {
                assert(fmul(c, 0) == 0);
                lemma_fmul_comm_assoc(c, x, 0);
                assert(c * 1 == c) by (nonlinear_arith);
                assert(fmul(c, 1) == fe(c));
                lemma_reduce_args(x, c);
                assert(fadd(0, fmul(x, fe(c))) == fmul(x, c)) by {
                    lemma_mod_twice(x * c, p());
                }
            } else {
                assert(fsub(1, 0) == 1) by { lemma_small_mod(1, p() as nat); }
                assert(fsub(1, 1) == 0);
                assert(fmul(c, 0) == 0);
                assert(fmul(x, 0) == 0);
                lemma_fmul_comm_assoc(c, fsub(1, x), 0);
                assert(c * 1 == c) by (nonlinear_arith);
                assert(fmul(c, 1) == fe(c));
                lemma_reduce_args(fsub(1, x), c);
                assert(fadd(fmul(fsub(1, x), fe(c)), 0) == fmul(fsub(1, x), c)) by {
                    lemma_mod_twice(fsub(1, x) * c, p());
                }
            }
        } else {
            assert(px[q] == pts[q] && p0[q] == pts[q] && p1[q] == pts[q]);
            let sg = sel(b, pts[q]);
            let u = fsub(1, x);
            lemma_fmul_fadd(sg, fmul(u, a0), fmul(x, a1));
            lemma_fmul_comm_assoc(fadd(fmul(u, a0), fmul(x, a1)), sg, 0);
            lemma_fmul_comm_assoc(u, a0, sg);
            lemma_fmul_comm_assoc(x, a1, sg);
            lemma_fmul_comm_assoc(fmul(u, a0), sg, 0);
            lemma_fmul_comm_assoc(fmul(x, a1), sg, 0);
        }
    }
}

/// The equality polynomial of an index is affine in each coordinate of the
/// point: it is the multilinear extension of the index's indicator.
pub proof fn lemma_eq_poly_affine(index: int, pts: Seq<int>, t: int, x: int)
    requires
        0 <= t < pts.len(),
    ensures
        eq_poly(index, pts.update(t, x)) == affine(x, eq_poly(index, pts.update(t, 0)), eq_poly(index, pts.update(t, 1))),
{
    lemma_eq_prod_affine(index, pts, t, x, pts.len());
}

/// The sum of `f(0), ..., f(n - 1)`, all zero, is zero.
proof fn lemma_sum_zeros(f: spec_fn(int) -> int, n: int)
    requires
        forall|j: int| 0 <= j < n ==> #[trigger] f(j) == 0,
    ensures
        sum(f, n) == 0,
    decreases n,
{
    if n > 0 {
        lemma_sum_zeros(f, n - 1);
    }
}

/// Distinct indices below `2^n` have distinct vertices, and a vertex is
/// boolean.
proof fn lemma_vertex_injective(r1: int, r2: int, n: nat)
    requires
        0 <= r1 < pow2(n),
        0 <= r2 < pow2(n),
        r1 != r2,
    ensures
        vertex(r1, n) != vertex(r2, n),
        is_boolean(vertex(r1, n)),
{
    lemma_eq_poly_vertex(r1, r1, n);
    lemma_eq_poly_vertex(r1, r2, n);
}

/// The system's polynomial summed over every boolean choice of its two row
/// points and two column points.
pub open spec fn boolean_sum<const I: usize, const J: usize, const K: usize>(sys: BQCS<I, J, K>) -> int {
    let ni = pow2(I as nat) as int;
    let nj = pow2(J as nat) as int;
    fe(sum(|r1: int| sum3(|r2: int, c1: int, c2: int|
        sys.value(vertex(r1, I as nat), vertex(r2, I as nat), vertex(c1, J as nat), vertex(c2, J as nat)), ni, nj, nj), ni))
}

/// Summed over every boolean choice of its four points, the system's
/// polynomial gives its sum over the hypercube: the terms with two distinct
/// rows vanish, and the others are the hypercube values.
pub proof fn lemma_system_boolean_sum<const I: usize, const J: usize, const K: usize>(sys: BQCS<I, J, K>)
    requires
        sys.wf(),
        sys.vars_in_range(),
    ensures
        boolean_sum(sys) == sys.hypercube_sum(),
{
    let ni = pow2(I as nat) as int;
    let nj = pow2(J as nat) as int;
    let g = |i: int, j1: int, j2: int| sys.hc_value(i, j1, j2);
    let gg = |i: int| sum(|j1: int| sum(|j2: int| g(i, j1, j2), nj), nj);
    let inner = |r1: int| sum3(|r2: int, c1: int, c2: int|
        sys.value(vertex(r1, I as nat), vertex(r2, I as nat), vertex(c1, J as nat), vertex(c2, J as nat)), ni, nj, nj);
    assert forall|r1: int| 0 <= r1 < ni implies #[trigger] inner(r1) == gg(r1) by {
        let h = |r2: int, c1: int, c2: int|
            sys.value(vertex(r1, I as nat), vertex(r2, I as nat), vertex(c1, J as nat), vertex(c2, J as nat));
        let ff = |r2: int| sum(|c1: int| sum(|c2: int| h(r2, c1, c2), nj), nj);
        assert forall|r2: int| 0 <= r2 < ni && r2 != r1 implies #[trigger] ff(r2) == 0 by {
            lemma_vertex_injective(r1, r2, I as nat);
            lemma_vertex_injective(r2, r1, I as nat);
            let row = |c1: int| sum(|c2: int| h(r2, c1, c2), nj);
            assert forall|c1: int| 0 <= c1 < nj implies #[trigger] row(c1) == 0 by {
                assert forall|c2: int| 0 <= c2 < nj implies #[trigger] h(r2, c1, c2) == 0 by {
                    lemma_system_off_diagonal(sys, vertex(r1, I as nat), vertex(r2, I as nat), vertex(c1, J as nat),
                        vertex(c2, J as nat));
                }
                lemma_sum_zeros(|c2: int| h(r2, c1, c2), nj);
            }
            lemma_sum_zeros(row, nj);
        }
        let rowd = |c1: int| sum(|c2: int| h(r1, c1, c2), nj);
        let rowg = |c1: int| sum(|c2: int| g(r1, c1, c2), nj);
        assert forall|c1: int| 0 <= c1 < nj implies #[trigger] rowd(c1) == rowg(c1) by {
            assert forall|c2: int| 0 <= c2 < nj implies #[trigger] h(r1, c1, c2) == g(r1, c1, c2) by {
                lemma_system_at_vertex(sys, r1, c1, c2);
            }
            lemma_sum_ext(|c2: int| h(r1, c1, c2), |c2: int| g(r1, c1, c2), nj);
        }
        lemma_sum_ext(rowd, rowg, nj);
        let fi = |r2: int| indicator(r1, r2) * ff(r2);
        assert forall|r2: int| 0 <= r2 < ni implies #[trigger] ff(r2) == fi(r2) by {
            if r2 != r1 {
                assert(ff(r2) == 0);
            }
        }
        lemma_sum_ext(ff, fi, ni);
        lemma_sum_indicator(ff, r1, ni);
        assert(inner(r1) == sum3(h, ni, nj, nj));
        assert(inner(r1) == sum(ff, ni));
    }
    lemma_sum_ext(inner, gg, ni);
    assert(sum3(g, ni, nj, nj) == sum(gg, ni));
}

/// `first_break` finds the first broken link from `from` on, or none.
proof fn lemma_first_break_spec(pols: Seq<(int, int, int)>, rs: Seq<int>, n: int, from: int)
    ensures
        first_break(pols, rs, n, from) is None ==> forall|k: int| from <= k < n ==> #[trigger] chain_ok(pols, rs, k),
        first_break(pols, rs, n, from) matches Some(k) ==> from <= k < n && !chain_ok(pols, rs, k)
            && forall|j: int| from <= j < k ==> #[trigger] chain_ok(pols, rs, j),
    decreases n - from,
{
    if from < n {
        lemma_first_break_spec(pols, rs, n, from + 1);
    }
}

/// What the sumcheck verifier decides, stated link by link: it accepts
/// exactly when there is a polynomial, the first one's values at `0` and `1`
/// add up to the claim, every polynomial at its challenge is the sum of the
/// next one's values at `0` and `1`, and the last one at its challenge is
/// the value of the summed polynomial. A rejection for polynomial `i` means
/// that the link from `i` to `i + 1` is the first that breaks.
pub proof fn lemma_verdict_links(pols: Seq<(int, int, int)>, rs: Seq<int>, sum: int, value: int)
    requires
        pols.len() <= usize::MAX,
    ensures
        ({
            let n = if pols.len() < rs.len() { pols.len() as int } else { rs.len() as int };
            let links = forall|k: int| 1 <= k < n ==>
                #[trigger] peval(pols[k - 1], rs[k - 1]) == fadd(peval(pols[k], 0), peval(pols[k], 1));
            &&& sumcheck_verdict(pols, rs, sum, value) is Ok <==> (n > 0
                && sum == fadd(peval(pols[0], 0), peval(pols[0], 1))
                && links
                && value == peval(pols[n - 1], rs[n - 1]))
            &&& sumcheck_verdict(pols, rs, sum, value) is Ok ==> forall|k: int| 1 <= k < n ==>
                #[trigger] peval(pols[k - 1], rs[k - 1]) == fadd(peval(pols[k], 0), peval(pols[k], 1))
            &&& ((n > 0 && sum == fadd(peval(pols[0], 0), peval(pols[0], 1)) && exists|k: int| 1 <= k < n
                && #[trigger] peval(pols[k - 1], rs[k - 1]) != fadd(peval(pols[k], 0), peval(pols[k], 1)))
                ==> (sumcheck_verdict(pols, rs, sum, value) matches Err(SumcheckError::PolynomialMismatch(_))))
            &&& (sumcheck_verdict(pols, rs, sum, value) matches Err(SumcheckError::PolynomialMismatch(i)) ==> ({
                let k = i + 1;
                &&& 1 <= k < n
                &&& peval(pols[k - 1], rs[k - 1]) != fadd(peval(pols[k], 0), peval(pols[k], 1))
                &&& forall|j: int| 1 <= j < k ==>
                    #[trigger] peval(pols[j - 1], rs[j - 1]) == fadd(peval(pols[j], 0), peval(pols[j], 1))
            }))
        }),
{
    let n = if pols.len() < rs.len() { pols.len() as int } else { rs.len() as int };
    lemma_first_break_spec(pols, rs, n, 1);
    if let Some(k) = first_break(pols, rs, n, 1) {
        assert(!chain_ok(pols, rs, k));
        assert(((k - 1) as usize) as int == k - 1);
    }
    assert forall|k: int| 1 <= k < n && chain_ok(pols, rs, k) implies
        #[trigger] peval(pols[k - 1], rs[k - 1]) == fadd(peval(pols[k], 0), peval(pols[k], 1)) by {
    }
}

} // verus!
