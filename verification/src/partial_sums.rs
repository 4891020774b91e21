//! The sumcheck prover and verifier for a batched quadratic constraint
//! system: the prover folds tables of hypercube values one variable at a
//! time and sends, for each variable, the quadratic that the remaining sum is
//! in it.
use vstd::prelude::*;
use vstd::arithmetic::power2::*;
use crate::bits::{is_pow2_len, lemma_half_pow2, lemma_shr1, log2};
use crate::fields::{
    quad, random_base, fadd, fe, fmul, fsub, lemma_add_fe, lemma_fe_small, lemma_mul_fe, lemma_mul_fe_left, lemma_mul_fe_right, lemma_sub_fe,
    lemma_view_range, p, BaseField,
};
use crate::mle::{lemma_fsum_step, lemma_fsum_step_offset, lemma_sum_cong, lemma_sum_ext, lemma_sum_scale, sum, vals2};
use crate::constraints::BQCS;
use crate::text::{decimal_text, push_decimal};
use vstd::string::StringExecFns;
use crate::polynomials::{through, through_linear, through_square, vals, SquarePolynomial, SquarePolynomialEval};

verus! {

/// `(1 - r) * x + r * y`: the line through `(0, x)` and `(1, y)` at `r`.
pub open spec fn lerp(x: int, y: int, r: int) -> int {
    fadd(fmul(fsub(1, r), x), fmul(r, y))
}

/// One term of the summed polynomial.
pub open spec fn term(d: int, a: int, w1: int, w2: int) -> int {
    fmul(fmul(fmul(d, a), w1), w2)
}

/// The sum of `g` over `0..n0 x 0..n1 x 0..n2`.
pub open spec fn sum3(g: spec_fn(int, int, int) -> int, n0: int, n1: int, n2: int) -> int {
    sum(|i: int| sum(|j1: int| sum(|j2: int| g(i, j1, j2), n2), n1), n0)
}

/// The sum, over the hypercube of the tables, of
/// `delta[i] * matrix[j1][j2] * trace1[i][j1] * trace2[i][j2]`.
pub open spec fn total(d: Seq<int>, a: Seq<Seq<int>>, t1: Seq<Seq<int>>, t2: Seq<Seq<int>>) -> int {
    fe(sum3(|i: int, j1: int, j2: int| term(d[i], a[j1][j2], t1[i][j1], t2[i][j2]), d.len() as int, a.len() as int, a.len() as int))
}

/// Fixes the top variable of a vector of values to `r`.
pub open spec fn fold_vec(v: Seq<int>, r: int) -> Seq<int> {
    Seq::new(v.len() / 2, |j: int| lerp(v[j], v[j + v.len() / 2], r))
}

/// Fixes the top column variable of every row to `r`.
pub open spec fn fold_cols(t: Seq<Seq<int>>, r: int) -> Seq<Seq<int>> {
    t.map_values(|row: Seq<int>| fold_vec(row, r))
}

/// Fixes the top row variable to `r`.
pub open spec fn fold_rows(t: Seq<Seq<int>>, r: int) -> Seq<Seq<int>> {
    Seq::new(t.len() / 2, |i: int| Seq::new(t[i].len(), |j: int| lerp(t[i][j], t[i + t.len() / 2][j], r)))
}

/// The bilinear interpolation of the four corner values at `(b, c)`.
pub open spec fn bilin(a00: int, a10: int, a01: int, a11: int, b: int, c: int) -> int {
    fadd(fadd(fadd(fmul(fmul(fsub(1, b), fsub(1, c)), a00), fmul(fmul(b, fsub(1, c)), a10)),
        fmul(fmul(fsub(1, b), c), a01)), fmul(fmul(b, c), a11))
}

/// Fixes the top variable of both indices of the matrix, the first to `b`
/// and the second to `c`.
pub open spec fn fold_matrix(a: Seq<Seq<int>>, b: int, c: int) -> Seq<Seq<int>> {
    let h = a.len() / 2;
    Seq::new(h, |j1: int| Seq::new(h, |j2: int|
        bilin(a[j1][j2], a[j1 + h][j2], a[j1][j2 + h], a[j1 + h][j2 + h], b, c)))
}

/// Fixes the top variable of the two row points of the diagonal factor, the
/// first to `b` and the second to `c`.
pub open spec fn fold_diag(d: Seq<int>, b: int, c: int) -> Seq<int> {
    let h = d.len() / 2;
    Seq::new(h, |i: int| fadd(fmul(fmul(fsub(1, b), fsub(1, c)), d[i]), fmul(fmul(b, c), d[i + h])))
}

/// The shapes of the prover's tables: `2^x` rows, `2^y` columns.
pub open spec fn tables_wf(d: Seq<BaseField>, a: Seq<Vec<BaseField>>, t1: Seq<Vec<BaseField>>, t2: Seq<Vec<BaseField>>) -> bool {
    &&& is_pow2_len(d.len() as int)
    &&& is_pow2_len(a.len() as int)
    &&& t1.len() == d.len()
    &&& t2.len() == d.len()
    &&& forall|j: int| 0 <= j < a.len() ==> (#[trigger] a[j]).len() == a.len()
    &&& forall|i: int| 0 <= i < t1.len() ==> (#[trigger] t1[i]).len() == a.len()
    &&& forall|i: int| 0 <= i < t2.len() ==> (#[trigger] t2[i]).len() == a.len()
}

pub proof fn lemma_sum3_ext(g: spec_fn(int, int, int) -> int, h: spec_fn(int, int, int) -> int, n0: int, n1: int, n2: int)
    requires
        forall|i: int, j1: int, j2: int| 0 <= i < n0 && 0 <= j1 < n1 && 0 <= j2 < n2 ==> #[trigger] g(i, j1, j2) == h(i, j1, j2),
    ensures
        sum3(g, n0, n1, n2) == sum3(h, n0, n1, n2),
{
    let fg = |i: int| sum(|j1: int| sum(|j2: int| g(i, j1, j2), n2), n1);
    let fh = |i: int| sum(|j1: int| sum(|j2: int| h(i, j1, j2), n2), n1);
    assert forall|i: int| 0 <= i < n0 implies #[trigger] fg(i) == fh(i) by {
        let gg = |j1: int| sum(|j2: int| g(i, j1, j2), n2);
        let hh = |j1: int| sum(|j2: int| h(i, j1, j2), n2);
        assert forall|j1: int| 0 <= j1 < n1 implies #[trigger] gg(j1) == hh(j1) by {
            lemma_sum_ext(|j2: int| g(i, j1, j2), |j2: int| h(i, j1, j2), n2);
        }
        lemma_sum_ext(gg, hh, n1);
    }
    lemma_sum_ext(fg, fh, n0);
}

/// Every entry of a table of values is a field element.
pub proof fn lemma_vals2_range(t: Seq<Vec<BaseField>>, i: int, j: int)
    requires
        0 <= i < t.len(),
        0 <= j < t[i].len(),
    ensures
        0 <= vals2(t)[i][j] < p(),
        vals2(t)[i][j] == t[i]@[j]@,
{
    lemma_view_range(t[i]@[j]);
}

pub proof fn lemma_vals_range(t: Seq<BaseField>, i: int)
    requires
        0 <= i < t.len(),
    ensures
        0 <= vals(t)[i] < p(),
        vals(t)[i] == t[i]@,
{
    lemma_view_range(t[i]);
}

/// The line through two field elements takes them at `0` and `1`.
pub proof fn lemma_lerp_bits(u: int, v: int)
    requires
        0 <= u < p(),
        0 <= v < p(),
    ensures
        lerp(u, v, 0) == u,
        lerp(u, v, 1) == v,
{
    crate::fields::lemma_fe_small(u);
    crate::fields::lemma_fe_small(v);
    crate::fields::lemma_fe_small(1);
    crate::fields::lemma_fe_small(0);
    assert(fsub(1, 0) == 1);
    assert(fsub(1, 1) == 0);
    assert(fmul(1, u) == u);
    assert(fmul(0, v) == 0);
    assert(fmul(0, u) == 0);
    assert(fmul(1, v) == v);
    assert(fadd(u, 0) == u);
    assert(fadd(0, v) == v);
}

/// The bilinear interpolation takes the corner values at the corners.
pub proof fn lemma_bilin_bits(a00: int, a10: int, a01: int, a11: int)
    requires
        0 <= a00 < p(),
        0 <= a10 < p(),
        0 <= a01 < p(),
        0 <= a11 < p(),
    ensures
        bilin(a00, a10, a01, a11, 0, 0) == a00,
        bilin(a00, a10, a01, a11, 1, 0) == a10,
        bilin(a00, a10, a01, a11, 0, 1) == a01,
        bilin(a00, a10, a01, a11, 1, 1) == a11,
{
    crate::fields::lemma_fe_small(a00);
    crate::fields::lemma_fe_small(a10);
    crate::fields::lemma_fe_small(a01);
    crate::fields::lemma_fe_small(a11);
    crate::fields::lemma_fe_small(1);
    crate::fields::lemma_fe_small(0);
    assert(fsub(1, 0) == 1);
    assert(fsub(1, 1) == 0);
    assert(fmul(1, 1) == 1);
    assert(fmul(1, 0) == 0);
    assert(fmul(0, 1) == 0);
    assert(fmul(0, 0) == 0);
    assert(fmul(1, a00) == a00);
    assert(fmul(1, a10) == a10);
    assert(fmul(1, a01) == a01);
    assert(fmul(1, a11) == a11);
    assert(fmul(0, a00) == 0);
    assert(fmul(0, a10) == 0);
    assert(fmul(0, a01) == 0);
    assert(fmul(0, a11) == 0);
    assert(fadd(0, 0) == 0);
    assert(fadd(a00, 0) == a00);
    assert(fadd(0, a10) == a10);
    assert(fadd(0, a01) == a01);
    assert(fadd(0, a11) == a11);
}

/// The line as one reduced polynomial.
pub proof fn lemma_lerp_poly(u: int, v: int, r: int)
    requires
        0 <= u < p(),
        0 <= v < p(),
    ensures
        lerp(u, v, r) == fe((1 - r) * u + r * v),
{
    lemma_fe_small(u);
    lemma_fe_small(v);
    lemma_mul_fe_left(1 - r, u);
    lemma_add_fe((1 - r) * u, r * v);
}

/// The bilinear interpolation as one reduced polynomial.
pub proof fn lemma_bilin_poly(a00: int, a10: int, a01: int, a11: int, b: int, c: int)
    requires
        0 <= a00 < p(),
        0 <= a10 < p(),
        0 <= a01 < p(),
        0 <= a11 < p(),
    ensures
        bilin(a00, a10, a01, a11, b, c) == fe((1 - b) * (1 - c) * a00 + b * (1 - c) * a10 + (1 - b) * c * a01 + b * c * a11),
{
    lemma_mul_fe(1 - b, 1 - c);
    lemma_mul_fe_left((1 - b) * (1 - c), a00);
    lemma_mul_fe_right(b, 1 - c);
    lemma_mul_fe_left(b * (1 - c), a10);
    lemma_mul_fe_left(1 - b, c);
    lemma_mul_fe_left((1 - b) * c, a01);
    lemma_mul_fe_left(b * c, a11);
    lemma_add_fe((1 - b) * (1 - c) * a00, b * (1 - c) * a10);
    lemma_add_fe((1 - b) * (1 - c) * a00 + b * (1 - c) * a10, (1 - b) * c * a01);
    lemma_add_fe((1 - b) * (1 - c) * a00 + b * (1 - c) * a10 + (1 - b) * c * a01, b * c * a11);
}

/// The diagonal fold as one reduced polynomial.
pub proof fn lemma_diag_poly(d0: int, d1: int, b: int, c: int)
    ensures
        fadd(fmul(fmul(fsub(1, b), fsub(1, c)), d0), fmul(fmul(b, c), d1)) == fe((1 - b) * (1 - c) * d0 + b * c * d1),
{
    lemma_mul_fe(1 - b, 1 - c);
    lemma_mul_fe_left((1 - b) * (1 - c), d0);
    lemma_mul_fe_left(b * c, d1);
    lemma_add_fe((1 - b) * (1 - c) * d0, b * c * d1);
}

/// A constant factor comes out of a triple sum, in the field.
pub proof fn lemma_sum3_scale(g: spec_fn(int, int, int) -> int, k: int, n0: int, n1: int, n2: int)
    ensures
        fmul(k, fe(sum3(g, n0, n1, n2))) == fe(sum3(|i: int, j1: int, j2: int| fmul(k, g(i, j1, j2)), n0, n1, n2)),
{
    let h = |i: int, j1: int, j2: int| fmul(k, g(i, j1, j2));
    let kg = |i: int, j1: int, j2: int| k * g(i, j1, j2);
    // integer scaling through the three sums
    let f0 = |i: int| sum(|j1: int| sum(|j2: int| g(i, j1, j2), n2), n1);
    let k0 = |i: int| sum(|j1: int| sum(|j2: int| kg(i, j1, j2), n2), n1);
    assert forall|i: int| 0 <= i < n0 implies #[trigger] k0(i) == k * f0(i) by {
        let f1 = |j1: int| sum(|j2: int| g(i, j1, j2), n2);
        let k1 = |j1: int| sum(|j2: int| kg(i, j1, j2), n2);
        assert forall|j1: int| 0 <= j1 < n1 implies #[trigger] k1(j1) == k * f1(j1) by {
            lemma_sum_scale(|j2: int| g(i, j1, j2), k, n2);
            lemma_sum_ext(|j2: int| kg(i, j1, j2), |j2: int| k * (|j2: int| g(i, j1, j2))(j2), n2);
        }
        lemma_sum_scale(f1, k, n1);
        lemma_sum_ext(k1, |j1: int| k * f1(j1), n1);
    }
    lemma_sum_scale(f0, k, n0);
    lemma_sum_ext(k0, |i: int| k * f0(i), n0);
    assert(sum3(kg, n0, n1, n2) == k * sum3(g, n0, n1, n2));
    lemma_mul_fe_right(k, sum3(g, n0, n1, n2));
    // congruence between k * g and fmul(k, g)
    lemma_sum3_cong(kg, h, n0, n1, n2);
}

/// Triple sums of pointwise congruent terms are congruent.
pub proof fn lemma_sum3_cong(g: spec_fn(int, int, int) -> int, h: spec_fn(int, int, int) -> int, n0: int, n1: int, n2: int)
    requires
        forall|i: int, j1: int, j2: int| 0 <= i < n0 && 0 <= j1 < n1 && 0 <= j2 < n2 ==> #[trigger] fe(g(i, j1, j2)) == fe(h(i, j1, j2)),
    ensures
        fe(sum3(g, n0, n1, n2)) == fe(sum3(h, n0, n1, n2)),
{
    let fg = |i: int| sum(|j1: int| sum(|j2: int| g(i, j1, j2), n2), n1);
    let fh = |i: int| sum(|j1: int| sum(|j2: int| h(i, j1, j2), n2), n1);
    assert forall|i: int| 0 <= i < n0 implies #[trigger] fe(fg(i)) == fe(fh(i)) by {
        let gg = |j1: int| sum(|j2: int| g(i, j1, j2), n2);
        let hh = |j1: int| sum(|j2: int| h(i, j1, j2), n2);
        assert forall|j1: int| 0 <= j1 < n1 implies #[trigger] fe(gg(j1)) == fe(hh(j1)) by {
            lemma_sum_cong(|j2: int| g(i, j1, j2), |j2: int| h(i, j1, j2), n2);
        }
        lemma_sum_cong(gg, hh, n1);
    }
    lemma_sum_cong(fg, fh, n0);
}

/// Moving a constant factor out of the first factor of a term.
pub proof fn lemma_term_scale(k: int, dd: int, a: int, w1: int, w2: int)
    ensures
        term(fmul(k, dd), a, w1, w2) == fmul(k, term(dd, a, w1, w2)),
{
    lemma_mul_fe_left(k * dd, a);
    lemma_mul_fe_left(k * dd * a, w1);
    lemma_mul_fe_left(k * dd * a * w1, w2);
    lemma_mul_fe_left(dd * a, w1);
    lemma_mul_fe_left(dd * a * w1, w2);
    lemma_mul_fe_right(k, dd * a * w1 * w2);
    assert(k * dd * a * w1 * w2 == k * (dd * a * w1 * w2)) by (nonlinear_arith);
}

/// The partial sum with the top bits of both column indices fixed to
/// `j1_bit` and `j2_bit`.
fn partial_sum_cols(
    j1_bit: usize,
    j2_bit: usize,
    delta: &Vec<BaseField>,
    matrix: &Vec<Vec<BaseField>>,
    trace1: &Vec<Vec<BaseField>>,
    trace2: &Vec<Vec<BaseField>>,
) -> (r: BaseField)
    requires
        tables_wf(delta@, matrix@, trace1@, trace2@),
        matrix.len() >= 2,
        j1_bit < 2,
        j2_bit < 2,
    ensures
        r@ == total(vals(delta@), fold_matrix(vals2(matrix@), j1_bit as int, j2_bit as int),
            fold_cols(vals2(trace1@), j1_bit as int), fold_cols(vals2(trace2@), j2_bit as int)),
{
    let I = delta.len();
    proof {
        lemma_shr1(matrix.len());
        lemma_half_pow2(matrix.len() as int);
    }
    let J = matrix.len() >> 1;
    let j1_offset = if j1_bit == 0 { 0 } else { J };
    let j2_offset = if j2_bit == 0 { 0 } else { J };
    let ghost d = vals(delta@);
    let ghost a = vals2(matrix@);
    let ghost t1 = vals2(trace1@);
    let ghost t2 = vals2(trace2@);
    let ghost g = |i: int, j1: int, j2: int| term(d[i], a[j1 + j1_offset][j2 + j2_offset], t1[i][j1 + j1_offset], t2[i][j2 + j2_offset]);
    let ghost f0 = |i: int| sum(|j1: int| sum(|j2: int| g(i, j1, j2), J as int), J as int);
    let mut acc = BaseField::zero();
    let mut i: usize = 0;
    while i < I
        invariant
            0 <= i <= I,
            I == delta.len(),
            J == matrix.len() / 2,
            tables_wf(delta@, matrix@, trace1@, trace2@),
            j1_offset == (if j1_bit == 0 { 0 } else { J }),
            j2_offset == (if j2_bit == 0 { 0 } else { J }),
            j1_offset + J <= matrix.len(),
            j2_offset + J <= matrix.len(),
            j1_bit < 2,
            j2_bit < 2,
            d == vals(delta@),
            a == vals2(matrix@),
            t1 == vals2(trace1@),
            t2 == vals2(trace2@),
            g == (|i: int, j1: int, j2: int| term(d[i], a[j1 + j1_offset][j2 + j2_offset], t1[i][j1 + j1_offset], t2[i][j2 + j2_offset])),
            f0 == (|i: int| sum(|j1: int| sum(|j2: int| g(i, j1, j2), J as int), J as int)),
            acc@ == fe(sum(f0, i as int)),
        decreases I - i,
    {
        let ghost f1 = |j1: int| sum(|j2: int| g(i as int, j1, j2), J as int);
        let di = delta[i];
        let mut j1: usize = j1_offset;
        while j1 < j1_offset + J
            invariant
                j1_offset <= j1 <= j1_offset + J,
                0 <= i < I,
                I == delta.len(),
                J == matrix.len() / 2,
                tables_wf(delta@, matrix@, trace1@, trace2@),
                j1_offset == (if j1_bit == 0 { 0 } else { J }),
                j2_offset == (if j2_bit == 0 { 0 } else { J }),
                j1_offset + J <= matrix.len(),
                j2_offset + J <= matrix.len(),
                j1_bit < 2,
                j2_bit < 2,
                di == delta@[i as int],
                d == vals(delta@),
                a == vals2(matrix@),
                t1 == vals2(trace1@),
                t2 == vals2(trace2@),
                g == (|i: int, j1: int, j2: int| term(d[i], a[j1 + j1_offset][j2 + j2_offset], t1[i][j1 + j1_offset], t2[i][j2 + j2_offset])),
                f1 == (|j1: int| sum(|j2: int| g(i as int, j1, j2), J as int)),
                acc@ == fe(sum(f0, i as int) + sum(f1, j1 - j1_offset)),
            decreases j1_offset + J - j1,
        {
            let ghost f2 = |j2: int| g(i as int, (j1 - j1_offset) as int, j2);
            let w1 = trace1[i][j1];
            let mut j2: usize = j2_offset;
            while j2 < j2_offset + J
                invariant
                    j2_offset <= j2 <= j2_offset + J,
                    j1_offset <= j1 < j1_offset + J,
                    0 <= i < I,
                    I == delta.len(),
                    J == matrix.len() / 2,
                    tables_wf(delta@, matrix@, trace1@, trace2@),
                    j1_offset == (if j1_bit == 0 { 0 } else { J }),
                    j2_offset == (if j2_bit == 0 { 0 } else { J }),
                    j1_offset + J <= matrix.len(),
                    j2_offset + J <= matrix.len(),
                    j1_bit < 2,
                    j2_bit < 2,
                    di == delta@[i as int],
                    w1 == trace1@[i as int]@[j1 as int],
                    d == vals(delta@),
                    a == vals2(matrix@),
                    t1 == vals2(trace1@),
                    t2 == vals2(trace2@),
                    g == (|i: int, j1: int, j2: int| term(d[i], a[j1 + j1_offset][j2 + j2_offset], t1[i][j1 + j1_offset], t2[i][j2 + j2_offset])),
                    f2 == (|j2: int| g(i as int, (j1 - j1_offset) as int, j2)),
                    acc@ == fe(sum(f0, i as int) + sum(f1, j1 - j1_offset) + sum(f2, j2 - j2_offset)),
                decreases j2_offset + J - j2,
            {
                let w2 = trace2[i][j2];
                let am = matrix[j1][j2];
                let t = di.mul(am).mul(w1).mul(w2);
                proof {
                    assert(d[i as int] == di@);
                    assert(a[j1 as int][j2 as int] == am@);
                    assert(t1[i as int][j1 as int] == w1@);
                    assert(t2[i as int][j2 as int] == w2@);
                    assert(t@ == f2(j2 - j2_offset));
                    lemma_fsum_step_offset(sum(f0, i as int) + sum(f1, j1 - j1_offset), f2, j2 - j2_offset);
                }
                acc = acc.add(t);
                j2 = j2 + 1;
            }
            proof {
                assert(f1(j1 - j1_offset) == sum(f2, J as int));
                lemma_fsum_step_offset(sum(f0, i as int), f1, j1 - j1_offset);
            }
            j1 = j1 + 1;
        }
        proof {
            assert(f0(i as int) == sum(f1, J as int));
            lemma_fsum_step(f0, i as int);
        }
        i = i + 1;
    }
    proof {
        let fa = fold_matrix(a, j1_bit as int, j2_bit as int);
        let ft1 = fold_cols(t1, j1_bit as int);
        let ft2 = fold_cols(t2, j2_bit as int);
        let tc = |i: int, j1: int, j2: int| term(d[i], fa[j1][j2], ft1[i][j1], ft2[i][j2]);
        assert forall|i: int, j1: int, j2: int| 0 <= i < I && 0 <= j1 < J && 0 <= j2 < J implies
            #[trigger] g(i, j1, j2) == tc(i, j1, j2) by {
            let h = J as int;
            lemma_vals2_range(matrix@, j1, j2);
            lemma_vals2_range(matrix@, j1 + h, j2);
            lemma_vals2_range(matrix@, j1, j2 + h);
            lemma_vals2_range(matrix@, j1 + h, j2 + h);
            lemma_bilin_bits(a[j1][j2], a[j1 + h][j2], a[j1][j2 + h], a[j1 + h][j2 + h]);
            lemma_vals2_range(trace1@, i, j1);
            lemma_vals2_range(trace1@, i, j1 + h);
            lemma_lerp_bits(t1[i][j1], t1[i][j1 + h]);
            lemma_vals2_range(trace2@, i, j2);
            lemma_vals2_range(trace2@, i, j2 + h);
            lemma_lerp_bits(t2[i][j2], t2[i][j2 + h]);
            if j1_bit == 0 {
                assert(ft1[i][j1] == t1[i][j1 + j1_offset]);
            } else {
                assert(ft1[i][j1] == t1[i][j1 + j1_offset]);
            }
            if j2_bit == 0 {
                assert(ft2[i][j2] == t2[i][j2 + j2_offset]);
            } else {
                assert(ft2[i][j2] == t2[i][j2 + j2_offset]);
            }
            if j1_bit == 0 && j2_bit == 0 {
                assert(fa[j1][j2] == a[j1 + j1_offset][j2 + j2_offset]);
            } else if j1_bit == 0 {
                assert(fa[j1][j2] == a[j1 + j1_offset][j2 + j2_offset]);
            } else if j2_bit == 0 {
                assert(fa[j1][j2] == a[j1 + j1_offset][j2 + j2_offset]);
            } else {
                assert(fa[j1][j2] == a[j1 + j1_offset][j2 + j2_offset]);
            }
        }
        lemma_sum3_ext(g, tc, I as int, J as int, J as int);
    }
    acc
}

/// `2*u - v`, the line through `(0, u)` and `(1, v)` at `-1`, as the prover
/// computes it.
pub proof fn lemma_minus_one_form(u: int, v: int)
    requires
        0 <= u < p(),
        0 <= v < p(),
    ensures
        fsub(fmul(2, u), v) == fe(2 * u - v),
        lerp(u, v, -1) == fe(2 * u - v),
{
    lemma_fe_small(v);
    lemma_sub_fe(2 * u, v);
    lemma_lerp_poly(u, v, -1);
    assert((1 - (-1)) * u + (-1) * v == 2 * u - v);
}

/// The partial sum with the top bit of the first column index fixed to `-1`
/// and that of the second to `j2_bit`.
fn compute_minus_one_cols(
    j2_bit: usize,
    delta: &Vec<BaseField>,
    matrix: &Vec<Vec<BaseField>>,
    trace1: &Vec<Vec<BaseField>>,
    trace2: &Vec<Vec<BaseField>>,
) -> (r: BaseField)
    requires
        tables_wf(delta@, matrix@, trace1@, trace2@),
        matrix.len() >= 2,
        j2_bit < 2,
    ensures
        r@ == total(vals(delta@), fold_matrix(vals2(matrix@), -1, j2_bit as int),
            fold_cols(vals2(trace1@), -1), fold_cols(vals2(trace2@), j2_bit as int)),
{
    let I = delta.len();
    proof {
        lemma_shr1(matrix.len());
        lemma_half_pow2(matrix.len() as int);
    }
    let J = matrix.len() >> 1;
    let j1_offset = J;
    let j2_offset = if j2_bit == 0 { 0 } else { J };
    let two = BaseField::from_u64(2);
    let ghost d = vals(delta@);
    let ghost a = vals2(matrix@);
    let ghost t1 = vals2(trace1@);
    let ghost t2 = vals2(trace2@);
    let ghost g = |i: int, j1: int, j2: int| term(d[i],
        fsub(fmul(2, a[j1][j2 + j2_offset]), a[j1 + j1_offset][j2 + j2_offset]),
        fsub(fmul(2, t1[i][j1]), t1[i][j1 + j1_offset]),
        t2[i][j2 + j2_offset]);
    let ghost f0 = |i: int| sum(|j1: int| sum(|j2: int| g(i, j1, j2), J as int), J as int);
    let mut acc = BaseField::zero();
    let mut i: usize = 0;
    while i < I
        invariant
            0 <= i <= I,
            I == delta.len(),
            J == matrix.len() / 2,
            J * 2 == matrix.len(),
            tables_wf(delta@, matrix@, trace1@, trace2@),
            j1_offset == J,
            j2_offset == (if j2_bit == 0 { 0 } else { J }),
            j2_offset + J <= matrix.len(),
            j2_bit < 2,
            two@ == 2,
            d == vals(delta@),
            a == vals2(matrix@),
            t1 == vals2(trace1@),
            t2 == vals2(trace2@),
            g == (|i: int, j1: int, j2: int| term(d[i],
                fsub(fmul(2, a[j1][j2 + j2_offset]), a[j1 + j1_offset][j2 + j2_offset]),
                fsub(fmul(2, t1[i][j1]), t1[i][j1 + j1_offset]),
                t2[i][j2 + j2_offset])),
            f0 == (|i: int| sum(|j1: int| sum(|j2: int| g(i, j1, j2), J as int), J as int)),
            acc@ == fe(sum(f0, i as int)),
        decreases I - i,
    {
        let ghost f1 = |j1: int| sum(|j2: int| g(i as int, j1, j2), J as int);
        let di = delta[i];
        let mut j1: usize = 0;
        while j1 < J
            invariant
                0 <= j1 <= J,
                0 <= i < I,
                I == delta.len(),
                J == matrix.len() / 2,
                J * 2 == matrix.len(),
                tables_wf(delta@, matrix@, trace1@, trace2@),
                j1_offset == J,
                j2_offset == (if j2_bit == 0 { 0 } else { J }),
                j2_offset + J <= matrix.len(),
                j2_bit < 2,
                two@ == 2,
                di == delta@[i as int],
                d == vals(delta@),
                a == vals2(matrix@),
                t1 == vals2(trace1@),
                t2 == vals2(trace2@),
                g == (|i: int, j1: int, j2: int| term(d[i],
                    fsub(fmul(2, a[j1][j2 + j2_offset]), a[j1 + j1_offset][j2 + j2_offset]),
                    fsub(fmul(2, t1[i][j1]), t1[i][j1 + j1_offset]),
                    t2[i][j2 + j2_offset])),
                f1 == (|j1: int| sum(|j2: int| g(i as int, j1, j2), J as int)),
                acc@ == fe(sum(f0, i as int) + sum(f1, j1 as int)),
            decreases J - j1,
        {
            let ghost f2 = |j2: int| g(i as int, j1 as int, j2);
            let w1_0 = trace1[i][j1];
            let w1_1 = trace1[i][j1 + j1_offset];
            let w1 = two.mul(w1_0).sub(w1_1);
            let mut j2: usize = j2_offset;
            while j2 < j2_offset + J
                invariant
                    j2_offset <= j2 <= j2_offset + J,
                    0 <= j1 < J,
                    0 <= i < I,
                    I == delta.len(),
                    J == matrix.len() / 2,
                    J * 2 == matrix.len(),
                    tables_wf(delta@, matrix@, trace1@, trace2@),
                    j1_offset == J,
                    j2_offset == (if j2_bit == 0 { 0 } else { J }),
                    j2_offset + J <= matrix.len(),
                    j2_bit < 2,
                    two@ == 2,
                    di == delta@[i as int],
                    w1@ == fsub(fmul(2, t1[i as int][j1 as int]), t1[i as int][j1 + j1_offset]),
                    d == vals(delta@),
                    a == vals2(matrix@),
                    t1 == vals2(trace1@),
                    t2 == vals2(trace2@),
                    g == (|i: int, j1: int, j2: int| term(d[i],
                        fsub(fmul(2, a[j1][j2 + j2_offset]), a[j1 + j1_offset][j2 + j2_offset]),
                        fsub(fmul(2, t1[i][j1]), t1[i][j1 + j1_offset]),
                        t2[i][j2 + j2_offset])),
                    f2 == (|j2: int| g(i as int, j1 as int, j2)),
                    acc@ == fe(sum(f0, i as int) + sum(f1, j1 as int) + sum(f2, j2 - j2_offset)),
                decreases j2_offset + J - j2,
            {
                let w2 = trace2[i][j2];
                let a_0 = matrix[j1][j2];
                let a_1 = matrix[j1 + j1_offset][j2];
                let am = two.mul(a_0).sub(a_1);
                let t = di.mul(am).mul(w1).mul(w2);
                proof {
                    assert(d[i as int] == di@);
                    assert(a[j1 as int][j2 as int] == a_0@);
                    assert(a[j1 + j1_offset][j2 as int] == a_1@);
                    assert(t2[i as int][j2 as int] == w2@);
                    assert(t@ == f2(j2 - j2_offset));
                    lemma_fsum_step_offset(sum(f0, i as int) + sum(f1, j1 as int), f2, j2 - j2_offset);
                }
                acc = acc.add(t);
                j2 = j2 + 1;
            }
            proof {
                assert(f1(j1 as int) == sum(f2, J as int));
                lemma_fsum_step_offset(sum(f0, i as int), f1, j1 as int);
            }
            j1 = j1 + 1;
        }
        proof {
            assert(f0(i as int) == sum(f1, J as int));
            lemma_fsum_step(f0, i as int);
        }
        i = i + 1;
    }
    proof {
        let fa = fold_matrix(a, -1, j2_bit as int);
        let ft1 = fold_cols(t1, -1);
        let ft2 = fold_cols(t2, j2_bit as int);
        let tc = |i: int, j1: int, j2: int| term(d[i], fa[j1][j2], ft1[i][j1], ft2[i][j2]);
        assert forall|i: int, j1: int, j2: int| 0 <= i < I && 0 <= j1 < J && 0 <= j2 < J implies
            #[trigger] g(i, j1, j2) == tc(i, j1, j2) by {
            let h = J as int;
            lemma_vals2_range(matrix@, j1, j2);
            lemma_vals2_range(matrix@, j1 + h, j2);
            lemma_vals2_range(matrix@, j1, j2 + h);
            lemma_vals2_range(matrix@, j1 + h, j2 + h);
            lemma_bilin_poly(a[j1][j2], a[j1 + h][j2], a[j1][j2 + h], a[j1 + h][j2 + h], -1, j2_bit as int);
            let (a00, a10, a01, a11) = (a[j1][j2], a[j1 + h][j2], a[j1][j2 + h], a[j1 + h][j2 + h]);
            if j2_bit == 0 {
                lemma_minus_one_form(a00, a10);
                assert((1 - -1) * (1 - 0) * a00 + -1 * (1 - 0) * a10 + (1 - -1) * 0 * a01 + -1 * 0 * a11 == 2 * a00 - a10) by (nonlinear_arith);
                assert(fa[j1][j2] == fsub(fmul(2, a[j1][j2 + j2_offset]), a[j1 + j1_offset][j2 + j2_offset]));
            } else {
                lemma_minus_one_form(a01, a11);
                assert((1 - -1) * (1 - 1) * a00 + -1 * (1 - 1) * a10 + (1 - -1) * 1 * a01 + -1 * 1 * a11 == 2 * a01 - a11) by (nonlinear_arith);
                assert(fa[j1][j2] == fsub(fmul(2, a[j1][j2 + j2_offset]), a[j1 + j1_offset][j2 + j2_offset]));
            }
            lemma_vals2_range(trace1@, i, j1);
            lemma_vals2_range(trace1@, i, j1 + h);
            lemma_minus_one_form(t1[i][j1], t1[i][j1 + h]);
            lemma_vals2_range(trace2@, i, j2);
            lemma_vals2_range(trace2@, i, j2 + h);
            lemma_lerp_bits(t2[i][j2], t2[i][j2 + h]);
            assert(ft1[i][j1] == fsub(fmul(2, t1[i][j1]), t1[i][j1 + j1_offset]));
            assert(ft2[i][j2] == t2[i][j2 + j2_offset]);
        }
        lemma_sum3_ext(g, tc, I as int, J as int, J as int);
    }
    acc
}

/// The prover's form of the matrix folded at `(r, -1)`.
pub open spec fn matrix_r_minus_one(a00: int, a10: int, a01: int, a11: int, r: int) -> int {
    let s = fsub(1, r);
    fsub(fadd(fsub(fmul(fmul(s, 2), a00), fmul(s, a01)), fmul(fmul(r, 2), a10)), fmul(r, a11))
}

pub proof fn lemma_matrix_r_minus_one(a00: int, a10: int, a01: int, a11: int, r: int)
    requires
        0 <= a00 < p(),
        0 <= a10 < p(),
        0 <= a01 < p(),
        0 <= a11 < p(),
    ensures
        matrix_r_minus_one(a00, a10, a01, a11, r) == bilin(a00, a10, a01, a11, r, -1),
{
    lemma_bilin_poly(a00, a10, a01, a11, r, -1);
    lemma_mul_fe_left(1 - r, 2);
    lemma_mul_fe_left((1 - r) * 2, a00);
    lemma_mul_fe_left(1 - r, a01);
    lemma_sub_fe((1 - r) * 2 * a00, (1 - r) * a01);
    lemma_mul_fe_left(r * 2, a10);
    lemma_add_fe((1 - r) * 2 * a00 - (1 - r) * a01, r * 2 * a10);
    lemma_sub_fe((1 - r) * 2 * a00 - (1 - r) * a01 + r * 2 * a10, r * a11);
    assert((1 - r) * 2 * a00 - (1 - r) * a01 + r * 2 * a10 - r * a11
        == (1 - r) * (1 - -1) * a00 + r * (1 - -1) * a10 + (1 - r) * -1 * a01 + r * -1 * a11) by (nonlinear_arith);
}

/// The partial sum with the top bit of the first column index fixed to the
/// challenge `r1` and that of the second to `-1`.
fn compute_r_minus_one_cols(
    r1: BaseField,
    delta: &Vec<BaseField>,
    matrix: &Vec<Vec<BaseField>>,
    trace1: &Vec<Vec<BaseField>>,
    trace2: &Vec<Vec<BaseField>>,
) -> (r: BaseField)
    requires
        tables_wf(delta@, matrix@, trace1@, trace2@),
        matrix.len() >= 2,
    ensures
        r@ == total(vals(delta@), fold_matrix(vals2(matrix@), r1@, -1),
            fold_cols(vals2(trace1@), r1@), fold_cols(vals2(trace2@), -1)),
{
    let I = delta.len();
    proof {
        lemma_shr1(matrix.len());
        lemma_half_pow2(matrix.len() as int);
    }
    let J = matrix.len() >> 1;
    let offset = J;
    let two = BaseField::from_u64(2);
    let s1 = BaseField::one().sub(r1);
    let coeff1 = s1.mul(two);
    let coeff2 = s1;
    let coeff3 = r1.mul(two);
    let coeff4 = r1;
    let ghost rr = r1@;
    let ghost d = vals(delta@);
    let ghost a = vals2(matrix@);
    let ghost t1 = vals2(trace1@);
    let ghost t2 = vals2(trace2@);
    let ghost g = |i: int, j1: int, j2: int| term(d[i],
        matrix_r_minus_one(a[j1][j2], a[j1 + offset][j2], a[j1][j2 + offset], a[j1 + offset][j2 + offset], rr),
        lerp(t1[i][j1], t1[i][j1 + offset], rr),
        fsub(fmul(2, t2[i][j2]), t2[i][j2 + offset]));
    let ghost f0 = |i: int| sum(|j1: int| sum(|j2: int| g(i, j1, j2), J as int), J as int);
    let mut acc = BaseField::zero();
    let mut i: usize = 0;
    while i < I
        invariant
            0 <= i <= I,
            I == delta.len(),
            J == matrix.len() / 2,
            J * 2 == matrix.len(),
            offset == J,
            tables_wf(delta@, matrix@, trace1@, trace2@),
            two@ == 2,
            rr == r1@,
            s1@ == fsub(1, rr),
            coeff1@ == fmul(s1@, 2),
            coeff2@ == s1@,
            coeff3@ == fmul(rr, 2),
            coeff4@ == rr,
            d == vals(delta@),
            a == vals2(matrix@),
            t1 == vals2(trace1@),
            t2 == vals2(trace2@),
            g == (|i: int, j1: int, j2: int| term(d[i],
                matrix_r_minus_one(a[j1][j2], a[j1 + offset][j2], a[j1][j2 + offset], a[j1 + offset][j2 + offset], rr),
                lerp(t1[i][j1], t1[i][j1 + offset], rr),
                fsub(fmul(2, t2[i][j2]), t2[i][j2 + offset]))),
            f0 == (|i: int| sum(|j1: int| sum(|j2: int| g(i, j1, j2), J as int), J as int)),
            acc@ == fe(sum(f0, i as int)),
        decreases I - i,
    {
        let ghost f1 = |j1: int| sum(|j2: int| g(i as int, j1, j2), J as int);
        let di = delta[i];
        let mut j1: usize = 0;
        while j1 < J
            invariant
                0 <= j1 <= J,
                0 <= i < I,
                I == delta.len(),
                J == matrix.len() / 2,
                J * 2 == matrix.len(),
                offset == J,
                tables_wf(delta@, matrix@, trace1@, trace2@),
                two@ == 2,
                rr == r1@,
                s1@ == fsub(1, rr),
                coeff1@ == fmul(s1@, 2),
                coeff2@ == s1@,
                coeff3@ == fmul(rr, 2),
                coeff4@ == rr,
                di == delta@[i as int],
                d == vals(delta@),
                a == vals2(matrix@),
                t1 == vals2(trace1@),
                t2 == vals2(trace2@),
                g == (|i: int, j1: int, j2: int| term(d[i],
                    matrix_r_minus_one(a[j1][j2], a[j1 + offset][j2], a[j1][j2 + offset], a[j1 + offset][j2 + offset], rr),
                    lerp(t1[i][j1], t1[i][j1 + offset], rr),
                    fsub(fmul(2, t2[i][j2]), t2[i][j2 + offset]))),
                f1 == (|j1: int| sum(|j2: int| g(i as int, j1, j2), J as int)),
                acc@ == fe(sum(f0, i as int) + sum(f1, j1 as int)),
            decreases J - j1,
        {
            let ghost f2 = |j2: int| g(i as int, j1 as int, j2);
            let w1_0 = s1.mul(trace1[i][j1]);
            let w1_1 = r1.mul(trace1[i][j1 + offset]);
            let w1 = w1_0.add(w1_1);
            let mut j2: usize = 0;
            while j2 < J
                invariant
                    0 <= j2 <= J,
                    0 <= j1 < J,
                    0 <= i < I,
                    I == delta.len(),
                    J == matrix.len() / 2,
                    J * 2 == matrix.len(),
                    offset == J,
                    tables_wf(delta@, matrix@, trace1@, trace2@),
                    two@ == 2,
                    rr == r1@,
                    s1@ == fsub(1, rr),
                    coeff1@ == fmul(s1@, 2),
                    coeff2@ == s1@,
                    coeff3@ == fmul(rr, 2),
                    coeff4@ == rr,
                    di == delta@[i as int],
                    w1@ == lerp(t1[i as int][j1 as int], t1[i as int][j1 + offset], rr),
                    d == vals(delta@),
                    a == vals2(matrix@),
                    t1 == vals2(trace1@),
                    t2 == vals2(trace2@),
                    g == (|i: int, j1: int, j2: int| term(d[i],
                        matrix_r_minus_one(a[j1][j2], a[j1 + offset][j2], a[j1][j2 + offset], a[j1 + offset][j2 + offset], rr),
                        lerp(t1[i][j1], t1[i][j1 + offset], rr),
                        fsub(fmul(2, t2[i][j2]), t2[i][j2 + offset]))),
                    f2 == (|j2: int| g(i as int, j1 as int, j2)),
                    acc@ == fe(sum(f0, i as int) + sum(f1, j1 as int) + sum(f2, j2 as int)),
                decreases J - j2,
            {
                let w2_0 = two.mul(trace2[i][j2]);
                let w2_1 = trace2[i][j2 + offset];
                let w2 = w2_0.sub(w2_1);
                let a_1 = coeff1.mul(matrix[j1][j2]);
                let a_2 = coeff2.mul(matrix[j1][j2 + offset]);
                let a_3 = coeff3.mul(matrix[j1 + offset][j2]);
                let a_4 = coeff4.mul(matrix[j1 + offset][j2 + offset]);
                let am = a_1.sub(a_2).add(a_3).sub(a_4);
                let t = di.mul(am).mul(w1).mul(w2);
                proof {
                    assert(d[i as int] == di@);
                    assert(a[j1 as int][j2 as int] == matrix@[j1 as int]@[j2 as int]@);
                    assert(a[j1 as int][j2 + offset] == matrix@[j1 as int]@[j2 + offset]@);
                    assert(a[j1 + offset][j2 as int] == matrix@[j1 + offset]@[j2 as int]@);
                    assert(a[j1 + offset][j2 + offset] == matrix@[j1 + offset]@[j2 + offset]@);
                    assert(t2[i as int][j2 as int] == trace2@[i as int]@[j2 as int]@);
                    assert(t2[i as int][j2 + offset] == w2_1@);
                    assert(t@ == f2(j2 as int));
                    lemma_fsum_step_offset(sum(f0, i as int) + sum(f1, j1 as int), f2, j2 as int);
                }
                acc = acc.add(t);
                j2 = j2 + 1;
            }
            proof {
                assert(f1(j1 as int) == sum(f2, J as int));
                lemma_fsum_step_offset(sum(f0, i as int), f1, j1 as int);
            }
            j1 = j1 + 1;
        }
        proof {
            assert(f0(i as int) == sum(f1, J as int));
            lemma_fsum_step(f0, i as int);
        }
        i = i + 1;
    }
    proof {
        let fa = fold_matrix(a, rr, -1);
        let ft1 = fold_cols(t1, rr);
        let ft2 = fold_cols(t2, -1);
        let tc = |i: int, j1: int, j2: int| term(d[i], fa[j1][j2], ft1[i][j1], ft2[i][j2]);
        assert forall|i: int, j1: int, j2: int| 0 <= i < I && 0 <= j1 < J && 0 <= j2 < J implies
            #[trigger] g(i, j1, j2) == tc(i, j1, j2) by {
            let h = J as int;
            lemma_vals2_range(matrix@, j1, j2);
            lemma_vals2_range(matrix@, j1 + h, j2);
            lemma_vals2_range(matrix@, j1, j2 + h);
            lemma_vals2_range(matrix@, j1 + h, j2 + h);
            lemma_matrix_r_minus_one(a[j1][j2], a[j1 + h][j2], a[j1][j2 + h], a[j1 + h][j2 + h], rr);
            lemma_vals2_range(trace2@, i, j2);
            lemma_vals2_range(trace2@, i, j2 + h);
            lemma_minus_one_form(t2[i][j2], t2[i][j2 + h]);
            assert(ft2[i][j2] == fsub(fmul(2, t2[i][j2]), t2[i][j2 + offset]));
        }
        lemma_sum3_ext(g, tc, I as int, J as int, J as int);
    }
    acc
}

/// The diagonal fold at two equal bits selects an entry.
pub proof fn lemma_diag_bits(d0: int, d1: int)
    requires
        0 <= d0 < p(),
        0 <= d1 < p(),
    ensures
        fadd(fmul(fmul(fsub(1, 0), fsub(1, 0)), d0), fmul(fmul(0, 0), d1)) == d0,
        fadd(fmul(fmul(fsub(1, 1), fsub(1, 1)), d0), fmul(fmul(1, 1), d1)) == d1,
{
    lemma_diag_poly(d0, d1, 0, 0);
    lemma_diag_poly(d0, d1, 1, 1);
    assert((1 - 0) * (1 - 0) * d0 + 0 * 0 * d1 == d0) by (nonlinear_arith);
    assert((1 - 1) * (1 - 1) * d0 + 1 * 1 * d1 == d1) by (nonlinear_arith);
    lemma_fe_small(d0);
    lemma_fe_small(d1);
}

/// The diagonal fold at `(-1, 0)` is twice the first entry, at `(-1, 1)` the
/// negation of the second.
pub proof fn lemma_diag_minus_one(d0: int, d1: int)
    ensures
        fadd(fmul(fmul(fsub(1, -1), fsub(1, 0)), d0), fmul(fmul(-1, 0), d1)) == fmul(2, d0),
        fadd(fmul(fmul(fsub(1, -1), fsub(1, 1)), d0), fmul(fmul(-1, 1), d1)) == fmul(fe(-1), d1),
{
    lemma_diag_poly(d0, d1, -1, 0);
    lemma_diag_poly(d0, d1, -1, 1);
    assert((1 - -1) * (1 - 0) * d0 + -1 * 0 * d1 == 2 * d0) by (nonlinear_arith);
    assert((1 - -1) * (1 - 1) * d0 + -1 * 1 * d1 == -1 * d1) by (nonlinear_arith);
    lemma_mul_fe_left(-1, d1);
}

/// The prover's form of the diagonal folded at `(r, -1)`.
pub proof fn lemma_diag_r_minus_one(d0: int, d1: int, r: int)
    requires
        0 <= d0 < p(),
        0 <= d1 < p(),
    ensures
        fsub(fmul(fmul(2, fsub(1, r)), d0), fmul(r, d1))
            == fadd(fmul(fmul(fsub(1, r), fsub(1, -1)), d0), fmul(fmul(r, -1), d1)),
{
    lemma_diag_poly(d0, d1, r, -1);
    lemma_mul_fe_right(2, 1 - r);
    lemma_mul_fe_left(2 * (1 - r), d0);
    lemma_sub_fe(2 * (1 - r) * d0, r * d1);
    assert(2 * (1 - r) * d0 - r * d1 == (1 - r) * (1 - -1) * d0 + r * -1 * d1) by (nonlinear_arith);
}

/// The partial sum with the top bits of both row points fixed to `i_bit`
/// (with different bits the diagonal factor vanishes).
fn partial_sum_rows(
    i_bit: usize,
    delta: &Vec<BaseField>,
    matrix: &Vec<Vec<BaseField>>,
    trace1: &Vec<Vec<BaseField>>,
    trace2: &Vec<Vec<BaseField>>,
) -> (r: BaseField)
    requires
        tables_wf(delta@, matrix@, trace1@, trace2@),
        delta.len() >= 2,
        i_bit < 2,
    ensures
        r@ == total(fold_diag(vals(delta@), i_bit as int, i_bit as int), vals2(matrix@),
            fold_rows(vals2(trace1@), i_bit as int), fold_rows(vals2(trace2@), i_bit as int)),
{
    proof {
        lemma_shr1(delta.len());
        lemma_half_pow2(delta.len() as int);
    }
    let I = delta.len() >> 1;
    let J = matrix.len();
    let i_offset = if i_bit == 0 { 0 } else { I };
    let ghost d = vals(delta@);
    let ghost a = vals2(matrix@);
    let ghost t1 = vals2(trace1@);
    let ghost t2 = vals2(trace2@);
    let ghost g = |i: int, j1: int, j2: int| term(d[i + i_offset], a[j1][j2], t1[i + i_offset][j1], t2[i + i_offset][j2]);
    let ghost f0 = |i: int| sum(|j1: int| sum(|j2: int| g(i, j1, j2), J as int), J as int);
    let mut acc = BaseField::zero();
    let mut i: usize = i_offset;
    while i < i_offset + I
        invariant
            i_offset <= i <= i_offset + I,
            I * 2 == delta.len(),
            J == matrix.len(),
            tables_wf(delta@, matrix@, trace1@, trace2@),
            i_offset == (if i_bit == 0 { 0 } else { I }),
            d == vals(delta@),
            a == vals2(matrix@),
            t1 == vals2(trace1@),
            t2 == vals2(trace2@),
            g == (|i: int, j1: int, j2: int| term(d[i + i_offset], a[j1][j2], t1[i + i_offset][j1], t2[i + i_offset][j2])),
            f0 == (|i: int| sum(|j1: int| sum(|j2: int| g(i, j1, j2), J as int), J as int)),
            acc@ == fe(sum(f0, i - i_offset)),
        decreases i_offset + I - i,
    {
        let ghost ii: int = i - i_offset;
        let ghost f1 = |j1: int| sum(|j2: int| g(ii, j1, j2), J as int);
        let di = delta[i];
        let mut j1: usize = 0;
        while j1 < J
            invariant
                0 <= j1 <= J,
                i_offset <= i < i_offset + I,
                ii == i - i_offset,
                I * 2 == delta.len(),
                J == matrix.len(),
                tables_wf(delta@, matrix@, trace1@, trace2@),
                i_offset == (if i_bit == 0 { 0 } else { I }),
                di == delta@[i as int],
                d == vals(delta@),
                a == vals2(matrix@),
                t1 == vals2(trace1@),
                t2 == vals2(trace2@),
                g == (|i: int, j1: int, j2: int| term(d[i + i_offset], a[j1][j2], t1[i + i_offset][j1], t2[i + i_offset][j2])),
                f1 == (|j1: int| sum(|j2: int| g(ii, j1, j2), J as int)),
                acc@ == fe(sum(f0, ii) + sum(f1, j1 as int)),
            decreases J - j1,
        {
            let ghost f2 = |j2: int| g(ii, j1 as int, j2);
            let w1 = trace1[i][j1];
            let mut j2: usize = 0;
            while j2 < J
                invariant
                    0 <= j2 <= J,
                    0 <= j1 < J,
                    i_offset <= i < i_offset + I,
                    ii == i - i_offset,
                    I * 2 == delta.len(),
                    J == matrix.len(),
                    tables_wf(delta@, matrix@, trace1@, trace2@),
                    i_offset == (if i_bit == 0 { 0 } else { I }),
                    di == delta@[i as int],
                    w1 == trace1@[i as int]@[j1 as int],
                    d == vals(delta@),
                    a == vals2(matrix@),
                    t1 == vals2(trace1@),
                    t2 == vals2(trace2@),
                    g == (|i: int, j1: int, j2: int| term(d[i + i_offset], a[j1][j2], t1[i + i_offset][j1], t2[i + i_offset][j2])),
                    f2 == (|j2: int| g(ii, j1 as int, j2)),
                    acc@ == fe(sum(f0, ii) + sum(f1, j1 as int) + sum(f2, j2 as int)),
                decreases J - j2,
            {
                let w2 = trace2[i][j2];
                let am = matrix[j1][j2];
                let t = di.mul(am).mul(w1).mul(w2);
                proof {
                    assert(d[i as int] == di@);
                    assert(a[j1 as int][j2 as int] == am@);
                    assert(t1[i as int][j1 as int] == w1@);
                    assert(t2[i as int][j2 as int] == w2@);
                    assert(t@ == f2(j2 as int));
                    lemma_fsum_step_offset(sum(f0, ii) + sum(f1, j1 as int), f2, j2 as int);
                }
                acc = acc.add(t);
                j2 = j2 + 1;
            }
            proof {
                assert(f1(j1 as int) == sum(f2, J as int));
                lemma_fsum_step_offset(sum(f0, ii), f1, j1 as int);
            }
            j1 = j1 + 1;
        }
        proof {
            assert(f0(ii) == sum(f1, J as int));
            lemma_fsum_step(f0, ii);
        }
        i = i + 1;
    }
    proof {
        let x = i_bit as int;
        let fd = fold_diag(d, x, x);
        let ft1 = fold_rows(t1, x);
        let ft2 = fold_rows(t2, x);
        let tc = |i: int, j1: int, j2: int| term(fd[i], a[j1][j2], ft1[i][j1], ft2[i][j2]);
        assert forall|i: int, j1: int, j2: int| 0 <= i < I && 0 <= j1 < J && 0 <= j2 < J implies
            #[trigger] g(i, j1, j2) == tc(i, j1, j2) by {
            let h = I as int;
            lemma_vals_range(delta@, i);
            lemma_vals_range(delta@, i + h);
            lemma_diag_bits(d[i], d[i + h]);
            lemma_vals2_range(trace1@, i, j1);
            lemma_vals2_range(trace1@, i + h, j1);
            lemma_lerp_bits(t1[i][j1], t1[i + h][j1]);
            lemma_vals2_range(trace2@, i, j2);
            lemma_vals2_range(trace2@, i + h, j2);
            lemma_lerp_bits(t2[i][j2], t2[i + h][j2]);
            if i_bit == 0 {
                assert(fd[i] == d[i + i_offset]);
                assert(ft1[i][j1] == t1[i + i_offset][j1]);
                assert(ft2[i][j2] == t2[i + i_offset][j2]);
            } else {
                assert(fd[i] == d[i + i_offset]);
                assert(ft1[i][j1] == t1[i + i_offset][j1]);
                assert(ft2[i][j2] == t2[i + i_offset][j2]);
            }
        }
        lemma_sum3_ext(g, tc, I as int, J as int, J as int);
    }
    acc
}

/// The partial sum with the top bit of the first row point fixed to `-1`
/// and that of the second to `i_bit`.
fn compute_minus_one_rows(
    i_bit: usize,
    delta: &Vec<BaseField>,
    matrix: &Vec<Vec<BaseField>>,
    trace1: &Vec<Vec<BaseField>>,
    trace2: &Vec<Vec<BaseField>>,
) -> (r: BaseField)
    requires
        tables_wf(delta@, matrix@, trace1@, trace2@),
        delta.len() >= 2,
        i_bit < 2,
    ensures
        r@ == total(fold_diag(vals(delta@), -1, i_bit as int), vals2(matrix@),
            fold_rows(vals2(trace1@), -1), fold_rows(vals2(trace2@), i_bit as int)),
{
    proof {
        lemma_shr1(delta.len());
        lemma_half_pow2(delta.len() as int);
    }
    let I = delta.len() >> 1;
    let J = matrix.len();
    let i_offset = I;
    let maybe_offset = if i_bit == 0 { 0 } else { i_offset };
    let two = BaseField::from_u64(2);
    let minus_one = BaseField::from_i64(-1);
    let delta_coeff = if maybe_offset == 0 { two } else { minus_one };
    let ghost d = vals(delta@);
    let ghost a = vals2(matrix@);
    let ghost t1 = vals2(trace1@);
    let ghost t2 = vals2(trace2@);
    let ghost g = |i: int, j1: int, j2: int| term(d[i + maybe_offset], a[j1][j2],
        fsub(fmul(2, t1[i][j1]), t1[i + i_offset][j1]), t2[i + maybe_offset][j2]);
    let ghost f0 = |i: int| sum(|j1: int| sum(|j2: int| g(i, j1, j2), J as int), J as int);
    let mut acc = BaseField::zero();
    let mut i: usize = 0;
    while i < I
        invariant
            0 <= i <= I,
            I * 2 == delta.len(),
            J == matrix.len(),
            i_offset == I,
            tables_wf(delta@, matrix@, trace1@, trace2@),
            two@ == 2,
            d == vals(delta@),
            a == vals2(matrix@),
            t1 == vals2(trace1@),
            t2 == vals2(trace2@),
            maybe_offset == (if i_bit == 0 { 0 } else { I }),
            g == (|i: int, j1: int, j2: int| term(d[i + maybe_offset], a[j1][j2],
                fsub(fmul(2, t1[i][j1]), t1[i + i_offset][j1]), t2[i + maybe_offset][j2])),
            f0 == (|i: int| sum(|j1: int| sum(|j2: int| g(i, j1, j2), J as int), J as int)),
            acc@ == fe(sum(f0, i as int)),
        decreases I - i,
    {
        let ghost f1 = |j1: int| sum(|j2: int| g(i as int, j1, j2), J as int);
        let di = delta[i + maybe_offset];
        let mut j1: usize = 0;
        while j1 < J
            invariant
                0 <= j1 <= J,
                0 <= i < I,
            I * 2 == delta.len(),
            J == matrix.len(),
            i_offset == I,
            tables_wf(delta@, matrix@, trace1@, trace2@),
            two@ == 2,
            d == vals(delta@),
            a == vals2(matrix@),
            t1 == vals2(trace1@),
            t2 == vals2(trace2@),
                maybe_offset == (if i_bit == 0 { 0 } else { I }),
                di == delta@[i + maybe_offset],
                g == (|i: int, j1: int, j2: int| term(d[i + maybe_offset], a[j1][j2],
                    fsub(fmul(2, t1[i][j1]), t1[i + i_offset][j1]), t2[i + maybe_offset][j2])),
                f1 == (|j1: int| sum(|j2: int| g(i as int, j1, j2), J as int)),
                acc@ == fe(sum(f0, i as int) + sum(f1, j1 as int)),
            decreases J - j1,
        {
            let ghost f2 = |j2: int| g(i as int, j1 as int, j2);
            let w1 = two.mul(trace1[i][j1]).sub(trace1[i + i_offset][j1]);
            let mut j2: usize = 0;
            while j2 < J
                invariant
                    0 <= j2 <= J,
                    0 <= j1 < J,
                    0 <= i < I,
            I * 2 == delta.len(),
            J == matrix.len(),
            i_offset == I,
            tables_wf(delta@, matrix@, trace1@, trace2@),
            two@ == 2,
            d == vals(delta@),
            a == vals2(matrix@),
            t1 == vals2(trace1@),
            t2 == vals2(trace2@),
                    maybe_offset == (if i_bit == 0 { 0 } else { I }),
                    di == delta@[i + maybe_offset],
                    w1@ == fsub(fmul(2, t1[i as int][j1 as int]), t1[i + i_offset][j1 as int]),
                    g == (|i: int, j1: int, j2: int| term(d[i + maybe_offset], a[j1][j2],
                        fsub(fmul(2, t1[i][j1]), t1[i + i_offset][j1]), t2[i + maybe_offset][j2])),
                    f2 == (|j2: int| g(i as int, j1 as int, j2)),
                    acc@ == fe(sum(f0, i as int) + sum(f1, j1 as int) + sum(f2, j2 as int)),
                decreases J - j2,
            {
                let w2 = trace2[i + maybe_offset][j2];
                let am = matrix[j1][j2];
                let t = di.mul(am).mul(w1).mul(w2);
                proof {
                    assert(d[i + maybe_offset] == di@);
                    assert(a[j1 as int][j2 as int] == am@);
                    assert(t1[i as int][j1 as int] == trace1@[i as int]@[j1 as int]@);
                    assert(t1[i + i_offset][j1 as int] == trace1@[i + i_offset]@[j1 as int]@);
                    assert(t2[i + maybe_offset][j2 as int] == w2@);
                    assert(t@ == f2(j2 as int));
                    lemma_fsum_step_offset(sum(f0, i as int) + sum(f1, j1 as int), f2, j2 as int);
                }
                acc = acc.add(t);
                j2 = j2 + 1;
            }
            proof {
                assert(f1(j1 as int) == sum(f2, J as int));
                lemma_fsum_step_offset(sum(f0, i as int), f1, j1 as int);
            }
            j1 = j1 + 1;
        }
        proof {
            assert(f0(i as int) == sum(f1, J as int));
            lemma_fsum_step(f0, i as int);
        }
        i = i + 1;
    }
    let r = delta_coeff.mul(acc);
    proof {
        let y = i_bit as int;
        let k = delta_coeff@;
        let fd = fold_diag(d, -1, y);
        let ft1 = fold_rows(t1, -1);
        let ft2 = fold_rows(t2, y);
        let tc = |i: int, j1: int, j2: int| term(fd[i], a[j1][j2], ft1[i][j1], ft2[i][j2]);
        let kg = |i: int, j1: int, j2: int| fmul(k, g(i, j1, j2));
        assert forall|i: int, j1: int, j2: int| 0 <= i < I && 0 <= j1 < J && 0 <= j2 < J implies
            #[trigger] kg(i, j1, j2) == tc(i, j1, j2) by {
            let h = I as int;
            lemma_diag_minus_one(d[i], d[i + h]);
            lemma_vals2_range(trace1@, i, j1);
            lemma_vals2_range(trace1@, i + h, j1);
            lemma_minus_one_form(t1[i][j1], t1[i + h][j1]);
            lemma_vals2_range(trace2@, i, j2);
            lemma_vals2_range(trace2@, i + h, j2);
            lemma_lerp_bits(t2[i][j2], t2[i + h][j2]);
            assert(ft1[i][j1] == fsub(fmul(2, t1[i][j1]), t1[i + i_offset][j1]));
            if i_bit == 0 {
                assert(fd[i] == fmul(k, d[i + maybe_offset]));
                assert(ft2[i][j2] == t2[i + maybe_offset][j2]);
            } else {
                assert(fd[i] == fmul(k, d[i + maybe_offset]));
                assert(ft2[i][j2] == t2[i + maybe_offset][j2]);
            }
            lemma_term_scale(k, d[i + maybe_offset], a[j1][j2], ft1[i][j1], ft2[i][j2]);
        }
        lemma_sum3_ext(kg, tc, I as int, J as int, J as int);
        lemma_sum3_scale(g, k, I as int, J as int, J as int);
    }
    r
}

/// The partial sum with the top bit of the first row point fixed to the
/// challenge `r1` and that of the second to `-1`.
fn compute_r_minus_one_rows(
    r1: BaseField,
    delta: &Vec<BaseField>,
    matrix: &Vec<Vec<BaseField>>,
    trace1: &Vec<Vec<BaseField>>,
    trace2: &Vec<Vec<BaseField>>,
) -> (r: BaseField)
    requires
        tables_wf(delta@, matrix@, trace1@, trace2@),
        delta.len() >= 2,
    ensures
        r@ == total(fold_diag(vals(delta@), r1@, -1), vals2(matrix@),
            fold_rows(vals2(trace1@), r1@), fold_rows(vals2(trace2@), -1)),
{
    proof {
        lemma_shr1(delta.len());
        lemma_half_pow2(delta.len() as int);
    }
    let I = delta.len() >> 1;
    let J = matrix.len();
    let i_offset = I;
    let two = BaseField::from_u64(2);
    let s1 = BaseField::one().sub(r1);
    let coeff1 = two.mul(s1);
    let coeff2 = r1;
    let ghost rr = r1@;
    let ghost d = vals(delta@);
    let ghost a = vals2(matrix@);
    let ghost t1 = vals2(trace1@);
    let ghost t2 = vals2(trace2@);
    let ghost g = |i: int, j1: int, j2: int| term(fsub(fmul(fmul(2, fsub(1, rr)), d[i]), fmul(rr, d[i + i_offset])),
        a[j1][j2], lerp(t1[i][j1], t1[i + i_offset][j1], rr), fsub(fmul(2, t2[i][j2]), t2[i + i_offset][j2]));
    let ghost f0 = |i: int| sum(|j1: int| sum(|j2: int| g(i, j1, j2), J as int), J as int);
    let mut acc = BaseField::zero();
    let mut i: usize = 0;
    while i < I
        invariant
            0 <= i <= I,
            I * 2 == delta.len(),
            J == matrix.len(),
            i_offset == I,
            tables_wf(delta@, matrix@, trace1@, trace2@),
            two@ == 2,
            d == vals(delta@),
            a == vals2(matrix@),
            t1 == vals2(trace1@),
            t2 == vals2(trace2@),
            rr == r1@,
            s1@ == fsub(1, rr),
            coeff1@ == fmul(2, s1@),
            coeff2@ == rr,
            g == (|i: int, j1: int, j2: int| term(fsub(fmul(fmul(2, fsub(1, rr)), d[i]), fmul(rr, d[i + i_offset])),
                a[j1][j2], lerp(t1[i][j1], t1[i + i_offset][j1], rr), fsub(fmul(2, t2[i][j2]), t2[i + i_offset][j2]))),
            f0 == (|i: int| sum(|j1: int| sum(|j2: int| g(i, j1, j2), J as int), J as int)),
            acc@ == fe(sum(f0, i as int)),
        decreases I - i,
    {
        let ghost f1 = |j1: int| sum(|j2: int| g(i as int, j1, j2), J as int);
        let di = coeff1.mul(delta[i]).sub(coeff2.mul(delta[i + i_offset]));
        let mut j1: usize = 0;
        while j1 < J
            invariant
                0 <= j1 <= J,
                0 <= i < I,
            I * 2 == delta.len(),
            J == matrix.len(),
            i_offset == I,
            tables_wf(delta@, matrix@, trace1@, trace2@),
            two@ == 2,
            d == vals(delta@),
            a == vals2(matrix@),
            t1 == vals2(trace1@),
            t2 == vals2(trace2@),
                rr == r1@,
                s1@ == fsub(1, rr),
                di@ == fsub(fmul(fmul(2, fsub(1, rr)), d[i as int]), fmul(rr, d[i + i_offset])),
                g == (|i: int, j1: int, j2: int| term(fsub(fmul(fmul(2, fsub(1, rr)), d[i]), fmul(rr, d[i + i_offset])),
                    a[j1][j2], lerp(t1[i][j1], t1[i + i_offset][j1], rr), fsub(fmul(2, t2[i][j2]), t2[i + i_offset][j2]))),
                f1 == (|j1: int| sum(|j2: int| g(i as int, j1, j2), J as int)),
                acc@ == fe(sum(f0, i as int) + sum(f1, j1 as int)),
            decreases J - j1,
        {
            let ghost f2 = |j2: int| g(i as int, j1 as int, j2);
            let w1 = s1.mul(trace1[i][j1]).add(r1.mul(trace1[i + i_offset][j1]));
            let mut j2: usize = 0;
            while j2 < J
                invariant
                    0 <= j2 <= J,
                    0 <= j1 < J,
                    0 <= i < I,
            I * 2 == delta.len(),
            J == matrix.len(),
            i_offset == I,
            tables_wf(delta@, matrix@, trace1@, trace2@),
            two@ == 2,
            d == vals(delta@),
            a == vals2(matrix@),
            t1 == vals2(trace1@),
            t2 == vals2(trace2@),
                    rr == r1@,
                    di@ == fsub(fmul(fmul(2, fsub(1, rr)), d[i as int]), fmul(rr, d[i + i_offset])),
                    w1@ == lerp(t1[i as int][j1 as int], t1[i + i_offset][j1 as int], rr),
                    g == (|i: int, j1: int, j2: int| term(fsub(fmul(fmul(2, fsub(1, rr)), d[i]), fmul(rr, d[i + i_offset])),
                        a[j1][j2], lerp(t1[i][j1], t1[i + i_offset][j1], rr), fsub(fmul(2, t2[i][j2]), t2[i + i_offset][j2]))),
                    f2 == (|j2: int| g(i as int, j1 as int, j2)),
                    acc@ == fe(sum(f0, i as int) + sum(f1, j1 as int) + sum(f2, j2 as int)),
                decreases J - j2,
            {
                let w2 = two.mul(trace2[i][j2]).sub(trace2[i + i_offset][j2]);
                let am = matrix[j1][j2];
                let t = di.mul(am).mul(w1).mul(w2);
                proof {
                    assert(a[j1 as int][j2 as int] == am@);
                    assert(t2[i as int][j2 as int] == trace2@[i as int]@[j2 as int]@);
                    assert(t2[i + i_offset][j2 as int] == trace2@[i + i_offset]@[j2 as int]@);
                    assert(t@ == f2(j2 as int));
                    lemma_fsum_step_offset(sum(f0, i as int) + sum(f1, j1 as int), f2, j2 as int);
                }
                acc = acc.add(t);
                j2 = j2 + 1;
            }
            proof {
                assert(f1(j1 as int) == sum(f2, J as int));
                lemma_fsum_step_offset(sum(f0, i as int), f1, j1 as int);
            }
            j1 = j1 + 1;
        }
        proof {
            assert(f0(i as int) == sum(f1, J as int));
            lemma_fsum_step(f0, i as int);
        }
        i = i + 1;
    }
    proof {
        let fd = fold_diag(d, rr, -1);
        let ft2 = fold_rows(t2, -1);
        let ft1 = fold_rows(t1, rr);
        let tc = |i: int, j1: int, j2: int| term(fd[i], a[j1][j2], ft1[i][j1], ft2[i][j2]);
        assert forall|i: int, j1: int, j2: int| 0 <= i < I && 0 <= j1 < J && 0 <= j2 < J implies
            #[trigger] g(i, j1, j2) == tc(i, j1, j2) by {
            let h = I as int;
            lemma_vals_range(delta@, i);
            lemma_vals_range(delta@, i + h);
            lemma_diag_r_minus_one(d[i], d[i + h], rr);
            lemma_vals2_range(trace2@, i, j2);
            lemma_vals2_range(trace2@, i + h, j2);
            lemma_minus_one_form(t2[i][j2], t2[i + h][j2]);
        }
        lemma_sum3_ext(g, tc, I as int, J as int, J as int);
    }
    acc
}

/// A row with its top column variable fixed to `r`.
fn fold_row(row: &Vec<BaseField>, s: BaseField, r: BaseField, half: usize) -> (out: Vec<BaseField>)
    requires
        row.len() == 2 * half,
        s@ == fsub(1, r@),
    ensures
        vals(out@) == fold_vec(vals(row@), r@),
        out.len() == half,
{
    let mut out: Vec<BaseField> = Vec::new();
    let mut j: usize = 0;
    while j < half
        invariant
            0 <= j <= half,
            row.len() == 2 * half,
            s@ == fsub(1, r@),
            out.len() == j,
            forall|m: int| 0 <= m < j ==> (#[trigger] out@[m])@ == lerp(row@[m]@, row@[m + half]@, r@),
        decreases half - j,
    {
        out.push(s.mul(row[j]).add(r.mul(row[j + half])));
        j = j + 1;
    }
    proof {
        assert(vals(out@) =~= fold_vec(vals(row@), r@));
    }
    out
}

/// Fixes the top variable of both row points: the first to `r1`, the second
/// to `r2`.
fn fold_matrices_row(
    r1: BaseField,
    r2: BaseField,
    delta: &mut Vec<BaseField>,
    matrix: &Vec<Vec<BaseField>>,
    trace1: &mut Vec<Vec<BaseField>>,
    trace2: &mut Vec<Vec<BaseField>>,
)
    requires
        tables_wf(old(delta)@, matrix@, old(trace1)@, old(trace2)@),
        old(delta).len() >= 2,
    ensures
        tables_wf(final(delta)@, matrix@, final(trace1)@, final(trace2)@),
        final(delta).len() * 2 == old(delta).len(),
        vals(final(delta)@) == fold_diag(vals(old(delta)@), r1@, r2@),
        vals2(final(trace1)@) == fold_rows(vals2(old(trace1)@), r1@),
        vals2(final(trace2)@) == fold_rows(vals2(old(trace2)@), r2@),
{
    proof {
        lemma_shr1(delta.len());
        lemma_half_pow2(delta.len() as int);
    }
    let I = delta.len() >> 1;
    let J = matrix.len();
    let i_offset = I;
    let one = BaseField::one();
    let s1 = one.sub(r1);
    let s2 = one.sub(r2);
    let coeff1 = s1.mul(s2);
    let coeff4 = r1.mul(r2);
    let ghost d = vals(delta@);
    let ghost t1 = vals2(trace1@);
    let ghost t2 = vals2(trace2@);
    let ghost od = delta@;
    let ghost ot1 = trace1@;
    let ghost ot2 = trace2@;
    let mut i: usize = 0;
    while i < I
        invariant
            0 <= i <= I,
            I * 2 == od.len(),
            i_offset == I,
            J == matrix.len(),
            tables_wf(od, matrix@, ot1, ot2),
            delta.len() == od.len(),
            trace1.len() == ot1.len(),
            trace2.len() == ot2.len(),
            d == vals(od),
            t1 == vals2(ot1),
            t2 == vals2(ot2),
            s1@ == fsub(1, r1@),
            s2@ == fsub(1, r2@),
            coeff1@ == fmul(fsub(1, r1@), fsub(1, r2@)),
            coeff4@ == fmul(r1@, r2@),
            forall|m: int| 0 <= m < i ==> (#[trigger] delta@[m])@ == fold_diag(d, r1@, r2@)[m],
            forall|m: int| i <= m < delta.len() ==> #[trigger] delta@[m] == od[m],
            forall|m: int| 0 <= m < i ==> vals((#[trigger] trace1@[m])@) == fold_rows(t1, r1@)[m],
            forall|m: int| i <= m < trace1.len() ==> #[trigger] trace1@[m] == ot1[m],
            forall|m: int| 0 <= m < i ==> vals((#[trigger] trace2@[m])@) == fold_rows(t2, r2@)[m],
            forall|m: int| i <= m < trace2.len() ==> #[trigger] trace2@[m] == ot2[m],
            forall|m: int| 0 <= m < trace1.len() ==> (#[trigger] trace1@[m]).len() == J,
            forall|m: int| 0 <= m < trace2.len() ==> (#[trigger] trace2@[m]).len() == J,
        decreases I - i,
    {
        let v = coeff1.mul(delta[i]).add(coeff4.mul(delta[i + i_offset]));
        delta.set(i, v);
        let mut row1: Vec<BaseField> = Vec::new();
        let mut row2: Vec<BaseField> = Vec::new();
        let mut j: usize = 0;
        while j < J
            invariant
                0 <= j <= J,
                0 <= i < I,
                I * 2 == od.len(),
                i_offset == I,
                J == matrix.len(),
                trace1.len() == ot1.len(),
                trace2.len() == ot2.len(),
                t1 == vals2(ot1),
                t2 == vals2(ot2),
                tables_wf(od, matrix@, ot1, ot2),
                trace1@[i + i_offset] == ot1[i + i_offset],
                trace2@[i + i_offset] == ot2[i + i_offset],
                trace1@[i as int] == ot1[i as int],
                trace2@[i as int] == ot2[i as int],
                s1@ == fsub(1, r1@),
                s2@ == fsub(1, r2@),
                row1.len() == j,
                row2.len() == j,
                forall|m: int| 0 <= m < j ==> (#[trigger] row1@[m])@ == lerp(t1[i as int][m], t1[i + i_offset][m], r1@),
                forall|m: int| 0 <= m < j ==> (#[trigger] row2@[m])@ == lerp(t2[i as int][m], t2[i + i_offset][m], r2@),
            decreases J - j,
        {
            proof {
                assert(t1[i as int][j as int] == ot1[i as int]@[j as int]@);
                assert(t1[i + i_offset][j as int] == ot1[i + i_offset]@[j as int]@);
                assert(t2[i as int][j as int] == ot2[i as int]@[j as int]@);
                assert(t2[i + i_offset][j as int] == ot2[i + i_offset]@[j as int]@);
            }
            row1.push(s1.mul(trace1[i][j]).add(r1.mul(trace1[i + i_offset][j])));
            row2.push(s2.mul(trace2[i][j]).add(r2.mul(trace2[i + i_offset][j])));
            j = j + 1;
        }
        proof {
            assert(vals(row1@) =~= fold_rows(t1, r1@)[i as int]);
            assert(vals(row2@) =~= fold_rows(t2, r2@)[i as int]);
            assert(v@ == fold_diag(d, r1@, r2@)[i as int]);
        }
        trace1.set(i, row1);
        trace2.set(i, row2);
        i = i + 1;
    }
    delta.truncate(I);
    trace1.truncate(I);
    trace2.truncate(I);
    proof {
        assert(vals(delta@) =~= fold_diag(d, r1@, r2@));
        assert(vals2(trace1@) =~= fold_rows(t1, r1@));
        assert(vals2(trace2@) =~= fold_rows(t2, r2@));
        lemma_half_pow2(od.len() as int);
    }
}

/// Fixes the top variable of both column points: the first to `r1`, the
/// second to `r2`.
fn fold_matrices_col(
    r1: BaseField,
    r2: BaseField,
    delta: &Vec<BaseField>,
    matrix: &mut Vec<Vec<BaseField>>,
    trace1: &mut Vec<Vec<BaseField>>,
    trace2: &mut Vec<Vec<BaseField>>,
)
    requires
        tables_wf(delta@, old(matrix)@, old(trace1)@, old(trace2)@),
        old(matrix).len() >= 2,
    ensures
        tables_wf(delta@, final(matrix)@, final(trace1)@, final(trace2)@),
        final(matrix).len() * 2 == old(matrix).len(),
        vals2(final(matrix)@) == fold_matrix(vals2(old(matrix)@), r1@, r2@),
        vals2(final(trace1)@) == fold_cols(vals2(old(trace1)@), r1@),
        vals2(final(trace2)@) == fold_cols(vals2(old(trace2)@), r2@),
{
    proof {
        lemma_shr1(matrix.len());
        lemma_half_pow2(matrix.len() as int);
    }
    let I = delta.len();
    let J = matrix.len() >> 1;
    let j_offset = J;
    let one = BaseField::one();
    let s1 = one.sub(r1);
    let s2 = one.sub(r2);
    let coeff1 = s1.mul(s2);
    let coeff2 = r1.mul(s2);
    let coeff3 = s1.mul(r2);
    let coeff4 = r1.mul(r2);
    let ghost a = vals2(matrix@);
    let ghost t1 = vals2(trace1@);
    let ghost t2 = vals2(trace2@);
    let ghost om = matrix@;
    let ghost ot1 = trace1@;
    let ghost ot2 = trace2@;
    let mut i: usize = 0;
    while i < I
        invariant
            0 <= i <= I,
            I == delta.len(),
            J * 2 == om.len(),
            tables_wf(delta@, om, ot1, ot2),
            matrix@ == om,
            trace1.len() == ot1.len(),
            trace2.len() == ot2.len(),
            t1 == vals2(ot1),
            t2 == vals2(ot2),
            s1@ == fsub(1, r1@),
            s2@ == fsub(1, r2@),
            forall|m: int| 0 <= m < i ==> vals((#[trigger] trace1@[m])@) == fold_cols(t1, r1@)[m],
            forall|m: int| i <= m < trace1.len() ==> #[trigger] trace1@[m] == ot1[m],
            forall|m: int| 0 <= m < i ==> vals((#[trigger] trace2@[m])@) == fold_cols(t2, r2@)[m],
            forall|m: int| i <= m < trace2.len() ==> #[trigger] trace2@[m] == ot2[m],
            forall|m: int| 0 <= m < i ==> (#[trigger] trace1@[m]).len() == J,
            forall|m: int| 0 <= m < i ==> (#[trigger] trace2@[m]).len() == J,
        decreases I - i,
    {
        let row1 = fold_row(&trace1[i], s1, r1, J);
        let row2 = fold_row(&trace2[i], s2, r2, J);
        proof {
            assert(vals(ot1[i as int]@) == t1[i as int]);
            assert(vals(ot2[i as int]@) == t2[i as int]);
        }
        trace1.set(i, row1);
        trace2.set(i, row2);
        i = i + 1;
    }
    let mut j1: usize = 0;
    while j1 < J
        invariant
            0 <= j1 <= J,
            J * 2 == om.len(),
            j_offset == J,
            tables_wf(delta@, om, ot1, ot2),
            matrix.len() == om.len(),
            a == vals2(om),
            coeff1@ == fmul(fsub(1, r1@), fsub(1, r2@)),
            coeff2@ == fmul(r1@, fsub(1, r2@)),
            coeff3@ == fmul(fsub(1, r1@), r2@),
            coeff4@ == fmul(r1@, r2@),
            forall|m: int| 0 <= m < j1 ==> vals((#[trigger] matrix@[m])@) == fold_matrix(a, r1@, r2@)[m],
            forall|m: int| j1 <= m < matrix.len() ==> #[trigger] matrix@[m] == om[m],
            forall|m: int| 0 <= m < j1 ==> (#[trigger] matrix@[m]).len() == J,
        decreases J - j1,
    {
        let mut row: Vec<BaseField> = Vec::new();
        let mut j2: usize = 0;
        while j2 < J
            invariant
                0 <= j2 <= J,
                0 <= j1 < J,
                J * 2 == om.len(),
                tables_wf(delta@, om, ot1, ot2),
                matrix.len() == om.len(),
                matrix@[j1 as int] == om[j1 as int],
                matrix@[j1 + j_offset] == om[j1 + j_offset],
                j_offset == J,
                a == vals2(om),
                coeff1@ == fmul(fsub(1, r1@), fsub(1, r2@)),
                coeff2@ == fmul(r1@, fsub(1, r2@)),
                coeff3@ == fmul(fsub(1, r1@), r2@),
                coeff4@ == fmul(r1@, r2@),
                row.len() == j2,
                forall|m: int| 0 <= m < j2 ==> (#[trigger] row@[m])@ == fold_matrix(a, r1@, r2@)[j1 as int][m],
            decreases J - j2,
        {
            let v = coeff1.mul(matrix[j1][j2])
                .add(coeff2.mul(matrix[j1 + j_offset][j2]))
                .add(coeff3.mul(matrix[j1][j2 + j_offset]))
                .add(coeff4.mul(matrix[j1 + j_offset][j2 + j_offset]));
            proof {
                assert(a[j1 as int][j2 as int] == om[j1 as int]@[j2 as int]@);
                assert(a[j1 + j_offset][j2 as int] == om[j1 + j_offset]@[j2 as int]@);
                assert(a[j1 as int][j2 + j_offset] == om[j1 as int]@[j2 + j_offset]@);
                assert(a[j1 + j_offset][j2 + j_offset] == om[j1 + j_offset]@[j2 + j_offset]@);
            }
            row.push(v);
            j2 = j2 + 1;
        }
        proof {
            assert(vals(row@) =~= fold_matrix(a, r1@, r2@)[j1 as int]);
        }
        matrix.set(j1, row);
        j1 = j1 + 1;
    }
    matrix.truncate(J);
    proof {
        assert(vals2(matrix@) =~= fold_matrix(a, r1@, r2@));
        assert(vals2(trace1@) =~= fold_cols(t1, r1@));
        assert(vals2(trace2@) =~= fold_cols(t2, r2@));
        lemma_half_pow2(om.len() as int);
    }
}

/// The tables of the prover: the diagonal factor, the batched constraint
/// matrix, and the trace once for each of the two row/column points.
pub type Tables = (Seq<int>, Seq<Seq<int>>, Seq<Seq<int>>, Seq<Seq<int>>);

/// The sum over the remaining hypercube with the top variables of a round
/// fixed: in a column round the two column points' to `x` and `y`, in a row
/// round the two row points'.
pub open spec fn partial(st: Tables, is_col: bool, x: int, y: int) -> int {
    if is_col {
        total(st.0, fold_matrix(st.1, x, y), fold_cols(st.2, x), fold_cols(st.3, y))
    } else {
        total(fold_diag(st.0, x, y), st.1, fold_rows(st.2, x), fold_rows(st.3, y))
    }
}

/// The tables with the top variables of a round fixed to `r1` and `r2`.
pub open spec fn fold_tables(st: Tables, is_col: bool, r1: int, r2: int) -> Tables {
    if is_col {
        (st.0, fold_matrix(st.1, r1, r2), fold_cols(st.2, r1), fold_cols(st.3, r2))
    } else {
        (fold_diag(st.0, r1, r2), st.1, fold_rows(st.2, r1), fold_rows(st.3, r2))
    }
}

/// The two quadratics that a round sends, each by its values at `0`, `1`
/// and `-1`: the first in the first point's variable, the second in the
/// second point's once the first is fixed to `r1`. The value at `1` of the
/// corner where both variables are one is taken from the claim `prev`; in a
/// row round the off-diagonal corners are zero.
pub open spec fn round_evals(st: Tables, is_col: bool, prev: int, r1: int) -> ((int, int, int), (int, int, int)) {
    let a00 = partial(st, is_col, 0, 0);
    let a01 = if is_col { partial(st, is_col, 0, 1) } else { 0 };
    let a10 = if is_col { partial(st, is_col, 1, 0) } else { 0 };
    let a11 = fsub(fsub(fsub(prev, a00), a01), a10);
    let b0 = partial(st, is_col, -1, 0);
    let b1 = partial(st, is_col, -1, 1);
    (
        (fadd(a00, a01), fadd(a10, a11), fadd(b0, b1)),
        (through(a00, a10, b0, r1), through(a01, a11, b1, r1), partial(st, is_col, r1, -1)),
    )
}

/// The first `k` rounds of the prover from the tables `st0` and the claim
/// `prev0`, with challenges `rs` (two per round) and `sched[k]` telling
/// whether round `k` is a column round: the quadratics sent, the tables
/// left, and the claim left.
pub open spec fn run(st0: Tables, prev0: int, rs: Seq<int>, sched: Seq<bool>, k: nat) -> (Seq<(int, int, int)>, Tables, int)
    decreases k,
{
    if k == 0 {
        (Seq::empty(), st0, prev0)
    } else {
        let prior = run(st0, prev0, rs, sched, (k - 1) as nat);
        let is_col = sched[k - 1];
        let r1 = rs[2 * k - 2];
        let r2 = rs[2 * k - 1];
        let evals = round_evals(prior.1, is_col, prior.2, r1);
        let p2 = evals.1;
        (prior.0.push(evals.0).push(p2), fold_tables(prior.1, is_col, r1, r2), through(p2.0, p2.1, p2.2, r2))
    }
}

/// The coefficients of the quadratic with the values `e` at `0`, `1`, `-1`.
pub open spec fn coeffs_of(e: (int, int, int)) -> (int, int, int) {
    (e.0, through_linear(e.1, e.2), through_square(e.0, e.1, e.2))
}

/// The coefficients of a quadratic.
pub open spec fn poly_view(q: SquarePolynomial<BaseField>) -> (int, int, int) {
    (q.coeffs[0]@, q.coeffs[1]@, q.coeffs[2]@)
}

pub open spec fn polys_view(qs: Seq<SquarePolynomial<BaseField>>) -> Seq<(int, int, int)> {
    qs.map_values(|q: SquarePolynomial<BaseField>| poly_view(q))
}

pub open spec fn coeffs_seq(es: Seq<(int, int, int)>) -> Seq<(int, int, int)> {
    es.map_values(|e: (int, int, int)| coeffs_of(e))
}

/// The field values of the prover's tables.
pub open spec fn tables_view(d: Seq<BaseField>, a: Seq<Vec<BaseField>>, t1: Seq<Vec<BaseField>>, t2: Seq<Vec<BaseField>>) -> Tables {
    (vals(d), vals2(a), vals2(t1), vals2(t2))
}

impl<const I: usize, const J: usize, const K: usize> BQCS<I, J, K> {
    /// One column round of the prover.
    fn col_round(
        &mut self,
        previous_sum: BaseField,
        delta: &Vec<BaseField>,
        matrix: &mut Vec<Vec<BaseField>>,
        trace1: &mut Vec<Vec<BaseField>>,
        trace2: &mut Vec<Vec<BaseField>>,
        pols: &mut Vec<SquarePolynomial<BaseField>>,
    ) -> (r: (BaseField, BaseField, BaseField))
        requires
            tables_wf(delta@, old(matrix)@, old(trace1)@, old(trace2)@),
            old(matrix).len() >= 2,
        ensures
            ({
                let st = tables_view(delta@, old(matrix)@, old(trace1)@, old(trace2)@);
                let evals = round_evals(st, true, previous_sum@, r.1@);
                &&& polys_view(final(pols)@) == polys_view(old(pols)@).push(coeffs_of(evals.0)).push(coeffs_of(evals.1))
                &&& tables_view(delta@, final(matrix)@, final(trace1)@, final(trace2)@) == fold_tables(st, true, r.1@, r.2@)
                &&& r.0@ == through(evals.1.0, evals.1.1, evals.1.2, r.2@)
            }),
            tables_wf(delta@, final(matrix)@, final(trace1)@, final(trace2)@),
            final(matrix).len() * 2 == old(matrix).len(),
            final(self).delta == old(self).delta,
            final(self).trace == old(self).trace,
            final(self).matrix == old(self).matrix,
            final(self).drawn@ == old(self).drawn@.push(r.1@).push(r.2@),
    {
        let a00 = partial_sum_cols(0, 0, delta, matrix, trace1, trace2);
        let a01 = partial_sum_cols(0, 1, delta, matrix, trace1, trace2);
        let a10 = partial_sum_cols(1, 0, delta, matrix, trace1, trace2);
        let a11 = previous_sum.sub(a00).sub(a01).sub(a10);
        let b0 = compute_minus_one_cols(0, delta, matrix, trace1, trace2);
        let b1 = compute_minus_one_cols(1, delta, matrix, trace1, trace2);
        let pol1 = SquarePolynomialEval { zero: a00.add(a01), one: a10.add(a11), minus_one: b0.add(b1) };
        let r1 = self.random();
        let minus_one = compute_r_minus_one_cols(r1, delta, matrix, trace1, trace2);
        let zero = SquarePolynomialEval { zero: a00, one: a10, minus_one: b0 }.evaluate(r1);
        let one = SquarePolynomialEval { zero: a01, one: a11, minus_one: b1 }.evaluate(r1);
        let pol2 = SquarePolynomialEval { zero, one, minus_one };
        let r2 = self.random();
        pols.push(pol1.to_polynomial());
        pols.push(pol2.to_polynomial());
        let next_sum = pol2.evaluate(r2);
        fold_matrices_col(r1, r2, delta, matrix, trace1, trace2);
        proof {
            assert(polys_view(pols@) =~= polys_view(old(pols)@).push(coeffs_of((pol1.zero@, pol1.one@, pol1.minus_one@))).push(coeffs_of((pol2.zero@, pol2.one@, pol2.minus_one@))));
        }
        (next_sum, r1, r2)
    }

    /// One row round of the prover.
    fn row_round(
        &mut self,
        previous_sum: BaseField,
        delta: &mut Vec<BaseField>,
        matrix: &Vec<Vec<BaseField>>,
        trace1: &mut Vec<Vec<BaseField>>,
        trace2: &mut Vec<Vec<BaseField>>,
        pols: &mut Vec<SquarePolynomial<BaseField>>,
    ) -> (r: (BaseField, BaseField, BaseField))
        requires
            tables_wf(old(delta)@, matrix@, old(trace1)@, old(trace2)@),
            old(delta).len() >= 2,
        ensures
            ({
                let st = tables_view(old(delta)@, matrix@, old(trace1)@, old(trace2)@);
                let evals = round_evals(st, false, previous_sum@, r.1@);
                &&& polys_view(final(pols)@) == polys_view(old(pols)@).push(coeffs_of(evals.0)).push(coeffs_of(evals.1))
                &&& tables_view(final(delta)@, matrix@, final(trace1)@, final(trace2)@) == fold_tables(st, false, r.1@, r.2@)
                &&& r.0@ == through(evals.1.0, evals.1.1, evals.1.2, r.2@)
            }),
            tables_wf(final(delta)@, matrix@, final(trace1)@, final(trace2)@),
            final(delta).len() * 2 == old(delta).len(),
            final(self).delta == old(self).delta,
            final(self).trace == old(self).trace,
            final(self).matrix == old(self).matrix,
            final(self).drawn@ == old(self).drawn@.push(r.1@).push(r.2@),
    {
        let a00 = partial_sum_rows(0, delta, matrix, trace1, trace2);
        let a01 = BaseField::from_u64(0);
        let a10 = BaseField::from_u64(0);
        let a11 = previous_sum.sub(a00).sub(a01).sub(a10);
        let b0 = compute_minus_one_rows(0, delta, matrix, trace1, trace2);
        let b1 = compute_minus_one_rows(1, delta, matrix, trace1, trace2);
        let pol1 = SquarePolynomialEval { zero: a00.add(a01), one: a10.add(a11), minus_one: b0.add(b1) };
        let r1 = self.random();
        let minus_one = compute_r_minus_one_rows(r1, delta, matrix, trace1, trace2);
        let zero = SquarePolynomialEval { zero: a00, one: a10, minus_one: b0 }.evaluate(r1);
        let one = SquarePolynomialEval { zero: a01, one: a11, minus_one: b1 }.evaluate(r1);
        let pol2 = SquarePolynomialEval { zero, one, minus_one };
        let r2 = self.random();
        pols.push(pol1.to_polynomial());
        pols.push(pol2.to_polynomial());
        let next_sum = pol2.evaluate(r2);
        fold_matrices_row(r1, r2, delta, matrix, trace1, trace2);
        proof {
            assert(polys_view(pols@) =~= polys_view(old(pols)@).push(coeffs_of((pol1.zero@, pol1.one@, pol1.minus_one@))).push(coeffs_of((pol2.zero@, pol2.one@, pol2.minus_one@))));
        }
        (next_sum, r1, r2)
    }
}

/// Column rounds first (`j` of them), then row rounds (`i`).
pub open spec fn cols_first(i: nat, j: nat) -> Seq<bool> {
    Seq::new(i + j, |k: int| k < j)
}

/// Row rounds first (`i` of them), then column rounds (`j`).
pub open spec fn rows_first(i: nat, j: nat) -> Seq<bool> {
    Seq::new(i + j, |k: int| k >= i)
}

/// The first `k` rounds read only the first `2k` challenges and the first `k`
/// entries of the schedule.
pub proof fn lemma_run_prefix(st0: Tables, prev0: int, rs: Seq<int>, rs2: Seq<int>, sched: Seq<bool>, sched2: Seq<bool>, k: nat)
    requires
        2 * k <= rs.len(),
        2 * k <= rs2.len(),
        k <= sched.len(),
        k <= sched2.len(),
        forall|m: int| 0 <= m < 2 * k ==> rs[m] == rs2[m],
        forall|m: int| 0 <= m < k ==> sched[m] == sched2[m],
    ensures
        run(st0, prev0, rs, sched, k) == run(st0, prev0, rs2, sched2, k),
    decreases k,
{
    if k > 0 {
        lemma_run_prefix(st0, prev0, rs, rs2, sched, sched2, (k - 1) as nat);
    }
}

/// One more round, with two more challenges.
pub proof fn lemma_run_push(st0: Tables, prev0: int, rs: Seq<int>, sched: Seq<bool>, k: nat, r1: int, r2: int)
    requires
        rs.len() == 2 * k,
        k < sched.len(),
    ensures
        ({
            let prior = run(st0, prev0, rs, sched, k);
            let evals = round_evals(prior.1, sched[k as int], prior.2, r1);
            let next = run(st0, prev0, rs.push(r1).push(r2), sched, k + 1);
            &&& next.1 == fold_tables(prior.1, sched[k as int], r1, r2)
            &&& next.2 == through(evals.1.0, evals.1.1, evals.1.2, r2)
            &&& coeffs_seq(next.0) == coeffs_seq(prior.0).push(coeffs_of(evals.0)).push(coeffs_of(evals.1))
        }),
{
    let rs2 = rs.push(r1).push(r2);
    lemma_run_prefix(st0, prev0, rs, rs2, sched, sched, k);
    let prior = run(st0, prev0, rs, sched, k);
    let evals = round_evals(prior.1, sched[k as int], prior.2, r1);
    assert(coeffs_seq(run(st0, prev0, rs2, sched, k + 1).0) =~= coeffs_seq(prior.0).push(coeffs_of(evals.0)).push(coeffs_of(evals.1)));
}

pub proof fn lemma_pow2_step(n: nat)
    ensures
        pow2(n + 1) == 2 * pow2(n),
        pow2(n) >= 1,
{
    lemma_pow2_unfold(n + 1);
    lemma_pow2_pos(n);
}

impl<const I: usize, const J: usize, const K: usize> BQCS<I, J, K> {
    /// The prover's starting tables: the diagonal factor, the batched
    /// constraints and the trace (once per point) on the hypercube.
    pub open spec fn initial_tables(self) -> Tables {
        (
            Seq::new(pow2(I as nat), |i: int| self.delta.hc_value(i)),
            Seq::new(pow2(J as nat), |j1: int| Seq::new(pow2(J as nat), |j2: int| self.matrix.hc_value(j1, j2))),
            self.trace.table(),
            self.trace.table(),
        )
    }

    fn initial_tables_exec(&self) -> (r: (Vec<BaseField>, Vec<Vec<BaseField>>, Vec<Vec<BaseField>>, Vec<Vec<BaseField>>))
        requires
            self.wf(),
        ensures
            tables_wf(r.0@, r.1@, r.2@, r.3@),
            tables_view(r.0@, r.1@, r.2@, r.3@) == self.initial_tables(),
            r.0.len() == pow2(I as nat),
            r.1.len() == pow2(J as nat),
    {
        let delta = self.delta.build_table();
        let matrix = self.matrix.build_table();
        let trace1 = self.trace.build_table();
        let trace2 = self.trace.build_table();
        proof {
            let st = self.initial_tables();
            assert(vals(delta@) =~= st.0);
            assert forall|j1: int| 0 <= j1 < matrix.len() implies #[trigger] vals2(matrix@)[j1] =~= st.1[j1] by {
                assert forall|j2: int| 0 <= j2 < pow2(J as nat) implies #[trigger] vals2(matrix@)[j1][j2] == st.1[j1][j2] by {
                }
            }
            assert(vals2(matrix@) =~= st.1);
            assert(vals2(trace1@) == self.trace.table());
            crate::bits::lemma_pow2_is_pow2_len(I as nat);
            crate::bits::lemma_pow2_is_pow2_len(J as nat);
        }
        (delta, matrix, trace1, trace2)
    }
}
impl<const I: usize, const J: usize, const K: usize> BQCS<I, J, K> {
    /// The sumcheck prover for the claim `sum`: column rounds first, then row
    /// rounds; the challenges come from the system's generator.
    pub fn generate_partial_polynomials(&mut self, sum: BaseField) -> (pols: Vec<SquarePolynomial<BaseField>>)
        requires
            old(self).wf(),
        ensures
            final(self).delta == old(self).delta,
            final(self).trace == old(self).trace,
            final(self).matrix == old(self).matrix,
            exists|rs: Seq<int>| {
                &&& rs.len() == 2 * (I + J)
                &&& final(self).drawn@ == old(self).drawn@ + rs
                &&& polys_view(pols@) == coeffs_seq(run(old(self).initial_tables(), sum@, rs, cols_first(I as nat, J as nat), (I + J) as nat).0)
            },
    {
        let (mut delta, mut matrix, mut trace1, mut trace2) = self.initial_tables_exec();
        let mut pols: Vec<SquarePolynomial<BaseField>> = Vec::new();
        let mut previous_sum = sum;
        let ghost st0 = self.initial_tables();
        let ghost sched = cols_first(I as nat, J as nat);
        let ghost mut rs: Seq<int> = Seq::empty();
        proof {
            assert(coeffs_seq(Seq::<(int, int, int)>::empty()) =~= Seq::empty());
            assert(polys_view(pols@) =~= Seq::empty());
        }

        let mut round: usize = 0;
        while round < J
            invariant
                0 <= round <= J,
                self.wf(),
                self.delta == old(self).delta,
                self.trace == old(self).trace,
                self.matrix == old(self).matrix,
                st0 == old(self).initial_tables(),
                self.drawn@ == old(self).drawn@ + rs,
                sched == cols_first(I as nat, J as nat),
                tables_wf(delta@, matrix@, trace1@, trace2@),
                matrix.len() == pow2((J - round) as nat),
                delta.len() == pow2(I as nat),
                rs.len() == 2 * (0 + round),
                ({
                    let cur = run(st0, sum@, rs, sched, (0 + round) as nat);
                    &&& tables_view(delta@, matrix@, trace1@, trace2@) == cur.1
                    &&& previous_sum@ == cur.2
                    &&& polys_view(pols@) == coeffs_seq(cur.0)
                }),
            decreases J - round,
        {
            proof {
                lemma_pow2_step((J - round - 1) as nat);
            }
            let ghost k: nat = (0 + round) as nat;
            let ghost prior = run(st0, sum@, rs, sched, k);
            let (next, r1, r2) = self.col_round(previous_sum, &delta, &mut matrix, &mut trace1, &mut trace2, &mut pols);
            proof {
                assert(sched[k as int] == true);
                lemma_run_push(st0, sum@, rs, sched, k, r1@, r2@);
                rs = rs.push(r1@).push(r2@);
            }
            previous_sum = next;
            round = round + 1;
        }

        let mut round: usize = 0;
        while round < I
            invariant
                0 <= round <= I,
                self.wf(),
                self.delta == old(self).delta,
                self.trace == old(self).trace,
                self.matrix == old(self).matrix,
                st0 == old(self).initial_tables(),
                self.drawn@ == old(self).drawn@ + rs,
                sched == cols_first(I as nat, J as nat),
                tables_wf(delta@, matrix@, trace1@, trace2@),
                delta.len() == pow2((I - round) as nat),
                matrix.len() == pow2(0 as nat),
                rs.len() == 2 * (J + round),
                ({
                    let cur = run(st0, sum@, rs, sched, (J + round) as nat);
                    &&& tables_view(delta@, matrix@, trace1@, trace2@) == cur.1
                    &&& previous_sum@ == cur.2
                    &&& polys_view(pols@) == coeffs_seq(cur.0)
                }),
            decreases I - round,
        {
            proof {
                lemma_pow2_step((I - round - 1) as nat);
            }
            let ghost k: nat = (J + round) as nat;
            let ghost prior = run(st0, sum@, rs, sched, k);
            let (next, r1, r2) = self.row_round(previous_sum, &mut delta, &matrix, &mut trace1, &mut trace2, &mut pols);
            proof {
                assert(sched[k as int] == false);
                lemma_run_push(st0, sum@, rs, sched, k, r1@, r2@);
                rs = rs.push(r1@).push(r2@);
            }
            previous_sum = next;
            round = round + 1;
        }
        proof {
            assert(polys_view(pols@) == coeffs_seq(run(st0, sum@, rs, sched, (I + J) as nat).0));
        }
        pols
    }

    /// The sumcheck prover for the claim `sum`: row rounds first, then column
    /// rounds; the challenges come from the system's generator.
    pub fn generate_partial_polynomials_transposed(&mut self, sum: BaseField) -> (pols: Vec<SquarePolynomial<BaseField>>)
        requires
            old(self).wf(),
        ensures
            final(self).delta == old(self).delta,
            final(self).trace == old(self).trace,
            final(self).matrix == old(self).matrix,
            exists|rs: Seq<int>| {
                &&& rs.len() == 2 * (I + J)
                &&& final(self).drawn@ == old(self).drawn@ + rs
                &&& polys_view(pols@) == coeffs_seq(run(old(self).initial_tables(), sum@, rs, rows_first(I as nat, J as nat), (I + J) as nat).0)
            },
    {
        let (mut delta, mut matrix, mut trace1, mut trace2) = self.initial_tables_exec();
        let mut pols: Vec<SquarePolynomial<BaseField>> = Vec::new();
        let mut previous_sum = sum;
        let ghost st0 = self.initial_tables();
        let ghost sched = rows_first(I as nat, J as nat);
        let ghost mut rs: Seq<int> = Seq::empty();
        proof {
            assert(coeffs_seq(Seq::<(int, int, int)>::empty()) =~= Seq::empty());
            assert(polys_view(pols@) =~= Seq::empty());
        }

        let mut round: usize = 0;
        while round < I
            invariant
                0 <= round <= I,
                self.wf(),
                self.delta == old(self).delta,
                self.trace == old(self).trace,
                self.matrix == old(self).matrix,
                st0 == old(self).initial_tables(),
                self.drawn@ == old(self).drawn@ + rs,
                sched == rows_first(I as nat, J as nat),
                tables_wf(delta@, matrix@, trace1@, trace2@),
                delta.len() == pow2((I - round) as nat),
                matrix.len() == pow2(J as nat),
                rs.len() == 2 * (0 + round),
                ({
                    let cur = run(st0, sum@, rs, sched, (0 + round) as nat);
                    &&& tables_view(delta@, matrix@, trace1@, trace2@) == cur.1
                    &&& previous_sum@ == cur.2
                    &&& polys_view(pols@) == coeffs_seq(cur.0)
                }),
            decreases I - round,
        {
            proof {
                lemma_pow2_step((I - round - 1) as nat);
            }
            let ghost k: nat = (0 + round) as nat;
            let ghost prior = run(st0, sum@, rs, sched, k);
            let (next, r1, r2) = self.row_round(previous_sum, &mut delta, &matrix, &mut trace1, &mut trace2, &mut pols);
            proof {
                assert(sched[k as int] == false);
                lemma_run_push(st0, sum@, rs, sched, k, r1@, r2@);
                rs = rs.push(r1@).push(r2@);
            }
            previous_sum = next;
            round = round + 1;
        }

        let mut round: usize = 0;
        while round < J
            invariant
                0 <= round <= J,
                self.wf(),
                self.delta == old(self).delta,
                self.trace == old(self).trace,
                self.matrix == old(self).matrix,
                st0 == old(self).initial_tables(),
                self.drawn@ == old(self).drawn@ + rs,
                sched == rows_first(I as nat, J as nat),
                tables_wf(delta@, matrix@, trace1@, trace2@),
                matrix.len() == pow2((J - round) as nat),
                delta.len() == pow2(0 as nat),
                rs.len() == 2 * (I + round),
                ({
                    let cur = run(st0, sum@, rs, sched, (I + round) as nat);
                    &&& tables_view(delta@, matrix@, trace1@, trace2@) == cur.1
                    &&& previous_sum@ == cur.2
                    &&& polys_view(pols@) == coeffs_seq(cur.0)
                }),
            decreases J - round,
        {
            proof {
                lemma_pow2_step((J - round - 1) as nat);
            }
            let ghost k: nat = (I + round) as nat;
            let ghost prior = run(st0, sum@, rs, sched, k);
            let (next, r1, r2) = self.col_round(previous_sum, &delta, &mut matrix, &mut trace1, &mut trace2, &mut pols);
            proof {
                assert(sched[k as int] == true);
                lemma_run_push(st0, sum@, rs, sched, k, r1@, r2@);
                rs = rs.push(r1@).push(r2@);
            }
            previous_sum = next;
            round = round + 1;
        }
        proof {
            assert(polys_view(pols@) == coeffs_seq(run(st0, sum@, rs, sched, (I + J) as nat).0));
        }
        pols
    }
}

/// Why a sumcheck proof is rejected.
#[derive(Debug, Clone, Copy, PartialEq, Eq)]
pub enum SumcheckError {
    /// There is no polynomial to check.
    NoPolynomial,
    /// The first polynomial's values at `0` and `1` do not add up to the claim.
    DoesNotSumcheck,
    /// Polynomial `i`, at its challenge, is not the sum of the next one's
    /// values at `0` and `1`.
    PolynomialMismatch(usize),
    /// The last polynomial, at its challenge, differs from the summed
    /// polynomial at the challenge point.
    EvaluationMismatch,
}

/// The message of a sumcheck error.
pub open spec fn sumcheck_message(e: SumcheckError) -> Seq<char> {
    match e {
        SumcheckError::NoPolynomial => "Expects at least one polynomial"@,
        SumcheckError::DoesNotSumcheck => "Does not sumcheck"@,
        SumcheckError::PolynomialMismatch(i) => "Polynomial "@ + decimal_text(i as nat) + " does not satisfy equation"@,
        SumcheckError::EvaluationMismatch => "Does not match polynomial evaluation"@,
    }
}

impl SumcheckError {
    /// The error's message.
    pub fn message(&self) -> (r: String)
        ensures
            r@ == sumcheck_message(*self),
    {
        let mut s = String::new();
        match self {
            SumcheckError::NoPolynomial => s.append("Expects at least one polynomial"),
            SumcheckError::DoesNotSumcheck => s.append("Does not sumcheck"),
            SumcheckError::PolynomialMismatch(i) => {
                s.append("Polynomial ");
                push_decimal(&mut s, *i as u64);
                s.append(" does not satisfy equation");
            },
            SumcheckError::EvaluationMismatch => s.append("Does not match polynomial evaluation"),
        }
        s
    }
}

/// A quadratic given by its coefficients, at `x`.
pub open spec fn peval(q: (int, int, int), x: int) -> int {
    quad(q.0, q.1, q.2, x)
}

/// Polynomial `k - 1` at its challenge is the sum of polynomial `k`'s values
/// at `0` and `1`.
pub open spec fn chain_ok(pols: Seq<(int, int, int)>, rs: Seq<int>, k: int) -> bool {
    peval(pols[k - 1], rs[k - 1]) == fadd(peval(pols[k], 0), peval(pols[k], 1))
}

/// The first `k` in `from..n` where the chain breaks.
pub open spec fn first_break(pols: Seq<(int, int, int)>, rs: Seq<int>, n: int, from: int) -> Option<int>
    decreases n - from,
{
    if from >= n {
        None
    } else if !chain_ok(pols, rs, from) {
        Some(from)
    } else {
        first_break(pols, rs, n, from + 1)
    }
}

/// The verdict of the sumcheck verifier on the polynomials `pols`, the
/// challenges `rs`, the claim `sum` and the value `value` of the summed
/// polynomial at the challenge point.
pub open spec fn sumcheck_verdict(pols: Seq<(int, int, int)>, rs: Seq<int>, sum: int, value: int) -> Result<(), SumcheckError> {
    let n = if pols.len() < rs.len() { pols.len() as int } else { rs.len() as int };
    if n == 0 {
        Err(SumcheckError::NoPolynomial)
    } else if sum != fadd(peval(pols[0], 0), peval(pols[0], 1)) {
        Err(SumcheckError::DoesNotSumcheck)
    } else {
        match first_break(pols, rs, n, 1) {
            Some(k) => Err(SumcheckError::PolynomialMismatch((k - 1) as usize)),
            None => if value == peval(pols[n - 1], rs[n - 1]) {
                Ok(())
            } else {
                Err(SumcheckError::EvaluationMismatch)
            },
        }
    }
}

/// The entries `start`, `start + 2`, ... of `rs`, `n` of them.
pub open spec fn evens(rs: Seq<int>, start: int, n: nat) -> Seq<int> {
    Seq::new(n, |m: int| rs[start + 2 * m])
}

/// The entries `start + 1`, `start + 3`, ... of `rs`, `n` of them.
pub open spec fn odds(rs: Seq<int>, start: int, n: nat) -> Seq<int> {
    Seq::new(n, |m: int| rs[start + 2 * m + 1])
}

impl<const I: usize, const J: usize, const K: usize> BQCS<I, J, K> {
    /// Draws one challenge per variable of each of the two points, in the
    /// order the prover draws them.
    fn draw_points(rng: &mut rand_chacha::ChaCha8Rng, rs: &mut Vec<BaseField>, p1: &mut Vec<BaseField>, p2: &mut Vec<BaseField>, n: usize)
        requires
            old(rs).len() + 2 * n <= usize::MAX,
        ensures
            final(p1).len() == old(p1).len() + n,
            final(p2).len() == old(p2).len() + n,
            final(rs).len() == old(rs).len() + 2 * n,
            forall|m: int| 0 <= m < old(rs).len() ==> #[trigger] final(rs)@[m] == old(rs)@[m],
            forall|m: int| 0 <= m < old(p1).len() ==> #[trigger] final(p1)@[m] == old(p1)@[m],
            forall|m: int| 0 <= m < old(p2).len() ==> #[trigger] final(p2)@[m] == old(p2)@[m],
            forall|m: int| 0 <= m < n ==> #[trigger] final(p1)@[old(p1).len() + m] == final(rs)@[old(rs).len() + 2 * m],
            forall|m: int| 0 <= m < n ==> #[trigger] final(p2)@[old(p2).len() + m] == final(rs)@[old(rs).len() + 2 * m + 1],
    {
        let ghost rs0 = rs@;
        let ghost p10 = p1@;
        let ghost p20 = p2@;
        let mut k: usize = 0;
        while k < n
            invariant
                0 <= k <= n,
                rs0.len() + 2 * n <= usize::MAX,
                rs.len() == rs0.len() + 2 * k,
                p1.len() == p10.len() + k,
                p2.len() == p20.len() + k,
                forall|m: int| 0 <= m < rs0.len() ==> #[trigger] rs@[m] == rs0[m],
                forall|m: int| 0 <= m < p10.len() ==> #[trigger] p1@[m] == p10[m],
                forall|m: int| 0 <= m < p20.len() ==> #[trigger] p2@[m] == p20[m],
                forall|m: int| 0 <= m < k ==> #[trigger] p1@[p10.len() + m] == rs@[rs0.len() + 2 * m],
                forall|m: int| 0 <= m < k ==> #[trigger] p2@[p20.len() + m] == rs@[rs0.len() + 2 * m + 1],
            decreases n - k,
        {
            let r1 = random_base(rng);
            let r2 = random_base(rng);
            p1.push(r1);
            p2.push(r2);
            rs.push(r1);
            rs.push(r2);
            k = k + 1;
        }
    }

    /// The sumcheck verifier, drawing the challenges from `rng` as the prover
    /// draws them (column rounds first).
    pub fn verify_sumcheck(&self, rng: &mut rand_chacha::ChaCha8Rng, pols: &[SquarePolynomial<BaseField>], sum: BaseField) -> (r: Result<(), SumcheckError>)
        requires
            self.wf(),
            pols.len() == 2 * I + 2 * J,
        ensures
            exists|rs: Seq<int>| {
                &&& rs.len() == 2 * (I + J)
                &&& r == sumcheck_verdict(polys_view(pols@), rs, sum@, self.value(
                    evens(rs, 2 * J, I as nat), odds(rs, 2 * J, I as nat), evens(rs, 0, J as nat), odds(rs, 0, J as nat)))
            },
    {
        let mut row1: Vec<BaseField> = Vec::new();
        let mut row2: Vec<BaseField> = Vec::new();
        let mut col1: Vec<BaseField> = Vec::new();
        let mut col2: Vec<BaseField> = Vec::new();
        let mut rs: Vec<BaseField> = Vec::new();
        Self::draw_points(rng, &mut rs, &mut col1, &mut col2, J);
        Self::draw_points(rng, &mut rs, &mut row1, &mut row2, I);
        let r = self.verify_sumcheck_constraints(pols, rs.as_slice(), sum, row1.as_slice(), row2.as_slice(), col1.as_slice(), col2.as_slice());
        proof {
            let v = vals(rs@);
            assert forall|m: int| 0 <= m < I implies row1@.map_values(|x: BaseField| x@)[m] == #[trigger] evens(v, 2 * J, I as nat)[m] by {
                assert(row1@[0 + m] == row1@[m]);
            }
            assert(row1@.map_values(|x: BaseField| x@) =~= evens(v, 2 * J, I as nat));
            assert forall|m: int| 0 <= m < I implies row2@.map_values(|x: BaseField| x@)[m] == #[trigger] odds(v, 2 * J, I as nat)[m] by {
                assert(row2@[0 + m] == row2@[m]);
            }
            assert(row2@.map_values(|x: BaseField| x@) =~= odds(v, 2 * J, I as nat));
            assert forall|m: int| 0 <= m < J implies col1@.map_values(|x: BaseField| x@)[m] == #[trigger] evens(v, 0, J as nat)[m] by {
                assert(col1@[0 + m] == col1@[m]);
            }
            assert(col1@.map_values(|x: BaseField| x@) =~= evens(v, 0, J as nat));
            assert forall|m: int| 0 <= m < J implies col2@.map_values(|x: BaseField| x@)[m] == #[trigger] odds(v, 0, J as nat)[m] by {
                assert(col2@[0 + m] == col2@[m]);
            }
            assert(col2@.map_values(|x: BaseField| x@) =~= odds(v, 0, J as nat));
            assert(v.len() == 2 * (I + J));
        }
        r
    }

    /// The sumcheck verifier, drawing the challenges from `rng` as the
    /// transposed prover draws them (row rounds first).
    pub fn verify_sumcheck_transposed(&self, rng: &mut rand_chacha::ChaCha8Rng, pols: &[SquarePolynomial<BaseField>], sum: BaseField) -> (r: Result<(), SumcheckError>)
        requires
            self.wf(),
            pols.len() == 2 * I + 2 * J,
        ensures
            exists|rs: Seq<int>| {
                &&& rs.len() == 2 * (I + J)
                &&& r == sumcheck_verdict(polys_view(pols@), rs, sum@, self.value(
                    evens(rs, 0, I as nat), odds(rs, 0, I as nat), evens(rs, 2 * I, J as nat), odds(rs, 2 * I, J as nat)))
            },
    {
        let mut row1: Vec<BaseField> = Vec::new();
        let mut row2: Vec<BaseField> = Vec::new();
        let mut col1: Vec<BaseField> = Vec::new();
        let mut col2: Vec<BaseField> = Vec::new();
        let mut rs: Vec<BaseField> = Vec::new();
        Self::draw_points(rng, &mut rs, &mut row1, &mut row2, I);
        Self::draw_points(rng, &mut rs, &mut col1, &mut col2, J);
        let r = self.verify_sumcheck_constraints(pols, rs.as_slice(), sum, row1.as_slice(), row2.as_slice(), col1.as_slice(), col2.as_slice());
        proof {
            let v = vals(rs@);
            assert forall|m: int| 0 <= m < I implies row1@.map_values(|x: BaseField| x@)[m] == #[trigger] evens(v, 0, I as nat)[m] by {
                assert(row1@[0 + m] == row1@[m]);
            }
            assert(row1@.map_values(|x: BaseField| x@) =~= evens(v, 0, I as nat));
            assert forall|m: int| 0 <= m < I implies row2@.map_values(|x: BaseField| x@)[m] == #[trigger] odds(v, 0, I as nat)[m] by {
                assert(row2@[0 + m] == row2@[m]);
            }
            assert(row2@.map_values(|x: BaseField| x@) =~= odds(v, 0, I as nat));
            assert forall|m: int| 0 <= m < J implies col1@.map_values(|x: BaseField| x@)[m] == #[trigger] evens(v, 2 * I, J as nat)[m] by {
                assert(col1@[0 + m] == col1@[m]);
            }
            assert(col1@.map_values(|x: BaseField| x@) =~= evens(v, 2 * I, J as nat));
            assert forall|m: int| 0 <= m < J implies col2@.map_values(|x: BaseField| x@)[m] == #[trigger] odds(v, 2 * I, J as nat)[m] by {
                assert(col2@[0 + m] == col2@[m]);
            }
            assert(col2@.map_values(|x: BaseField| x@) =~= odds(v, 2 * I, J as nat));
            assert(v.len() == 2 * (I + J));
        }
        r
    }

    /// Checks the chain of sumcheck equations and, at the end, the summed
    /// polynomial at the challenge point.
    fn verify_sumcheck_constraints(
        &self,
        pols: &[SquarePolynomial<BaseField>],
        rs: &[BaseField],
        sum: BaseField,
        row1: &[BaseField],
        row2: &[BaseField],
        col1: &[BaseField],
        col2: &[BaseField],
    ) -> (r: Result<(), SumcheckError>)
        requires
            self.wf(),
            pols.len() == 2 * I + 2 * J,
            row1.len() == I,
            row2.len() == I,
            col1.len() == J,
            col2.len() == J,
        ensures
            r == sumcheck_verdict(polys_view(pols@), vals(rs@), sum@, self.value(
                row1@.map_values(|x: BaseField| x@), row2@.map_values(|x: BaseField| x@),
                col1@.map_values(|x: BaseField| x@), col2@.map_values(|x: BaseField| x@))),
    {
        let ghost ps = polys_view(pols@);
        let ghost rv = vals(rs@);
        let n: usize = if pols.len() < rs.len() { pols.len() } else { rs.len() };
        if n == 0 {
            return Err(SumcheckError::NoPolynomial);
        }
        let zero = BaseField::zero();
        let one = BaseField::one();
        let mut r = rs[0];
        let mut pol = pols[0];
        proof {
            assert(ps[0] == poly_view(pols@[0]));
        }
        if !sum.equals(&pol.evaluate(zero).add(pol.evaluate(one))) {
            return Err(SumcheckError::DoesNotSumcheck);
        }
        let mut k: usize = 1;
        while k < n
            invariant
                1 <= k <= n,
                n <= pols.len(),
                n <= rs.len(),
                n == (if pols.len() < rs.len() { pols.len() } else { rs.len() }),
                sum@ == fadd(peval(ps[0], 0), peval(ps[0], 1)),
                ps == polys_view(pols@),
                rv == vals(rs@),
                zero@ == 0,
                one@ == 1,
                r == rs@[k - 1],
                pol == pols@[k - 1],
                first_break(ps, rv, n as int, 1) == first_break(ps, rv, n as int, k as int),
            decreases n - k,
        {
            let r_next = rs[k];
            let pol_next = pols[k];
            if !pol.evaluate(r).equals(&pol_next.evaluate(zero).add(pol_next.evaluate(one))) {
                proof {
                    assert(ps[k - 1] == poly_view(pols@[k - 1]));
                    assert(ps[k as int] == poly_view(pols@[k as int]));
                    assert(rv[k - 1] == r@);
                    assert(!chain_ok(ps, rv, k as int));
                    assert(first_break(ps, rv, n as int, k as int) == Some(k as int));
                }
                return Err(SumcheckError::PolynomialMismatch(k - 1));
            }
            proof {
                assert(ps[k - 1] == poly_view(pols@[k - 1]));
                assert(ps[k as int] == poly_view(pols@[k as int]));
                assert(rv[k - 1] == r@);
                assert(chain_ok(ps, rv, k as int));
                assert(first_break(ps, rv, n as int, k as int) == first_break(ps, rv, n as int, k + 1));
            }
            r = r_next;
            pol = pol_next;
            k = k + 1;
        }
        proof {
            assert(ps[n - 1] == poly_view(pols@[n - 1]));
            assert(rv[n - 1] == r@);
            assert(first_break(ps, rv, n as int, n as int) == None::<int>);
        }
        if !self.evaluate(row1, row2, col1, col2).equals(&pol.evaluate(r)) {
            return Err(SumcheckError::EvaluationMismatch);
        }
        Ok(())
    }
}

} // verus!
