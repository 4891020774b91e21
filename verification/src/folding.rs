//! Folding a table of hypercube values along its top variable keeps its
//! multilinear extension: the extension of the folded table at the rest of
//! a point is the extension of the table at the whole point.
use vstd::prelude::*;
use vstd::arithmetic::power2::*;
use vstd::arithmetic::div_mod::*;
use crate::bits::bit;
use crate::fields::{
    fadd, fe, fmul, fsub, lemma_add_fe, lemma_fmul_comm_assoc, lemma_mul_fe, lemma_mul_fe_left, lemma_mul_fe_right,
    lemma_reduce_args, p,
};
use crate::mle::{eq_poly, eq_prod, lemma_sum_cong, lemma_sum_ext, sel, sum};
use crate::partial_sums::{
    bilin, cols_first, evens, fold_cols, fold_diag, fold_matrix, fold_rows, fold_tables, fold_vec, lemma_diag_poly, lerp, odds,
    rows_first, run, term, total, Tables,
};
use crate::completeness::{
    bil, count_cols, lemma_bil_in_x, lemma_bilin_int, lemma_lerp_int, lemma_line_in_x, lemma_run_complete, lemma_sum_add,
    run_inv, tables_shape,
};

verus! {

/// The bits of `j + b * 2^n` below `n` are those of `j`, and bit `n` is `b`.
pub proof fn lemma_bit_add_top(j: int, b: int, n: nat, i: nat)
    requires
        0 <= j < pow2(n),
        b == 0 || b == 1,
    ensures
        i < n ==> bit(j + b * pow2(n), i) == bit(j, i),
        bit(j + b * pow2(n), n) == (b == 1),
{
    lemma_pow2_pos(n);
    lemma_pow2_pos(i);
    if i < n {
        lemma_pow2_adds(i, (n - i) as nat);
        let pi = pow2(i) as int;
        let pr = pow2((n - i) as nat) as int;
        assert(b * pow2(n) == (b * pr) * pi) by (nonlinear_arith)
            requires pow2(n) == pi * pr;
        lemma_hoist_over_denominator(j, b * pr, pi as nat);
        lemma_pow2_unfold((n - i) as nat);
        let half = pow2((n - i - 1) as nat) as int;
        assert(b * pr == 2 * (b * half)) by (nonlinear_arith)
            requires pr == 2 * half;
        lemma_mod_multiples_vanish(b * half, j / pi, 2);
        assert(j / pi + b * pr == 2 * (b * half) + j / pi);
    }
    let pn = pow2(n) as int;
    lemma_hoist_over_denominator(j, b, pn as nat);
    lemma_basic_div(j, pn);
}

/// The equality polynomial of `j + b * 2^n` at `r` followed by a point of
/// dimension `n` is the factor of `r` for `b` times that of `j` at the rest.
pub proof fn lemma_eq_poly_top(j: int, b: int, r: int, rest: Seq<int>)
    requires
        0 <= j < pow2(rest.len()),
        b == 0 || b == 1,
    ensures
        eq_poly(j + b * pow2(rest.len()), seq![r] + rest) == fmul(eq_poly(j, rest), sel(b == 1, r)),
{
    let n = rest.len();
    let pts = seq![r] + rest;
    let idx = j + b * pow2(n);
    lemma_eq_prod_shift(j, b, r, rest, n);
    lemma_bit_add_top(j, b, n, n);
    assert(pts[pts.len() - (n + 1)] == r);
}

proof fn lemma_eq_prod_shift(j: int, b: int, r: int, rest: Seq<int>, k: nat)
    requires
        0 <= j < pow2(rest.len()),
        b == 0 || b == 1,
        k <= rest.len(),
    ensures
        eq_prod(j + b * pow2(rest.len()), seq![r] + rest, k) == eq_prod(j, rest, k),
    decreases k,
{
    if k > 0 {
        let n = rest.len();
        lemma_eq_prod_shift(j, b, r, rest, (k - 1) as nat);
        lemma_bit_add_top(j, b, n, (k - 1) as nat);
        let pts = seq![r] + rest;
        assert(pts[pts.len() - k] == rest[rest.len() - k]);
    }
}

/// The multilinear extension of a table over `nr` rows and `nc` columns at
/// the row point `rp` and the column point `cp`.
pub open spec fn ext2(t: Seq<Seq<int>>, rp: Seq<int>, cp: Seq<int>, nr: int, nc: int) -> int {
    fe(sum(|i: int| sum(|j: int| fmul(fmul(t[i][j], eq_poly(i, rp)), eq_poly(j, cp)), nc), nr))
}

/// The extension of a diagonal factor: entry `i` weighted by the equality
/// polynomial of `i` at both points.
pub open spec fn ext_diag(d: Seq<int>, bp: Seq<int>, cp: Seq<int>) -> int {
    fe(sum(|i: int| fmul(fmul(d[i], eq_poly(i, bp)), eq_poly(i, cp)), d.len() as int))
}

/// `a * (e * w)` and `(a * e) * w` and so on: the field product of three
/// factors is the reduced integer product, however grouped.
pub proof fn lemma_fmul3(a: int, b: int, c: int)
    ensures
        fmul(fmul(a, b), c) == fe(a * b * c),
        fmul(a, fmul(b, c)) == fe(a * b * c),
{
    lemma_mul_fe_left(a * b, c);
    lemma_reduce_args(a * b, c);
    lemma_mul_fe_right(a, b * c);
    lemma_reduce_args(a, b * c);
    assert(a * (b * c) == a * b * c) by (nonlinear_arith);
}

/// The two halves of a folded entry, weighted, add up to the weighted fold.
proof fn lemma_weighted_lerp(t0: int, t1: int, x: int, e: int, w: int)
    ensures
        fe(fmul(fmul(t0, fmul(e, fsub(1, x))), w) + fmul(fmul(t1, fmul(e, x)), w))
            == fmul(fmul(lerp(t0, t1, x), e), w),
        fe(fmul(fmul(t0, w), fmul(e, fsub(1, x))) + fmul(fmul(t1, w), fmul(e, x)))
            == fmul(fmul(lerp(t0, t1, x), w), e),
{
    lemma_lerp_int(t0, t1, x);
    let l = (1 - x) * t0 + x * t1;
    lemma_fmul3(e, 1 - x, 1);
    lemma_mul_fe_right(e, 1 - x);
    lemma_fmul3(t0, e * (1 - x), w);
    lemma_reduce_args(t0, e * (1 - x));
    lemma_reduce_args(t0 * fmul(e, fsub(1, x)), w);
    assert(fmul(fmul(t0, fmul(e, fsub(1, x))), w) == fe(t0 * (e * (1 - x)) * w)) by {
        lemma_mul_fe_right(t0, e * (1 - x));
        lemma_mul_fe_left(t0 * (e * (1 - x)), w);
    }
    assert(fmul(fmul(t1, fmul(e, x)), w) == fe(t1 * (e * x) * w)) by {
        lemma_mul_fe_right(t1, e * x);
        lemma_mul_fe_left(t1 * (e * x), w);
    }
    lemma_add_fe(t0 * (e * (1 - x)) * w, t1 * (e * x) * w);
    lemma_reduce_args(t0 * (e * (1 - x)) * w, t1 * (e * x) * w);
    assert(fmul(fmul(lerp(t0, t1, x), e), w) == fe(l * e * w)) by {
        lemma_mul_fe_left(l, e);
        lemma_mul_fe_left(l * e, w);
    }
    assert(t0 * (e * (1 - x)) * w + t1 * (e * x) * w == l * e * w) by (nonlinear_arith)
        requires l == (1 - x) * t0 + x * t1;
    // the second grouping
    assert(fmul(fmul(t0, w), fmul(e, fsub(1, x))) == fe(t0 * w * (e * (1 - x)))) by {
        lemma_mul_fe_right(e, 1 - x);
        lemma_mul_fe(t0 * w, e * (1 - x));
        lemma_reduce_args(t0 * w, e * (1 - x));
        lemma_reduce_args(fmul(t0, w), e * (1 - x));
    }
    assert(fmul(fmul(t1, w), fmul(e, x)) == fe(t1 * w * (e * x))) by {
        lemma_mul_fe(t1 * w, e * x);
        lemma_reduce_args(t1 * w, e * x);
        lemma_reduce_args(fmul(t1, w), e * x);
    }
    lemma_add_fe(t0 * w * (e * (1 - x)), t1 * w * (e * x));
    lemma_reduce_args(t0 * w * (e * (1 - x)), t1 * w * (e * x));
    assert(fmul(fmul(lerp(t0, t1, x), w), e) == fe(l * w * e)) by {
        lemma_mul_fe_left(l, w);
        lemma_mul_fe_left(l * w, e);
    }
    assert(l * w * e == ((1 - x) * t0) * (w * e) + (x * t1) * (w * e)) by (nonlinear_arith)
        requires l == (1 - x) * t0 + x * t1;
    assert(((1 - x) * t0) * (w * e) == t0 * w * (e * (1 - x))) by (nonlinear_arith);
    assert((x * t1) * (w * e) == t1 * w * (e * x)) by (nonlinear_arith);
}

/// Sums over `2h` indices as sums over pairs of halves.
proof fn lemma_sum_pairs(f: spec_fn(int) -> int, h: int)
    requires
        h >= 0,
    ensures
        sum(f, 2 * h) == sum(|k: int| f(k) + f(k + h), h),
{
    crate::completeness::lemma_sum_halves_pub(f, h);
    lemma_sum_add(f, |k: int| f(k + h), h);
    lemma_sum_ext(|k: int| f(k) + (|k: int| f(k + h))(k), |k: int| f(k) + f(k + h), h);
}

/// Folding the top column variable of every row at `x` keeps the
/// extension: at `rp` and the rest of the column point, the folded table is
/// worth the table at `rp` and `x` followed by that rest.
pub proof fn lemma_ext2_fold_cols(t: Seq<Seq<int>>, x: int, rp: Seq<int>, cr: Seq<int>, nr: int)
    requires
        0 <= nr <= t.len(),
        forall|i: int| 0 <= i < nr ==> (#[trigger] t[i]).len() == 2 * pow2(cr.len()),
    ensures
        ext2(fold_cols(t, x), rp, cr, nr, pow2(cr.len()) as int) == ext2(t, rp, seq![x] + cr, nr, 2 * pow2(cr.len()) as int),
{
    let h = pow2(cr.len()) as int;
    let cp = seq![x] + cr;
    let ft = fold_cols(t, x);
    let full = |i: int| sum(|j: int| fmul(fmul(t[i][j], eq_poly(i, rp)), eq_poly(j, cp)), 2 * h);
    let half = |i: int| sum(|j: int| fmul(fmul(ft[i][j], eq_poly(i, rp)), eq_poly(j, cr)), h);
    assert forall|i: int| 0 <= i < nr implies #[trigger] fe(full(i)) == fe(half(i)) by {
        let e = eq_poly(i, rp);
        let f = |j: int| fmul(fmul(t[i][j], e), eq_poly(j, cp));
        let g = |j: int| fmul(fmul(ft[i][j], e), eq_poly(j, cr));
        lemma_sum_pairs(f, h);
        let fp = |k: int| f(k) + f(k + h);
        assert forall|j: int| 0 <= j < h implies #[trigger] fe(fp(j)) == fe(g(j)) by {
            lemma_eq_poly_top(j, 0, x, cr);
            lemma_eq_poly_top(j, 1, x, cr);
            assert(j + 0 * h == j);
            assert(j + 1 * h == j + h);
            assert(ft[i][j] == lerp(t[i][j], t[i][j + h], x));
            lemma_weighted_lerp(t[i][j], t[i][j + h], x, eq_poly(j, cr), e);
            lemma_fmul_comm_assoc(eq_poly(j, cr), fsub(1, x), 0);
            lemma_fmul_comm_assoc(eq_poly(j, cr), x, 0);
            lemma_reduce_args(g(j), 0);
            crate::fields::lemma_fe_small(g(j));
        }
        lemma_sum_cong(fp, g, h);
        assert(full(i) == sum(f, 2 * h));
    }
    lemma_sum_cong(full, half, nr);
}

/// Folding the top row variable at `b` keeps the extension: at the rest of
/// the row point and `cp`, the folded table is worth the table at `b`
/// followed by that rest and `cp`.
pub proof fn lemma_ext2_fold_rows(t: Seq<Seq<int>>, b: int, br: Seq<int>, cp: Seq<int>, nc: int)
    requires
        t.len() == 2 * pow2(br.len()),
        nc >= 0,
        forall|i: int| 0 <= i < t.len() ==> (#[trigger] t[i]).len() == nc,
    ensures
        ext2(fold_rows(t, b), br, cp, pow2(br.len()) as int, nc) == ext2(t, seq![b] + br, cp, t.len() as int, nc),
{
    let h = pow2(br.len()) as int;
    let bp = seq![b] + br;
    let ft = fold_rows(t, b);
    let inner = |i: int| sum(|j: int| fmul(fmul(t[i][j], eq_poly(i, bp)), eq_poly(j, cp)), nc);
    let folded = |i: int| sum(|j: int| fmul(fmul(ft[i][j], eq_poly(i, br)), eq_poly(j, cp)), nc);
    lemma_sum_pairs(inner, h);
    let ip = |i: int| inner(i) + inner(i + h);
    assert forall|i: int| 0 <= i < h implies #[trigger] fe(ip(i)) == fe(folded(i)) by {
        let e = eq_poly(i, br);
        let f0 = |j: int| fmul(fmul(t[i][j], eq_poly(i, bp)), eq_poly(j, cp));
        let f1 = |j: int| fmul(fmul(t[i + h][j], eq_poly(i + h, bp)), eq_poly(j, cp));
        let g = |j: int| fmul(fmul(ft[i][j], e), eq_poly(j, cp));
        lemma_sum_add(f0, f1, nc);
        let fs = |j: int| f0(j) + f1(j);
        lemma_sum_ext(|j: int| f0(j) + f1(j), fs, nc);
        assert(inner(i + h) == sum(f1, nc));
        lemma_eq_poly_top(i, 0, b, br);
        lemma_eq_poly_top(i, 1, b, br);
        assert(i + 0 * h == i);
        assert(i + 1 * h == i + h);
        assert forall|j: int| 0 <= j < nc implies #[trigger] fe(fs(j)) == fe(g(j)) by {
            assert(t[i].len() == nc);
            assert(ft[i][j] == lerp(t[i][j], t[i + h][j], b));
            lemma_weighted_lerp(t[i][j], t[i + h][j], b, e, eq_poly(j, cp));
            lemma_reduce_args(g(j), 0);
        }
        lemma_sum_cong(fs, g, nc);
    }
    lemma_sum_cong(ip, folded, h);
    assert(2 * h == t.len());
}

/// Folding the matrix at `(x, y)` is folding its rows at `x`, then its
/// columns at `y`.
pub proof fn lemma_fold_matrix_rows_cols(a: Seq<Seq<int>>, x: int, y: int)
    requires
        a.len() % 2 == 0,
        forall|j: int| 0 <= j < a.len() ==> (#[trigger] a[j]).len() == a.len(),
    ensures
        fold_matrix(a, x, y) == fold_cols(fold_rows(a, x), y),
{
    let h = a.len() / 2;
    let fm = fold_matrix(a, x, y);
    let fc = fold_cols(fold_rows(a, x), y);
    let rw = fold_rows(a, x);
    assert forall|j1: int| 0 <= j1 < h implies #[trigger] fm[j1] =~= fc[j1] by {
        assert(a[j1].len() == a.len());
        assert(rw[j1].len() == a.len());
        assert forall|j2: int| 0 <= j2 < h implies #[trigger] fm[j1][j2] == fc[j1][j2] by {
            let (a00, a10, a01, a11) = (a[j1][j2], a[j1 + h][j2], a[j1][j2 + h], a[j1 + h][j2 + h]);
            assert(rw[j1][j2] == lerp(a00, a10, x));
            assert(rw[j1][j2 + h] == lerp(a01, a11, x));
            assert(fc[j1][j2] == lerp(rw[j1][j2], rw[j1][j2 + h], y));
            lemma_bilin_int(a00, a10, a01, a11, x, y);
            lemma_lerp_int(a00, a10, x);
            lemma_lerp_int(a01, a11, x);
            let l0 = (1 - x) * a00 + x * a10;
            let l1 = (1 - x) * a01 + x * a11;
            lemma_lerp_int(fe(l0), fe(l1), y);
            lemma_lerp_int(l0, l1, y);
            crate::fields::lemma_mul_fe_right(1 - y, l0);
            crate::fields::lemma_mul_fe_right(y, l1);
            lemma_add_fe((1 - y) * fe(l0), y * fe(l1));
            lemma_add_fe((1 - y) * l0, y * l1);
            lemma_reduce_args((1 - y) * fe(l0), y * fe(l1));
            lemma_reduce_args((1 - y) * l0, y * l1);
            lemma_bil_in_x(a00, a10, a01, a11, x, y);
            lemma_line_in_x(l0, l1, y);
            assert((1 - x) * (a01 - a00) + x * (a11 - a10) == l1 - l0) by (nonlinear_arith)
                requires l0 == (1 - x) * a00 + x * a10, l1 == (1 - x) * a01 + x * a11;
        }
    }
    assert(fm =~= fc);
}

/// The diagonal fold, weighted, from the weighted halves.
proof fn lemma_weighted_diag(d0: int, d1: int, b: int, c: int, eb: int, ec: int)
    ensures
        fe(fmul(fmul(d0, fmul(eb, fsub(1, b))), fmul(ec, fsub(1, c))) + fmul(fmul(d1, fmul(eb, b)), fmul(ec, c)))
            == fmul(fmul(fadd(fmul(fmul(fsub(1, b), fsub(1, c)), d0), fmul(fmul(b, c), d1)), eb), ec),
{
    let u = eb * (1 - b);
    let v = ec * (1 - c);
    assert(fmul(fmul(d0, fmul(eb, fsub(1, b))), fmul(ec, fsub(1, c))) == fe(d0 * u * v)) by {
        lemma_mul_fe_right(eb, 1 - b);
        lemma_mul_fe_right(ec, 1 - c);
        lemma_mul_fe_right(d0, u);
        lemma_mul_fe(d0 * u, v);
        lemma_reduce_args(d0 * u, v);
        lemma_reduce_args(fmul(d0, u), v);
    }
    let u1 = eb * b;
    let v1 = ec * c;
    assert(fmul(fmul(d1, fmul(eb, b)), fmul(ec, c)) == fe(d1 * u1 * v1)) by {
        lemma_mul_fe_right(d1, u1);
        lemma_mul_fe(d1 * u1, v1);
        lemma_reduce_args(d1 * u1, v1);
        lemma_reduce_args(fmul(d1, u1), v1);
    }
    lemma_add_fe(d0 * u * v, d1 * u1 * v1);
    lemma_reduce_args(d0 * u * v, d1 * u1 * v1);
    lemma_diag_poly(d0, d1, b, c);
    let dg = (1 - b) * (1 - c) * d0 + b * c * d1;
    assert(fmul(fmul(fe(dg), eb), ec) == fe(dg * eb * ec)) by {
        lemma_mul_fe_left(dg, eb);
        lemma_mul_fe_left(dg * eb, ec);
    }
    assert(d0 * u * v == ((1 - b) * (1 - c) * d0) * (eb * ec)) by (nonlinear_arith)
        requires u == eb * (1 - b), v == ec * (1 - c);
    assert(d1 * u1 * v1 == (b * c * d1) * (eb * ec)) by (nonlinear_arith)
        requires u1 == eb * b, v1 == ec * c;
    assert(dg * eb * ec == ((1 - b) * (1 - c) * d0) * (eb * ec) + (b * c * d1) * (eb * ec)) by (nonlinear_arith)
        requires dg == (1 - b) * (1 - c) * d0 + b * c * d1;
}

/// Folding the diagonal factor at `(b, c)` keeps its extension.
pub proof fn lemma_ext_diag_fold(d: Seq<int>, b: int, c: int, br: Seq<int>, cr: Seq<int>)
    requires
        d.len() == 2 * pow2(br.len()),
        br.len() == cr.len(),
    ensures
        ext_diag(fold_diag(d, b, c), br, cr) == ext_diag(d, seq![b] + br, seq![c] + cr),
{
    let h = pow2(br.len()) as int;
    let bp = seq![b] + br;
    let cp = seq![c] + cr;
    let fd = fold_diag(d, b, c);
    let f = |i: int| fmul(fmul(d[i], eq_poly(i, bp)), eq_poly(i, cp));
    let g = |i: int| fmul(fmul(fd[i], eq_poly(i, br)), eq_poly(i, cr));
    lemma_sum_pairs(f, h);
    let fp = |i: int| f(i) + f(i + h);
    assert forall|i: int| 0 <= i < h implies #[trigger] fe(fp(i)) == fe(g(i)) by {
        lemma_eq_poly_top(i, 0, b, br);
        lemma_eq_poly_top(i, 1, b, br);
        lemma_eq_poly_top(i, 0, c, cr);
        lemma_eq_poly_top(i, 1, c, cr);
        assert(i + 0 * h == i);
        assert(i + 1 * h == i + h);
        lemma_weighted_diag(d[i], d[i + h], b, c, eq_poly(i, br), eq_poly(i, cr));
        lemma_reduce_args(g(i), 0);
    }
    lemma_sum_cong(fp, g, h);
    assert(2 * h == d.len());
}

/// The extensions of the prover's tables at the points still to fix, as
/// one term: the diagonal factor at the two row points, the matrix at the
/// two column points, and each trace at its row and column point.
pub open spec fn ext_tables(st: Tables, bp: Seq<int>, cp: Seq<int>, xp: Seq<int>, yp: Seq<int>) -> int {
    let n0 = st.0.len() as int;
    let m = st.1.len() as int;
    term(ext_diag(st.0, bp, cp), ext2(st.1, xp, yp, m, m), ext2(st.2, bp, xp, n0, m), ext2(st.3, cp, yp, n0, m))
}

/// A column round fixes the first coordinates of the two column points.
pub proof fn lemma_ext_col_round(st: Tables, bp: Seq<int>, cp: Seq<int>, x: int, y: int, xr: Seq<int>, yr: Seq<int>)
    requires
        tables_shape(st),
        st.1.len() == 2 * pow2(xr.len()),
        xr.len() == yr.len(),
    ensures
        ext_tables(fold_tables(st, true, x, y), bp, cp, xr, yr) == ext_tables(st, bp, cp, seq![x] + xr, seq![y] + yr),
{
    let a = st.1;
    let h = pow2(xr.len()) as int;
    let n0 = st.0.len() as int;
    lemma_fold_matrix_rows_cols(a, x, y);
    let rw = fold_rows(a, x);
    assert forall|i: int| 0 <= i < h implies (#[trigger] rw[i]).len() == 2 * h by {
        assert(a[i].len() == a.len());
    }
    lemma_ext2_fold_cols(rw, y, xr, yr, h);
    lemma_ext2_fold_rows(a, x, xr, seq![y] + yr, 2 * h);
    lemma_ext2_fold_cols(st.2, x, bp, xr, n0);
    lemma_ext2_fold_cols(st.3, y, cp, yr, n0);
    let next = fold_tables(st, true, x, y);
    assert(next.1.len() == h);
    assert(next.2.len() == n0);
}

/// A row round fixes the first coordinates of the two row points.
pub proof fn lemma_ext_row_round(st: Tables, b: int, c: int, br: Seq<int>, cr: Seq<int>, xp: Seq<int>, yp: Seq<int>)
    requires
        tables_shape(st),
        st.0.len() == 2 * pow2(br.len()),
        br.len() == cr.len(),
    ensures
        ext_tables(fold_tables(st, false, b, c), br, cr, xp, yp) == ext_tables(st, seq![b] + br, seq![c] + cr, xp, yp),
{
    let m = st.1.len() as int;
    lemma_ext_diag_fold(st.0, b, c, br, cr);
    lemma_ext2_fold_rows(st.2, b, br, xp, m);
    lemma_ext2_fold_rows(st.3, c, cr, yp, m);
    let next = fold_tables(st, false, b, c);
    assert(next.0.len() == pow2(br.len()));
    assert(next.2.len() == pow2(br.len()));
}

/// The points still to fix after `k` rounds: column rounds first when
/// `cols` holds, row rounds first otherwise.
pub open spec fn rest_points(rs: Seq<int>, cols: bool, ni: nat, nj: nat, k: nat) -> (Seq<int>, Seq<int>, Seq<int>, Seq<int>) {
    if cols {
        let kc: nat = if k <= nj { k } else { nj };
        let kr: nat = (k - kc) as nat;
        (evens(rs, (2 * nj + 2 * kr) as int, (ni - kr) as nat), odds(rs, (2 * nj + 2 * kr) as int, (ni - kr) as nat),
            evens(rs, (2 * kc) as int, (nj - kc) as nat), odds(rs, (2 * kc) as int, (nj - kc) as nat))
    } else {
        let kr: nat = if k <= ni { k } else { ni };
        let kc: nat = (k - kr) as nat;
        (evens(rs, (2 * kr) as int, (ni - kr) as nat), odds(rs, (2 * kr) as int, (ni - kr) as nat),
            evens(rs, (2 * ni + 2 * kc) as int, (nj - kc) as nat), odds(rs, (2 * ni + 2 * kc) as int, (nj - kc) as nat))
    }
}

/// The schedule: column rounds first when `cols` holds.
pub open spec fn schedule(cols: bool, ni: nat, nj: nat) -> Seq<bool> {
    if cols { cols_first(ni, nj) } else { rows_first(ni, nj) }
}

/// The number of column rounds among the first `k`.
pub proof fn lemma_count_schedule(cols: bool, ni: nat, nj: nat, k: nat)
    requires
        k <= ni + nj,
    ensures
        count_cols(schedule(cols, ni, nj), k) == (if cols {
            if k <= nj { k } else { nj }
        } else {
            if k <= ni { 0 } else { (k - ni) as nat }
        }),
    decreases k,
{
    if k > 0 {
        lemma_count_schedule(cols, ni, nj, (k - 1) as nat);
    }
}

/// The points after the first of a run of `n` challenges.
proof fn lemma_evens_odds_step(rs: Seq<int>, start: int, n: nat)
    requires
        n >= 1,
    ensures
        evens(rs, start, n) == seq![rs[start]] + evens(rs, start + 2, (n - 1) as nat),
        odds(rs, start, n) == seq![rs[start + 1]] + odds(rs, start + 2, (n - 1) as nat),
{
    assert(evens(rs, start, n) =~= seq![rs[start]] + evens(rs, start + 2, (n - 1) as nat));
    assert(odds(rs, start, n) =~= seq![rs[start + 1]] + odds(rs, start + 2, (n - 1) as nat));
}

/// In a column round, the column points lose their first coordinates,
/// which are the round's two challenges.
proof fn lemma_rest_points_col(rs: Seq<int>, cols: bool, ni: nat, nj: nat, j: nat)
    requires
        j < ni + nj,
        schedule(cols, ni, nj)[j as int],
    ensures
        ({
            let pj = rest_points(rs, cols, ni, nj, j);
            let pk = rest_points(rs, cols, ni, nj, j + 1);
            &&& pj.0 == pk.0
            &&& pj.1 == pk.1
            &&& pj.2 == seq![rs[2 * j as int]] + pk.2
            &&& pj.3 == seq![rs[2 * j as int + 1]] + pk.3
            &&& pk.2.len() == pk.3.len()
            &&& pk.2.len() + 1 == nj - (if cols { j } else { (j - ni) as nat })
        }),
{
    let kc: nat = if cols { j } else { (j - ni) as nat };
    lemma_evens_odds_step(rs, 2 * j as int, (nj - kc) as nat);
    if !cols {
        assert(2 * ni + 2 * kc == 2 * j);
    }
}

/// In a row round, the row points lose their first coordinates, which are
/// the round's two challenges.
proof fn lemma_rest_points_row(rs: Seq<int>, cols: bool, ni: nat, nj: nat, j: nat)
    requires
        j < ni + nj,
        !schedule(cols, ni, nj)[j as int],
    ensures
        ({
            let pj = rest_points(rs, cols, ni, nj, j);
            let pk = rest_points(rs, cols, ni, nj, j + 1);
            &&& pj.2 == pk.2
            &&& pj.3 == pk.3
            &&& pj.0 == seq![rs[2 * j as int]] + pk.0
            &&& pj.1 == seq![rs[2 * j as int + 1]] + pk.1
            &&& pk.0.len() == pk.1.len()
            &&& pk.0.len() + 1 == ni - (if cols { (j - nj) as nat } else { j })
        }),
{
    let kr: nat = if cols { (j - nj) as nat } else { j };
    lemma_evens_odds_step(rs, 2 * j as int, (ni - kr) as nat);
    if cols {
        assert(2 * nj + 2 * kr == 2 * j);
    }
}

/// One more round keeps the extension at the points still to fix.
#[verifier::spinoff_prover]
#[verifier::rlimit(80)]
proof fn lemma_run_ext_step(st0: Tables, prev0: int, rs: Seq<int>, cols: bool, ni: nat, nj: nat, j: nat)
    requires
        tables_shape(st0),
        st0.0.len() == pow2(ni),
        st0.1.len() == pow2(nj),
        rs.len() == 2 * (ni + nj),
        j < ni + nj,
        prev0 == total(st0.0, st0.1, st0.2, st0.3),
    ensures
        ({
            let sched = schedule(cols, ni, nj);
            let pj = rest_points(rs, cols, ni, nj, j);
            let pk = rest_points(rs, cols, ni, nj, j + 1);
            ext_tables(run(st0, prev0, rs, sched, j + 1).1, pk.0, pk.1, pk.2, pk.3)
                == ext_tables(run(st0, prev0, rs, sched, j).1, pj.0, pj.1, pj.2, pj.3)
        }),
{
    let sched = schedule(cols, ni, nj);
    let k = j + 1;
    lemma_count_schedule(cols, ni, nj, (ni + nj) as nat);
    lemma_count_schedule(cols, ni, nj, j);
    lemma_run_complete(st0, prev0, rs, sched, ni, nj, j);
    let prior = run(st0, prev0, rs, sched, j);
    let is_col = sched[j as int];
    let r1 = rs[2 * k - 2];
    let r2 = rs[2 * k - 1];
    assert(run(st0, prev0, rs, sched, k).1 == fold_tables(prior.1, is_col, r1, r2));
    let pj = rest_points(rs, cols, ni, nj, j);
    let pk = rest_points(rs, cols, ni, nj, k);
    assert(tables_shape(prior.1));
    if is_col {
        lemma_rest_points_col(rs, cols, ni, nj, j);
        lemma_pow2_unfold(pk.2.len() + 1);
        lemma_ext_col_round(prior.1, pj.0, pj.1, r1, r2, pk.2, pk.3);
    } else {
        lemma_rest_points_row(rs, cols, ni, nj, j);
        lemma_pow2_unfold(pk.0.len() + 1);
        lemma_ext_row_round(prior.1, r1, r2, pk.0, pk.1, pj.2, pj.3);
    }
}

/// The extension of the tables at the points still to fix is the same after
/// every round.
pub proof fn lemma_run_ext(st0: Tables, prev0: int, rs: Seq<int>, cols: bool, ni: nat, nj: nat, k: nat)
    requires
        tables_shape(st0),
        st0.0.len() == pow2(ni),
        st0.1.len() == pow2(nj),
        rs.len() == 2 * (ni + nj),
        k <= ni + nj,
        prev0 == total(st0.0, st0.1, st0.2, st0.3),
    ensures
        ({
            let pk = rest_points(rs, cols, ni, nj, k);
            let p0 = rest_points(rs, cols, ni, nj, 0);
            ext_tables(run(st0, prev0, rs, schedule(cols, ni, nj), k).1, pk.0, pk.1, pk.2, pk.3)
                == ext_tables(st0, p0.0, p0.1, p0.2, p0.3)
        }),
    decreases k,
{
    if k > 0 {
        lemma_run_ext(st0, prev0, rs, cols, ni, nj, (k - 1) as nat);
        lemma_run_ext_step(st0, prev0, rs, cols, ni, nj, (k - 1) as nat);
    }
}

} // verus!
