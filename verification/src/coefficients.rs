//! Multilinear polynomials in the coefficient basis: their value at a point,
//! and at the vertices of the hypercube the sums of the coefficients of the
//! sub-masks, which is what the zeta transform computes.
use vstd::prelude::*;
use vstd::arithmetic::power2::*;
use vstd::arithmetic::div_mod::*;
use crate::bits::{bit, lemma_clear_bit};
use crate::fields::{fadd, fe, fmul, lemma_add_fe, p};
use crate::folding::lemma_bit_add_top;
use crate::mle::{lemma_sum_ext, lemma_sum_split, sum, vertex};
use crate::polynomials::{in_field, lemma_mobius_in_field, lemma_zeta_mobius, mobius, zeta, zeta_step};

verus! {

/// The multilinear polynomial with coefficients `c` at `pts`: coefficient
/// `s` multiplies the coordinates of the bits set in `s`, and the first
/// coordinate belongs to the top bit.
pub open spec fn coeff_eval(c: Seq<int>, pts: Seq<int>) -> int
    decreases pts.len(),
{
    if pts.len() == 0 {
        fe(c[0])
    } else {
        let h = (c.len() / 2) as int;
        fadd(
            coeff_eval(c.subrange(0, h), pts.drop_first()),
            fmul(pts[0], coeff_eval(c.subrange(h, c.len() as int), pts.drop_first())),
        )
    }
}

/// The pointwise field sum of two sequences.
pub open spec fn padd(a: Seq<int>, b: Seq<int>) -> Seq<int> {
    Seq::new(a.len(), |m: int| fadd(a[m], b[m]))
}

proof fn lemma_zeta_len(c: Seq<int>, k: nat)
    ensures
        zeta(c, k).len() == c.len(),
    decreases k,
{
    if k > 0 {
        lemma_zeta_len(zeta_step(c, (k - 1) as nat), (k - 1) as nat);
    }
}

proof fn lemma_zeta_in_field(c: Seq<int>, k: nat)
    requires
        in_field(c),
    ensures
        in_field(zeta(c, k)),
    decreases k,
{
    if k > 0 {
        let d = zeta_step(c, (k - 1) as nat);
        assert(in_field(d));
        lemma_zeta_in_field(d, (k - 1) as nat);
    }
}

proof fn lemma_zeta_step_padd(a: Seq<int>, b: Seq<int>, i: nat)
    requires
        a.len() == b.len(),
    ensures
        zeta_step(padd(a, b), i) == padd(zeta_step(a, i), zeta_step(b, i)),
{
    let l = zeta_step(padd(a, b), i);
    let r = padd(zeta_step(a, i), zeta_step(b, i));
    assert forall|m: int| 0 <= m < a.len() implies #[trigger] l[m] == r[m] by {
        if bit(m, i) {
            lemma_clear_bit(m, i);
            let m2 = m - pow2(i);
            lemma_add_fe(a[m] + b[m], a[m2] + b[m2]);
            lemma_add_fe(a[m] + a[m2], b[m] + b[m2]);
            assert(a[m] + b[m] + (a[m2] + b[m2]) == a[m] + a[m2] + (b[m] + b[m2]));
        }
    }
    assert(l =~= r);
}

proof fn lemma_zeta_padd(a: Seq<int>, b: Seq<int>, k: nat)
    requires
        a.len() == b.len(),
    ensures
        zeta(padd(a, b), k) == padd(zeta(a, k), zeta(b, k)),
    decreases k,
{
    if k > 0 {
        let k1 = (k - 1) as nat;
        lemma_zeta_step_padd(a, b, k1);
        lemma_zeta_padd(zeta_step(a, k1), zeta_step(b, k1), k1);
    }
}

proof fn lemma_zeta_step_concat(a: Seq<int>, b: Seq<int>, q: nat, i: nat)
    requires
        a.len() == pow2(q),
        b.len() == pow2(q),
        i < q,
    ensures
        zeta_step(a + b, i) == zeta_step(a, i) + zeta_step(b, i),
{
    let nn = pow2(q) as int;
    let l = zeta_step(a + b, i);
    let r = zeta_step(a, i) + zeta_step(b, i);
    lemma_pow2_pos(i);
    assert forall|m: int| 0 <= m < 2 * nn implies #[trigger] l[m] == r[m] by {
        if m < nn {
            if bit(m, i) {
                lemma_clear_bit(m, i);
            }
        } else {
            let j = m - nn;
            lemma_bit_add_top(j, 1, q, i);
            assert(j + 1 * pow2(q) == m);
            if bit(j, i) {
                lemma_clear_bit(j, i);
                assert((a + b)[m - pow2(i)] == b[j - pow2(i)]);
            }
        }
    }
    assert(l =~= r);
}

proof fn lemma_zeta_concat(a: Seq<int>, b: Seq<int>, q: nat, k: nat)
    requires
        a.len() == pow2(q),
        b.len() == pow2(q),
        k <= q,
    ensures
        zeta(a + b, k) == zeta(a, k) + zeta(b, k),
    decreases k,
{
    if k > 0 {
        let k1 = (k - 1) as nat;
        lemma_zeta_step_concat(a, b, q, k1);
        lemma_zeta_concat(zeta_step(a, k1), zeta_step(b, k1), q, k1);
    }
}

/// The top coordinate of a vertex, and the vertex of the rest.
proof fn lemma_vertex_top(m: int, n: nat)
    requires
        n > 0,
        0 <= m < pow2(n),
    ensures
        ({
            let hh = pow2((n - 1) as nat) as int;
            &&& bit(m, (n - 1) as nat) <==> m >= hh
            &&& vertex(m, n)[0] == (if m >= hh { 1int } else { 0int })
            &&& vertex(m, n).drop_first() == vertex(if m >= hh { m - hh } else { m }, (n - 1) as nat)
        }),
{
    let q = (n - 1) as nat;
    let hh = pow2(q) as int;
    lemma_pow2_unfold(n);
    let bt: int = if m >= hh { 1 } else { 0 };
    let j = m - bt * hh;
    assert(j + bt * pow2(q) == m);
    lemma_bit_add_top(j, bt, q, q);
    let v = vertex(m, n).drop_first();
    let w = vertex(j, q);
    assert forall|t: int| 0 <= t < q implies #[trigger] v[t] == w[t] by {
        lemma_bit_add_top(j, bt, q, (q - 1 - t) as nat);
        assert((n - 1 - (t + 1)) as nat == (q - 1 - t) as nat);
    }
    assert(v =~= w);
}

/// At each vertex of the hypercube, the polynomial with coefficients `c` is
/// the zeta transform of `c` there: the sum of the coefficients of the
/// sub-masks of the vertex's index.
pub proof fn lemma_coeff_eval_zeta(c: Seq<int>, n: nat, m: int)
    requires
        c.len() == pow2(n),
        in_field(c),
        0 <= m < pow2(n),
    ensures
        coeff_eval(c, vertex(m, n)) == zeta(c, n)[m],
    decreases n,
{
    if n == 0 {
        assert(pow2(0) == 1) by { lemma2_to64(); }
        lemma_small_mod(c[0] as nat, p() as nat);
    } else {
        let q = (n - 1) as nat;
        let hh = pow2(q) as int;
        lemma_pow2_unfold(n);
        lemma_pow2_pos(q);
        let lo = c.subrange(0, hh);
        let hi = c.subrange(hh, 2 * hh);
        assert(c =~= lo + hi);
        assert((c.len() / 2) as int == hh);
        // the top step: the upper half gains the lower half
        let top = zeta_step(c, q);
        assert forall|x: int| 0 <= x < 2 * hh implies #[trigger] bit(x, q) == (x >= hh) by {
            lemma_vertex_top(x, n);
        }
        assert(top =~= lo + padd(hi, lo));
        lemma_zeta_concat(lo, padd(hi, lo), q, q);
        lemma_zeta_padd(hi, lo, q);
        lemma_zeta_len(lo, q);
        lemma_zeta_len(hi, q);
        lemma_zeta_in_field(lo, q);
        lemma_zeta_in_field(hi, q);
        let zl = zeta(lo, q);
        let zh = zeta(hi, q);
        assert(zeta(c, n) == zl + padd(zh, zl));
        lemma_vertex_top(m, n);
        let pts = vertex(m, n);
        if m >= hh {
            let j = m - hh;
            lemma_coeff_eval_zeta(lo, q, j);
            lemma_coeff_eval_zeta(hi, q, j);
            assert(pts[0] == 1);
            lemma_small_mod(zh[j] as nat, p() as nat);
            assert(fmul(1, zh[j]) == zh[j]);
            assert((zl + padd(zh, zl))[m] == fadd(zh[j], zl[j]));
        } else {
            lemma_coeff_eval_zeta(lo, q, m);
            assert(pts[0] == 0);
            lemma_small_mod(zl[m] as nat, p() as nat);
            assert(fmul(0, coeff_eval(hi, pts.drop_first())) == 0);
        }
    }
}

/// Möbius inversion gives the coefficients of the multilinear polynomial
/// with the given values: at each vertex of the hypercube the polynomial
/// takes its value, that is, the coefficients of the sub-masks of each index
/// add up to the value at that index.
pub proof fn lemma_mobius_at_vertices(evals: Seq<int>, n: nat, m: int)
    requires
        evals.len() == pow2(n),
        in_field(evals),
        0 <= m < pow2(n),
    ensures
        coeff_eval(mobius(evals, n), vertex(m, n)) == evals[m],
{
    lemma_mobius_in_field(evals, n);
    lemma_coeff_eval_zeta(mobius(evals, n), n, m);
    lemma_zeta_mobius(evals, n);
}

/// Every bit below `n` that is set in `s` is set in `m`: `s` is a sub-mask
/// of `m` (`s & m == s` on the low `n` bits).
pub open spec fn submask(s: int, m: int, n: nat) -> bool
    decreases n,
{
    if n == 0 {
        true
    } else {
        (bit(s, (n - 1) as nat) ==> bit(m, (n - 1) as nat)) && submask(s, m, (n - 1) as nat)
    }
}

/// The sum of the entries of `c` at the sub-masks of `m`, among the first
/// `2^n` indices.
pub open spec fn submask_sum(c: Seq<int>, m: int, n: nat) -> int {
    fe(sum(|s: int| if submask(s, m, n) { c[s] } else { 0 }, pow2(n) as int))
}

/// Sub-masks on the low `k` bits read only those bits.
proof fn lemma_submask_low(s: int, s2: int, m: int, m2: int, k: nat)
    requires
        forall|i: nat| i < k ==> bit(s, i) == bit(s2, i) && bit(m, i) == bit(m2, i),
    ensures
        submask(s, m, k) == submask(s2, m2, k),
    decreases k,
{
    if k > 0 {
        lemma_submask_low(s, s2, m, m2, (k - 1) as nat);
        assert(bit(s, (k - 1) as nat) == bit(s2, (k - 1) as nat));
        assert(bit(m, (k - 1) as nat) == bit(m2, (k - 1) as nat));
    }
}

/// At each vertex, the polynomial with coefficients `c` is the sum of the
/// coefficients of the sub-masks of the vertex's index.
pub proof fn lemma_coeff_eval_submasks(c: Seq<int>, n: nat, m: int)
    requires
        c.len() == pow2(n),
        0 <= m < pow2(n),
    ensures
        coeff_eval(c, vertex(m, n)) == submask_sum(c, m, n),
    decreases n,
{
    if n == 0 {
        assert(pow2(0) == 1) by { lemma2_to64(); }
        let f = |s: int| if submask(s, m, 0) { c[s] } else { 0 };
        assert(sum(f, 1) == sum(f, 0) + f(0));
    } else {
        let q = (n - 1) as nat;
        let hh = pow2(q) as int;
        lemma_pow2_unfold(n);
        lemma_pow2_pos(q);
        let lo = c.subrange(0, hh);
        let hi = c.subrange(hh, 2 * hh);
        assert((c.len() / 2) as int == hh);
        lemma_vertex_top(m, n);
        let top = m >= hh;
        let m2 = if top { m - hh } else { m };
        lemma_coeff_eval_submasks(lo, q, m2);
        lemma_coeff_eval_submasks(hi, q, m2);
        let bt: int = if top { 1 } else { 0 };
        assert(m2 + bt * pow2(q) == m);
        let f = |s: int| if submask(s, m, n) { c[s] } else { 0 };
        let g = |t: int| if submask(t, m2, q) { lo[t] } else { 0 };
        let h = |t: int| if top && submask(t, m2, q) { hi[t] } else { 0 };
        assert forall|t: int| 0 <= t < hh implies #[trigger] f(t) == g(t) by {
            lemma_bit_add_top(t, 0, q, q);
            assert(t + 0 * pow2(q) == t);
            assert forall|i: nat| i < q implies bit(t, i) == bit(t, i) && bit(m, i) == bit(m2, i) by {
                lemma_bit_add_top(m2, bt, q, i);
            }
            lemma_submask_low(t, t, m, m2, q);
        }
        assert forall|t: int| 0 <= t < hh implies #[trigger] f(hh + t) == h(t) by {
            lemma_bit_add_top(t, 1, q, q);
            assert(t + 1 * pow2(q) == hh + t);
            lemma_bit_add_top(m2, bt, q, q);
            assert forall|i: nat| i < q implies bit(hh + t, i) == bit(t, i) && bit(m, i) == bit(m2, i) by {
                lemma_bit_add_top(t, 1, q, i);
                lemma_bit_add_top(m2, bt, q, i);
            }
            lemma_submask_low(hh + t, t, m, m2, q);
        }
        lemma_sum_split(f, g, h, hh, hh);
        assert(hh + hh == pow2(n) as int);
        lemma_add_fe(sum(g, hh), sum(h, hh));
        let gh = |t: int| if submask(t, m2, q) { hi[t] } else { 0 };
        let pts = vertex(m, n);
        if top {
            lemma_sum_ext(h, gh, hh);
            assert(pts[0] == 1);
            lemma_mod_twice(sum(gh, hh), p());
            lemma_small_mod(submask_sum(hi, m2, q) as nat, p() as nat);
            assert(fmul(1, submask_sum(hi, m2, q)) == submask_sum(hi, m2, q));
        } else {
            assert(sum(h, hh) == 0) by {
                lemma_sum_ext(h, |t: int| 0int, hh);
                lemma_sum_const_zero(hh);
            }
            assert(pts[0] == 0);
            assert(fmul(0, coeff_eval(hi, pts.drop_first())) == 0);
            lemma_small_mod(0, p() as nat);
            lemma_mod_twice(sum(g, hh), p());
            lemma_small_mod(submask_sum(lo, m2, q) as nat, p() as nat);
        }
    }
}

proof fn lemma_sum_const_zero(n: int)
    ensures
        sum(|t: int| 0int, n) == 0,
    decreases n,
{
    if n > 0 {
        lemma_sum_const_zero(n - 1);
    }
}

/// Möbius inversion in the form of sub-mask sums: the coefficients it
/// computes, summed over the sub-masks of each index, give back the value
/// at that index.
pub proof fn lemma_mobius_submask_sums(evals: Seq<int>, n: nat, m: int)
    requires
        evals.len() == pow2(n),
        in_field(evals),
        0 <= m < pow2(n),
    ensures
        submask_sum(mobius(evals, n), m, n) == evals[m],
{
    lemma_mobius_in_field(evals, n);
    lemma_mobius_at_vertices(evals, n, m);
    lemma_coeff_eval_submasks(mobius(evals, n), n, m);
}

} // verus!
