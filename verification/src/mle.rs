//! Multilinear extensions: the equality polynomial of a hypercube index,
//! folding a table of values along its top variable, and finite sums.
use vstd::prelude::*;
use vstd::arithmetic::power2::*;
use crate::bits::bit;
use crate::fields::{fadd, fe, fmul, fsub, p, BaseField};

verus! {

/// The factor of the equality polynomial for one bit: `x` where the bit is
/// set, `1 - x` where it is not.
pub open spec fn sel(b: bool, x: int) -> int {
    if b {
        x
    } else {
        fsub(1, x)
    }
}

/// The product of the equality-polynomial factors of bits `0..k` of `index`;
/// bit `i` is read against `pts[pts.len() - 1 - i]` (the points are
/// big-endian: the first one belongs to the top bit).
pub open spec fn eq_prod(index: int, pts: Seq<int>, k: nat) -> int
    decreases k,
{
    if k == 0 {
        1
    } else {
        fmul(eq_prod(index, pts, (k - 1) as nat), sel(bit(index, (k - 1) as nat), pts[pts.len() - k]))
    }
}

/// The equality polynomial of `index` at `pts`: the Lagrange basis
/// polynomial of that hypercube vertex.
pub open spec fn eq_poly(index: int, pts: Seq<int>) -> int {
    eq_prod(index, pts, pts.len())
}

/// The hypercube vertex with index `bits`, as a big-endian point of
/// dimension `n`.
pub open spec fn vertex(bits: int, n: nat) -> Seq<int> {
    Seq::new(n, |t: int| if bit(bits, (n - 1 - t) as nat) { 1int } else { 0int })
}

/// The sum of `f(0) + ... + f(n - 1)` over the integers.
pub open spec fn sum(f: spec_fn(int) -> int, n: int) -> int
    decreases n,
{
    if n <= 0 {
        0
    } else {
        sum(f, n - 1) + f(n - 1)
    }
}

/// Adding a term to a reduced partial sum.
pub proof fn lemma_fsum_step(f: spec_fn(int) -> int, n: int)
    requires
        n >= 0,
    ensures
        fadd(fe(sum(f, n)), f(n)) == fe(sum(f, n + 1)),
{
    vstd::arithmetic::div_mod::lemma_add_mod_noop(sum(f, n), f(n), p());
    vstd::arithmetic::div_mod::lemma_mod_twice(f(n), p());
    vstd::arithmetic::div_mod::lemma_add_mod_noop(sum(f, n), f(n) % p(), p());
}

/// Adding a term to a reduced partial sum that follows an offset.
pub proof fn lemma_fsum_step_offset(a: int, f: spec_fn(int) -> int, n: int)
    requires
        n >= 0,
    ensures
        fadd(fe(a + sum(f, n)), f(n)) == fe(a + sum(f, n + 1)),
{
    vstd::arithmetic::div_mod::lemma_add_mod_noop(a + sum(f, n), f(n), p());
    vstd::arithmetic::div_mod::lemma_mod_twice(f(n), p());
    vstd::arithmetic::div_mod::lemma_add_mod_noop(a + sum(f, n), f(n) % p(), p());
}

/// The product `f(0) * ... * f(n - 1)` in the field.
pub open spec fn fprod(f: spec_fn(int) -> int, n: int) -> int
    decreases n,
{
    if n <= 0 {
        1
    } else {
        fmul(fprod(f, n - 1), f(n - 1))
    }
}

/// Sums of pointwise congruent terms are congruent.
pub proof fn lemma_sum_cong(f: spec_fn(int) -> int, g: spec_fn(int) -> int, n: int)
    requires
        forall|k: int| 0 <= k < n ==> #[trigger] fe(f(k)) == fe(g(k)),
    ensures
        fe(sum(f, n)) == fe(sum(g, n)),
    decreases n,
{
    if n > 0 {
        lemma_sum_cong(f, g, n - 1);
        assert(fe(f(n - 1)) == fe(g(n - 1)));
        vstd::arithmetic::div_mod::lemma_add_mod_noop(sum(f, n - 1), f(n - 1), p());
        vstd::arithmetic::div_mod::lemma_add_mod_noop(sum(g, n - 1), g(n - 1), p());
    }
}

/// A constant factor comes out of a sum.
pub proof fn lemma_sum_scale(f: spec_fn(int) -> int, k: int, n: int)
    ensures
        sum(|x: int| k * f(x), n) == k * sum(f, n),
    decreases n,
{
    if n > 0 {
        lemma_sum_scale(f, k, n - 1);
        vstd::arithmetic::mul::lemma_mul_is_distributive_add(k, sum(f, n - 1), f(n - 1));
    }
}

/// Sums of pointwise equal terms are equal.
pub proof fn lemma_sum_ext(f: spec_fn(int) -> int, g: spec_fn(int) -> int, n: int)
    requires
        forall|k: int| 0 <= k < n ==> #[trigger] f(k) == g(k),
    ensures
        sum(f, n) == sum(g, n),
    decreases n,
{
    if n > 0 {
        lemma_sum_ext(f, g, n - 1);
    }
}

/// A sum over `n1 + n2` terms splits into the first `n1` and the rest.
pub proof fn lemma_sum_split(f: spec_fn(int) -> int, g: spec_fn(int) -> int, h: spec_fn(int) -> int, n1: int, n2: int)
    requires
        n1 >= 0,
        n2 >= 0,
        forall|k: int| 0 <= k < n1 ==> #[trigger] f(k) == g(k),
        forall|k: int| 0 <= k < n2 ==> #[trigger] f(n1 + k) == h(k),
    ensures
        sum(f, n1 + n2) == sum(g, n1) + sum(h, n2),
    decreases n2,
{
    if n2 == 0 {
        lemma_sum_ext(f, g, n1);
    } else {
        lemma_sum_split(f, g, h, n1, n2 - 1);
        assert(f(n1 + (n2 - 1)) == h(n2 - 1));
    }
}

/// The equality polynomial takes field values.
pub proof fn lemma_eq_poly_range(index: int, pts: Seq<int>)
    ensures
        0 <= eq_poly(index, pts) < p(),
{
}

/// The field values of a table of rows.
pub open spec fn vals2(t: Seq<Vec<BaseField>>) -> Seq<Seq<int>> {
    t.map_values(|row: Vec<BaseField>| row@.map_values(|x: BaseField| x@))
}

} // verus!
