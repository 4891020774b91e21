//! Facts of modular arithmetic shared by the prime fields: the steps of the
//! extended Euclidean algorithm.
use vstd::prelude::*;
use vstd::arithmetic::div_mod::*;
use vstd::arithmetic::mul::*;

verus! {

/// `d` divides both `x` and `y`.
pub open spec fn common_divisor(d: int, x: int, y: int) -> bool {
    x % d == 0 && y % d == 0
}

/// One division step `x0 = q * x1 + x2` keeps the common divisors.
pub proof fn lemma_step_divisors(x0: int, x1: int, x2: int, q: int)
    requires
        x0 == q * x1 + x2,
        x1 > 0,
        q >= 0,
    ensures
        forall|d: int| d > 0 ==> (#[trigger] common_divisor(d, x1, x2) <==> common_divisor(d, x0, x1)),
{
    assert forall|d: int| d > 0 implies (#[trigger] common_divisor(d, x1, x2) <==> common_divisor(d, x0, x1)) by {
        if x1 % d == 0 {
            lemma_fundamental_div_mod(x1, d);
            let k = x1 / d;
            assert(q * x1 == (q * k) * d) by (nonlinear_arith)
                requires x1 == d * k;
            if x2 % d == 0 {
                lemma_fundamental_div_mod(x2, d);
                let k2 = x2 / d;
                assert(x0 == (q * k + k2) * d) by (nonlinear_arith)
                    requires x0 == (q * k) * d + x2, x2 == d * k2;
                lemma_mod_multiples_basic(q * k + k2, d);
            }
            if x0 % d == 0 {
                lemma_fundamental_div_mod(x0, d);
                let k0 = x0 / d;
                assert(x2 == (k0 - q * k) * d) by (nonlinear_arith)
                    requires x2 == x0 - (q * k) * d, x0 == d * k0;
                lemma_mod_multiples_basic(k0 - q * k, d);
            }
        }
    }
}

/// The Bezout coefficient of the next remainder, modulo `m`: if
/// `a * s0 = x0` and `a * s1 = x1`, then `a * (s0 - q * s1) = x2`.
pub proof fn lemma_bezout_step(m: int, a: int, s0: int, s1: int, q: int, x0: int, x1: int, x2: int)
    requires
        m > 0,
        (a * s0) % m == x0 % m,
        (a * s1) % m == x1 % m,
        x0 == q * x1 + x2,
    ensures
        (a * ((s0 - (q * s1) % m) % m)) % m == x2 % m,
{
    lemma_mul_mod_noop_right(a, s0 - (q * s1) % m, m);
    assert(a * (s0 - (q * s1) % m) % m == (a * s0 - a * (q * s1)) % m) by {
        assert(a * (s0 - (q * s1) % m) == a * s0 - a * ((q * s1) % m)) by (nonlinear_arith);
        lemma_sub_mod_noop_right(a * s0, a * ((q * s1) % m), m);
        lemma_mul_mod_noop_right(a, q * s1, m);
        lemma_sub_mod_noop_right(a * s0, a * (q * s1), m);
    }
    assert(a * (q * s1) == q * (a * s1)) by (nonlinear_arith);
    lemma_sub_mod_noop(a * s0, q * (a * s1), m);
    lemma_mul_mod_noop_right(q, a * s1, m);
    lemma_sub_mod_noop(x0, q * x1, m);
    lemma_mul_mod_noop_right(q, x1, m);
}

/// A common divisor `d > 1` of `a` and `m` rules out an inverse of `a`
/// modulo `m`.
pub proof fn lemma_no_inverse_with_divisor(m: int, a: int, x: int, d: int)
    requires
        m > 1,
        d > 1,
        common_divisor(d, a, m),
        0 <= x,
    ensures
        (a * x) % m != 1,
{
    if (a * x) % m == 1 {
        lemma_fundamental_div_mod(a * x, m);
        let k = (a * x) / m;
        lemma_fundamental_div_mod(a, d);
        lemma_fundamental_div_mod(m, d);
        let ka = a / d;
        let km = m / d;
        assert(1 == (ka * x - k * km) * d) by (nonlinear_arith)
            requires a * x == m * k + 1, a == d * ka, m == d * km;
        let t = ka * x - k * km;
        assert(false) by (nonlinear_arith)
            requires 1 == t * d, d > 1;
    }
}

/// Integers that differ by a multiple of `m` have the same remainder.
pub proof fn lemma_mod_eq_from_diff(m: int, x: int, y: int, k: int)
    requires
        m > 0,
        x - y == k * m,
    ensures
        x % m == y % m,
{
    lemma_mod_multiples_vanish(k, y, m);
    assert(x == k * m + y);
}

} // verus!
