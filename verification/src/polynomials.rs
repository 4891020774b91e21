//! Univariate quadratics given by values or coefficients, and multilinear
//! polynomials given by their values on the hypercube.
use vstd::prelude::*;
use vstd::arithmetic::power2::*;
use crate::bits::{bit, is_pow2_len, lemma_bit_ops, lemma_clear_bit, log2};
use crate::fields::{
    fadd, fe, fmul, fsub, inv2, lemma_fe_eq_from_diff, lemma_interpolate_quadratic, lemma_reduce_args,
    lemma_two_invertible, lemma_view_range, lemma_fe_small, lemma_add_fe, lemma_mul_fe, lemma_sub_fe, p, quad, BaseField,
};

use crate::coefficients::{coeff_eval, lemma_mobius_at_vertices, lemma_mobius_submask_sums, submask_sum};
use crate::mle::vertex;
use crate::text::{decimal_text, push_decimal};
use vstd::string::StringExecFns;

verus! {

/// The field values of a sequence of elements.
pub open spec fn vals(s: Seq<BaseField>) -> Seq<int> {
    s.map_values(|x: BaseField| x@)
}

/// The values of a quadratic at `1`, `0` and `-1`.
#[derive(Clone, Copy, Debug)]
pub struct SquarePolynomialEval<F> {
    pub one: F,
    pub zero: F,
    pub minus_one: F,
}

/// The quadratic `coeffs[0] + coeffs[1]*X + coeffs[2]*X^2`.
#[derive(Clone, Copy, Debug)]
pub struct SquarePolynomial<F> {
    pub coeffs: [F; 3],
}

/// Linear coefficient of the quadratic through `(0, z)`, `(1, o)`, `(-1, m)`.
pub open spec fn through_linear(o: int, m: int) -> int {
    fmul(fsub(o, m), inv2())
}

/// Square coefficient of the quadratic through `(0, z)`, `(1, o)`, `(-1, m)`.
pub open spec fn through_square(z: int, o: int, m: int) -> int {
    fsub(fmul(fadd(o, m), inv2()), z)
}

/// The value at `x` of the quadratic through `(0, z)`, `(1, o)`, `(-1, m)`.
pub open spec fn through(z: int, o: int, m: int, x: int) -> int {
    quad(z, through_linear(o, m), through_square(z, o, m), x)
}

impl SquarePolynomialEval<BaseField> {
    /// Adds two value triples pointwise (the values of the sum of the quadratics).
    pub fn add(self, other: SquarePolynomialEval<BaseField>) -> (r: SquarePolynomialEval<BaseField>)
        ensures
            r.one@ == fadd(self.one@, other.one@),
            r.zero@ == fadd(self.zero@, other.zero@),
            r.minus_one@ == fadd(self.minus_one@, other.minus_one@),
    {
        SquarePolynomialEval {
            one: self.one.add(other.one),
            zero: self.zero.add(other.zero),
            minus_one: self.minus_one.add(other.minus_one),
        }
    }

    /// The coefficients of the quadratic with these three values.
    pub fn to_polynomial(self) -> (r: SquarePolynomial<BaseField>)
        ensures
            r.coeffs[0]@ == self.zero@,
            r.coeffs[1]@ == through_linear(self.one@, self.minus_one@),
            r.coeffs[2]@ == through_square(self.zero@, self.one@, self.minus_one@),
    {
        proof { lemma_two_invertible(); }
        let two = BaseField::from_u64(2);
        let a = self.zero;
        let b = self.one.sub(self.minus_one).div(two);
        let c = self.one.add(self.minus_one).div(two).sub(a);
        SquarePolynomial { coeffs: [a, b, c] }
    }

    /// The value at `x` of the quadratic with these three values.
    pub fn evaluate(&self, x: BaseField) -> (r: BaseField)
        ensures
            r@ == through(self.zero@, self.one@, self.minus_one@, x@),
    {
        self.to_polynomial().evaluate(x)
    }
}

impl SquarePolynomial<BaseField> {
    /// The quadratic as text, `a + b*X + c*X^2`, each coefficient in decimal.
    pub fn text(&self) -> (r: String)
        ensures
            r@ == decimal_text(self.coeffs[0]@ as nat) + " + "@ + decimal_text(self.coeffs[1]@ as nat) + "*X + "@
                + decimal_text(self.coeffs[2]@ as nat) + "*X^2"@,
    {
        let mut s = String::new();
        push_decimal(&mut s, self.coeffs[0].value());
        s.append(" + ");
        push_decimal(&mut s, self.coeffs[1].value());
        s.append("*X + ");
        push_decimal(&mut s, self.coeffs[2].value());
        s.append("*X^2");
        s
    }

    pub fn evaluate(&self, x: BaseField) -> (r: BaseField)
        ensures
            r@ == quad(self.coeffs[0]@, self.coeffs[1]@, self.coeffs[2]@, x@),
    {
        let a = self.coeffs[0];
        let b = self.coeffs[1];
        let c = self.coeffs[2];
        let r = a.add(b.mul(x)).add(c.mul(x).mul(x));
        proof {
            lemma_view_range(a);
            lemma_view_range(b);
            lemma_view_range(c);
            lemma_view_range(x);
            lemma_quad_horner(a@, b@, c@, x@);
        }
        r
    }
}

proof fn lemma_quad_horner(a: int, b: int, c: int, x: int)
    requires
        0 <= a < p(),
        0 <= b < p(),
        0 <= c < p(),
        0 <= x < p(),
    ensures
        fadd(fadd(a, fmul(b, x)), fmul(fmul(c, x), x)) == quad(a, b, c, x),
{
    lemma_fe_small(a);
    lemma_fe_small(b);
    lemma_fe_small(c);
    lemma_fe_small(x);
    lemma_mul_fe(b, x);
    lemma_add_fe(a, b * x);
    lemma_mul_fe(c, x);
    lemma_mul_fe(c * x, x);
    lemma_add_fe(a + b * x, c * x * x);
}

/// The quadratic with the given values at `0`, `1` and `-1` takes them there.
pub proof fn lemma_through_interpolates(z: int, o: int, m: int)
    requires
        0 <= z < p(),
        0 <= o < p(),
        0 <= m < p(),
    ensures
        through(z, o, m, 0) == z,
        through(z, o, m, 1) == o,
        through(z, o, m, -1) == m,
{
    let b = through_linear(o, m);
    let c = through_square(z, o, m);
    let i2 = inv2();
    let pp = p();
    assert(b == fe((o - m) * i2)) by {
        vstd::arithmetic::div_mod::lemma_small_mod(o as nat, pp as nat);
        vstd::arithmetic::div_mod::lemma_small_mod(m as nat, pp as nat);
        lemma_reduce_args(o - m, i2);
    }
    assert(c == fe((o + m) * i2 - z)) by {
        vstd::arithmetic::div_mod::lemma_small_mod(o as nat, pp as nat);
        vstd::arithmetic::div_mod::lemma_small_mod(m as nat, pp as nat);
        vstd::arithmetic::div_mod::lemma_small_mod(z as nat, pp as nat);
        lemma_reduce_args(o + m, i2);
        lemma_reduce_args((o + m) * i2, z);
    }
    vstd::arithmetic::div_mod::lemma_small_mod(z as nat, pp as nat);
    vstd::arithmetic::div_mod::lemma_small_mod(o as nat, pp as nat);
    vstd::arithmetic::div_mod::lemma_small_mod(m as nat, pp as nat);
    lemma_quad_at_small_points(z, o, m, b, c);
}

proof fn lemma_quad_at_small_points(z: int, o: int, m: int, b: int, c: int)
    requires
        b == fe((o - m) * inv2()),
        c == fe((o + m) * inv2() - z),
        fe(z) == z,
        fe(o) == o,
        fe(m) == m,
    ensures
        quad(z, b, c, 0) == z,
        quad(z, b, c, 1) == o,
        quad(z, b, c, -1) == m,
{
    let i2 = inv2();
    let pp = p();
    vstd::arithmetic::div_mod::lemma_fundamental_div_mod((o - m) * i2, pp);
    vstd::arithmetic::div_mod::lemma_fundamental_div_mod((o + m) * i2 - z, pp);
    let qb = ((o - m) * i2) / pp;
    let qc = ((o + m) * i2 - z) / pp;
    assert(z + b * 0 + c * 0 * 0 == z) by (nonlinear_arith);
    assert(z + b * 1 + c * 1 * 1 - o == (o - qb - qc) * pp) by (nonlinear_arith)
        requires
            (o - m) * i2 == pp * qb + b,
            (o + m) * i2 - z == pp * qc + c,
            i2 * 2 == pp + 1;
    lemma_fe_eq_from_diff(z + b * 1 + c * 1 * 1, o, o - qb - qc);
    assert(z + b * -1 + c * -1 * -1 - m == (m - (qc - qb)) * pp) by (nonlinear_arith)
        requires
            (o - m) * i2 == pp * qb + b,
            (o + m) * i2 - z == pp * qc + c,
            i2 * 2 == pp + 1;
    lemma_fe_eq_from_diff(z + b * -1 + c * -1 * -1, m, m - (qc - qb));
}

/// The quadratic through the values of a quadratic at `0`, `1` and `-1` is
/// that quadratic.
pub proof fn lemma_through_quadratic(a: int, b: int, c: int, x: int)
    ensures
        through(quad(a, b, c, 0), quad(a, b, c, 1), quad(a, b, c, -1), x) == quad(a, b, c, x),
{
    lemma_interpolate_quadratic(a, b, c, x);
}


/// One Möbius step along bit `i`: subtract from each entry whose index has
/// bit `i` set the entry with that bit cleared.
pub open spec fn mobius_step(c: Seq<int>, i: nat) -> Seq<int> {
    Seq::new(c.len(), |m: int| if bit(m, i) { fsub(c[m], c[m - pow2(i)]) } else { c[m] })
}

/// One zeta step along bit `i`: the inverse of `mobius_step`.
pub open spec fn zeta_step(c: Seq<int>, i: nat) -> Seq<int> {
    Seq::new(c.len(), |m: int| if bit(m, i) { fadd(c[m], c[m - pow2(i)]) } else { c[m] })
}

/// Möbius steps along bits `0..k`, lowest bit first.
pub open spec fn mobius(c: Seq<int>, k: nat) -> Seq<int>
    decreases k,
{
    if k == 0 {
        c
    } else {
        mobius_step(mobius(c, (k - 1) as nat), (k - 1) as nat)
    }
}

/// Zeta steps along bits `k-1` down to `0`: evaluated on the coefficients of
/// a multilinear polynomial, the value at each hypercube point, the sum of
/// the coefficients of the sub-masks of its index.
pub open spec fn zeta(c: Seq<int>, k: nat) -> Seq<int>
    decreases k,
{
    if k == 0 {
        c
    } else {
        zeta(zeta_step(c, (k - 1) as nat), (k - 1) as nat)
    }
}

/// Every entry is a field element.
pub open spec fn in_field(c: Seq<int>) -> bool {
    forall|m: int| 0 <= m < c.len() ==> 0 <= #[trigger] c[m] < p()
}

pub(crate) proof fn lemma_mobius_in_field(c: Seq<int>, k: nat)
    requires
        in_field(c),
    ensures
        in_field(mobius(c, k)),
        mobius(c, k).len() == c.len(),
    decreases k,
{
    if k > 0 {
        lemma_mobius_in_field(c, (k - 1) as nat);
    }
}

proof fn lemma_zeta_undoes_step(c: Seq<int>, i: nat)
    requires
        in_field(c),
    ensures
        zeta_step(mobius_step(c, i), i) == c,
{
    let d = mobius_step(c, i);
    let e = zeta_step(d, i);
    assert forall|m: int| 0 <= m < c.len() implies #[trigger] e[m] == c[m] by {
        if bit(m, i) {
            lemma_clear_bit(m, i);
            let m2 = m - pow2(i);
            assert(d[m2] == c[m2]);
            lemma_reduce_args(c[m] - c[m2], c[m2]);
            vstd::arithmetic::div_mod::lemma_small_mod(c[m] as nat, p() as nat);
        }
    }
    assert(e =~= c);
}

/// Möbius inversion is undone by the zeta transform: the coefficients it
/// computes evaluate on the hypercube to the values it was given.
pub proof fn lemma_zeta_mobius(c: Seq<int>, k: nat)
    requires
        in_field(c),
    ensures
        zeta(mobius(c, k), k) == c,
    decreases k,
{
    if k > 0 {
        let k1 = (k - 1) as nat;
        lemma_mobius_in_field(c, k1);
        lemma_zeta_undoes_step(mobius(c, k1), k1);
        lemma_zeta_mobius(c, k1);
    }
}

/// Computes the coefficients of the multilinear polynomial with the given
/// values on the hypercube (the length must be a power of two).
pub fn mobius_inversion(evals: Vec<BaseField>) -> (coeffs: Vec<BaseField>)
    requires
        is_pow2_len(evals.len() as int),
    ensures
        coeffs.len() == evals.len(),
        exists|n: nat| pow2(n) == evals.len() && vals(coeffs@) == mobius(vals(evals@), n),
        exists|n: nat| pow2(n) == evals.len() && forall|m: int| 0 <= m < pow2(n) ==>
            #[trigger] coeff_eval(vals(coeffs@), vertex(m, n)) == evals@[m]@,
        exists|n: nat| pow2(n) == evals.len() && forall|m: int| 0 <= m < pow2(n) ==>
            #[trigger] submask_sum(vals(coeffs@), m, n) == evals@[m]@,
{
    let n: u32 = log2(evals.len());
    let mut coeffs = evals;
    let ghost orig = vals(coeffs@);
    let size: usize = 1usize << n;
    proof {
        lemma_bit_ops(0, n as usize);
    }
    let mut i: u32 = 0;
    while i < n
        invariant
            0 <= i <= n,
            n < usize::BITS,
            size == coeffs.len(),
            pow2(n as nat) == size,
            vals(coeffs@) == mobius(orig, i as nat),
        decreases n - i,
    {
        let ghost before = vals(coeffs@);
        let mut mask: usize = 0;
        let bitmask: usize = 1usize << i;
        proof {
            lemma_bit_ops(0, i as usize);
        }
        while mask < size
            invariant
                0 <= mask <= size,
                size == coeffs.len(),
                i < n,
                n < usize::BITS,
                bitmask == pow2(i as nat),
                before.len() == size,
                forall|m: int| 0 <= m < mask ==> vals(coeffs@)[m] == #[trigger] mobius_step(before, i as nat)[m],
                forall|m: int| mask <= m < size ==> #[trigger] vals(coeffs@)[m] == before[m],
            decreases size - mask,
        {
            proof {
                lemma_bit_ops(mask, i as usize);
            }
            let ghost cur = coeffs@;
            if (mask & bitmask) != 0 {
                let other: usize = mask ^ bitmask;
                proof {
                    lemma_clear_bit(mask as int, i as nat);
                    assert(vals(coeffs@)[other as int] == mobius_step(before, i as nat)[other as int]);
                    assert(vals(coeffs@)[other as int] == before[other as int]);
                }
                let tmp = coeffs[other];
                let updated = coeffs[mask].sub(tmp);
                coeffs.set(mask, updated);
                proof {
                    assert(coeffs@ == cur.update(mask as int, updated));
                    assert(vals(coeffs@) =~= vals(cur).update(mask as int, updated@));
                    assert(vals(cur)[mask as int] == before[mask as int]);
                }
            } else {
                proof {
                    assert(vals(cur)[mask as int] == before[mask as int]);
                }
            }
            proof {
                assert forall|m: int| 0 <= m < mask + 1 implies vals(coeffs@)[m] == #[trigger] mobius_step(before, i as nat)[m] by {
                    if m < mask {
                        assert(vals(coeffs@)[m] == vals(cur)[m]);
                    }
                }
                assert forall|m: int| mask + 1 <= m < size implies #[trigger] vals(coeffs@)[m] == before[m] by {
                    assert(vals(coeffs@)[m] == vals(cur)[m]);
                }
            }
            mask = mask + 1;
        }
        proof {
            assert(vals(coeffs@) =~= mobius_step(before, i as nat));
        }
        i = i + 1;
    }
    proof {
        let nn = n as nat;
        assert forall|m: int| 0 <= m < orig.len() implies 0 <= #[trigger] orig[m] < p() by {
            lemma_view_range(evals@[m]);
        }
        assert forall|m: int| 0 <= m < pow2(nn) implies
            #[trigger] coeff_eval(vals(coeffs@), vertex(m, nn)) == evals@[m]@ by {
            lemma_mobius_at_vertices(orig, nn, m);
        }
        assert forall|m: int| 0 <= m < pow2(nn) implies
            #[trigger] submask_sum(vals(coeffs@), m, nn) == evals@[m]@ by {
            lemma_mobius_submask_sums(orig, nn, m);
        }
    }
    coeffs
}

/// A multilinear polynomial given by its values on the hypercube.
#[derive(Debug)]
pub struct LagrangePolynomial<F>(Vec<F>);

impl<F> LagrangePolynomial<F> {
    #[verifier::type_invariant]
    spec fn power_of_two_size(self) -> bool {
        is_pow2_len(self.0.len() as int)
    }
}

impl LagrangePolynomial<BaseField> {
    /// The values on the hypercube.
    pub closed spec fn evals(self) -> Seq<BaseField> {
        self.0@
    }

    /// Wraps the values, whose number must be a power of two.
    pub fn new(evals: Vec<BaseField>) -> (r: Self)
        requires
            is_pow2_len(evals.len() as int),
        ensures
            r.evals() == evals@,
    {
        LagrangePolynomial(evals)
    }

    /// The coefficients of the polynomial, in the order of the hypercube
    /// indices (Möbius inversion of the values).
    pub fn to_coefficient_list(self) -> (coeffs: Vec<BaseField>)
        ensures
            coeffs.len() == self.evals().len(),
            exists|n: nat| pow2(n) == self.evals().len() && vals(coeffs@) == mobius(vals(self.evals()), n),
            exists|n: nat| pow2(n) == self.evals().len() && forall|m: int| 0 <= m < pow2(n) ==>
                #[trigger] coeff_eval(vals(coeffs@), vertex(m, n)) == self.evals()[m]@,
            exists|n: nat| pow2(n) == self.evals().len() && forall|m: int| 0 <= m < pow2(n) ==>
                #[trigger] submask_sum(vals(coeffs@), m, n) == self.evals()[m]@,
    {
        proof { use_type_invariant(&self); }
        mobius_inversion(self.0)
    }
}

} // verus!
