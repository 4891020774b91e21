//! The base field of the proof system: the Goldilocks prime field
//! `p = 2^64 - 2^32 + 1`, with elements held in canonical form.
use vstd::prelude::*;
use vstd::arithmetic::div_mod::*;
use vstd::arithmetic::mul::*;
use crate::modular::{common_divisor, lemma_bezout_step, lemma_no_inverse_with_divisor, lemma_step_divisors};

verus! {

/// The Goldilocks prime `2^64 - 2^32 + 1`.
pub const MODULUS: u64 = 18446744069414584321u64;

/// The modulus as a mathematical integer.
pub open spec fn p() -> int {
    18446744069414584321
}

/// The field element that an integer stands for.
pub open spec fn fe(x: int) -> int {
    x % p()
}

pub open spec fn fadd(a: int, b: int) -> int {
    (a + b) % p()
}

pub open spec fn fsub(a: int, b: int) -> int {
    (a - b) % p()
}

pub open spec fn fneg(a: int) -> int {
    (-a) % p()
}

pub open spec fn fmul(a: int, b: int) -> int {
    (a * b) % p()
}

/// `a` has a multiplicative inverse modulo `p`.
pub open spec fn invertible(a: int) -> bool {
    exists|x: int| 0 <= x < p() && #[trigger] fmul(a, x) == 1
}

/// The multiplicative inverse of `a`, where there is one.
pub open spec fn finv(a: int) -> int {
    choose|x: int| 0 <= x < p() && #[trigger] fmul(a, x) == 1
}

pub open spec fn fdiv(a: int, b: int) -> int {
    fmul(a, finv(b))
}

/// An element of the Goldilocks field, always held below the modulus.
#[derive(Clone, Copy, Debug, PartialEq, Eq, Hash)]
pub struct BaseField {
    v: u64,
}

impl View for BaseField {
    type V = int;

    closed spec fn view(&self) -> int {
        self.v as int % p()
    }
}

pub broadcast proof fn lemma_view_range(x: BaseField)
    ensures
        0 <= #[trigger] x@ < p(),
{
}

impl BaseField {
    #[verifier::type_invariant]
    spec fn canonical(self) -> bool {
        self.v < MODULUS
    }

    pub fn zero() -> (r: BaseField)
        ensures
            r@ == 0,
    {
        BaseField { v: 0 }
    }

    pub fn one() -> (r: BaseField)
        ensures
            r@ == 1,
    {
        BaseField { v: 1 }
    }

    /// Reduces a `u64` modulo `p`.
    pub fn from_u64(x: u64) -> (r: BaseField)
        ensures
            r@ == fe(x as int),
    {
        BaseField { v: x % MODULUS }
    }

    /// Maps a signed integer to the field: negative values wrap around `p`.
    pub fn from_i64(x: i64) -> (r: BaseField)
        ensures
            r@ == fe(x as int),
    {
        if x >= 0 {
            let u: u64 = x as u64;
            BaseField { v: u % MODULUS }
        } else {
            let m: u64 = ((0i128 - x as i128) as u64) % MODULUS;
            let v: u64 = if m == 0 { 0 } else { MODULUS - m };
            proof {
                let xi = x as int;
                assert(m as int == (-xi) % p());
                if m == 0 {
                    lemma_mod_equivalence(-xi, 0, p());
                    lemma_mod_equivalence(xi, 0, p());
                    assert((xi - 0) == -(-xi - 0));
                    lemma_mod_neg_neg(-xi, p());
                } else {
                    lemma_mod_neg_neg(-xi, p());
                    assert(xi % p() == (p() - m) as int) by {
                        lemma_fundamental_div_mod(-xi, p());
                        let q = (-xi) / p();
                        assert(xi == -(q * p()) - m);
                        assert(xi == (-q - 1) * p() + (p() - m)) by (nonlinear_arith)
                            requires xi == -(q * p()) - m;
                        lemma_fundamental_div_mod_converse(xi, p(), -q - 1, p() - m);
                    }
                }
            }
            BaseField { v }
        }
    }

    /// The canonical representative, in `0..p`.
    pub fn value(&self) -> (r: u64)
        ensures
            r as int == self@,
            r < MODULUS,
    {
        proof { use_type_invariant(self); }
        self.v
    }

    pub fn equals(&self, other: &BaseField) -> (r: bool)
        ensures
            r == (self@ == other@),
    {
        proof {
            use_type_invariant(self);
            use_type_invariant(other);
        }
        self.v == other.v
    }

    pub fn is_zero(&self) -> (r: bool)
        ensures
            r == (self@ == 0),
    {
        proof { use_type_invariant(self); }
        self.v == 0
    }

    pub fn add(self, rhs: BaseField) -> (r: BaseField)
        ensures
            r@ == fadd(self@, rhs@),
    {
        proof {
            use_type_invariant(&self);
            use_type_invariant(&rhs);
        }
        let s: u128 = self.v as u128 + rhs.v as u128;
        BaseField { v: (s % (MODULUS as u128)) as u64 }
    }

    pub fn sub(self, rhs: BaseField) -> (r: BaseField)
        ensures
            r@ == fsub(self@, rhs@),
    {
        proof {
            use_type_invariant(&self);
            use_type_invariant(&rhs);
        }
        let s: u128 = self.v as u128 + (MODULUS - rhs.v) as u128;
        proof {
            lemma_mod_add_multiples_vanish(self.v as int - rhs.v as int, p());
        }
        BaseField { v: (s % (MODULUS as u128)) as u64 }
    }

    pub fn neg(self) -> (r: BaseField)
        ensures
            r@ == fneg(self@),
    {
        proof { use_type_invariant(&self); }
        let v: u64 = if self.v == 0 { 0 } else { MODULUS - self.v };
        proof {
            if self.v == 0 {
            } else {
                lemma_mod_add_multiples_vanish(-(self.v as int), p());
                lemma_small_mod((p() - self.v) as nat, p() as nat);
            }
        }
        BaseField { v }
    }

    pub fn mul(self, rhs: BaseField) -> (r: BaseField)
        ensures
            r@ == fmul(self@, rhs@),
    {
        proof {
            use_type_invariant(&self);
            use_type_invariant(&rhs);
            lemma_mul_upper_bound(self.v as int, 0xffff_ffff_ffff_ffff, rhs.v as int, 0xffff_ffff_ffff_ffff);
            assert(0xffff_ffff_ffff_ffffint * 0xffff_ffff_ffff_ffffint <= u128::MAX) by (nonlinear_arith);
            lemma_mul_nonnegative(self.v as int, rhs.v as int);
        }
        let m: u128 = self.v as u128 * rhs.v as u128;
        BaseField { v: (m % (MODULUS as u128)) as u64 }
    }

    /// The multiplicative inverse, or `None` where there is none (for zero).
    /// Computed with the extended Euclidean algorithm on `(p, self)`.
    pub fn inverse(&self) -> (r: Option<BaseField>)
        ensures
            r is Some <==> invertible(self@),
            r matches Some(y) ==> fmul(self@, y@) == 1 && y@ == finv(self@),
    {
        proof { use_type_invariant(self); }
        let a: u64 = self.v;
        if a == 0 {
            proof {
                assert forall|x: int| 0 <= x < p() implies #[trigger] fmul(self@, x) != 1 by {
                    assert(self@ == 0);
                }
            }
            return None;
        }
        let ghost ai: int = a as int;
        let mut r0: u64 = MODULUS;
        let mut r1: u64 = a;
        let mut s0: BaseField = BaseField::zero();
        let mut s1: BaseField = BaseField::one();
        proof {
            lemma_small_mod(a as nat, p() as nat);
            assert(fmul(ai, s0@) == fe(r0 as int)) by {
                lemma_mod_self_0(p());
            }
            assert(fmul(ai, s1@) == fe(r1 as int));
        }
        while r1 != 0
            invariant
                ai == self@,
                0 < ai < p(),
                0 < r0,
                fmul(ai, s0@) == fe(r0 as int),
                fmul(ai, s1@) == fe(r1 as int),
                forall|d: int| #![trigger common_divisor(d, r0 as int, r1 as int)]
                    d > 0 ==> (common_divisor(d, r0 as int, r1 as int) <==> common_divisor(d, ai, p())),
            decreases r1,
        {
            let q: u64 = r0 / r1;
            let r2: u64 = r0 % r1;
            let qf = BaseField::from_u64(q);
            let s2 = s0.sub(qf.mul(s1));
            proof {
                let (x0, x1, x2, qi) = (r0 as int, r1 as int, r2 as int, q as int);
                lemma_fundamental_div_mod(x0, x1);
                assert(x0 == x1 * qi + x2);
                lemma_mul_is_commutative(x1, qi);
                lemma_step_divisors(x0, x1, x2, qi);
                assert forall|d: int| d > 0 implies (#[trigger] common_divisor(d, x1, x2) <==> common_divisor(d, ai, p())) by {
                    assert(common_divisor(d, x1, x2) <==> common_divisor(d, x0, x1));
                }
                lemma_bezout_step(p(), ai, s0@, s1@, qi, x0, x1, x2);
                assert(fmul(qf@, s1@) == fmul(qi, s1@)) by {
                    lemma_mul_mod_noop_left(qi, s1@, p());
                }
            }
            r0 = r1;
            r1 = r2;
            s0 = s1;
            s1 = s2;
        }
        if r0 == 1 {
            proof {
                lemma_small_mod(1nat, p() as nat);
                lemma_view_range(s0);
                lemma_inverse_unique(ai, s0@);
            }
            Some(s0)
        } else {
            proof {
                assert(common_divisor(r0 as int, r0 as int, 0)) by {
                    lemma_mod_self_0(r0 as int);
                }
                assert(common_divisor(r0 as int, ai, p()));
                assert forall|x: int| 0 <= x < p() implies #[trigger] fmul(self@, x) != 1 by {
                    lemma_no_inverse_with_divisor(p(), ai, x, r0 as int);
                }
            }
            None
        }
    }

    /// Field division; the divisor must be invertible (in this prime field,
    /// non-zero).
    pub fn div(self, rhs: BaseField) -> (r: BaseField)
        requires
            invertible(rhs@),
        ensures
            r@ == fdiv(self@, rhs@),
    {
        let inv = rhs.inverse();
        match inv {
            Some(y) => self.mul(y),
            None => {
                proof { assert(false); }
                BaseField::zero()
            },
        }
    }
}


proof fn lemma_inverse_unique(a: int, y: int)
    requires
        0 <= y < p(),
        fmul(a, y) == 1,
    ensures
        invertible(a),
        finv(a) == y,
{
    assert(invertible(a));
    let z = finv(a);
    assert(0 <= z < p() && fmul(a, z) == 1);
    // z == z * (a * y) == (z * a) * y == y  (mod p)
    let m = p();
    lemma_mul_mod_noop_right(z, a * y, m);
    lemma_mul_mod_noop_left(z * a, y, m);
    assert(z * (a * y) == (z * a) * y) by (nonlinear_arith);
    assert((z * a) % m == 1) by {
        assert(z * a == a * z) by (nonlinear_arith);
    }
    lemma_small_mod(z as nat, m as nat);
    lemma_small_mod(y as nat, m as nat);
}

/// A seeded ChaCha8 random generator.
#[verifier::external_type_specification]
#[verifier::external_body]
pub struct ExChaCha8Rng(rand_chacha::ChaCha8Rng);

/// The thread-local random generator of `rand`.
#[verifier::external_type_specification]
#[verifier::external_body]
pub struct ExThreadRng(rand::rngs::ThreadRng);

/// Calls `rand::rng()`, the handle of the thread-local generator; nothing is
/// claimed of it.
#[verifier::external_body]
pub(crate) fn thread_rng() -> rand::rngs::ThreadRng {
    rand::rng()
}

/// Calls `rand::Rng::random::<u64>()` on a ChaCha8 generator: the next
/// pseudo-random `u64`. Nothing is claimed of the value; the generator state
/// advances.
#[verifier::external_body]
pub(crate) fn chacha_random_u64(rng: &mut rand_chacha::ChaCha8Rng) -> u64 {
    rand::Rng::random::<u64>(rng)
}

/// Calls `rand::Rng::random::<u64>()` on the thread-local generator.
/// Nothing is claimed of the value.
#[verifier::external_body]
pub(crate) fn thread_random_u64(rng: &mut rand::rngs::ThreadRng) -> u64 {
    rand::Rng::random::<u64>(rng)
}

/// Calls `rand::SeedableRng::from_rng` for ChaCha8, seeding it from the
/// thread-local generator. Nothing is claimed of the seed.
#[verifier::external_body]
pub(crate) fn chacha_from_thread_rng(rng: &mut rand::rngs::ThreadRng) -> rand_chacha::ChaCha8Rng {
    <rand_chacha::ChaCha8Rng as rand::SeedableRng>::from_rng(rng)
}

/// A field element from the next `u64` of the generator, reduced modulo `p`.
pub fn random_base(rng: &mut rand_chacha::ChaCha8Rng) -> (r: BaseField)
    ensures
        exists|x: u64| r@ == fe(x as int),
{
    let x = chacha_random_u64(rng);
    let r = BaseField::from_u64(x);
    assert(r@ == fe(x as int));
    r
}

/// Half of `p + 1`: the inverse of two.
pub open spec fn inv2() -> int {
    9223372034707292161
}

/// Two is invertible, and its inverse is `(p + 1) / 2`.
pub proof fn lemma_two_invertible()
    ensures
        invertible(2),
        finv(2) == inv2(),
{
    assert(fmul(2, inv2()) == 1);
    lemma_inverse_unique(2, inv2());
}

/// The value of the quadratic `a + b*x + c*x^2` in the field.
pub open spec fn quad(a: int, b: int, c: int, x: int) -> int {
    fe(a + b * x + c * x * x)
}

/// Field operations may reduce their arguments first.
pub proof fn lemma_reduce_args(a: int, b: int)
    ensures
        fadd(fe(a), b) == fadd(a, b),
        fadd(a, fe(b)) == fadd(a, b),
        fsub(fe(a), b) == fsub(a, b),
        fsub(a, fe(b)) == fsub(a, b),
        fmul(fe(a), b) == fmul(a, b),
        fmul(a, fe(b)) == fmul(a, b),
        fe(fe(a)) == fe(a),
        fneg(fe(a)) == fneg(a),
{
    let m = p();
    lemma_add_mod_noop(a, b, m);
    lemma_mod_twice(a, m);
    lemma_mod_twice(b, m);
    lemma_add_mod_noop(a % m, b, m);
    lemma_add_mod_noop(a, b % m, m);
    lemma_sub_mod_noop(a, b, m);
    lemma_sub_mod_noop(a % m, b, m);
    lemma_sub_mod_noop(a, b % m, m);
    lemma_mul_mod_noop_left(a, b, m);
    lemma_mul_mod_noop_right(a, b, m);
    lemma_sub_mod_noop(0, a, m);
    lemma_sub_mod_noop(0, a % m, m);
}

pub proof fn lemma_add_fe(u: int, v: int)
    ensures
        fadd(fe(u), fe(v)) == fe(u + v),
{
    lemma_add_mod_noop(u, v, p());
}

pub proof fn lemma_sub_fe(u: int, v: int)
    ensures
        fsub(fe(u), fe(v)) == fe(u - v),
{
    lemma_sub_mod_noop(u, v, p());
}

pub proof fn lemma_mul_fe(u: int, v: int)
    ensures
        fmul(fe(u), fe(v)) == fe(u * v),
{
    lemma_mul_mod_noop(u, v, p());
}

pub proof fn lemma_mul_fe_left(u: int, v: int)
    ensures
        fmul(fe(u), v) == fe(u * v),
{
    lemma_mul_mod_noop_left(u, v, p());
}

pub proof fn lemma_mul_fe_right(u: int, v: int)
    ensures
        fmul(u, fe(v)) == fe(u * v),
{
    lemma_mul_mod_noop_right(u, v, p());
}

/// A field element is its own representative.
pub proof fn lemma_fe_small(x: int)
    requires
        0 <= x < p(),
    ensures
        fe(x) == x,
{
    lemma_small_mod(x as nat, p() as nat);
}

/// Two integers that are congruent modulo `p` name the same element.
pub proof fn lemma_fe_eq_from_diff(x: int, y: int, k: int)
    requires
        x - y == k * p(),
    ensures
        fe(x) == fe(y),
{
    lemma_mod_multiples_vanish(k, y, p());
    assert(x == k * p() + y);
}

/// The quadratic through the values at `0`, `1` and `-1` of a quadratic is
/// that quadratic.
pub proof fn lemma_interpolate_quadratic(a: int, b: int, c: int, x: int)
    ensures
        ({
            let z = quad(a, b, c, 0);
            let o = quad(a, b, c, 1);
            let mo = quad(a, b, c, -1);
            let cb = fmul(fsub(o, mo), inv2());
            let cc = fsub(fmul(fadd(o, mo), inv2()), z);
            &&& cb == fe(b)
            &&& cc == fe(c)
            &&& quad(z, cb, cc, x) == quad(a, b, c, x)
        }),
{
    let m = p();
    let z = quad(a, b, c, 0);
    let o = quad(a, b, c, 1);
    let mo = quad(a, b, c, -1);
    assert(z == fe(a));
    assert(o == fe(a + b + c));
    assert(mo == fe(a - b + c)) by {
        assert(a + b * -1 + c * -1 * -1 == a - b + c) by (nonlinear_arith);
    }
    // cb: ((a+b+c) - (a-b+c)) * inv2 == 2b * inv2 == b
    lemma_reduce_args(a + b + c, mo);
    lemma_reduce_args(a + b + c, a - b + c);
    assert(fsub(o, mo) == fe(2 * b));
    lemma_reduce_args(2 * b, inv2());
    assert(fmul(fsub(o, mo), inv2()) == fe(2 * b * inv2()));
    assert(2 * b * inv2() - b == b * (p() + 1) - b) by (nonlinear_arith);
    assert(2 * b * inv2() - b == b * p()) by (nonlinear_arith)
        requires 2 * b * inv2() - b == b * (p() + 1) - b;
    lemma_fe_eq_from_diff(2 * b * inv2(), b, b);
    // cc: ((a+b+c) + (a-b+c)) * inv2 - a == c
    lemma_reduce_args(a + b + c, mo);
    lemma_reduce_args(a + b + c, a - b + c);
    assert(fadd(o, mo) == fe(2 * a + 2 * c));
    lemma_reduce_args(2 * a + 2 * c, inv2());
    let h = fmul(fadd(o, mo), inv2());
    assert(h == fe((2 * a + 2 * c) * inv2()));
    assert((2 * a + 2 * c) * inv2() - (a + c) == (a + c) * p()) by (nonlinear_arith);
    lemma_fe_eq_from_diff((2 * a + 2 * c) * inv2(), a + c, a + c);
    assert(h == fe(a + c));
    lemma_reduce_args(a + c, z);
    lemma_reduce_args(a + c, a);
    assert(fsub(h, z) == fe(c));
    // evaluation
    let cb = fe(b);
    let cc = fe(c);
    let t = z + cb * x + cc * x * x;
    let u = a + b * x + c * x * x;
    lemma_fundamental_div_mod(a, m);
    lemma_fundamental_div_mod(b, m);
    lemma_fundamental_div_mod(c, m);
    let (qa, qb, qc) = (a / m, b / m, c / m);
    assert(u - t == (qa + qb * x + qc * x * x) * m) by (nonlinear_arith)
        requires
            a == m * qa + z,
            b == m * qb + cb,
            c == m * qc + cc,
            t == z + cb * x + cc * x * x,
            u == a + b * x + c * x * x;
    lemma_fe_eq_from_diff(u, t, qa + qb * x + qc * x * x);
}


/// Multiplication distributes over addition in the field.
pub proof fn lemma_fmul_fadd(a: int, x: int, y: int)
    ensures
        fmul(a, fadd(x, y)) == fadd(fmul(a, x), fmul(a, y)),
        fmul(fadd(x, y), a) == fadd(fmul(x, a), fmul(y, a)),
{
    let m = p();
    lemma_mul_mod_noop_right(a, x + y, m);
    lemma_mul_mod_noop_left(x + y, a, m);
    lemma_mul_is_distributive_add(a, x, y);
    lemma_mul_is_distributive_add_other_way(a, x, y);
    lemma_add_mod_noop(a * x, a * y, m);
    lemma_add_mod_noop(x * a, y * a, m);
}

/// Multiplication distributes over subtraction in the field.
pub proof fn lemma_fmul_fsub(a: int, x: int, y: int)
    ensures
        fmul(a, fsub(x, y)) == fsub(fmul(a, x), fmul(a, y)),
        fmul(fsub(x, y), a) == fsub(fmul(x, a), fmul(y, a)),
{
    let m = p();
    lemma_mul_mod_noop_right(a, x - y, m);
    lemma_mul_mod_noop_left(x - y, a, m);
    lemma_mul_is_distributive_sub(a, x, y);
    lemma_mul_is_distributive_sub_other_way(a, x, y);
    lemma_sub_mod_noop(a * x, a * y, m);
    lemma_sub_mod_noop(x * a, y * a, m);
}

/// Field multiplication is commutative and associative.
pub proof fn lemma_fmul_comm_assoc(a: int, b: int, c: int)
    ensures
        fmul(a, b) == fmul(b, a),
        fmul(fmul(a, b), c) == fmul(a, fmul(b, c)),
{
    let m = p();
    lemma_mul_is_commutative(a, b);
    lemma_mul_mod_noop_left(a * b, c, m);
    lemma_mul_mod_noop_right(a, b * c, m);
    lemma_mul_is_associative(a, b, c);
}

/// Negating a factor negates the product; subtracting adds the negation.
pub proof fn lemma_fneg_facts(a: int, y: int)
    ensures
        fmul(fneg(a), y) == fneg(fmul(a, y)),
        fsub(y, a) == fadd(y, fneg(a)),
{
    let m = p();
    lemma_mul_mod_noop_left(-a, y, m);
    assert((-a) * y == -(a * y)) by (nonlinear_arith);
    lemma_sub_mod_noop(0, a * y, m);
    lemma_add_mod_noop(y, -a, m);
    lemma_mod_twice(y, m);
    lemma_sub_mod_noop(y, a, m);
    lemma_add_mod_noop(y % m, -a, m);
}

/// Field addition is commutative and associative.
pub proof fn lemma_fadd_comm_assoc(a: int, b: int, c: int)
    ensures
        fadd(a, b) == fadd(b, a),
        fadd(fadd(a, b), c) == fadd(a, fadd(b, c)),
{
    let m = p();
    lemma_add_mod_noop(a + b, c, m);
    lemma_add_mod_noop(a, b + c, m);
    lemma_mod_twice(a + b, m);
    lemma_mod_twice(b + c, m);
    lemma_add_mod_noop((a + b) % m, c, m);
    lemma_add_mod_noop(a, (b + c) % m, m);
    lemma_mod_twice(a, m);
    lemma_mod_twice(c, m);
}

} // verus!
