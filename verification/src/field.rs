//! A 128-bit prime field, `q = 2^128 - 45 * 2^40 + 1`, with elements held in
//! canonical form, and its byte encoding (the little-endian bytes of the
//! Montgomery form `x * 2^128 mod q`).
use vstd::prelude::*;
use vstd::arithmetic::div_mod::*;
use vstd::arithmetic::mul::*;
use crate::modular::{common_divisor, lemma_bezout_step, lemma_mod_eq_from_diff, lemma_no_inverse_with_divisor, lemma_step_divisors};

verus! {

/// The prime `2^128 - 45 * 2^40 + 1`.
pub const MODULUS_128: u128 = 340282366920938463463374557953744961537u128;

/// `2^128 mod q`: the Montgomery factor.
pub const MONTGOMERY_R: u128 = 49478023249919u128;

/// The modulus as a mathematical integer.
pub open spec fn q128() -> int {
    340282366920938463463374557953744961537
}

/// The element of the 128-bit field that an integer stands for.
pub open spec fn fe128(x: int) -> int {
    x % q128()
}

/// `a` has a multiplicative inverse modulo `q`.
pub open spec fn invertible128(a: int) -> bool {
    exists|x: int| 0 <= x < q128() && #[trigger] fe128(a * x) == 1
}

/// The multiplicative inverse of `a` modulo `q`, where there is one.
pub open spec fn finv128(a: int) -> int {
    choose|x: int| 0 <= x < q128() && #[trigger] fe128(a * x) == 1
}

/// The parameters of the field: its modulus and a multiplicative generator.
pub struct FrConfig128;

impl FrConfig128 {
    pub fn modulus() -> (r: u128)
        ensures
            r == q128(),
    {
        MODULUS_128
    }

    /// The generator `3`.
    pub fn generator() -> (r: Field128)
        ensures
            r@ == 3,
    {
        Field128 { v: 3 }
    }
}

/// An element of the 128-bit field, always held below the modulus.
#[derive(Clone, Copy, Debug, PartialEq, Eq)]
pub struct Field128 {
    v: u128,
}

impl View for Field128 {
    type V = int;

    closed spec fn view(&self) -> int {
        self.v as int % q128()
    }
}

/// Every field element is canonical: its value lies below the modulus.
pub broadcast proof fn lemma_view128_range(x: Field128)
    ensures
        0 <= #[trigger] x@ < q128(),
{
}

/// `(a + b) mod q` for canonical `a` and `b`, without overflow.
fn add_mod(a: u128, b: u128) -> (r: u128)
    requires
        a < q128(),
        b < q128(),
    ensures
        r == fe128(a + b),
        r < q128(),
{
    if a >= MODULUS_128 - b {
        let r = a - (MODULUS_128 - b);
        proof {
            lemma_mod_eq_from_diff(q128(), a + b, r as int, 1);
            lemma_small_mod(r as nat, q128() as nat);
        }
        r
    } else {
        proof { lemma_small_mod((a + b) as nat, q128() as nat); }
        a + b
    }
}

/// `(a * b) mod q` for canonical `a` and `b`, by doubling and adding.
fn mul_mod(a: u128, b: u128) -> (r: u128)
    requires
        a < q128(),
        b < q128(),
    ensures
        r == fe128(a * b),
        r < q128(),
{
    let mut acc: u128 = 0;
    let mut base: u128 = a;
    let mut e: u128 = b;
    proof {
        assert(acc + base * e == a * b);
    }
    while e > 0
        invariant
            a < q128(),
            acc < q128(),
            base < q128(),
            fe128(acc + base * e) == fe128(a * b),
        decreases e,
    {
        let bit = e % 2;
        let half = e / 2;
        let acc2 = if bit == 1 { add_mod(acc, base) } else { acc };
        let base2 = add_mod(base, base);
        proof {
            let m = q128();
            lemma_fundamental_div_mod(e as int, 2);
            lemma_fundamental_div_mod(acc as int + bit * base, m);
            lemma_fundamental_div_mod(2 * base as int, m);
            let c1 = (acc as int + bit * base) / m;
            let c2 = (2 * base as int) / m;
            assert(acc2 == acc + bit * base - c1 * m) by {
                if bit == 1 {
                    assert(acc2 == (acc + base) % m);
                } else {
                    lemma_small_mod(acc as nat, m as nat);
                    assert(bit * base == 0);
                }
            }
            assert(base2 == 2 * base - c2 * m);
            assert(acc2 + base2 * half == acc + base * e - (c1 + c2 * half) * m) by (nonlinear_arith)
                requires
                    acc2 == acc + bit * base - c1 * m,
                    base2 == 2 * base - c2 * m,
                    e == 2 * half + bit;
            lemma_mod_eq_from_diff(m, acc2 + base2 * half, acc + base * e, -(c1 + c2 * half));
        }
        acc = acc2;
        base = base2;
        e = half;
    }
    proof {
        lemma_small_mod(acc as nat, q128() as nat);
        assert(acc + base * e == acc);
    }
    acc
}

impl Field128 {
    #[verifier::type_invariant]
    spec fn canonical(self) -> bool {
        self.v < MODULUS_128
    }

    pub fn zero() -> (r: Field128)
        ensures
            r@ == 0,
    {
        Field128 { v: 0 }
    }

    pub fn one() -> (r: Field128)
        ensures
            r@ == 1,
    {
        Field128 { v: 1 }
    }

    /// Reduces a `u128` modulo `q`.
    pub fn from_u128(x: u128) -> (r: Field128)
        ensures
            r@ == fe128(x as int),
    {
        Field128 { v: x % MODULUS_128 }
    }

    pub fn from_u64(x: u64) -> (r: Field128)
        ensures
            r@ == fe128(x as int),
    {
        Field128::from_u128(x as u128)
    }

    /// Maps a signed integer to the field: negative values wrap around `q`.
    pub fn from_i64(x: i64) -> (r: Field128)
        ensures
            r@ == fe128(x as int),
    {
        if x >= 0 {
            Field128::from_u128(x as u128)
        } else {
            let m: u128 = (0i128 - x as i128) as u128;
            proof {
                lemma_small_mod(m as nat, q128() as nat);
                lemma_mod_eq_from_diff(q128(), x as int, (q128() - m) as int, -1);
                lemma_small_mod((q128() - m) as nat, q128() as nat);
            }
            Field128 { v: MODULUS_128 - m }
        }
    }

    pub fn from_i32(x: i32) -> (r: Field128)
        ensures
            r@ == fe128(x as int),
    {
        Field128::from_i64(x as i64)
    }

    /// The canonical representative, in `0..q`.
    pub fn value(&self) -> (r: u128)
        ensures
            r as int == self@,
            r < q128(),
    {
        proof { use_type_invariant(self); }
        self.v
    }

    pub fn equals(&self, other: &Field128) -> (r: bool)
        ensures
            r == (self@ == other@),
    {
        proof {
            use_type_invariant(self);
            use_type_invariant(other);
        }
        self.v == other.v
    }

    pub fn is_zero(&self) -> (r: bool)
        ensures
            r == (self@ == 0),
    {
        proof { use_type_invariant(self); }
        self.v == 0
    }

    pub fn add(self, rhs: Field128) -> (r: Field128)
        ensures
            r@ == fe128(self@ + rhs@),
    {
        proof {
            use_type_invariant(&self);
            use_type_invariant(&rhs);
        }
        let v = add_mod(self.v, rhs.v);
        proof { lemma_small_mod(v as nat, q128() as nat); }
        Field128 { v }
    }

    pub fn add_assign(&mut self, rhs: Field128)
        ensures
            final(self)@ == fe128(old(self)@ + rhs@),
    {
        *self = self.add(rhs);
    }

    pub fn sub(self, rhs: Field128) -> (r: Field128)
        ensures
            r@ == fe128(self@ - rhs@),
    {
        proof {
            use_type_invariant(&self);
            use_type_invariant(&rhs);
            lemma_small_mod(self.v as nat, q128() as nat);
            lemma_small_mod(rhs.v as nat, q128() as nat);
        }
        if self.v >= rhs.v {
            let v = self.v - rhs.v;
            proof { lemma_small_mod(v as nat, q128() as nat); }
            Field128 { v }
        } else {
            let v = self.v + (MODULUS_128 - rhs.v);
            proof {
                lemma_small_mod(v as nat, q128() as nat);
                lemma_mod_eq_from_diff(q128(), v as int, self.v - rhs.v, 1);
            }
            Field128 { v }
        }
    }

    pub fn sub_assign(&mut self, rhs: Field128)
        ensures
            final(self)@ == fe128(old(self)@ - rhs@),
    {
        *self = self.sub(rhs);
    }

    pub fn neg(self) -> (r: Field128)
        ensures
            r@ == fe128(-self@),
    {
        proof {
            use_type_invariant(&self);
            lemma_small_mod(self.v as nat, q128() as nat);
        }
        if self.v == 0 {
            Field128 { v: 0 }
        } else {
            let v = MODULUS_128 - self.v;
            proof {
                lemma_small_mod(v as nat, q128() as nat);
                lemma_mod_eq_from_diff(q128(), v as int, -(self.v as int), 1);
            }
            Field128 { v }
        }
    }

    pub fn mul(self, rhs: Field128) -> (r: Field128)
        ensures
            r@ == fe128(self@ * rhs@),
    {
        proof {
            use_type_invariant(&self);
            use_type_invariant(&rhs);
            lemma_small_mod(self.v as nat, q128() as nat);
            lemma_small_mod(rhs.v as nat, q128() as nat);
        }
        let v = mul_mod(self.v, rhs.v);
        proof { lemma_small_mod(v as nat, q128() as nat); }
        Field128 { v }
    }

    pub fn mul_assign(&mut self, rhs: Field128)
        ensures
            final(self)@ == fe128(old(self)@ * rhs@),
    {
        *self = self.mul(rhs);
    }

    /// The multiplicative inverse, or `None` where there is none (for zero).
    /// Computed with the extended Euclidean algorithm on `(q, self)`.
    pub fn inverse(&self) -> (r: Option<Field128>)
        ensures
            r is Some <==> invertible128(self@),
            r matches Some(y) ==> fe128(self@ * y@) == 1 && y@ == finv128(self@),
    {
        proof {
            use_type_invariant(self);
            lemma_small_mod(self.v as nat, q128() as nat);
        }
        let a: u128 = self.v;
        if a == 0 {
            proof {
                assert forall|x: int| 0 <= x < q128() implies #[trigger] fe128(self@ * x) != 1 by {
                    assert(self@ * x == 0);
                }
            }
            return None;
        }
        let ghost ai: int = a as int;
        let ghost m: int = q128();
        let mut r0: u128 = MODULUS_128;
        let mut r1: u128 = a;
        let mut s0: Field128 = Field128::zero();
        let mut s1: Field128 = Field128::one();
        proof {
            lemma_mod_self_0(m);
            assert(fe128(ai * s0@) == fe128(r0 as int));
            assert(fe128(ai * s1@) == fe128(r1 as int));
        }
        while r1 != 0
            invariant
                ai == self@,
                m == q128(),
                0 < ai < m,
                0 < r0,
                fe128(ai * s0@) == fe128(r0 as int),
                fe128(ai * s1@) == fe128(r1 as int),
                forall|d: int| #![trigger common_divisor(d, r0 as int, r1 as int)]
                    d > 0 ==> (common_divisor(d, r0 as int, r1 as int) <==> common_divisor(d, ai, m)),
            decreases r1,
        {
            let q: u128 = r0 / r1;
            let r2: u128 = r0 % r1;
            let qf = Field128::from_u128(q);
            let qs = qf.mul(s1);
            let s2 = s0.sub(qs);
            proof {
                let (x0, x1, x2, qi) = (r0 as int, r1 as int, r2 as int, q as int);
                lemma_fundamental_div_mod(x0, x1);
                lemma_mul_is_commutative(x1, qi);
                lemma_step_divisors(x0, x1, x2, qi);
                assert forall|d: int| d > 0 implies (#[trigger] common_divisor(d, x1, x2) <==> common_divisor(d, ai, m)) by {
                    assert(common_divisor(d, x1, x2) <==> common_divisor(d, x0, x1));
                }
                lemma_bezout_step(m, ai, s0@, s1@, qi, x0, x1, x2);
                assert(qs@ == fe128(qi * s1@)) by {
                    lemma_mul_mod_noop_left(qi, s1@, m);
                }
            }
            r0 = r1;
            r1 = r2;
            s0 = s1;
            s1 = s2;
        }
        if r0 == 1 {
            proof {
                lemma_small_mod(1nat, m as nat);
                lemma_inverse128_unique(ai, s0@);
            }
            Some(s0)
        } else {
            proof {
                assert(common_divisor(r0 as int, r0 as int, 0)) by {
                    lemma_mod_self_0(r0 as int);
                }
                assert(common_divisor(r0 as int, ai, m));
                assert forall|x: int| 0 <= x < q128() implies #[trigger] fe128(self@ * x) != 1 by {
                    lemma_no_inverse_with_divisor(m, ai, x, r0 as int);
                }
            }
            None
        }
    }

    /// Field division; the divisor must be invertible (non-zero).
    pub fn div(self, rhs: Field128) -> (r: Field128)
        requires
            invertible128(rhs@),
        ensures
            r@ == fe128(self@ * finv128(rhs@)),
    {
        match rhs.inverse() {
            Some(y) => self.mul(y),
            None => {
                proof { assert(false); }
                Field128::zero()
            },
        }
    }

    pub fn div_assign(&mut self, rhs: Field128)
        requires
            invertible128(rhs@),
        ensures
            final(self)@ == fe128(old(self)@ * finv128(rhs@)),
    {
        *self = self.div(rhs);
    }

    /// The sum of the items.
    pub fn sum(items: &[Field128]) -> (r: Field128)
        ensures
            r@ == fe128(sum128(items@, items.len() as int)),
    {
        let mut acc = Field128::zero();
        let mut k: usize = 0;
        while k < items.len()
            invariant
                0 <= k <= items.len(),
                acc@ == fe128(sum128(items@, k as int)),
            decreases items.len() - k,
        {
            let t = items[k];
            proof {
                lemma_add_mod_noop(sum128(items@, k as int), t@, q128());
                lemma_small_mod(t@ as nat, q128() as nat);
            }
            acc = acc.add(t);
            k = k + 1;
        }
        acc
    }

    /// The product of the items.
    pub fn product(items: &[Field128]) -> (r: Field128)
        ensures
            r@ == fe128(prod128(items@, items.len() as int)),
    {
        let mut acc = Field128::one();
        proof { lemma_small_mod(1nat, q128() as nat); }
        let mut k: usize = 0;
        while k < items.len()
            invariant
                0 <= k <= items.len(),
                acc@ == fe128(prod128(items@, k as int)),
            decreases items.len() - k,
        {
            let t = items[k];
            proof {
                lemma_mul_mod_noop_left(prod128(items@, k as int), t@, q128());
            }
            acc = acc.mul(t);
            k = k + 1;
        }
        acc
    }

    /// The Montgomery form `self * 2^128 mod q`, the integer that the field
    /// stores internally.
    pub fn montgomery(&self) -> (r: u128)
        ensures
            r as int == fe128(self@ * MONTGOMERY_R),
    {
        proof {
            use_type_invariant(self);
            lemma_small_mod(self.v as nat, q128() as nat);
        }
        mul_mod(self.v, MONTGOMERY_R)
    }

    /// The 16 bytes of the element: the little-endian bytes of its
    /// Montgomery form.
    pub fn to_bytes(&self) -> (r: Vec<u8>)
        ensures
            r@ == le_bytes(fe128(self@ * MONTGOMERY_R), 16),
    {
        u128_to_le_bytes(self.montgomery())
    }

    /// Decodes 16 little-endian bytes as an integer and reduces it modulo
    /// `q`; any other length is refused.
    pub fn from_serialized_bytes(bytes: &[u8]) -> (r: Option<Field128>)
        ensures
            bytes.len() != 16 ==> r is None,
            bytes.len() == 16 ==> (r matches Some(x) && x@ == fe128(le_value(bytes@, 16))),
    {
        if bytes.len() != 16 {
            return None;
        }
        Some(Field128::from_u128(u128_from_le_bytes(bytes)))
    }
}

/// The sum of the first `n` elements, over the integers.
pub open spec fn sum128(s: Seq<Field128>, n: int) -> int
    decreases n,
{
    if n <= 0 {
        0
    } else {
        sum128(s, n - 1) + s[n - 1]@
    }
}

/// The product of the first `n` elements, over the integers.
pub open spec fn prod128(s: Seq<Field128>, n: int) -> int
    decreases n,
{
    if n <= 0 {
        1
    } else {
        prod128(s, n - 1) * s[n - 1]@
    }
}

/// `256^k`.
pub open spec fn pow256(k: nat) -> int
    decreases k,
{
    if k == 0 {
        1
    } else {
        256 * pow256((k - 1) as nat)
    }
}

/// The `n` little-endian bytes of `x`.
pub open spec fn le_bytes(x: int, n: nat) -> Seq<u8> {
    Seq::new(n, |k: int| ((x / pow256(k as nat)) % 256) as u8)
}

/// The integer with the first `n` bytes of `b`, little-endian.
pub open spec fn le_value(b: Seq<u8>, n: nat) -> int
    decreases n,
{
    if n == 0 {
        0
    } else {
        le_value(b, (n - 1) as nat) + b[n - 1] as int * pow256((n - 1) as nat)
    }
}

proof fn lemma_pow256_pos(k: nat)
    ensures
        pow256(k) >= 1,
    decreases k,
{
    if k > 0 {
        lemma_pow256_pos((k - 1) as nat);
    }
}

proof fn lemma_pow256_16()
    ensures
        pow256(16) == 0x1_0000_0000_0000_0000_0000_0000_0000_0000,
{
    reveal_with_fuel(pow256, 17);
}

/// The little-endian bytes of a `u128`.
fn u128_to_le_bytes(x: u128) -> (r: Vec<u8>)
    ensures
        r@ == le_bytes(x as int, 16),
{
    let mut out: Vec<u8> = Vec::new();
    let mut rest: u128 = x;
    let mut k: usize = 0;
    while k < 16
        invariant
            0 <= k <= 16,
            out.len() == k,
            rest as int == (x as int) / pow256(k as nat),
            forall|i: int| 0 <= i < k ==> #[trigger] out@[i] == ((x as int / pow256(i as nat)) % 256) as u8,
        decreases 16 - k,
    {
        proof {
            lemma_pow256_pos(k as nat);
            lemma_div_denominator(x as int, pow256(k as nat), 256);
            assert(pow256(k as nat) * 256 == pow256((k + 1) as nat));
        }
        out.push((rest % 256) as u8);
        rest = rest / 256;
        k = k + 1;
    }
    proof {
        assert(out@ =~= le_bytes(x as int, 16));
    }
    out
}

/// The `u128` with the 16 little-endian bytes `b`.
fn u128_from_le_bytes(b: &[u8]) -> (r: u128)
    requires
        b.len() == 16,
    ensures
        r as int == le_value(b@, 16),
{
    let mut acc: u128 = 0;
    let mut scale: u128 = 1;
    let mut k: usize = 0;
    while k < 16
        invariant
            0 <= k <= 16,
            b.len() == 16,
            acc as int == le_value(b@, k as nat),
            k < 16 ==> scale as int == pow256(k as nat),
            0 <= le_value(b@, k as nat) < pow256(k as nat),
        decreases 16 - k,
    {
        let ghost a = le_value(b@, k as nat);
        let ghost pk = pow256(k as nat);
        let ghost v = b@[k as int] as int;
        proof {
            lemma_pow256_16();
            lemma_pow256_pos(k as nat);
            lemma_pow256_mono((k + 1) as nat, 16);
            assert(le_value(b@, (k + 1) as nat) == a + v * pk);
            assert(pow256((k + 1) as nat) == 256 * pk);
            assert(0 <= v * pk && a + v * pk < 256 * pk) by (nonlinear_arith)
                requires
                    0 <= a < pk,
                    pk >= 1,
                    0 <= v <= 255;
        }
        acc = acc + (b[k] as u128) * scale;
        if k < 15 {
            proof { lemma_pow256_mono((k + 2) as nat, 16); }
            scale = scale * 256;
        }
        k = k + 1;
    }
    acc
}

proof fn lemma_pow256_mono(a: nat, b: nat)
    requires
        a <= b,
    ensures
        pow256(a) <= pow256(b),
    decreases b,
{
    if a < b {
        lemma_pow256_mono(a, (b - 1) as nat);
        lemma_pow256_pos((b - 1) as nat);
    }
}

proof fn lemma_inverse128_unique(a: int, y: int)
    requires
        0 <= y < q128(),
        fe128(a * y) == 1,
    ensures
        invertible128(a),
        finv128(a) == y,
{
    assert(invertible128(a));
    let z = finv128(a);
    assert(0 <= z < q128() && fe128(a * z) == 1);
    let m = q128();
    lemma_mul_mod_noop_right(z, a * y, m);
    lemma_mul_mod_noop_left(z * a, y, m);
    assert(z * (a * y) == (z * a) * y) by (nonlinear_arith);
    assert((z * a) % m == 1) by {
        assert(z * a == a * z) by (nonlinear_arith);
    }
    lemma_small_mod(z as nat, m as nat);
    lemma_small_mod(y as nat, m as nat);
}

} // verus!
