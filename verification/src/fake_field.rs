//! A stand-in "field" over plain 64-bit integers, for benchmarking: its
//! arithmetic is integer arithmetic, defined where it does not overflow.
use vstd::prelude::*;

verus! {

#[derive(Clone, Copy, Debug, Default, PartialEq, Eq, Hash, PartialOrd, Ord)]
pub struct Fake64(i64);

/// The product of the first `n` entries.
pub open spec fn int_product(s: Seq<int>, n: int) -> int
    decreases n,
{
    if n <= 0 {
        1
    } else {
        int_product(s, n - 1) * s[n - 1]
    }
}

/// The sum of the first `n` entries.
pub open spec fn int_sum(s: Seq<int>, n: int) -> int
    decreases n,
{
    if n <= 0 {
        0
    } else {
        int_sum(s, n - 1) + s[n - 1]
    }
}

/// Integer division rounding toward zero, as Rust's `/` on signed integers.
pub open spec fn trunc_div(a: int, b: int) -> int {
    let q = (if a < 0 { -a } else { a }) / (if b < 0 { -b } else { b });
    if (a < 0) == (b < 0) { q } else { -q }
}

proof fn lemma_trunc_div_fits(a: int, b: int)
    requires
        i64::MIN <= a <= i64::MAX,
        i64::MIN <= b <= i64::MAX,
        b != 0,
        !(a == i64::MIN && b == -1),
    ensures
        i64::MIN <= trunc_div(a, b) <= i64::MAX,
{
    let x = if a < 0 { -a } else { a };
    let d = if b < 0 { -b } else { b };
    vstd::arithmetic::div_mod::lemma_div_pos_is_pos(x, d);
    vstd::arithmetic::div_mod::lemma_div_is_ordered_by_denominator(x, 1, d);
    if d >= 2 {
        vstd::arithmetic::div_mod::lemma_div_is_ordered_by_denominator(x, 2, d);
        assert(x / 2 <= 0x4000_0000_0000_0000);
    }
}

/// `a / b` on `i64`, the quotient rounded toward zero.
fn checked_quotient(a: i64, b: i64) -> (q: i64)
    requires
        b != 0,
        !(a == i64::MIN && b == -1),
    ensures
        q == trunc_div(a as int, b as int),
{
    proof {
        lemma_trunc_div_fits(a as int, b as int);
    }
    match a.checked_div(b) {
        Some(q) => q,
        None => {
            proof {
                assert(false);
            }
            0
        },
    }
}

impl View for Fake64 {
    type V = int;

    closed spec fn view(&self) -> int {
        self.0 as int
    }
}

pub open spec fn fake_vals(s: Seq<Fake64>) -> Seq<int> {
    s.map_values(|x: Fake64| x@)
}

impl Fake64 {
    pub fn from_i64(x: i64) -> (r: Fake64)
        ensures
            r@ == x,
    {
        Fake64(x)
    }

    /// The integer; a `u64` above `i64::MAX` wraps around.
    pub fn from_u64(x: u64) -> (r: Fake64)
        ensures
            r@ == x as i64,
    {
        Fake64(x as i64)
    }

    pub fn from_i32(x: i32) -> (r: Fake64)
        ensures
            r@ == x,
    {
        Fake64(x as i64)
    }

    pub fn from_u32(x: u32) -> (r: Fake64)
        ensures
            r@ == x,
    {
        Fake64(x as i64)
    }

    pub fn value(self) -> (r: i64)
        ensures
            r == self@,
    {
        self.0
    }

    pub fn add(self, rhs: Fake64) -> (r: Fake64)
        requires
            i64::MIN <= self@ + rhs@ <= i64::MAX,
        ensures
            r@ == self@ + rhs@,
    {
        Fake64(self.0 + rhs.0)
    }

    pub fn sub(self, rhs: Fake64) -> (r: Fake64)
        requires
            i64::MIN <= self@ - rhs@ <= i64::MAX,
        ensures
            r@ == self@ - rhs@,
    {
        Fake64(self.0 - rhs.0)
    }

    pub fn neg(self) -> (r: Fake64)
        requires
            self@ != i64::MIN,
        ensures
            r@ == -self@,
    {
        Fake64(-self.0)
    }

    pub fn mul(self, rhs: Fake64) -> (r: Fake64)
        requires
            i64::MIN <= self@ * rhs@ <= i64::MAX,
        ensures
            r@ == self@ * rhs@,
    {
        Fake64(self.0 * rhs.0)
    }

    pub fn mul_assign(&mut self, rhs: Fake64)
        requires
            i64::MIN <= old(self)@ * rhs@ <= i64::MAX,
        ensures
            final(self)@ == old(self)@ * rhs@,
    {
        *self = Fake64(self.0 * rhs.0);
    }

    /// Integer division, rounding toward zero.
    pub fn div(self, rhs: Fake64) -> (r: Fake64)
        requires
            rhs@ != 0,
            !(self@ == i64::MIN && rhs@ == -1),
        ensures
            r@ == trunc_div(self@, rhs@),
    {
        Fake64(checked_quotient(self.0, rhs.0))
    }

    pub fn div_assign(&mut self, rhs: Fake64)
        requires
            rhs@ != 0,
            !(old(self)@ == i64::MIN && rhs@ == -1),
        ensures
            final(self)@ == trunc_div(old(self)@, rhs@),
    {
        *self = Fake64(checked_quotient(self.0, rhs.0));
    }

    /// The product of the items; every partial product must fit.
    pub fn product(items: &[Fake64]) -> (r: Fake64)
        requires
            forall|k: int| 0 <= k <= items.len() ==> i64::MIN <= #[trigger] int_product(fake_vals(items@), k) <= i64::MAX,
        ensures
            r@ == int_product(fake_vals(items@), items.len() as int),
    {
        let ghost s = fake_vals(items@);
        let mut acc: i64 = 1;
        let mut k: usize = 0;
        while k < items.len()
            invariant
                0 <= k <= items.len(),
                s == fake_vals(items@),
                forall|m: int| 0 <= m <= items.len() ==> i64::MIN <= #[trigger] int_product(s, m) <= i64::MAX,
                acc == int_product(s, k as int),
            decreases items.len() - k,
        {
            proof {
                assert(int_product(s, k + 1) == int_product(s, k as int) * s[k as int]);
                assert(s[k as int] == items@[k as int].0);
            }
            acc = acc * items[k].0;
            k = k + 1;
        }
        Fake64(acc)
    }

    /// The sum of the items; every partial sum must fit.
    pub fn sum(items: &[Fake64]) -> (r: Fake64)
        requires
            forall|k: int| 0 <= k <= items.len() ==> i64::MIN <= #[trigger] int_sum(fake_vals(items@), k) <= i64::MAX,
        ensures
            r@ == int_sum(fake_vals(items@), items.len() as int),
    {
        let ghost s = fake_vals(items@);
        let mut acc: i64 = 0;
        let mut k: usize = 0;
        while k < items.len()
            invariant
                0 <= k <= items.len(),
                s == fake_vals(items@),
                forall|m: int| 0 <= m <= items.len() ==> i64::MIN <= #[trigger] int_sum(s, m) <= i64::MAX,
                acc == int_sum(s, k as int),
            decreases items.len() - k,
        {
            proof {
                assert(int_sum(s, k + 1) == int_sum(s, k as int) + s[k as int]);
                assert(s[k as int] == items@[k as int].0);
            }
            acc = acc + items[k].0;
            k = k + 1;
        }
        Fake64(acc)
    }
}

} // verus!
