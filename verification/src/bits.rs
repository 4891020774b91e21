//! Powers of two and bit indices, as the tables of the proof system use them.
use vstd::prelude::*;
use vstd::arithmetic::power2::*;
use vstd::arithmetic::div_mod::*;

verus! {

/// Bit `i` of `x` is set.
pub open spec fn bit(x: int, i: nat) -> bool {
    (x / (pow2(i) as int)) % 2 == 1
}

/// `n` is a power of two.
pub open spec fn is_pow2_len(n: int) -> bool {
    exists|k: nat| pow2(k) == n
}

pub proof fn lemma_pow2_le(a: nat, b: nat)
    requires
        a <= b,
    ensures
        pow2(a) <= pow2(b),
{
    if a < b {
        lemma_pow2_strictly_increases(a, b);
    }
}

pub proof fn lemma_pow2_is_pow2_len(k: nat)
    ensures
        is_pow2_len(pow2(k) as int),
{
}

/// A power of two that fits in a `usize` has an exponent below its width.
pub proof fn lemma_pow2_fits_usize(k: nat, n: int)
    requires
        pow2(k) == n,
        n <= usize::MAX,
    ensures
        k < usize::BITS,
{
    lemma2_to64();
    if k >= usize::BITS {
        lemma_pow2_le(usize::BITS as nat, k);
    }
}

/// Whether `n` is a power of two.
pub fn is_power_of_two(n: usize) -> (r: bool)
    ensures
        r == is_pow2_len(n as int),
{
    let mut m: usize = 1;
    let ghost mut k: nat = 0;
    proof { lemma2_to64(); }
    while m < n && m <= usize::MAX / 2
        invariant
            m == pow2(k),
            m > 0,
            k > 0 ==> pow2((k - 1) as nat) < n,
        decreases usize::MAX - m,
    {
        proof {
            lemma_pow2_unfold(k + 1);
        }
        m = m * 2;
        proof { k = k + 1; }
    }
    if m == n {
        return true;
    }
    proof {
        assert forall|j: nat| pow2(j) != n by {
            if pow2(j) == n {
                if j <= k {
                    if m < n {
                        lemma_pow2_le(j, k);
                    } else if j < k {
                        lemma_pow2_le(j, (k - 1) as nat);
                    }
                } else {
                    if m < n {
                        lemma_pow2_le(k + 1, j);
                        lemma_pow2_unfold(k + 1);
                    } else {
                        lemma_pow2_le(k, j);
                    }
                }
            }
        }
    }
    false
}

/// The exponent of a power of two.
pub fn log2(n: usize) -> (k: u32)
    requires
        is_pow2_len(n as int),
    ensures
        pow2(k as nat) == n,
        k < usize::BITS,
{
    let ghost big: nat = choose|j: nat| pow2(j) == n;
    let mut m: usize = 1;
    let mut k: u32 = 0;
    proof {
        lemma2_to64();
        lemma_pow2_pos(big);
        if big >= usize::BITS {
            lemma_pow2_le(usize::BITS as nat, big);
            lemma2_to64_rest();
        }
    }
    while m < n
        invariant
            m == pow2(k as nat),
            m > 0,
            k <= big,
            pow2(big) == n,
            big < usize::BITS,
        decreases n - m,
    {
        proof {
            if k == big {
                assert(false);
            }
            lemma_pow2_unfold(k as nat + 1);
            lemma_pow2_le(k as nat + 1, big);
        }
        m = m * 2;
        k = k + 1;
    }
    proof {
        if k < big {
            lemma_pow2_strictly_increases(k as nat, big);
        }
    }
    k
}


/// What the bit operations on an index mean arithmetically.
pub proof fn lemma_bit_ops(m: usize, i: usize)
    requires
        i < usize::BITS,
    ensures
        (1usize << i) as int == pow2(i as nat),
        ((m & (1usize << i)) != 0) == bit(m as int, i as nat),
        bit(m as int, i as nat) ==> (m ^ (1usize << i)) as int == m - pow2(i as nat),
        bit(m as int, i as nat) ==> m >= pow2(i as nat),
{
    vstd::bits::lemma_usize_pow2_no_overflow(i as nat);
    vstd::bits::lemma_usize_shl_is_mul(1, i);
    vstd::bits::lemma_usize_shr_is_div(m, i);
    assert(((m & (1usize << i)) != 0) == ((m >> i) % 2 == 1)) by (bit_vector)
        requires
            i < usize::BITS,
    ;
    assert((m & (1usize << i)) != 0 ==> (m ^ (1usize << i)) + (1usize << i) == m) by (bit_vector)
        requires
            i < usize::BITS,
    ;
    if bit(m as int, i as nat) {
        lemma_pow2_pos(i as nat);
        let d = pow2(i as nat) as int;
        if m < d {
            lemma_small_div_converse(m as int, d);
            vstd::arithmetic::div_mod::lemma_basic_div(m as int, d);
        }
    }
}

/// A power of two of at least two is even, and its half is a power of two.
pub proof fn lemma_half_pow2(n: int)
    requires
        is_pow2_len(n),
        n >= 2,
    ensures
        n % 2 == 0,
        is_pow2_len(n / 2),
        n / 2 * 2 == n,
{
    let k = choose|k: nat| pow2(k) == n;
    if k == 0 {
        lemma2_to64();
    } else {
        lemma_pow2_unfold(k);
        assert(pow2((k - 1) as nat) == n / 2);
    }
}

/// Halving by a shift.
pub proof fn lemma_shr1(n: usize)
    ensures
        n >> 1 == n / 2,
{
    assert(n >> 1 == n / 2) by (bit_vector);
}

/// Testing a bit by shifting it down.
pub proof fn lemma_bit_shift(m: usize, i: usize)
    requires
        i < usize::BITS,
    ensures
        (((m >> i) & 1) == 1) == bit(m as int, i as nat),
{
    vstd::bits::lemma_usize_shr_is_div(m, i);
    let y = m >> i;
    assert(((y & 1) == 1) == (y % 2 == 1)) by (bit_vector);
}

/// Clearing a set bit clears it, and leaves the bits above it.
pub proof fn lemma_clear_bit(m: int, i: nat)
    requires
        m >= 0,
        bit(m, i),
    ensures
        m - pow2(i) >= 0,
        !bit(m - pow2(i), i),
{
    lemma_pow2_pos(i);
    let d = pow2(i) as int;
    if m < d {
        lemma_basic_div(m, d);
    }
    lemma_div_minus_one(m, d);
}

} // verus!
