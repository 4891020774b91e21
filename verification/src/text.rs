//! Building messages: numbers in decimal, bytes in hexadecimal, and byte
//! arrays in the bracketed list form `[ba, 78, 1]`.
use vstd::prelude::*;
use vstd::string::StringExecFns;

verus! {

/// The digit `d` (below sixteen), as text.
pub open spec fn digit_text(d: int) -> Seq<char> {
    if d == 0 { "0"@ }
    else if d == 1 { "1"@ }
    else if d == 2 { "2"@ }
    else if d == 3 { "3"@ }
    else if d == 4 { "4"@ }
    else if d == 5 { "5"@ }
    else if d == 6 { "6"@ }
    else if d == 7 { "7"@ }
    else if d == 8 { "8"@ }
    else if d == 9 { "9"@ }
    else if d == 10 { "a"@ }
    else if d == 11 { "b"@ }
    else if d == 12 { "c"@ }
    else if d == 13 { "d"@ }
    else if d == 14 { "e"@ }
    else { "f"@ }
}

/// `n` in decimal, without leading zeros.
pub open spec fn decimal_text(n: nat) -> Seq<char>
    decreases n,
{
    if n < 10 {
        digit_text(n as int)
    } else {
        decimal_text(n / 10) + digit_text((n % 10) as int)
    }
}

/// A byte in lower-case hexadecimal, without leading zeros.
pub open spec fn hex_text(b: u8) -> Seq<char> {
    if b < 16 {
        digit_text(b as int)
    } else {
        digit_text((b / 16) as int) + digit_text((b % 16) as int)
    }
}

/// The first `k` bytes in hexadecimal, separated by `", "`.
pub open spec fn hex_items(bytes: Seq<u8>, k: nat) -> Seq<char>
    decreases k,
{
    if k == 0 {
        Seq::empty()
    } else if k == 1 {
        hex_text(bytes[0])
    } else {
        hex_items(bytes, (k - 1) as nat) + ", "@ + hex_text(bytes[k - 1])
    }
}

/// The bytes as a bracketed list in hexadecimal: `[ba, 78, 1]`.
pub open spec fn hex_list_text(bytes: Seq<u8>) -> Seq<char> {
    "["@ + hex_items(bytes, bytes.len()) + "]"@
}

/// The text of a digit below sixteen.
fn digit_str(d: u64) -> (r: &'static str)
    requires
        d < 16,
    ensures
        r@ == digit_text(d as int),
{
    match d {
        0 => "0",
        1 => "1",
        2 => "2",
        3 => "3",
        4 => "4",
        5 => "5",
        6 => "6",
        7 => "7",
        8 => "8",
        9 => "9",
        10 => "a",
        11 => "b",
        12 => "c",
        13 => "d",
        14 => "e",
        _ => "f",
    }
}

/// Appends `n` in decimal.
pub fn push_decimal(s: &mut String, n: u64)
    ensures
        final(s)@ == old(s)@ + decimal_text(n as nat),
    decreases n,
{
    if n >= 10 {
        push_decimal(s, n / 10);
        s.append(digit_str(n % 10));
        proof {
            assert(final(s)@ == old(s)@ + decimal_text((n / 10) as nat) + digit_text((n % 10) as int));
        }
    } else {
        s.append(digit_str(n));
    }
}

/// Appends a byte in hexadecimal.
fn push_hex(s: &mut String, b: u8)
    ensures
        final(s)@ == old(s)@ + hex_text(b),
{
    if b < 16 {
        s.append(digit_str(b as u64));
    } else {
        s.append(digit_str((b / 16) as u64));
        s.append(digit_str((b % 16) as u64));
    }
}

/// Appends the bytes as a bracketed list in hexadecimal.
pub fn push_hex_list(s: &mut String, bytes: &[u8])
    ensures
        final(s)@ == old(s)@ + hex_list_text(bytes@),
{
    let ghost start = s@;
    s.append("[");
    let mut k: usize = 0;
    while k < bytes.len()
        invariant
            k <= bytes.len(),
            s@ == start + "["@ + hex_items(bytes@, k as nat),
        decreases bytes.len() - k,
    {
        if k > 0 {
            s.append(", ");
        }
        push_hex(s, bytes[k]);
        k = k + 1;
        proof {
            if k == 1 {
                assert(hex_items(bytes@, 0) == Seq::<char>::empty());
            }
        }
    }
    s.append("]");
}

} // verus!
