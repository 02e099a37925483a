//! The Base58 alphabet.
//!
//! The 58 symbols are the digits 1-9, the upper-case letters without I and
//! O, and the lower-case letters without l. Text is handled as ASCII bytes;
//! this module maps bytes to digit indexes and back.

use vstd::prelude::*;

verus! {

/// Digit index of an ASCII byte in the Base58 alphabet, or -1 for a byte
/// outside it.
pub open spec fn b58_index(b: u8) -> int {
    if 49 <= b <= 57 {  // '1'..='9'
        b - 49
    } else if 65 <= b <= 72 {  // 'A'..='H'
        b - 56
    } else if 74 <= b <= 78 {  // 'J'..='N'
        b - 57
    } else if 80 <= b <= 90 {  // 'P'..='Z'
        b - 58
    } else if 97 <= b <= 107 {  // 'a'..='k'
        b - 64
    } else if 109 <= b <= 122 {  // 'm'..='z'
        b - 65
    } else {
        -1
    }
}

/// Whether the byte is an alphabet symbol.
pub open spec fn is_b58_byte(b: u8) -> bool {
    b58_index(b) >= 0
}

/// The alphabet byte of a digit index below 58.
pub open spec fn b58_byte(d: int) -> u8 {
    if 0 <= d <= 8 {
        (d + 49) as u8
    } else if 9 <= d <= 16 {
        (d + 56) as u8
    } else if 17 <= d <= 21 {
        (d + 57) as u8
    } else if 22 <= d <= 32 {
        (d + 58) as u8
    } else if 33 <= d <= 43 {
        (d + 64) as u8
    } else if 44 <= d <= 57 {
        (d + 65) as u8
    } else {
        0
    }
}

/// Every string of the alphabet's symbols.
pub open spec fn all_b58(s: Seq<u8>) -> bool {
    forall|i: int| 0 <= i < s.len() ==> is_b58_byte(s[i])
}

/// The digit indexes of an alphabet byte string.
pub open spec fn b58_digits(s: Seq<u8>) -> Seq<u8>
    recommends
        all_b58(s),
{
    s.map_values(|b: u8| b58_index(b) as u8)
}

/// The alphabet bytes of a digit index string.
pub open spec fn b58_bytes_of_digits(ds: Seq<u8>) -> Seq<u8> {
    ds.map_values(|d: u8| b58_byte(d as int))
}

/// A sequence of ASCII bytes read as characters.
pub open spec fn ascii_chars(s: Seq<u8>) -> Seq<char> {
    s.map_values(|b: u8| b as char)
}

/// The alphabet maps are inverse to each other, digit side first.
pub proof fn lemma_b58_digit_inverse(d: int)
    requires
        0 <= d < 58,
    ensures
        is_b58_byte(b58_byte(d)),
        b58_index(b58_byte(d)) == d,
        b58_byte(d) < 128,
        d == 0 <==> b58_byte(d) == 49,
{
}

/// The alphabet maps are inverse to each other, byte side first.
pub proof fn lemma_b58_byte_inverse(b: u8)
    requires
        is_b58_byte(b),
    ensures
        0 <= b58_index(b) < 58,
        b58_byte(b58_index(b)) == b,
        b < 128,
        b58_index(b) == 0 <==> b == 49,
{
}

/// Digit index strings of alphabet text are valid base-58 digit strings,
/// and the two string maps undo each other.
pub proof fn lemma_b58_digits_roundtrip(s: Seq<u8>)
    requires
        all_b58(s),
    ensures
        crate::digits::digits_below(b58_digits(s), 58),
        b58_digits(s).len() == s.len(),
        b58_bytes_of_digits(b58_digits(s)) == s,
{
    assert forall|i: int| 0 <= i < s.len() implies b58_digits(s)[i] < 58 by {
        lemma_b58_byte_inverse(s[i]);
    }
    assert forall|i: int| 0 <= i < s.len() implies b58_bytes_of_digits(b58_digits(s))[i] == s[i] by {
        lemma_b58_byte_inverse(s[i]);
    }
    assert(b58_bytes_of_digits(b58_digits(s)) =~= s);
}

/// Alphabet byte strings of valid digit strings are alphabet text, and the
/// two string maps undo each other.
pub proof fn lemma_b58_bytes_roundtrip(ds: Seq<u8>)
    requires
        crate::digits::digits_below(ds, 58),
    ensures
        all_b58(b58_bytes_of_digits(ds)),
        b58_bytes_of_digits(ds).len() == ds.len(),
        b58_digits(b58_bytes_of_digits(ds)) == ds,
{
    assert forall|i: int| 0 <= i < ds.len() implies is_b58_byte(b58_bytes_of_digits(ds)[i]) by {
        lemma_b58_digit_inverse(ds[i] as int);
    }
    assert forall|i: int| 0 <= i < ds.len() implies b58_digits(b58_bytes_of_digits(ds))[i]
        == ds[i] by {
        lemma_b58_digit_inverse(ds[i] as int);
    }
    assert(b58_digits(b58_bytes_of_digits(ds)) =~= ds);
}

/// Looks a byte up in the alphabet.
pub fn byte_to_digit(b: u8) -> (r: Option<u8>)
    ensures
        match r {
            Some(d) => is_b58_byte(b) && d == b58_index(b) && d < 58,
            None => !is_b58_byte(b),
        },
{
    if 49 <= b && b <= 57 {
        Some(b - 49)
    } else if 65 <= b && b <= 72 {
        Some(b - 56)
    } else if 74 <= b && b <= 78 {
        Some(b - 57)
    } else if 80 <= b && b <= 90 {
        Some(b - 58)
    } else if 97 <= b && b <= 107 {
        Some(b - 64)
    } else if 109 <= b && b <= 122 {
        Some(b - 65)
    } else {
        None
    }
}

/// Writes a digit index below 58 as its alphabet byte.
pub fn digit_to_byte(d: u8) -> (r: u8)
    requires
        d < 58,
    ensures
        r == b58_byte(d as int),
{
    if d <= 8 {
        d + 49
    } else if d <= 16 {
        d + 56
    } else if d <= 21 {
        d + 57
    } else if d <= 32 {
        d + 58
    } else if d <= 43 {
        d + 64
    } else {
        d + 65
    }
}

} // verus!
