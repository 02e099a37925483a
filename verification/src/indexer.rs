//! The suffix space indexer.
//!
//! A suffix of a fixed length is identified by its rank: its base-58
//! positional value. This module computes the size of the suffix space and
//! converts between ranks and fixed-length Base58 text, a bijection proved
//! in both directions.

use crate::alphabet::{
    all_b58, ascii_chars, b58_bytes_of_digits, b58_digits, b58_index, byte_to_digit,
    digit_to_byte, is_b58_byte, lemma_b58_byte_inverse, lemma_b58_bytes_roundtrip,
    lemma_b58_digits_roundtrip,
};
use crate::codec::{ascii_to_string, FromBase58Error};
use crate::digits::{
    fixed_rep, lemma_base_pow_increases, lemma_fixed_rep_digits,
    lemma_fixed_rep_len, lemma_fixed_rep_unique, lemma_fixed_rep_value, lemma_place_value_bound,
    lemma_place_value_push, lemma_place_value_take_le, place_value, pow58,
};
use vstd::prelude::*;
use vstd::string::StringSliceAdditionalSpecFns;

verus! {

/// The Base58 text of a suffix rank, written in exactly `len` symbols with
/// the most significant first; rank 0 is all '1' symbols.
pub open spec fn rank_text(rank: nat, len: nat) -> Seq<u8> {
    b58_bytes_of_digits(fixed_rep(rank, 58, len))
}

/// The rank of a fixed-length suffix text: its base-58 positional value.
pub open spec fn text_rank(text: Seq<u8>) -> nat
    recommends
        all_b58(text),
{
    place_value(b58_digits(text), 58)
}

/// How many suffixes of the given length exist: 58 to the power of the
/// length, or nothing where that does not fit the 128-bit rank type.
pub fn total_combinations(suffix_length: usize) -> (r: Option<u128>)
    ensures
        match r {
            Some(t) => t == pow58(suffix_length as nat),
            None => pow58(suffix_length as nat) > u128::MAX,
        },
{
    let mut acc: u128 = 1;
    let mut i: usize = 0;
    while i < suffix_length
        invariant
            i <= suffix_length,
            acc == pow58(i as nat),
        decreases suffix_length - i,
    {
        proof {
            assert(pow58((i + 1) as nat) == 58 * pow58(i as nat));
        }
        acc = match acc.checked_mul(58) {
            Some(v) => v,
            None => {
                proof {
                    lemma_base_pow_increases(58, (i + 1) as nat, suffix_length as nat);
                }
                return None;
            },
        };
        i += 1;
    }
    Some(acc)
}

/// Every symbol of a rank text is in the alphabet, and the text has the
/// requested length.
pub proof fn lemma_rank_text_b58(rank: nat, len: nat)
    ensures
        all_b58(rank_text(rank, len)),
        rank_text(rank, len).len() == len,
        forall|i: int| 0 <= i < len ==> rank_text(rank, len)[i] < 128,
{
    lemma_fixed_rep_digits(rank, 58, len);
    lemma_fixed_rep_len(rank, 58, len);
    lemma_b58_bytes_roundtrip(fixed_rep(rank, 58, len));
    assert forall|i: int| 0 <= i < len implies rank_text(rank, len)[i] < 128 by {
        lemma_b58_byte_inverse(rank_text(rank, len)[i]);
    }
}

/// Writes a suffix rank as exactly `suffix_length` Base58 symbols,
/// returned as ASCII bytes; high digits beyond the width are dropped.
pub fn rank_to_text(rank: u128, suffix_length: usize) -> (r: Vec<u8>)
    ensures
        r@ == rank_text(rank as nat, suffix_length as nat),
        r@.len() == suffix_length,
    decreases suffix_length,
{
    if suffix_length == 0 {
        let r: Vec<u8> = Vec::new();
        proof {
            assert(rank_text(rank as nat, 0) =~= Seq::<u8>::empty());
        }
        r
    } else {
        let mut r = rank_to_text(rank / 58, suffix_length - 1);
        let d: u8 = (rank % 58) as u8;
        let b = digit_to_byte(d);
        r.push(b);
        proof {
            let len = suffix_length as nat;
            assert(fixed_rep(rank as nat, 58, len) == fixed_rep(
                (rank / 58) as nat,
                58,
                (len - 1) as nat,
            ).push(d));
            assert(rank_text(rank as nat, len) =~= rank_text(
                (rank / 58) as nat,
                (len - 1) as nat,
            ).push(crate::alphabet::b58_byte(d as int)));
        }
        r
    }
}

/// Writes a suffix rank as exactly `suffix_length` Base58 symbols,
/// returned as a String.
pub fn rank_to_string(rank: u128, suffix_length: usize) -> (r: String)
    ensures
        r@ == ascii_chars(rank_text(rank as nat, suffix_length as nat)),
{
    let bytes = rank_to_text(rank, suffix_length);
    proof {
        lemma_rank_text_b58(rank as nat, suffix_length as nat);
    }
    ascii_to_string(bytes)
}

/// Reads a fixed-length suffix text back to its rank. Fails with the first
/// character outside the alphabet, or with a length error where the rank
/// does not fit the 128-bit rank type.
pub fn text_to_rank(text: &str) -> (r: Result<u128, FromBase58Error>)
    ensures
        ({
            let bytes = text.spec_bytes();
            match r {
                Ok(v) => all_b58(bytes) && text_rank(bytes) <= u128::MAX && v == text_rank(bytes),
                Err(FromBase58Error::InvalidBase58Character(c, i)) => i < bytes.len()
                    && !is_b58_byte(bytes[i as int]) && (forall|j: int|
                    0 <= j < i ==> is_b58_byte(bytes[j])) && c == bytes[i as int] as char,
                Err(FromBase58Error::InvalidBase58Length) => all_b58(bytes) && text_rank(bytes)
                    > u128::MAX,
            }
        }),
{
    let bs = text.as_bytes();
    let n = bs.len();
    let mut i: usize = 0;
    while i < n
        invariant
            i <= n,
            n == bs@.len(),
            bs@ == text.spec_bytes(),
            forall|j: int| 0 <= j < i ==> is_b58_byte(bs@[j]),
        decreases n - i,
    {
        if byte_to_digit(bs[i]).is_none() {
            return Err(FromBase58Error::InvalidBase58Character(bs[i] as char, i));
        }
        i += 1;
    }
    let mut acc: u128 = 0;
    let mut k: usize = 0;
    while k < n
        invariant
            k <= n,
            n == bs@.len(),
            bs@ == text.spec_bytes(),
            all_b58(bs@),
            acc == place_value(b58_digits(bs@.subrange(0, k as int)), 58),
        decreases n - k,
    {
        let d = match byte_to_digit(bs[k]) {
            Some(d) => d,
            None => {
                proof {
                    assert(false);
                }
                return Err(FromBase58Error::InvalidBase58Length);
            },
        };
        proof {
            assert(b58_digits(bs@.subrange(0, k + 1 as int)) =~= b58_digits(
                bs@.subrange(0, k as int),
            ).push(b58_index(bs@[k as int]) as u8));
            lemma_place_value_push(
                b58_digits(bs@.subrange(0, k as int)),
                b58_index(bs@[k as int]) as u8,
                58,
            );
            assert(b58_digits(bs@).take(k + 1 as int) =~= b58_digits(bs@.subrange(0, k + 1 as int)));
            lemma_place_value_take_le(b58_digits(bs@), 58, k + 1 as int);
        }
        let scaled = match acc.checked_mul(58) {
            Some(v) => v,
            None => {
                return Err(FromBase58Error::InvalidBase58Length);
            },
        };
        acc = match scaled.checked_add(d as u128) {
            Some(v) => v,
            None => {
                return Err(FromBase58Error::InvalidBase58Length);
            },
        };
        k += 1;
    }
    proof {
        assert(bs@.subrange(0, n as int) =~= bs@);
    }
    Ok(acc)
}

/// Round trip, text side: writing back the rank of any valid fixed-length
/// text gives the text itself, and the rank is within the space.
pub proof fn lemma_rank_text_round_trip(text: Seq<u8>)
    requires
        all_b58(text),
    ensures
        text_rank(text) < pow58(text.len()),
        rank_text(text_rank(text), text.len()) == text,
{
    lemma_b58_digits_roundtrip(text);
    lemma_place_value_bound(b58_digits(text), 58);
    lemma_fixed_rep_unique(b58_digits(text), 58);
}

/// Round trip, rank side: reading back the text of any rank within the
/// space gives the rank itself.
pub proof fn lemma_text_rank_round_trip(rank: nat, len: nat)
    requires
        rank < pow58(len),
    ensures
        text_rank(rank_text(rank, len)) == rank,
{
    lemma_fixed_rep_digits(rank, 58, len);
    lemma_b58_bytes_roundtrip(fixed_rep(rank, 58, len));
    lemma_fixed_rep_value(rank, 58, len);
}

} // verus!
