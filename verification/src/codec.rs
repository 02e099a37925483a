//! The Base58 codec.
//!
//! Encoding treats the input bytes as one big-endian number and rewrites it
//! in base 58, with each leading zero byte kept as a leading '1' symbol.
//! Decoding is the exact inverse, up to a fixed capacity on the decoded
//! size.

use crate::alphabet::{
    all_b58, ascii_chars, b58_byte, b58_bytes_of_digits, b58_digits, b58_index, byte_to_digit,
    digit_to_byte, is_b58_byte, lemma_b58_byte_inverse, lemma_b58_bytes_roundtrip,
    lemma_b58_digit_inverse, lemma_b58_digits_roundtrip,
};
use crate::digits::{
    base_pow, digits_below, lemma_leading_count_exact,
    lemma_leading_count_le_len, lemma_min_rep_digits, lemma_min_rep_first_nonzero,
    lemma_min_rep_unique, lemma_min_rep_value,
    lemma_place_value_prepend, lemma_place_value_push,
    lemma_place_value_skip_zeros, leading_count, min_rep, no_leading_zero, place_value,
};
use vstd::arithmetic::div_mod::{lemma_div_decreases, lemma_fundamental_div_mod};
use vstd::prelude::*;
use vstd::string::StringSliceAdditionalSpecFns;

verus! {

/// The largest decoded size the codec accepts, in bytes. Longer values are
/// a documented non-goal and decoding reports them as a length error.
pub const MAX_DECODED_LEN: usize = 128;

/// Errors that can occur when decoding a base58 encoded string.
#[derive(Clone, Copy, Debug, Eq, PartialEq)]
pub enum FromBase58Error {
    /// The input contained a character which is not a part of the base58
    /// format; carries the character and its byte position.
    InvalidBase58Character(char, usize),
    /// The decoded value does not fit the supported size.
    InvalidBase58Length,
}

/// The encoding of a byte string: one '1' symbol (byte 49) per leading zero
/// byte, then the minimal base-58 digits of the value written in the
/// alphabet.
pub open spec fn encode_spec(bytes: Seq<u8>) -> Seq<u8> {
    Seq::new(leading_count(bytes, 0), |i: int| 49u8) + b58_bytes_of_digits(
        min_rep(place_value(bytes, 256), 58),
    )
}

/// The decoding of an alphabet byte string: one zero byte per leading '1'
/// symbol, then the minimal base-256 bytes of the value of the remaining
/// digits.
pub open spec fn decode_spec(text: Seq<u8>) -> Seq<u8>
    recommends
        all_b58(text),
{
    Seq::new(leading_count(text, 49), |i: int| 0u8) + min_rep(
        place_value(b58_digits(text), 58),
        256,
    )
}

/// What a decode call returns for the given text: the decoded bytes when
/// every symbol is in the alphabet and the result fits the capacity, the
/// first offending character and its position otherwise, and a length error
/// when the value is too large.
pub open spec fn decode_result(text: Seq<u8>, r: Result<Seq<u8>, FromBase58Error>) -> bool {
    match r {
        Ok(bytes) => all_b58(text) && decode_spec(text).len() <= MAX_DECODED_LEN && bytes
            == decode_spec(text),
        Err(FromBase58Error::InvalidBase58Character(c, i)) => i < text.len() && !is_b58_byte(
            text[i as int],
        ) && (forall|j: int| 0 <= j < i ==> is_b58_byte(text[j])) && c == text[i as int] as char,
        Err(FromBase58Error::InvalidBase58Length) => all_b58(text) && decode_spec(text).len()
            > MAX_DECODED_LEN,
    }
}

/// Folds one more input byte into a big-endian base-58 digit string,
/// multiplying the value by 256 and adding the byte.
fn absorb_byte(digits: &mut Vec<u8>, byte: u8)
    requires
        digits_below(old(digits)@, 58),
        no_leading_zero(old(digits)@),
    ensures
        digits_below(final(digits)@, 58),
        no_leading_zero(final(digits)@),
        place_value(final(digits)@, 58) == place_value(old(digits)@, 58) * 256 + byte,
{
    let ghost orig = digits@;
    let n = digits.len();
    let mut carry: u32 = byte as u32;
    let mut i: usize = n;
    proof {
        assert(digits@.skip(n as int) =~= Seq::<u8>::empty());
        assert(orig.skip(n as int) =~= Seq::<u8>::empty());
        assert(base_pow(58, (n - n) as nat) == 1);
        assert(carry * base_pow(58, (n - n) as nat) == carry) by (nonlinear_arith)
            requires
                base_pow(58, (n - n) as nat) == 1,
        ;
        assert(place_value(orig.skip(n as int), 58) * 256 == 0) by (nonlinear_arith)
            requires
                place_value(orig.skip(n as int), 58) == 0,
        ;
    }
    while i > 0
        invariant
            i <= n,
            n == digits@.len(),
            n == orig.len(),
            carry <= 256,
            digits_below(digits@, 58),
            digits_below(orig, 58),
            no_leading_zero(orig),
            digits@.subrange(0, i as int) == orig.subrange(0, i as int),
            place_value(digits@.skip(i as int), 58) + carry * base_pow(58, (n - i) as nat)
                == place_value(orig.skip(i as int), 58) * 256 + byte,
            i == 0 && n > 0 ==> digits@.first() != 0 || carry > 0,
        decreases i,
    {
        let j = i - 1;
        let d = digits[j];
        proof {
            assert(digits@.subrange(0, i as int)[j as int] == orig.subrange(0, i as int)[
                j as int]);
            assert(d == orig[j as int]);
        }
        let t: u32 = (d as u32) * 256 + carry;
        let nd: u8 = (t % 58) as u8;
        let c2: u32 = t / 58;
        let ghost pre = digits@;
        let ghost w = base_pow(58, (n - i) as nat);
        digits.set(j, nd);
        proof {
            lemma_fundamental_div_mod(t as int, 58);
            assert(nd + 58 * c2 == 256 * d + carry);
            assert(digits@.skip(j as int) =~= seq![nd] + pre.skip(i as int));
            assert(orig.skip(j as int) =~= seq![orig[j as int]] + orig.skip(i as int));
            lemma_place_value_prepend(nd, pre.skip(i as int), 58);
            lemma_place_value_prepend(orig[j as int], orig.skip(i as int), 58);
            assert(pre.skip(i as int).len() == n - i);
            assert(orig.skip(i as int).len() == n - i);
            assert(base_pow(58, (n - j) as nat) == 58 * w);
            let pvd = place_value(pre.skip(i as int), 58);
            let pvo = place_value(orig.skip(i as int), 58);
            assert((nd * w + pvd) + c2 * (58 * w) == (orig[j as int] * w + pvo) * 256 + byte)
                by (nonlinear_arith)
                requires
                    pvd + carry * w == pvo * 256 + byte,
                    nd + 58 * c2 == 256 * d + carry,
                    d == orig[j as int],
            ;
            assert(place_value(digits@.skip(j as int), 58) == nd * w + pvd);
            assert(place_value(orig.skip(j as int), 58) == orig[j as int] * w + pvo);
            assert(digits@.subrange(0, j as int) =~= orig.subrange(0, j as int));
            if j == 0 && n > 0 {
                assert(orig.first() != 0);
                assert(t >= 256);
                if nd == 0 {
                    assert(58 * c2 == t);
                    assert(c2 > 0);
                }
                assert(digits@.first() == nd);
            }
        }
        carry = c2;
        i = j;
    }
    proof {
        assert(digits@.skip(0) =~= digits@);
        assert(orig.skip(0) =~= orig);
    }
    while carry > 0
        invariant
            digits_below(digits@, 58),
            carry == 0 ==> no_leading_zero(digits@),
            place_value(digits@, 58) + carry * base_pow(58, digits@.len()) == place_value(
                orig,
                58,
            ) * 256 + byte,
        decreases carry,
    {
        let nd: u8 = (carry % 58) as u8;
        let c2: u32 = carry / 58;
        let ghost pre = digits@;
        let ghost w = base_pow(58, pre.len());
        digits.insert(0, nd);
        proof {
            lemma_fundamental_div_mod(carry as int, 58);
            lemma_div_decreases(carry as int, 58);
            assert(digits@ =~= seq![nd] + pre);
            lemma_place_value_prepend(nd, pre, 58);
            assert(base_pow(58, digits@.len()) == 58 * w);
            let pvd = place_value(pre, 58);
            assert((nd * w + pvd) + c2 * (58 * w) == pvd + carry * w) by (nonlinear_arith)
                requires
                    nd + 58 * c2 == carry,
            ;
            assert(place_value(digits@, 58) == nd * w + pvd);
            if c2 == 0 {
                assert(nd == carry);
                assert(digits@.first() == nd);
            }
        }
        carry = c2;
    }
    proof {
        assert(carry * base_pow(58, digits@.len()) == 0) by (nonlinear_arith)
            requires
                carry == 0,
        ;
    }
}

/// Folds one more base-58 digit into a big-endian byte string, multiplying
/// the value by 58 and adding the digit.
fn absorb_digit(bytes: &mut Vec<u8>, digit: u8)
    requires
        digit < 58,
        no_leading_zero(old(bytes)@),
    ensures
        no_leading_zero(final(bytes)@),
        place_value(final(bytes)@, 256) == place_value(old(bytes)@, 256) * 58 + digit,
        final(bytes)@.len() <= old(bytes)@.len() + 1,
{
    let ghost orig = bytes@;
    let n = bytes.len();
    let mut carry: u32 = digit as u32;
    let mut i: usize = n;
    proof {
        assert(bytes@.skip(n as int) =~= Seq::<u8>::empty());
        assert(orig.skip(n as int) =~= Seq::<u8>::empty());
        assert(base_pow(256, (n - n) as nat) == 1);
        assert(carry * base_pow(256, (n - n) as nat) == carry) by (nonlinear_arith)
            requires
                base_pow(256, (n - n) as nat) == 1,
        ;
        assert(place_value(orig.skip(n as int), 256) * 58 == 0) by (nonlinear_arith)
            requires
                place_value(orig.skip(n as int), 256) == 0,
        ;
    }
    while i > 0
        invariant
            i <= n,
            n == bytes@.len(),
            n == orig.len(),
            carry <= 57,
            no_leading_zero(orig),
            bytes@.subrange(0, i as int) == orig.subrange(0, i as int),
            place_value(bytes@.skip(i as int), 256) + carry * base_pow(256, (n - i) as nat)
                == place_value(orig.skip(i as int), 256) * 58 + digit,
            i == 0 && n > 0 ==> bytes@.first() != 0 || carry > 0,
        decreases i,
    {
        let j = i - 1;
        let b = bytes[j];
        proof {
            assert(bytes@.subrange(0, i as int)[j as int] == orig.subrange(0, i as int)[
                j as int]);
            assert(b == orig[j as int]);
        }
        let t: u32 = (b as u32) * 58 + carry;
        let nb: u8 = (t % 256) as u8;
        let c2: u32 = t / 256;
        let ghost pre = bytes@;
        let ghost w = base_pow(256, (n - i) as nat);
        bytes.set(j, nb);
        proof {
            lemma_fundamental_div_mod(t as int, 256);
            assert(nb + 256 * c2 == 58 * b + carry);
            assert(bytes@.skip(j as int) =~= seq![nb] + pre.skip(i as int));
            assert(orig.skip(j as int) =~= seq![orig[j as int]] + orig.skip(i as int));
            lemma_place_value_prepend(nb, pre.skip(i as int), 256);
            lemma_place_value_prepend(orig[j as int], orig.skip(i as int), 256);
            assert(pre.skip(i as int).len() == n - i);
            assert(orig.skip(i as int).len() == n - i);
            assert(base_pow(256, (n - j) as nat) == 256 * w);
            let pvd = place_value(pre.skip(i as int), 256);
            let pvo = place_value(orig.skip(i as int), 256);
            assert((nb * w + pvd) + c2 * (256 * w) == (orig[j as int] * w + pvo) * 58 + digit)
                by (nonlinear_arith)
                requires
                    pvd + carry * w == pvo * 58 + digit,
                    nb + 256 * c2 == 58 * b + carry,
                    b == orig[j as int],
            ;
            assert(place_value(bytes@.skip(j as int), 256) == nb * w + pvd);
            assert(place_value(orig.skip(j as int), 256) == orig[j as int] * w + pvo);
            assert(bytes@.subrange(0, j as int) =~= orig.subrange(0, j as int));
            if j == 0 && n > 0 {
                assert(orig.first() != 0);
                assert(t >= 58);
                if nb == 0 {
                    assert(256 * c2 == t);
                    assert(c2 > 0);
                }
                assert(bytes@.first() == nb);
            }
        }
        carry = c2;
        i = j;
    }
    proof {
        assert(bytes@.skip(0) =~= bytes@);
        assert(orig.skip(0) =~= orig);
    }
    while carry > 0
        invariant
            carry <= 57,
            carry == 0 ==> no_leading_zero(bytes@),
            carry > 0 ==> bytes@.len() == orig.len(),
            carry == 0 ==> bytes@.len() <= orig.len() + 1,
            place_value(bytes@, 256) + carry * base_pow(256, bytes@.len()) == place_value(
                orig,
                256,
            ) * 58 + digit,
        decreases carry,
    {
        let nb: u8 = (carry % 256) as u8;
        let c2: u32 = carry / 256;
        let ghost pre = bytes@;
        let ghost w = base_pow(256, pre.len());
        bytes.insert(0, nb);
        proof {
            lemma_fundamental_div_mod(carry as int, 256);
            assert(c2 == 0);
            assert(nb == carry);
            assert(bytes@ =~= seq![nb] + pre);
            lemma_place_value_prepend(nb, pre, 256);
            assert(base_pow(256, bytes@.len()) == 256 * w);
            let pvd = place_value(pre, 256);
            assert((nb * w + pvd) + c2 * (256 * w) == pvd + carry * w) by (nonlinear_arith)
                requires
                    nb + 256 * c2 == carry,
            ;
            assert(place_value(bytes@, 256) == nb * w + pvd);
            assert(bytes@.first() == nb);
        }
        carry = c2;
    }
    proof {
        assert(carry * base_pow(256, bytes@.len()) == 0) by (nonlinear_arith)
            requires
                carry == 0,
        ;
    }
}

/// Encodes a byte string to Base58 text, returned as ASCII bytes.
pub fn base58_encode(input: &[u8]) -> (r: Vec<u8>)
    ensures
        r@ == encode_spec(input@),
{
    let n = input.len();
    let mut z: usize = 0;
    while z < n && input[z] == 0
        invariant
            z <= n,
            n == input@.len(),
            forall|j: int| 0 <= j < z ==> input@[j] == 0,
        decreases n - z,
    {
        z += 1;
    }
    proof {
        lemma_leading_count_exact(input@, 0, z as nat);
    }
    let mut digits: Vec<u8> = Vec::new();
    let mut idx: usize = z;
    while idx < n
        invariant
            z <= idx <= n,
            n == input@.len(),
            digits_below(digits@, 58),
            no_leading_zero(digits@),
            place_value(digits@, 58) == place_value(input@.subrange(z as int, idx as int), 256),
        decreases n - idx,
    {
        absorb_byte(&mut digits, input[idx]);
        proof {
            assert(input@.subrange(z as int, idx + 1 as int) =~= input@.subrange(
                z as int,
                idx as int,
            ).push(input@[idx as int]));
            lemma_place_value_push(
                input@.subrange(z as int, idx as int),
                input@[idx as int],
                256,
            );
        }
        idx += 1;
    }
    proof {
        assert(input@.subrange(z as int, n as int) =~= input@.skip(z as int));
        lemma_place_value_skip_zeros(input@, 256, z as int);
        lemma_min_rep_unique(digits@, 58);
    }
    let mut out: Vec<u8> = Vec::new();
    let mut k: usize = 0;
    while k < z
        invariant
            k <= z,
            out@ == Seq::new(k as nat, |i: int| 49u8),
        decreases z - k,
    {
        out.push(49);
        proof {
            assert(out@ =~= Seq::new((k + 1) as nat, |i: int| 49u8));
        }
        k += 1;
    }
    let m = digits.len();
    let mut k2: usize = 0;
    while k2 < m
        invariant
            k2 <= m,
            m == digits@.len(),
            digits_below(digits@, 58),
            out@ == Seq::new(z as nat, |i: int| 49u8) + b58_bytes_of_digits(
                digits@.subrange(0, k2 as int),
            ),
        decreases m - k2,
    {
        let b = digit_to_byte(digits[k2]);
        out.push(b);
        proof {
            assert(out@ =~= Seq::new(z as nat, |i: int| 49u8) + b58_bytes_of_digits(
                digits@.subrange(0, k2 + 1 as int),
            ));
        }
        k2 += 1;
    }
    proof {
        assert(digits@.subrange(0, m as int) =~= digits@);
        assert(out@ =~= encode_spec(input@));
    }
    out
}

/// The view of a decode result, with the decoded bytes as a sequence.
pub open spec fn decoded_view(r: Result<Vec<u8>, FromBase58Error>) -> Result<
    Seq<u8>,
    FromBase58Error,
> {
    match r {
        Ok(v) => Ok(v@),
        Err(e) => Err(e),
    }
}

/// Decodes Base58 text, given as ASCII bytes, back to the byte string it
/// encodes.
pub fn base58_decode(input: &[u8]) -> (r: Result<Vec<u8>, FromBase58Error>)
    ensures
        decode_result(input@, decoded_view(r)),
{
    let n = input.len();
    let mut z: usize = 0;
    while z < n && input[z] == 49
        invariant
            z <= n,
            n == input@.len(),
            forall|j: int| 0 <= j < z ==> input@[j] == 49,
        decreases n - z,
    {
        z += 1;
    }
    proof {
        lemma_leading_count_exact(input@, 49, z as nat);
    }
    let mut acc: Vec<u8> = Vec::new();
    let mut i: usize = 0;
    while i < n
        invariant
            i <= n,
            n == input@.len(),
            forall|j: int| 0 <= j < i ==> is_b58_byte(input@[j]),
            no_leading_zero(acc@),
            place_value(acc@, 256) == place_value(b58_digits(input@.subrange(0, i as int)), 58),
        decreases n - i,
    {
        let b = input[i];
        match byte_to_digit(b) {
            None => {
                return Err(FromBase58Error::InvalidBase58Character(b as char, i));
            },
            Some(d) => {
                absorb_digit(&mut acc, d);
                proof {
                    assert(b58_digits(input@.subrange(0, i + 1 as int)) =~= b58_digits(
                        input@.subrange(0, i as int),
                    ).push(b58_index(input@[i as int]) as u8));
                    lemma_place_value_push(
                        b58_digits(input@.subrange(0, i as int)),
                        b58_index(input@[i as int]) as u8,
                        58,
                    );
                }
                i += 1;
            },
        }
    }
    proof {
        assert(input@.subrange(0, n as int) =~= input@);
        assert(digits_below(acc@, 256));
        lemma_min_rep_unique(acc@, 256);
    }
    if z > MAX_DECODED_LEN || acc.len() > MAX_DECODED_LEN - z {
        return Err(FromBase58Error::InvalidBase58Length);
    }
    let mut out: Vec<u8> = Vec::new();
    let mut k: usize = 0;
    while k < z
        invariant
            k <= z,
            out@ == Seq::new(k as nat, |i: int| 0u8),
        decreases z - k,
    {
        out.push(0);
        proof {
            assert(out@ =~= Seq::new((k + 1) as nat, |i: int| 0u8));
        }
        k += 1;
    }
    out.append(&mut acc);
    proof {
        assert(out@ =~= decode_spec(input@));
    }
    Ok(out)
}

/// Relies on String::from_utf8: ASCII bytes are valid UTF-8 and become the
/// string whose characters are exactly those bytes.
#[verifier::external_body]
pub(crate) fn ascii_to_string(bytes: Vec<u8>) -> (s: String)
    requires
        forall|i: int| 0 <= i < bytes@.len() ==> bytes@[i] < 128,
    ensures
        s@ == ascii_chars(bytes@),
{
    match String::from_utf8(bytes) {
        Ok(s) => s,
        Err(_) => String::new(),
    }
}

/// Every symbol the encoder emits is in the alphabet, so also ASCII.
pub proof fn lemma_encode_spec_b58(bytes: Seq<u8>)
    ensures
        all_b58(encode_spec(bytes)),
        forall|i: int| 0 <= i < encode_spec(bytes).len() ==> encode_spec(bytes)[i] < 128,
{
    let z = leading_count(bytes, 0);
    let v = place_value(bytes, 256);
    let ds = min_rep(v, 58);
    lemma_min_rep_digits(v, 58);
    assert forall|i: int| 0 <= i < encode_spec(bytes).len() implies is_b58_byte(
        encode_spec(bytes)[i],
    ) && encode_spec(bytes)[i] < 128 by {
        if i < z {
            assert(encode_spec(bytes)[i] == 49);
        } else {
            assert(encode_spec(bytes)[i] == b58_byte(ds[i - z] as int));
            lemma_b58_digit_inverse(ds[i - z] as int);
        }
    }
}

/// Leading zero bytes map one-to-one to leading '1' symbols of the
/// encoding.
pub proof fn lemma_encode_leading_zeros(bytes: Seq<u8>)
    ensures
        leading_count(encode_spec(bytes), 49) == leading_count(bytes, 0),
{
    let z = leading_count(bytes, 0);
    let v = place_value(bytes, 256);
    let ds = min_rep(v, 58);
    let text = encode_spec(bytes);
    lemma_min_rep_digits(v, 58);
    if ds.len() > 0 {
        assert(v > 0);
        lemma_min_rep_first_nonzero(v, 58);
        assert(text[z as int] == b58_byte(ds[0] as int));
        lemma_b58_digit_inverse(ds[0] as int);
        assert(text[z as int] != 49);
    }
    lemma_leading_count_exact(text, 49, z);
}

/// Round trip: decoding an encoded byte string gives the bytes back, with
/// the same length.
pub proof fn lemma_base58_round_trip(bytes: Seq<u8>)
    ensures
        all_b58(encode_spec(bytes)),
        decode_spec(encode_spec(bytes)) == bytes,
        decode_spec(encode_spec(bytes)).len() == bytes.len(),
{
    let z = leading_count(bytes, 0);
    let v = place_value(bytes, 256);
    let ds = min_rep(v, 58);
    let text = encode_spec(bytes);
    lemma_encode_spec_b58(bytes);
    lemma_encode_leading_zeros(bytes);
    lemma_min_rep_digits(v, 58);
    lemma_leading_count_le_len(bytes, 0);

    // The digits of the text are the padded digits of the value.
    lemma_b58_bytes_roundtrip(ds);
    assert(b58_digits(text) =~= Seq::new(z, |i: int| 0u8) + ds);
    assert forall|j: int| 0 <= j < z implies b58_digits(text)[j] == 0 by {
        assert(text[j] == 49);
    }
    lemma_place_value_skip_zeros(b58_digits(text), 58, z as int);
    assert(b58_digits(text).skip(z as int) =~= ds);
    lemma_min_rep_value(v, 58);
    assert(place_value(b58_digits(text), 58) == v);

    // The bytes after the leading zeros are the canonical form of the value.
    let tailb = bytes.skip(z as int);
    assert(no_leading_zero(tailb));
    assert(digits_below(tailb, 256));
    lemma_min_rep_unique(tailb, 256);
    lemma_place_value_skip_zeros(bytes, 256, z as int);
    assert(min_rep(v, 256) == tailb);

    assert(decode_spec(text) =~= bytes);
}

/// Round trip in the other direction: encoding the decoded bytes of any
/// alphabet text gives the text back.
pub proof fn lemma_base58_text_round_trip(text: Seq<u8>)
    requires
        all_b58(text),
    ensures
        encode_spec(decode_spec(text)) == text,
{
    let z = leading_count(text, 49);
    let ds = b58_digits(text);
    let v = place_value(ds, 58);
    let bytes = decode_spec(text);
    let mr = min_rep(v, 256);
    lemma_leading_count_le_len(text, 49);

    // The digits behind the leading '1' symbols carry the whole value, and
    // they are the canonical base-58 form of it.
    assert forall|j: int| 0 <= j < z implies ds[j] == 0 by {
        assert(text[j] == 49);
    }
    lemma_place_value_skip_zeros(ds, 58, z as int);
    let tail = text.skip(z as int);
    assert(ds.skip(z as int) =~= b58_digits(tail));
    if tail.len() > 0 {
        assert(text[z as int] != 49);
        lemma_b58_byte_inverse(text[z as int]);
        assert(b58_digits(tail).first() == b58_index(text[z as int]) as u8);
        assert(b58_digits(tail).first() != 0);
    }
    lemma_b58_digits_roundtrip(tail);
    lemma_min_rep_unique(b58_digits(tail), 58);
    assert(min_rep(v, 58) == b58_digits(tail));

    // The decoded bytes start with exactly the zero bytes of the '1'
    // symbols, and carry the same value.
    lemma_min_rep_digits(v, 256);
    if v > 0 {
        lemma_min_rep_first_nonzero(v, 256);
        assert(bytes[z as int] == mr.first());
    } else {
        assert(b58_digits(tail).len() == tail.len());
    }
    assert forall|j: int| 0 <= j < z implies bytes[j] == 0 by {}
    lemma_leading_count_exact(bytes, 0, z);
    assert forall|j: int| 0 <= j < z implies bytes[j] == 0 by {}
    lemma_place_value_skip_zeros(bytes, 256, z as int);
    assert(bytes.skip(z as int) =~= mr);
    lemma_min_rep_value(v, 256);
    assert(place_value(bytes, 256) == v);

    assert(encode_spec(bytes) =~= text);
}

/// The characters that Base58 leaves out to avoid visual ambiguity are
/// outside the alphabet, so text holding one cannot decode.
pub proof fn lemma_excluded_characters(text: Seq<u8>, i: int)
    requires
        0 <= i < text.len(),
        text[i] == 48 || text[i] == 79 || text[i] == 73 || text[i] == 108,
    ensures
        !all_b58(text),
{
    assert(!is_b58_byte(text[i]));
}

/// A trait for converting a value to base58 encoded string.
pub trait ToBase58 {
    /// The bytes that encoding reads from `self`.
    spec fn encode_input(&self) -> Seq<u8>;

    /// Converts a value of `self` to a base58 value, returning the owned
    /// string.
    fn to_base58(&self) -> (r: String)
        ensures
            r@ == ascii_chars(encode_spec(self.encode_input())),
    ;
}

/// A trait for converting base58 encoded values.
pub trait FromBase58 {
    /// The text bytes that decoding reads from `self`.
    spec fn decode_input(&self) -> Seq<u8>;

    /// Convert a value of `self`, interpreted as base58 encoded data, into
    /// an owned vector of bytes, returning a vector.
    fn from_base58(&self) -> (r: Result<Vec<u8>, FromBase58Error>)
        ensures
            decode_result(self.decode_input(), decoded_view(r)),
    ;
}

impl ToBase58 for [u8] {
    open spec fn encode_input(&self) -> Seq<u8> {
        self@
    }

    fn to_base58(&self) -> (r: String) {
        let bytes = base58_encode(self);
        proof {
            lemma_encode_spec_b58(self@);
        }
        ascii_to_string(bytes)
    }
}

impl FromBase58 for str {
    open spec fn decode_input(&self) -> Seq<u8> {
        self.spec_bytes()
    }

    fn from_base58(&self) -> (r: Result<Vec<u8>, FromBase58Error>) {
        base58_decode(self.as_bytes())
    }
}

} // verus!
