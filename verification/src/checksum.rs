//! The Base58Check checksum validator.
//!
//! A candidate is valid when it decodes to exactly 25 bytes whose last four
//! bytes equal the first four bytes of the double SHA-256 of the first 21.

use crate::alphabet::{all_b58, is_b58_byte};
use crate::codec::{base58_decode, decode_spec, FromBase58Error};
use sha2::{Digest, Sha256};
use vstd::prelude::*;
use vstd::slice::slice_subrange;

verus! {

/// The decoded length of a Base58Check address: a 21-byte payload (version
/// byte plus hash) followed by a 4-byte checksum.
pub const DECODED_ADDRESS_LEN: usize = 25;

/// The SHA-256 digest of a byte string. The digest is a function of the
/// input bytes alone; it is only named here, never written out.
pub uninterp spec fn sha256_of(data: Seq<u8>) -> Seq<u8>;

/// Relies on sha2::Sha256::digest: the 32-byte SHA-256 digest of the input,
/// a function of the input bytes alone.
#[verifier::external_body]
fn sha256(data: &[u8]) -> (r: Vec<u8>)
    ensures
        r@ == sha256_of(data@),
        r@.len() == 32,
{
    Sha256::digest(data).to_vec()
}

/// Computes SHA256(SHA256(data)).
pub fn double_sha256(data: &[u8]) -> (r: Vec<u8>)
    ensures
        r@ == sha256_of(sha256_of(data@)),
        r@.len() == 32,
{
    let first = sha256(data);
    sha256(first.as_slice())
}

/// A decoded byte string passes the checksum test: exactly 25 bytes, whose
/// last four equal the first four bytes of the double SHA-256 of the
/// payload.
pub open spec fn checksum_ok(decoded: Seq<u8>) -> bool {
    decoded.len() == DECODED_ADDRESS_LEN && decoded.subrange(21, 25) == sha256_of(
        sha256_of(decoded.subrange(0, 21)),
    ).subrange(0, 4)
}

/// The candidate text decodes to a byte string that passes the checksum
/// test.
pub open spec fn address_valid(text: Seq<u8>) -> bool {
    all_b58(text) && checksum_ok(decode_spec(text))
}

/// Decodes a candidate and tests its Base58Check checksum; a decode
/// failure or a wrong decoded length is simply "not valid", never an
/// error.
pub fn validate_base58_address(address: &[u8]) -> (r: bool)
    ensures
        r == address_valid(address@),
{
    match base58_decode(address) {
        Ok(decoded) => {
            if decoded.len() != DECODED_ADDRESS_LEN {
                return false;
            }
            let payload = slice_subrange(decoded.as_slice(), 0, 21);
            let hash = double_sha256(payload);
            let mut k: usize = 0;
            while k < 4
                invariant
                    k <= 4,
                    decoded@.len() == 25,
                    decoded@ == decode_spec(address@),
                    all_b58(address@),
                    hash@ == sha256_of(sha256_of(decoded@.subrange(0, 21))),
                    hash@.len() == 32,
                    forall|j: int| 0 <= j < k ==> decoded@[21 + j] == hash@[j],
                decreases 4 - k,
            {
                if decoded[21 + k] != hash[k] {
                    proof {
                        if checksum_ok(decoded@) {
                            assert(decoded@.subrange(21, 25)[k as int] == decoded@[21 + k]);
                            assert(sha256_of(sha256_of(decoded@.subrange(0, 21))).subrange(0, 4)[
                                k as int] == hash@[k as int]);
                        }
                    }
                    return false;
                }
                k += 1;
            }
            proof {
                assert(decoded@.subrange(21, 25) =~= sha256_of(
                    sha256_of(decoded@.subrange(0, 21)),
                ).subrange(0, 4));
            }
            true
        },
        Err(FromBase58Error::InvalidBase58Character(c, i)) => {
            proof {
                assert(!is_b58_byte(address@[i as int]));
            }
            false
        },
        Err(FromBase58Error::InvalidBase58Length) => {
            proof {
                assert(decode_spec(address@).len() > crate::codec::MAX_DECODED_LEN);
            }
            false
        },
    }
}

/// A candidate whose decoded form is not exactly 25 bytes is never a valid
/// address, whatever its checksum bytes hold.
pub proof fn lemma_wrong_length_never_valid(text: Seq<u8>)
    requires
        decode_spec(text).len() != DECODED_ADDRESS_LEN,
    ensures
        !address_valid(text),
{
}

} // verus!
