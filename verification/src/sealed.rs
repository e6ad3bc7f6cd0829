//! Opening a sealed bid: from hexadecimal ciphertext to the bytes that the
//! bidder sealed.

use vstd::prelude::*;
use crate::hexcode::{decode_hex, hex_decoded};

verus! {

/// The bytes of a secret key.
pub const SECRET_KEY_LEN: usize = 32;

/// The bytes that a ciphertext holds besides what is sealed in it, where the
/// sender's public key is written in full: 65 bytes of key, then a nonce and
/// a tag of 16 bytes each.
pub const FULL_FRAME_LEN: usize = 97;

/// The same where the sender's public key is written compressed, in 33 bytes.
pub const SHORT_FRAME_LEN: usize = 65;

/// The bytes of an outcome of opening, where there are any.
pub open spec fn outcome_view(plain: Option<Vec<u8>>) -> Option<Seq<u8>> {
    match plain {
        Some(bytes) => Some(bytes@),
        None => None,
    }
}

/// Whether `outcome` can be what the cipher makes of `ciphertext` under
/// `secret_key`. The cipher may reject any ciphertext. It opens none under a
/// key of another length than [`SECRET_KEY_LEN`], and what it opens is
/// shorter than the ciphertext by one of the two frames.
pub open spec fn may_open(secret_key: Seq<u8>, ciphertext: Seq<u8>, outcome: Option<Seq<u8>>) -> bool {
    outcome matches Some(plain) ==> {
        &&& secret_key.len() == SECRET_KEY_LEN
        &&& (ciphertext.len() == plain.len() + FULL_FRAME_LEN || ciphertext.len() == plain.len()
            + SHORT_FRAME_LEN)
    }
}

/// Whether `outcome` can be what opening the sealed bid `sealed` under
/// `secret_key` gives: nothing where `sealed` is no hexadecimal, and else
/// what the cipher may make of the bytes that `sealed` spells.
pub open spec fn may_unseal(secret_key: Seq<u8>, sealed: Seq<char>, outcome: Option<Seq<u8>>) -> bool {
    match hex_decoded(sealed) {
        Some(ciphertext) => may_open(secret_key, ciphertext, outcome),
        None => outcome is None,
    }
}

/// Calls `ecies::decrypt` with the resolver's secret key on one ciphertext
/// and drops the reason of a failure.
///
/// Trusted. Which bytes come back, and whether any do, is for the cipher to
/// say, and the call reads the process-wide settings of the `ecies` crate, so
/// that the same arguments need not give the same answer in every process.
/// What is claimed holds of every answer: the call fails on a secret key that
/// has not 32 bytes; and it hands out the ciphertext without its frame, which
/// is the sender's public key, of 65 or 33 bytes as the settings have it,
/// a nonce of 16 bytes and a tag of 16 bytes.
#[verifier::external_body]
pub(crate) fn decrypt(secret_key: &[u8], ciphertext: &[u8]) -> (plain: Option<Vec<u8>>)
    ensures
        may_open(secret_key@, ciphertext@, outcome_view(plain)),
{
    ecies::decrypt(secret_key, ciphertext).ok()
}

/// Opens one sealed bid: reads the hexadecimal text into bytes and hands them
/// to the cipher with the secret key. The bid is given up where its text is
/// no hexadecimal or the cipher rejects it; otherwise the result is what the
/// cipher found in it.
pub fn open_bid(sealed: &str, secret_key: &[u8]) -> (plain: Option<Vec<u8>>)
    ensures
        hex_decoded(sealed@) is None ==> plain is None,
        may_unseal(secret_key@, sealed@, outcome_view(plain)),
{
    match decode_hex(sealed) {
        Some(ciphertext) => decrypt(secret_key, ciphertext.as_slice()),
        None => None,
    }
}

} // verus!
