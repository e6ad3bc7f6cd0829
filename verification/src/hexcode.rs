//! Hexadecimal text, the form in which sealed bids arrive.

use vstd::prelude::*;

verus! {

/// The value of a hexadecimal digit, in either case; `None` for any other
/// character.
pub open spec fn hex_digit(c: char) -> Option<u8> {
    let code = c as u32;
    if 0x30 <= code <= 0x39 {
        Some((code - 0x30) as u8)
    } else if 0x41 <= code <= 0x46 {
        Some((code - 0x41 + 10) as u8)
    } else if 0x61 <= code <= 0x66 {
        Some((code - 0x61 + 10) as u8)
    } else {
        None
    }
}

/// The bytes that `text` spells in hexadecimal, two digits to the byte and
/// the high digit first; `None` where the number of characters is odd or one
/// of them is no hexadecimal digit.
pub open spec fn hex_decoded(text: Seq<char>) -> Option<Seq<u8>> {
    if text.len() % 2 == 0 && (forall|i: int| 0 <= i < text.len() ==> hex_digit(#[trigger] text[i])
        is Some) {
        Some(
            Seq::new(
                text.len() / 2,
                |i: int| (16 * hex_digit(text[2 * i]).unwrap() + hex_digit(text[2 * i + 1]).unwrap()) as u8,
            ),
        )
    } else {
        None
    }
}

/// Calls `hex::decode` on the text and drops the reason of a failure.
///
/// Trusted: the call succeeds exactly on an even number of hexadecimal digits
/// of either case, and then gives one byte for each pair, the first digit of
/// a pair being the high half. `hex::decode` works on the UTF-8 bytes of the
/// text; no byte of a character outside ASCII is a hexadecimal digit, so the
/// statement over characters says the same.
#[verifier::external_body]
pub(crate) fn decode_hex(text: &str) -> (bytes: Option<Vec<u8>>)
    ensures
        match bytes {
            Some(decoded) => hex_decoded(text@) == Some(decoded@),
            None => hex_decoded(text@) is None,
        },
{
    hex::decode(text).ok()
}

} // verus!
