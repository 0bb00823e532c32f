//! Hexadecimal text, as it goes over the wire.

use crate::error::DecodeError;
use vstd::prelude::*;

verus! {

/// The lower-case hexadecimal digit of a number below 16.
pub open spec fn hex_digit(n: int) -> char {
    if n == 0 {
        '0'
    } else if n == 1 {
        '1'
    } else if n == 2 {
        '2'
    } else if n == 3 {
        '3'
    } else if n == 4 {
        '4'
    } else if n == 5 {
        '5'
    } else if n == 6 {
        '6'
    } else if n == 7 {
        '7'
    } else if n == 8 {
        '8'
    } else if n == 9 {
        '9'
    } else if n == 10 {
        'a'
    } else if n == 11 {
        'b'
    } else if n == 12 {
        'c'
    } else if n == 13 {
        'd'
    } else if n == 14 {
        'e'
    } else {
        'f'
    }
}

/// The number that a hexadecimal digit of either case stands for.
pub open spec fn hex_digit_value(c: char) -> Option<int> {
    if '0' <= c <= '9' {
        Some(c as int - '0' as int)
    } else if 'a' <= c <= 'f' {
        Some(c as int - 'a' as int + 10)
    } else if 'A' <= c <= 'F' {
        Some(c as int - 'A' as int + 10)
    } else {
        None
    }
}

/// The hexadecimal text of a byte string: two lower-case digits a byte, the
/// high one first.
pub open spec fn hex_text(bytes: Seq<u8>) -> Seq<char> {
    Seq::new(
        2 * bytes.len(),
        |i: int|
            if i % 2 == 0 {
                hex_digit(bytes[i / 2] as int / 16)
            } else {
                hex_digit(bytes[i / 2] as int % 16)
            },
    )
}

/// Whether a text is the hexadecimal text of some byte string: an even number
/// of characters, each of them a hexadecimal digit.
pub open spec fn is_hex_text(text: Seq<char>) -> bool {
    &&& text.len() % 2 == 0
    &&& forall|i: int| 0 <= i < text.len() ==> (#[trigger] hex_digit_value(text[i])) is Some
}

/// The byte string that a hexadecimal text stands for.
pub open spec fn hex_bytes(text: Seq<char>) -> Seq<u8> {
    Seq::new(
        text.len() / 2,
        |i: int|
            (16 * hex_digit_value(text[2 * i]).unwrap() + hex_digit_value(
                text[2 * i + 1],
            ).unwrap()) as u8,
    )
}

/// The error of the hexadecimal decoder.
#[verifier::external_type_specification]
#[verifier::external_body]
pub struct ExFromHexError(hex::FromHexError);

/// Encodes with `hex::encode`: two lower-case digits for each byte.
#[verifier::external_body]
pub(crate) fn hex_encode(bytes: &[u8]) -> (text: String)
    ensures
        text@ == hex_text(bytes@),
{
    hex::encode(bytes)
}

/// Decodes with `hex::decode`, which accepts the texts of an even number of
/// hexadecimal digits, of either case, and yields the byte of each pair.
#[verifier::external_body]
pub(crate) fn hex_decode(text: &str) -> (r: Result<Vec<u8>, hex::FromHexError>)
    ensures
        r is Ok <==> is_hex_text(text@),
        r matches Ok(bytes) ==> bytes@ == hex_bytes(text@),
{
    hex::decode(text)
}

/// Reads hexadecimal text of either case. A text that is not an even number
/// of hexadecimal digits is refused.
pub fn decode_hex(text: &str) -> (r: Result<Vec<u8>, DecodeError>)
    ensures
        match r {
            Ok(bytes) => is_hex_text(text@) && bytes@ == hex_bytes(text@),
            Err(e) => !is_hex_text(text@) && e == DecodeError::InvalidHex,
        },
{
    match hex_decode(text) {
        Ok(bytes) => Ok(bytes),
        Err(_) => Err(DecodeError::InvalidHex),
    }
}

/// A digit stands for the number it was written for.
pub proof fn lemma_hex_digit_value(n: int)
    requires
        0 <= n < 16,
    ensures
        hex_digit_value(hex_digit(n)) == Some(n),
        '\0' <= hex_digit(n) <= '\u{7f}',
{
}

/// The hexadecimal text of a byte string is accepted by the decoder and
/// stands for that byte string.
pub proof fn lemma_hex_round_trip(bytes: Seq<u8>)
    ensures
        is_hex_text(hex_text(bytes)),
        hex_bytes(hex_text(bytes)) == bytes,
{
    let text = hex_text(bytes);
    assert forall|i: int| 0 <= i < text.len() implies (#[trigger] hex_digit_value(text[i])) is Some by {
        lemma_hex_digit_value(bytes[i / 2] as int / 16);
        lemma_hex_digit_value(bytes[i / 2] as int % 16);
    }
    assert forall|i: int| 0 <= i < bytes.len() implies hex_bytes(text)[i] == bytes[i] by {
        lemma_hex_digit_value(bytes[i] as int / 16);
        lemma_hex_digit_value(bytes[i] as int % 16);
        assert((2 * i) / 2 == i && (2 * i) % 2 == 0);
        assert((2 * i + 1) / 2 == i && (2 * i + 1) % 2 == 1);
    }
    assert(hex_bytes(text) =~= bytes);
}

} // verus!
