//! Hexadecimal text.

use vstd::prelude::*;

verus! {

/// The lower-case hexadecimal digit of a number below sixteen.
pub open spec fn hex_digit(value: u8) -> char {
    if value < 10 {
        (value + 48) as char
    } else {
        (value + 87) as char
    }
}

/// The hexadecimal text of bytes: two lower-case digits each, the high one first.
pub open spec fn hex_text(bytes: Seq<u8>) -> Seq<char> {
    Seq::new(
        2 * bytes.len(),
        |i: int|
            if i % 2 == 0 {
                hex_digit(bytes[i / 2] / 16)
            } else {
                hex_digit(bytes[i / 2] % 16)
            },
    )
}

/// The upper-case hexadecimal digit of a number below sixteen.
pub open spec fn hex_digit_upper(value: u8) -> char {
    if value < 10 {
        (value + 48) as char
    } else {
        (value + 55) as char
    }
}

/// The hexadecimal text of bytes: two upper-case digits each, the high one first.
pub open spec fn hex_text_upper(bytes: Seq<u8>) -> Seq<char> {
    Seq::new(
        2 * bytes.len(),
        |i: int|
            if i % 2 == 0 {
                hex_digit_upper(bytes[i / 2] / 16)
            } else {
                hex_digit_upper(bytes[i / 2] % 16)
            },
    )
}

/// `hex::encode_upper`: the upper-case hexadecimal text of the bytes.
#[verifier::external_body]
pub(crate) fn encode_upper(bytes: &[u8]) -> (text: String)
    ensures
        text@ == hex_text_upper(bytes@),
{
    hex::encode_upper(bytes)
}

/// `hex::encode`: the lower-case hexadecimal text of the bytes.
#[verifier::external_body]
pub(crate) fn encode(bytes: &[u8]) -> (text: String)
    ensures
        text@ == hex_text(bytes@),
{
    hex::encode(bytes)
}

/// Whether a byte is a hexadecimal digit of either case.
pub open spec fn is_hex_digit(digit: u8) -> bool {
    48 <= digit <= 57 || 65 <= digit <= 70 || 97 <= digit <= 102
}

/// The number below sixteen that a hexadecimal digit writes.
pub open spec fn hex_value(digit: u8) -> int {
    if digit <= 57 {
        digit - 48
    } else if digit <= 70 {
        digit - 55
    } else {
        digit - 87
    }
}

/// Whether a text writes 32 bytes in hexadecimal.
pub open spec fn is_handle_text(text: Seq<u8>) -> bool {
    text.len() == 64 && forall|i: int| 0 <= i < 64 ==> is_hex_digit(#[trigger] text[i])
}

/// The 32 bytes that a hexadecimal text writes.
pub open spec fn handle_bytes(text: Seq<u8>) -> Seq<u8> {
    Seq::new(32, |i: int| (16 * hex_value(text[2 * i]) + hex_value(text[2 * i + 1])) as u8)
}

/// `hex::decode_to_slice` into 32 bytes: it succeeds on exactly 64 hexadecimal
/// digits, of either case, and gives the bytes that they write.
#[verifier::external_body]
pub(crate) fn decode_handle(text: &[u8]) -> (handle: Option<[u8; 32]>)
    ensures
        match handle {
            Some(handle) => is_handle_text(text@) && handle@ == handle_bytes(text@),
            None => !is_handle_text(text@),
        },
{
    let mut handle: [u8; 32] = [0; 32];
    match hex::decode_to_slice(text, &mut handle) {
        Ok(()) => Some(handle),
        Err(_) => None,
    }
}

} // verus!
