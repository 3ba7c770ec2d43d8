//! Hexadecimal text for 32-byte values, as the committee key-set file and
//! the command line carry them.

use vstd::prelude::*;
use vstd::string::{StrSliceExecFns, StringExecFns, StringSliceAdditionalSpecFns};
use vstd::utf8::encode_utf8;
use crate::codec::read32;
use crate::types::{Byte32, HexError, HostError};

verus! {

/// The lower-case hexadecimal digit for a value below 16.
pub open spec fn hex_char(v: int) -> char {
    if v < 10 {
        (48 + v) as u8 as char
    } else {
        (87 + v) as u8 as char
    }
}

/// The text of `bytes` in hexadecimal: two lower-case digits per byte, the
/// high half first.
pub open spec fn spec_hex_encode(bytes: Seq<u8>) -> Seq<char> {
    Seq::new(
        2 * bytes.len(),
        |k: int|
            if k % 2 == 0 {
                hex_char(bytes[k / 2] as int / 16)
            } else {
                hex_char(bytes[k / 2] as int % 16)
            },
    )
}

/// The value of a hexadecimal digit of either case; 16 for any other
/// character.
pub open spec fn hex_value(c: char) -> int {
    if '0' <= c <= '9' {
        c as int - 48
    } else if 'a' <= c <= 'f' {
        c as int - 87
    } else if 'A' <= c <= 'F' {
        c as int - 55
    } else {
        16
    }
}

/// Whether `text` is an even number of hexadecimal digits.
pub open spec fn is_hex(text: Seq<char>) -> bool {
    text.len() % 2 == 0 && forall|i: int| 0 <= i < text.len() ==> hex_value(#[trigger] text[i]) < 16
}

/// The bytes that hexadecimal `text` stands for.
pub open spec fn spec_hex_decode(text: Seq<char>) -> Seq<u8> {
    Seq::new(
        text.len() / 2,
        |i: int| (16 * hex_value(text[2 * i]) + hex_value(text[2 * i + 1])) as u8,
    )
}

/// Reading back what was written gives the bytes that were written.
pub proof fn lemma_hex_round_trip(bytes: Seq<u8>)
    ensures
        is_hex(spec_hex_encode(bytes)),
        spec_hex_decode(spec_hex_encode(bytes)) == bytes,
{
    let text = spec_hex_encode(bytes);
    assert forall|i: int| 0 <= i < text.len() implies hex_value(#[trigger] text[i]) < 16 by {
        lemma_hex_char_value(bytes[i / 2] as int / 16);
        lemma_hex_char_value(bytes[i / 2] as int % 16);
    }
    assert forall|i: int| 0 <= i < bytes.len() implies spec_hex_decode(text)[i] == bytes[i] by {
        lemma_hex_char_value(bytes[i] as int / 16);
        lemma_hex_char_value(bytes[i] as int % 16);
        assert((2 * i) / 2 == i && (2 * i) % 2 == 0);
        assert((2 * i + 1) / 2 == i && (2 * i + 1) % 2 == 1);
    }
    assert(spec_hex_decode(text) =~= bytes);
}

/// A digit stands for the value it was written for.
pub proof fn lemma_hex_char_value(v: int)
    requires
        0 <= v < 16,
    ensures
        hex_value(hex_char(v)) == v,
{
}

/// Whether a byte is a hexadecimal digit of either case.
pub open spec fn is_hex_byte(b: u8) -> bool {
    48 <= b <= 57 || 97 <= b <= 102 || 65 <= b <= 70
}

/// The first position at or after `from` whose byte is no hexadecimal
/// digit; the length if there is none.
pub open spec fn first_non_hex(bytes: Seq<u8>, from: int) -> int
    decreases bytes.len() - from,
{
    if 0 <= from < bytes.len() && is_hex_byte(bytes[from]) {
        first_non_hex(bytes, from + 1)
    } else {
        from
    }
}

/// Why the bytes of a text that is not hexadecimal are refused: an odd
/// number of bytes counts first, and else the first byte that is no digit.
pub open spec fn spec_hex_error(bytes: Seq<u8>) -> HexError {
    if bytes.len() % 2 != 0 {
        HexError::OddLength
    } else {
        let at = first_non_hex(bytes, 0);
        HexError::InvalidHexCharacter { c: bytes[at] as char, index: at as usize }
    }
}

/// Calls `hex::encode`, which writes each byte as two lower-case
/// hexadecimal digits, high half first.
#[verifier::external_body]
pub(crate) fn hex_encode(bytes: &[u8]) -> (text: String)
    ensures
        text@ == spec_hex_encode(bytes@),
{
    hex::encode(bytes)
}

/// Calls `hex::decode` on the bytes of `text`. It accepts an even number of
/// hexadecimal digits of either case and returns one byte per pair, high
/// half first. Any other text is an error: an odd number of bytes is
/// reported first, and else the first byte that is no digit, with its
/// position. The three variants of the outside error are handed on as they
/// are.
#[verifier::external_body]
pub(crate) fn hex_decode(text: &str) -> (r: Result<Vec<u8>, HexError>)
    ensures
        r is Ok <==> is_hex(text@),
        r matches Ok(bytes) ==> bytes@ == spec_hex_decode(text@),
        r matches Err(e) ==> e == spec_hex_error(text.spec_bytes()),
{
    match hex::decode(text) {
        Ok(bytes) => Ok(bytes),
        Err(hex::FromHexError::InvalidHexCharacter { c, index }) => Err(
            HexError::InvalidHexCharacter { c, index },
        ),
        Err(hex::FromHexError::OddLength) => Err(HexError::OddLength),
        Err(hex::FromHexError::InvalidStringLength) => Err(HexError::InvalidStringLength),
    }
}

/// The text of a 32-byte value: `0x`, then its hexadecimal digits.
pub open spec fn spec_hex32(bytes: Seq<u8>) -> Seq<char> {
    seq!['0', 'x'] + spec_hex_encode(bytes)
}

/// Writes a 32-byte value as `0x` and 64 hexadecimal digits.
pub fn hex32(bytes: &Byte32) -> (text: String)
    ensures
        text@ == spec_hex32(bytes@),
{
    let digits = hex_encode(bytes.as_slice());
    let head = String::from_str("0x");
    proof {
        reveal_strlit("0x");
        assert("0x"@ =~= seq!['0', 'x']);
    }
    head.concat(digits.as_str())
}

/// `text` without a leading `0x`, if it has one.
pub open spec fn spec_strip_0x(text: Seq<char>) -> Seq<char> {
    if has_0x(text) {
        text.skip(2)
    } else {
        text
    }
}

/// Whether `text` begins with `0x`.
pub open spec fn has_0x(text: Seq<char>) -> bool {
    text.len() >= 2 && text[0] == '0' && text[1] == 'x'
}

/// What [`parse_hex32`] makes of `text`.
pub open spec fn spec_parse_hex32(text: Seq<char>) -> Result<Seq<u8>, HostError> {
    let digits = spec_strip_0x(text);
    if !is_hex(digits) {
        Err(HostError::InvalidHex { cause: spec_hex_error(encode_utf8(digits)) })
    } else if digits.len() != 64 {
        Err(HostError::WrongLength { got: (digits.len() / 2) as usize })
    } else {
        Ok(spec_hex_decode(digits))
    }
}

/// The bytes of a parsed value, or the error that took its place.
pub open spec fn bytes_view(r: Result<Byte32, HostError>) -> Result<Seq<u8>, HostError> {
    match r {
        Ok(b) => Ok(b@),
        Err(e) => Err(e),
    }
}

/// Whether `text` begins with `0x`.
pub fn starts_with_0x(text: &str) -> (r: bool)
    ensures
        r == has_0x(text@),
{
    let n = text.unicode_len();
    n >= 2 && text.get_char(0) == '0' && text.get_char(1) == 'x'
}

/// The part of `text` after a leading `0x`; all of it if there is none.
pub fn strip_0x(text: &str) -> (rest: &str)
    ensures
        rest@ == spec_strip_0x(text@),
{
    if starts_with_0x(text) {
        let n = text.unicode_len();
        let rest = text.substring_char(2, n);
        assert(rest@ =~= text@.skip(2));
        rest
    } else {
        text
    }
}

/// Reads a 32-byte value from hexadecimal text, with or without a leading
/// `0x`. Text that is not hexadecimal, or of another length, is refused.
pub fn parse_hex32(text: &str) -> (r: Result<Byte32, HostError>)
    ensures
        bytes_view(r) == spec_parse_hex32(text@),
{
    let digits = strip_0x(text);
    match hex_decode(digits) {
        Err(cause) => Err(HostError::InvalidHex { cause }),
        Ok(bytes) => {
            if bytes.len() != 32 {
                Err(HostError::WrongLength { got: bytes.len() })
            } else {
                let out = read32(bytes.as_slice(), 0);
                assert(bytes@.subrange(0, 32) =~= bytes@);
                Ok(out)
            }
        },
    }
}

/// A value that was written with [`hex32`] is read back by [`parse_hex32`].
pub proof fn lemma_hex32_round_trip(bytes: Seq<u8>)
    requires
        bytes.len() == 32,
    ensures
        spec_parse_hex32(spec_hex32(bytes)) == Ok::<Seq<u8>, HostError>(bytes),
{
    let text = spec_hex32(bytes);
    assert(has_0x(text));
    assert(text.skip(2) =~= spec_hex_encode(bytes));
    lemma_hex_round_trip(bytes);
}

} // verus!
