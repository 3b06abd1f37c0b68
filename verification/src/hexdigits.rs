//! ASCII hex digits: the spec-level meaning of hex encoding and
//! decoding, and thin trusted wrappers around the `hex` crate.

use vstd::prelude::*;

verus! {

/// Whether an ASCII byte is a hex digit (`0-9`, `a-f`, `A-F`).
pub open spec fn is_hex_digit(b: u8) -> bool {
    (48 <= b <= 57) || (97 <= b <= 102) || (65 <= b <= 70)
}

/// Numeric value of an ASCII hex digit byte.
pub open spec fn hex_digit_val(b: u8) -> int {
    if 48 <= b <= 57 {
        b - 48
    } else if 97 <= b <= 102 {
        b - 97 + 10
    } else {
        b - 65 + 10
    }
}

/// A byte stream is decodable as hex iff its length is even and every
/// byte is a hex digit.
pub open spec fn hex_decode_ok(s: Seq<u8>) -> bool {
    s.len() % 2 == 0 && (forall|i: int| 0 <= i < s.len() ==> is_hex_digit(s[i]))
}

/// The bytes a hex digit stream denotes: two digits per byte, the high
/// nibble first.
pub open spec fn hex_decode_val(s: Seq<u8>) -> Seq<u8> {
    Seq::new(
        (s.len() / 2) as nat,
        |i: int| (hex_digit_val(s[2 * i]) * 16 + hex_digit_val(s[2 * i + 1])) as u8,
    )
}

/// The lowercase ASCII digit for a nibble value.
pub open spec fn lower_digit(v: int) -> u8 {
    if v < 10 {
        (48 + v) as u8
    } else {
        (87 + v) as u8
    }
}

/// The uppercase ASCII digit for a nibble value.
pub open spec fn upper_digit(v: int) -> u8 {
    if v < 10 {
        (48 + v) as u8
    } else {
        (55 + v) as u8
    }
}

/// Lowercase hex rendering of a byte sequence, two digits per byte.
pub open spec fn hex_lower(b: Seq<u8>) -> Seq<u8> {
    Seq::new(
        2 * b.len(),
        |i: int|
            if i % 2 == 0 {
                lower_digit(b[i / 2] as int / 16)
            } else {
                lower_digit(b[i / 2] as int % 16)
            },
    )
}

/// Uppercase hex rendering of a byte sequence, two digits per byte.
pub open spec fn hex_upper(b: Seq<u8>) -> Seq<u8> {
    Seq::new(
        2 * b.len(),
        |i: int|
            if i % 2 == 0 {
                upper_digit(b[i / 2] as int / 16)
            } else {
                upper_digit(b[i / 2] as int % 16)
            },
    )
}

/// Why a hex digit stream failed to decode.
#[derive(Debug, Clone, Copy, PartialEq, Eq)]
pub enum HexError {
    /// The stream held an odd number of digits.
    OddLength,
    /// A byte that is not a hex digit stood at `index`.
    InvalidDigit { bad: u8, index: usize },
}

/// Relies on hex::decode: succeeds exactly on even-length streams of hex
/// digits and yields one byte per digit pair, high nibble first.
#[verifier::external_body]
pub(crate) fn hex_decode_bytes(s: &[u8]) -> (r: Result<Vec<u8>, HexError>)
    ensures
        r is Ok <==> hex_decode_ok(s@),
        r is Ok ==> r.unwrap()@ == hex_decode_val(s@),
{
    match hex::decode(s) {
        Ok(v) => Ok(v),
        Err(hex::FromHexError::OddLength) => Err(HexError::OddLength),
        Err(hex::FromHexError::InvalidHexCharacter { c, index }) => {
            Err(HexError::InvalidDigit { bad: c as u8, index })
        }
        Err(hex::FromHexError::InvalidStringLength) => Err(HexError::OddLength),
    }
}

/// Relies on hex::encode: two lowercase digits per byte, high nibble first.
#[verifier::external_body]
pub(crate) fn hex_encode_lower_bytes(b: &[u8]) -> (r: Vec<u8>)
    ensures
        r@ == hex_lower(b@),
{
    hex::encode(b).into_bytes()
}

/// Relies on hex::encode_upper: two uppercase digits per byte, high
/// nibble first.
#[verifier::external_body]
pub(crate) fn hex_encode_upper_bytes(b: &[u8]) -> (r: Vec<u8>)
    ensures
        r@ == hex_upper(b@),
{
    hex::encode_upper(b).into_bytes()
}

/// Decoding inverts lowercase encoding.
pub proof fn lemma_decode_of_lower(b: Seq<u8>)
    ensures
        hex_decode_ok(hex_lower(b)),
        hex_decode_val(hex_lower(b)) == b,
{
    let e = hex_lower(b);
    assert forall|i: int| 0 <= i < e.len() implies is_hex_digit(e[i]) by {
        assert(0 <= b[i / 2] < 256);
    }
    assert forall|i: int| 0 <= i < b.len() implies hex_decode_val(e)[i] == b[i] by {
        assert((2 * i) / 2 == i);
        assert((2 * i + 1) / 2 == i);
        assert((2 * i) % 2 == 0);
        assert((2 * i + 1) % 2 == 1);
        assert(0 <= b[i] < 256);
        assert(hex_digit_val(lower_digit(b[i] as int / 16)) == b[i] as int / 16);
        assert(hex_digit_val(lower_digit(b[i] as int % 16)) == b[i] as int % 16);
        assert(b[i] as int / 16 * 16 + b[i] as int % 16 == b[i] as int);
    }
    assert(hex_decode_val(e) =~= b);
}

/// Decoding inverts uppercase encoding.
pub proof fn lemma_decode_of_upper(b: Seq<u8>)
    ensures
        hex_decode_ok(hex_upper(b)),
        hex_decode_val(hex_upper(b)) == b,
{
    let e = hex_upper(b);
    assert forall|i: int| 0 <= i < e.len() implies is_hex_digit(e[i]) by {
        assert(0 <= b[i / 2] < 256);
    }
    assert forall|i: int| 0 <= i < b.len() implies hex_decode_val(e)[i] == b[i] by {
        assert((2 * i) / 2 == i);
        assert((2 * i + 1) / 2 == i);
        assert((2 * i) % 2 == 0);
        assert((2 * i + 1) % 2 == 1);
        assert(0 <= b[i] < 256);
        assert(hex_digit_val(upper_digit(b[i] as int / 16)) == b[i] as int / 16);
        assert(hex_digit_val(upper_digit(b[i] as int % 16)) == b[i] as int % 16);
        assert(b[i] as int / 16 * 16 + b[i] as int % 16 == b[i] as int);
    }
    assert(hex_decode_val(e) =~= b);
}

} // verus!
