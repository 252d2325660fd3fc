//! Hexadecimal text: reading log fields and writing byte values.
use vstd::prelude::*;
use vstd::string::*;

verus! {

/// The value of a hexadecimal digit, either case; -1 for any other character.
pub open spec fn hex_digit_value(c: char) -> int {
    if '0' <= c && c <= '9' {
        c as int - '0' as int
    } else if 'a' <= c && c <= 'f' {
        c as int - 'a' as int + 10
    } else if 'A' <= c && c <= 'F' {
        c as int - 'A' as int + 10
    } else {
        -1
    }
}

/// An even number of hexadecimal digits.
pub open spec fn is_hex_text(s: Seq<char>) -> bool {
    &&& s.len() % 2 == 0
    &&& forall|i: int| 0 <= i < s.len() ==> hex_digit_value(#[trigger] s[i]) >= 0
}

/// The bytes that a run of digit pairs spells, high nibble first.
pub open spec fn hex_decode(s: Seq<char>) -> Seq<u8> {
    Seq::new(
        s.len() / 2,
        |i: int| (hex_digit_value(s[2 * i]) * 16 + hex_digit_value(s[2 * i + 1])) as u8,
    )
}

/// The lower-case digit for a nibble.
pub open spec fn nibble_char(n: int) -> char {
    if n < 10 {
        ('0' as int + n) as char
    } else {
        ('a' as int + n - 10) as char
    }
}

/// Two lower-case digits per byte, high nibble first.
pub open spec fn hex_encode(b: Seq<u8>) -> Seq<char> {
    Seq::new(
        2 * b.len(),
        |i: int|
            if i % 2 == 0 {
                nibble_char(b[i / 2] as int / 16)
            } else {
                nibble_char(b[i / 2] as int % 16)
            },
    )
}

/// The text with one leading `0x` taken off, if it has one.
pub open spec fn strip_0x(s: Seq<char>) -> Seq<char> {
    if s.len() >= 2 && s[0] == '0' && s[1] == 'x' {
        s.subrange(2, s.len() as int)
    } else {
        s
    }
}

/// `0x` followed by the lower-case digits of the bytes.
pub open spec fn prefixed_hex(b: Seq<u8>) -> Seq<char> {
    seq!['0', 'x'] + hex_encode(b)
}

/// Why a hexadecimal field of a log record was refused.
#[derive(Debug, Clone, Copy, PartialEq, Eq)]
pub enum HexError {
    /// Not an even number of hexadecimal digits.
    InvalidHex,
    /// Well formed, but not exactly 32 bytes long.
    NotAWord,
}

/// Relies on hex::decode: it refuses an odd length and any byte outside
/// `0-9a-fA-F`, and otherwise packs each pair of digits into one byte.
#[verifier::external_body]
fn decode_hex_digits(s: &str) -> (r: Option<Vec<u8>>)
    ensures
        r.is_some() == is_hex_text(s@),
        r matches Some(b) ==> b@ == hex_decode(s@),
{
    hex::decode(s).ok()
}

/// Relies on hex::encode: two lower-case digits per byte, high nibble first.
#[verifier::external_body]
fn encode_hex_digits(b: &[u8]) -> (r: String)
    ensures
        r@ == hex_encode(b@),
{
    hex::encode(b)
}

fn strip_prefix_0x(s: &str) -> (r: &str)
    ensures
        r@ == strip_0x(s@),
{
    let n = s.unicode_len();
    if n >= 2 && s.get_char(0) == '0' && s.get_char(1) == 'x' {
        s.substring_char(2, n)
    } else {
        s
    }
}

/// Reads a byte string written as hexadecimal digits, with or without a
/// leading `0x`.
pub fn parse_hex_bytes(s: &str) -> (r: Result<Vec<u8>, HexError>)
    ensures
        r is Ok <==> is_hex_text(strip_0x(s@)),
        r matches Ok(b) ==> b@ == hex_decode(strip_0x(s@)),
        r matches Err(e) ==> e == HexError::InvalidHex,
{
    match decode_hex_digits(strip_prefix_0x(s)) {
        Some(b) => Ok(b),
        None => Err(HexError::InvalidHex),
    }
}

/// Reads one 32-byte topic word written in hexadecimal, with or without a
/// leading `0x`.
pub fn parse_topic(s: &str) -> (r: Result<Vec<u8>, HexError>)
    ensures
        r is Ok <==> is_hex_text(strip_0x(s@)) && hex_decode(strip_0x(s@)).len() == 32,
        r matches Ok(b) ==> b@ == hex_decode(strip_0x(s@)),
        r matches Err(e) ==> (e == HexError::InvalidHex <==> !is_hex_text(strip_0x(s@))),
{
    let b = parse_hex_bytes(s)?;
    if b.len() == 32 {
        Ok(b)
    } else {
        Err(HexError::NotAWord)
    }
}

/// Writes bytes as `0x` followed by two lower-case digits per byte.
pub fn to_prefixed_hex(b: &[u8]) -> (r: String)
    ensures
        r@ == prefixed_hex(b@),
{
    let digits = encode_hex_digits(b);
    let r = String::from_str("0x").concat(digits.as_str());
    proof {
        reveal_strlit("0x");
        assert(r@ =~= prefixed_hex(b@));
    }
    r
}

} // verus!
