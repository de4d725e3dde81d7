//! Codec for the four-byte network identification tag.
//!
//! The tag arrives as a string of exactly eight hexadecimal characters and is
//! fixed once at initialization; any other input is rejected with
//! `InvalidTagEncoding`.

use vstd::prelude::*;

use crate::errors::LightClientError;

verus! {

/// A hexadecimal digit: `0-9`, `a-f` or `A-F`.
pub open spec fn is_hex_digit(c: char) -> bool {
    (48 <= c as u32 && c as u32 <= 57) || (97 <= c as u32 && c as u32 <= 102) || (65 <= c as u32
        && c as u32 <= 70)
}

/// The numeric value of a hexadecimal digit.
pub open spec fn hex_digit_val(c: char) -> u8 {
    if 48 <= c as u32 && c as u32 <= 57 {
        (c as u32 - 48) as u8
    } else if 97 <= c as u32 && c as u32 <= 102 {
        (c as u32 - 97 + 10) as u8
    } else {
        (c as u32 - 65 + 10) as u8
    }
}

/// A well-formed tag string: exactly eight hexadecimal characters.
pub open spec fn spec_tag_ok(s: Seq<char>) -> bool {
    s.len() == 8 && forall|i: int| 0 <= i < 8 ==> is_hex_digit(#[trigger] s[i])
}

/// The bytes a hexadecimal character sequence stands for, two characters per
/// byte, most significant first.
pub open spec fn spec_hex_bytes(s: Seq<char>) -> Seq<u8> {
    Seq::new(s.len() / 2, |i: int| (hex_digit_val(s[2 * i]) * 16 + hex_digit_val(s[2 * i + 1])) as u8)
}

/// The numeric value of one hexadecimal character, or `None` if it is not one.
fn hex_digit(c: char) -> (r: Option<u8>)
    ensures
        r is Some <==> is_hex_digit(c),
        r matches Some(v) ==> v == hex_digit_val(c),
{
    let u = c as u32;
    if 48 <= u && u <= 57 {
        Some((u - 48) as u8)
    } else if 97 <= u && u <= 102 {
        Some((u - 97 + 10) as u8)
    } else if 65 <= u && u <= 70 {
        Some((u - 65 + 10) as u8)
    } else {
        None
    }
}

/// A well-formed hexadecimal string: even length, hexadecimal characters.
pub open spec fn spec_hex_str_ok(s: Seq<char>) -> bool {
    s.len() % 2 == 0 && forall|i: int| 0 <= i < s.len() ==> is_hex_digit(#[trigger] s[i])
}

/// Decodes a hexadecimal string of any even length into its bytes.
pub fn decode_hex(s: &str) -> (r: Result<Vec<u8>, LightClientError>)
    ensures
        r is Ok <==> spec_hex_str_ok(s@),
        r matches Ok(b) ==> b@ == spec_hex_bytes(s@),
        r matches Err(e) ==> e == LightClientError::InvalidTagEncoding,
{
    let n = s.unicode_len();
    if n % 2 != 0 {
        return Err(LightClientError::InvalidTagEncoding);
    }
    let mut out: Vec<u8> = Vec::new();
    let mut i: usize = 0;
    while i < n / 2
        invariant
            s@.len() == n,
            n % 2 == 0,
            i <= n / 2,
            out@.len() == i,
            forall|j: int| 0 <= j < 2 * i ==> is_hex_digit(#[trigger] s@[j]),
            forall|j: int|
                0 <= j < i ==> out@[j] == (hex_digit_val(s@[2 * j]) * 16 + hex_digit_val(
                    s@[2 * j + 1],
                )) as u8,
        decreases n / 2 - i,
    {
        let hi = match hex_digit(s.get_char(2 * i)) {
            Some(v) => v,
            None => { return Err(LightClientError::InvalidTagEncoding) },
        };
        let lo = match hex_digit(s.get_char(2 * i + 1)) {
            Some(v) => v,
            None => { return Err(LightClientError::InvalidTagEncoding) },
        };
        out.push(hi * 16 + lo);
        i = i + 1;
    }
    proof {
        assert(out@ =~= spec_hex_bytes(s@));
    }
    Ok(out)
}

/// Decodes the eight-character hexadecimal tag into its four bytes.
///
/// Succeeds exactly on well-formed tag strings; every other input is rejected
/// with `InvalidTagEncoding` and nothing else happens.
pub fn decode_tag(s: &str) -> (r: Result<Vec<u8>, LightClientError>)
    ensures
        r is Ok <==> spec_tag_ok(s@),
        r matches Ok(b) ==> b@ == spec_hex_bytes(s@) && b@.len() == 4,
        r matches Err(e) ==> e == LightClientError::InvalidTagEncoding,
{
    let n = s.unicode_len();
    if n != 8 {
        return Err(LightClientError::InvalidTagEncoding);
    }
    let mut out: Vec<u8> = Vec::new();
    let mut i: usize = 0;
    while i < 4
        invariant
            s@.len() == 8,
            i <= 4,
            out@.len() == i,
            forall|j: int| 0 <= j < 2 * i ==> is_hex_digit(#[trigger] s@[j]),
            forall|j: int|
                0 <= j < i ==> out@[j] == (hex_digit_val(s@[2 * j]) * 16 + hex_digit_val(
                    s@[2 * j + 1],
                )) as u8,
        decreases 4 - i,
    {
        let hi = match hex_digit(s.get_char(2 * i)) {
            Some(v) => v,
            None => { return Err(LightClientError::InvalidTagEncoding) },
        };
        let lo = match hex_digit(s.get_char(2 * i + 1)) {
            Some(v) => v,
            None => { return Err(LightClientError::InvalidTagEncoding) },
        };
        out.push(hi * 16 + lo);
        i = i + 1;
    }
    proof {
        assert(out@ =~= spec_hex_bytes(s@));
    }
    Ok(out)
}

} // verus!
