use vstd::prelude::*;

use crate::error::{Error, RepositoryStateError};
use crate::oid::ObjectId;

verus! {

/// Whether a byte is a hexadecimal digit, in either case.
pub open spec fn is_hex_digit(byte: u8) -> bool {
    48 <= byte <= 57 || 65 <= byte <= 70 || 97 <= byte <= 102
}

/// The value of a hexadecimal digit.
pub open spec fn hex_digit(byte: u8) -> int {
    if byte <= 57 {
        byte - 48
    } else if byte <= 70 {
        byte - 55
    } else {
        byte - 87
    }
}

/// Whether all bytes are hexadecimal digits.
pub open spec fn all_hex(bytes: Seq<u8>) -> bool {
    forall|i: int| 0 <= i < bytes.len() ==> is_hex_digit(#[trigger] bytes[i])
}

/// The number that hexadecimal digits spell, the most significant first.
pub open spec fn hex_value(bytes: Seq<u8>) -> int
    decreases bytes.len(),
{
    if bytes.len() == 0 {
        0
    } else {
        16 * hex_value(bytes.drop_last()) + hex_digit(bytes.last())
    }
}

/// Whether all bytes are hexadecimal digits.
pub fn is_all_hex(bytes: &[u8]) -> (result: bool)
    ensures
        result == all_hex(bytes@),
{
    let mut at: usize = 0;
    while at < bytes.len()
        invariant
            at <= bytes@.len(),
            forall|i: int| 0 <= i < at ==> is_hex_digit(#[trigger] bytes@[i]),
        decreases bytes@.len() - at,
    {
        let byte: u8 = bytes[at];
        if !((48 <= byte && byte <= 57) || (65 <= byte && byte <= 70) || (97 <= byte && byte
            <= 102)) {
            return false;
        }
        at += 1;
    }
    true
}

/// `gix_hash::ObjectId::from_hex` accepts exactly forty hexadecimal digits of
/// either case and reads them, two to a byte, as the bytes of a SHA-1 identity.
/// Each four bytes are handed on as the big-endian integer that they are.
#[verifier::external_body]
fn object_id_from_hex(value: &[u8]) -> (result: Option<(u32, u32, u32, u32, u32)>)
    ensures
        match result {
            Some((first, second, third, fourth, fifth)) => {
                &&& value@.len() == 40
                &&& all_hex(value@)
                &&& first == hex_value(value@.subrange(0, 8))
                &&& second == hex_value(value@.subrange(8, 16))
                &&& third == hex_value(value@.subrange(16, 24))
                &&& fourth == hex_value(value@.subrange(24, 32))
                &&& fifth == hex_value(value@.subrange(32, 40))
            },
            None => value@.len() != 40 || !all_hex(value@),
        },
{
    let oid = gix_hash::ObjectId::from_hex(value).ok()?;
    let bytes = <[u8; 20]>::try_from(oid.as_slice()).ok()?;
    Some((
        u32::from_be_bytes(bytes[..4].try_into().ok()?),
        u32::from_be_bytes(bytes[4..8].try_into().ok()?),
        u32::from_be_bytes(bytes[8..12].try_into().ok()?),
        u32::from_be_bytes(bytes[12..16].try_into().ok()?),
        u32::from_be_bytes(bytes[16..].try_into().ok()?),
    ))
}

/// The identity that a text spells.
pub open spec fn spelled_oid(text: Seq<u8>) -> Option<ObjectId> {
    if text.len() == 40 && all_hex(text) {
        Some(
            ObjectId {
                first: hex_value(text.subrange(0, 8)) as u32,
                second: hex_value(text.subrange(8, 16)) as u32,
                third: hex_value(text.subrange(16, 24)) as u32,
                fourth: hex_value(text.subrange(24, 32)) as u32,
                fifth: hex_value(text.subrange(32, 40)) as u32,
            },
        )
    } else {
        None
    }
}

/// A text spells an identity exactly if it has forty digits, each from zero to nine or
/// from A to F in either case; a further digit of a number adds its value to sixteen
/// times what the digits before it spell.
pub proof fn what_a_text_spells(text: Seq<u8>, digits: Seq<u8>, digit: u8)
    ensures
        spelled_oid(text) is Some <==> text.len() == 40 && forall|i: int|
            0 <= i < text.len() ==> (48 <= (#[trigger] text[i]) <= 57 || 65 <= text[i] <= 70 || 97
                <= text[i] <= 102),
        hex_value(Seq::empty()) == 0,
        48 <= digit <= 57 ==> hex_value(digits.push(digit)) == 16 * hex_value(digits) + (digit
            - 48),
        65 <= digit <= 70 ==> hex_value(digits.push(digit)) == 16 * hex_value(digits) + (digit
            - 65 + 10),
        97 <= digit <= 102 ==> hex_value(digits.push(digit)) == 16 * hex_value(digits) + (digit
            - 97 + 10),
        spelled_oid(text) matches Some(oid) ==> {
            &&& oid.first == hex_value(text.subrange(0, 8)) as u32
            &&& oid.second == hex_value(text.subrange(8, 16)) as u32
            &&& oid.third == hex_value(text.subrange(16, 24)) as u32
            &&& oid.fourth == hex_value(text.subrange(24, 32)) as u32
            &&& oid.fifth == hex_value(text.subrange(32, 40)) as u32
        },
{
    assert(digits.push(digit).drop_last() =~= digits);
    if text.len() == 40 && forall|i: int|
        0 <= i < text.len() ==> (48 <= (#[trigger] text[i]) <= 57 || 65 <= text[i] <= 70 || 97
            <= text[i] <= 102) {
        assert(all_hex(text));
    }
    if all_hex(text) {
        assert forall|i: int| 0 <= i < text.len() implies (48 <= (#[trigger] text[i]) <= 57 || 65
            <= text[i] <= 70 || 97 <= text[i] <= 102) by {
            assert(is_hex_digit(text[i]));
        }
    }
}

/// Read an object identity from its hexadecimal form.
pub fn parse_oid(value: &str) -> (result: Result<ObjectId, Error>)
    ensures
        result == (match spelled_oid(vstd::utf8::encode_utf8(value@)) {
            Some(oid) => Ok::<ObjectId, Error>(oid),
            None => Err(
                Error::RepositoryState { reason: RepositoryStateError::InvalidContentIdentity },
            ),
        }),
{
    match object_id_from_hex(value.as_bytes()) {
        Some((first, second, third, fourth, fifth)) => Ok(
            ObjectId { first, second, third, fourth, fifth },
        ),
        None => Err(
            Error::RepositoryState { reason: RepositoryStateError::InvalidContentIdentity },
        ),
    }
}

} // verus!
