//! Object ids in hexadecimal form, whole and abbreviated.

use crate::error::GitError;
use crate::object_id::ObjectFormat;
use crate::object_id::ObjectId;
use crate::text::concat2;
use crate::text::concat3;
use crate::text::decimal;
use crate::text::decimal_text;
use crate::text::digit_byte;
use crate::text::digit_char;
use crate::text::hex;
use vstd::prelude::*;
use vstd::string::*;
use vstd::utf8::*;

verus! {

/// The value of a hexadecimal digit in either case.
pub open spec fn hex_value(byte: u8) -> Option<u8> {
    if 48 <= byte <= 57 {
        Some((byte - 48) as u8)
    } else if 97 <= byte <= 102 {
        Some((byte - 87) as u8)
    } else if 65 <= byte <= 70 {
        Some((byte - 55) as u8)
    } else {
        None
    }
}

/// The value of a hexadecimal digit in either case.
pub fn hex_digit(byte: u8) -> (value: Option<u8>)
    ensures
        value == hex_value(byte),
        value matches Some(value) ==> value < 16,
{
    if 48 <= byte && byte <= 57 {
        Some(byte - 48)
    } else if 97 <= byte && byte <= 102 {
        Some(byte - 87)
    } else if 65 <= byte && byte <= 70 {
        Some(byte - 55)
    } else {
        None
    }
}

/// Whether all bytes are hexadecimal digits.
pub open spec fn all_hex(bytes: Seq<u8>) -> bool {
    forall|i: int| 0 <= i < bytes.len() ==> hex_value(#[trigger] bytes[i]) is Some
}

/// Whether all bytes are hexadecimal digits.
pub fn is_all_hex(bytes: &[u8]) -> (all: bool)
    ensures
        all == all_hex(bytes@),
{
    let mut i: usize = 0;
    while i < bytes.len()
        invariant
            i <= bytes@.len(),
            forall|k: int| 0 <= k < i ==> hex_value(#[trigger] bytes@[k]) is Some,
        decreases bytes@.len() - i,
    {
        if hex_digit(bytes[i]).is_none() {
            assert(hex_value(bytes@[i as int]) is None);
            return false;
        }
        i += 1;
    }
    true
}

/// The bytes that pairs of digits spell.
pub open spec fn unhex(digits: Seq<u8>) -> Seq<u8> {
    Seq::new(
        digits.len() / 2,
        |i: int| (16 * hex_value(digits[2 * i])->Some_0 + hex_value(digits[2 * i + 1])->Some_0) as u8,
    )
}

/// Whether bytes are an id in hexadecimal form.
pub open spec fn is_hex_id(format: ObjectFormat, digits: Seq<u8>) -> bool {
    digits.len() == 2 * format.raw() && all_hex(digits)
}

/// The id that hexadecimal digits spell, if there are as many as its format
/// takes and nothing else.
pub fn from_hex(format: ObjectFormat, digits: &[u8]) -> (oid: Option<ObjectId>)
    ensures
        oid is Some <==> is_hex_id(format, digits@),
        oid matches Some(oid) ==> oid.spec_format() == format && oid.raw() == unhex(digits@),
{
    let len: usize = format.raw_len();
    if digits.len() != 2 * len {
        return None;
    }
    let mut raw: Vec<u8> = Vec::with_capacity(len);
    let mut i: usize = 0;
    while i < len
        invariant
            i <= len,
            digits@.len() == 2 * len,
            len == format.raw(),
            raw@ == unhex(digits@).take(i as int),
            forall|k: int| 0 <= k < 2 * i ==> hex_value(#[trigger] digits@[k]) is Some,
        decreases len - i,
    {
        let high = hex_digit(digits[2 * i]);
        let low = hex_digit(digits[2 * i + 1]);
        match (high, low) {
            (Some(high), Some(low)) => {
                raw.push(16 * high + low);
                assert(raw@ =~= unhex(digits@).take(i + 1));
                assert forall|k: int| 0 <= k < 2 * (i + 1) implies hex_value(#[trigger] digits@[k]) is Some by {
                    if k >= 2 * i {
                        assert(k == 2 * i || k == 2 * i + 1);
                    }
                }
            },
            _ => {
                assert(hex_value(digits@[2 * i as int]) is None || hex_value(digits@[2 * i as int + 1]) is None);
                return None;
            },
        }
        i += 1;
    }
    assert(raw@ =~= unhex(digits@));
    ObjectId::from_raw(format, &raw)
}

/// The bytes of the hexadecimal form of an id.
pub open spec fn hex_bytes(raw: Seq<u8>) -> Seq<u8> {
    Seq::new(
        2 * raw.len(),
        |i: int|
            if i % 2 == 0 {
                digit_byte(raw[i / 2] as int / 16)
            } else {
                digit_byte(raw[i / 2] as int % 16)
            },
    )
}

/// Reading the hexadecimal form of some bytes gives the bytes back.
pub proof fn law_hex_round_trip(raw: Seq<u8>)
    ensures
        encode_utf8(hex(raw)) == hex_bytes(raw),
        all_hex(hex_bytes(raw)),
        unhex(hex_bytes(raw)) == raw,
{
    let text = hex(raw);
    assert forall|i: int| 0 <= i < text.len() implies (#[trigger] text[i]) as u32 <= 0x7f by {
        assert(text[i] == digit_char(raw[i / 2] as int / 16) || text[i] == digit_char(raw[i / 2] as int % 16));
    }
    assert(is_ascii_chars(text));
    is_ascii_chars_encode_utf8(text);
    assert(encode_utf8(text) =~= hex_bytes(raw));
    assert(unhex(hex_bytes(raw)) =~= raw);
}

/// The value of digit `i` of the hexadecimal form of an id.
pub open spec fn nibble(raw: Seq<u8>, i: int) -> u8 {
    if i % 2 == 0 {
        (raw[i / 2] / 16) as u8
    } else {
        (raw[i / 2] % 16) as u8
    }
}

/// Whether the hexadecimal form of an id begins with some digits.
pub open spec fn has_hex_prefix(raw: Seq<u8>, digits: Seq<u8>) -> bool {
    &&& digits.len() <= 2 * raw.len()
    &&& forall|i: int|
        0 <= i < digits.len() ==> hex_value(#[trigger] digits[i]) == Some(nibble(raw, i))
}

/// Whether the hexadecimal form of an id begins with some digits.
pub fn hex_prefix_matches(oid: &ObjectId, digits: &[u8]) -> (matches: bool)
    ensures
        matches == has_hex_prefix(oid.raw(), digits@),
{
    let raw = oid.as_bytes();
    if digits.len() > 2 * raw.len() {
        return false;
    }
    let mut i: usize = 0;
    while i < digits.len()
        invariant
            i <= digits@.len() <= 2 * raw@.len(),
            raw@ == oid.raw(),
            forall|k: int| 0 <= k < i ==> hex_value(#[trigger] digits@[k]) == Some(nibble(raw@, k)),
        decreases digits@.len() - i,
    {
        let value: u8 = if i % 2 == 0 {
            raw[i / 2] / 16
        } else {
            raw[i / 2] % 16
        };
        match hex_digit(digits[i]) {
            Some(digit) => {
                if digit != value {
                    assert(hex_value(digits@[i as int]) != Some(nibble(raw@, i as int)));
                    return false;
                }
            },
            None => {
                assert(hex_value(digits@[i as int]) != Some(nibble(raw@, i as int)));
                return false;
            },
        }
        i += 1;
    }
    true
}

/// The raw bytes of the least id whose hexadecimal form begins with some
/// digits: the digits, and zeros behind them.
pub open spec fn prefix_floor(format: ObjectFormat, digits: Seq<u8>) -> Seq<u8> {
    unhex(digits + Seq::new((2 * format.raw() - digits.len()) as nat, |i: int| 48u8))
}

/// The least id whose hexadecimal form begins with some digits.
pub fn object_id_floor_for_hex_prefix(format: ObjectFormat, digits: &[u8]) -> (floor: Option<ObjectId>)
    ensures
        floor is Some <==> digits@.len() <= 2 * format.raw() && all_hex(digits@),
        floor matches Some(floor) ==> floor.spec_format() == format && floor.raw() == prefix_floor(
            format,
            digits@,
        ),
{
    let len: usize = 2 * format.raw_len();
    if digits.len() > len {
        return None;
    }
    let mut padded = crate::object_id::copy_bytes(digits);
    while padded.len() < len
        invariant
            digits@.len() <= padded@.len() <= len,
            forall|k: int| 0 <= k < digits@.len() ==> padded@[k] == digits@[k],
            forall|k: int| digits@.len() <= k < padded@.len() ==> padded@[k] == 48,
        decreases len - padded@.len(),
    {
        padded.push(48);
    }
    proof {
        let goal = digits@ + Seq::new((len - digits@.len()) as nat, |i: int| 48u8);
        assert(padded@ =~= goal);
        if all_hex(digits@) {
            assert forall|k: int| 0 <= k < padded@.len() implies hex_value(#[trigger] padded@[k]) is Some by {
                if k < digits@.len() {
                    assert(hex_value(digits@[k]) is Some);
                }
            }
        } else {
            let k = choose|k: int| 0 <= k < digits@.len() && hex_value(#[trigger] digits@[k]) is None;
            assert(hex_value(padded@[k]) is None);
        }
    }
    from_hex(format, &padded)
}

/// Whether an abbreviated id is long enough, not too long, and hexadecimal.
pub open spec fn is_id_prefix(format: ObjectFormat, digits: Seq<u8>) -> bool {
    4 <= digits.len() <= 2 * format.raw() && all_hex(digits)
}

/// Checks that an abbreviated id has at least four digits, no more than a whole
/// id, and only digits.
pub fn validate_object_id_prefix(format: ObjectFormat, prefix: &str) -> (checked: Result<(), GitError>)
    ensures
        checked is Ok <==> is_id_prefix(format, prefix.spec_bytes()),
        checked matches Err(err) ==> (err matches GitError::InvalidObjectId(text) && text@
            == if 4 <= prefix.spec_bytes().len() <= 2 * format.raw() {
            "non-hex object id prefix "@ + prefix@
        } else {
            "expected 4 to "@ + decimal(2 * format.raw()) + " hex digits for "@ + format.spec_name() + ", got "@
                + decimal(prefix.spec_bytes().len())
        }),
{
    let digits = prefix.as_bytes();
    let hex_len: usize = 2 * format.raw_len();
    if digits.len() < 4 || digits.len() > hex_len {
        let first = concat3("expected 4 to ", decimal_text(hex_len as u64).as_str(), " hex digits for ");
        let second = concat3(first.as_str(), format.name(), ", got ");
        return Err(
            GitError::InvalidObjectId(
                concat2(second.as_str(), decimal_text(digits.len() as u64).as_str()),
            ),
        );
    }
    if !is_all_hex(digits) {
        return Err(GitError::InvalidObjectId(concat2("non-hex object id prefix ", prefix)));
    }
    Ok(())
}

/// Whether the error says that an id is not of the format of a store.
pub open spec fn is_format_mismatch(err: GitError, oid: ObjectId, format: ObjectFormat) -> bool {
    err matches GitError::InvalidObjectId(text) && text@ == "object "@ + hex(oid.raw()) + " uses "@
        + oid.spec_format().spec_name() + ", store uses "@ + format.spec_name()
}

/// Checks that an id is of the format of a store.
pub fn validate_oid_format(format: ObjectFormat, oid: &ObjectId) -> (checked: Result<(), GitError>)
    ensures
        checked is Ok <==> oid.spec_format() == format,
        checked matches Err(err) ==> is_format_mismatch(err, *oid, format),
{
    if oid.format() == format {
        return Ok(());
    }
    let name = oid.to_hex();
    let first = concat3("object ", name.as_str(), " uses ");
    let second = concat3(first.as_str(), oid.format().name(), ", store uses ");
    Err(GitError::InvalidObjectId(concat2(second.as_str(), format.name())))
}

} // verus!
