//! Small text files, line by line.

use crate::text::all_digits;
use crate::text::decimal_value;
use crate::text::parse_digits;
use crate::text::text_eq;
use vstd::prelude::*;
use vstd::string::*;
use vstd::utf8::*;

verus! {

/// Whether a character is white space, as Unicode has it.
pub open spec fn is_space(c: char) -> bool {
    let v = c as u32;
    9 <= v <= 13 || v == 0x20 || v == 0x85 || v == 0xa0 || v == 0x1680 || 0x2000 <= v <= 0x200a || v == 0x2028 || v
        == 0x2029 || v == 0x202f || v == 0x205f || v == 0x3000
}

pub(crate) fn is_space_char(c: char) -> (space: bool)
    ensures
        space == is_space(c),
{
    let v: u32 = c as u32;
    (9 <= v && v <= 13) || v == 0x20 || v == 0x85 || v == 0xa0 || v == 0x1680 || (0x2000 <= v && v <= 0x200a) || v
        == 0x2028 || v == 0x2029 || v == 0x202f || v == 0x205f || v == 0x3000
}

/// `text` without the white space at its front.
pub open spec fn trimmed_front(text: Seq<char>) -> Seq<char>
    decreases text.len(),
{
    if text.len() > 0 && is_space(text[0]) {
        trimmed_front(text.drop_first())
    } else {
        text
    }
}

/// `text` without the white space at its back.
pub open spec fn trimmed_back(text: Seq<char>) -> Seq<char>
    decreases text.len(),
{
    if text.len() > 0 && is_space(text.last()) {
        trimmed_back(text.drop_last())
    } else {
        text
    }
}

/// `text` without the white space at its ends.
pub open spec fn trimmed(text: Seq<char>) -> Seq<char> {
    trimmed_back(trimmed_front(text))
}

/// `text` without the white space at its ends.
pub fn trim(text: &str) -> (out: String)
    ensures
        out@ == trimmed(text@),
{
    let len: usize = text.unicode_len();
    let mut start: usize = 0;
    assert(text@.skip(0) =~= text@);
    while start < len && is_space_char(text.get_char(start))
        invariant
            start <= len == text@.len(),
            trimmed_front(text@) == trimmed_front(text@.skip(start as int)),
        decreases len - start,
    {
        assert(text@.skip(start as int).drop_first() =~= text@.skip(start + 1));
        start += 1;
    }
    let ghost front = text@.skip(start as int);
    assert(trimmed_front(text@) == front);
    let mut end: usize = len;
    assert(text@.subrange(start as int, end as int) =~= front);
    while end > start && is_space_char(text.get_char(end - 1))
        invariant
            start <= end <= len == text@.len(),
            trimmed_back(front) == trimmed_back(text@.subrange(start as int, end as int)),
        decreases end - start,
    {
        assert(text@.subrange(start as int, end as int).drop_last() =~= text@.subrange(
            start as int,
            end - 1,
        ));
        end -= 1;
    }
    String::from_str(text.substring_char(start, end))
}

/// What the error of `std::str::from_utf8` says of bytes that are not UTF-8.
pub uninterp spec fn utf8_fault(bytes: Seq<u8>) -> Seq<char>;

/// Calls `std::str::from_utf8`, which gives the text that bytes are the UTF-8
/// form of, and an error where they are not the form of any. What the error
/// says, as text, depends on the bytes alone; which text it is, is not stated.
#[verifier::external_body]
pub(crate) fn read_utf8(bytes: &[u8]) -> (text: Result<String, String>)
    ensures
        text is Ok <==> valid_utf8(bytes@),
        text matches Ok(text) ==> text@ == decode_utf8(bytes@),
        text matches Err(fault) ==> fault@ == utf8_fault(bytes@),
{
    match std::str::from_utf8(bytes) {
        Ok(text) => Ok(String::from(text)),
        Err(err) => Err(err.to_string()),
    }
}

/// The parts of some bytes between newlines; at least one.
pub open spec fn newline_parts(bytes: Seq<u8>) -> Seq<Seq<u8>>
    decreases bytes.len(),
{
    if bytes.len() == 0 {
        seq![Seq::<u8>::empty()]
    } else {
        let parts = newline_parts(bytes.drop_last());
        if bytes.last() == 10 {
            parts.push(Seq::<u8>::empty())
        } else {
            parts.update(parts.len() - 1, parts.last().push(bytes.last()))
        }
    }
}

/// The bytes that lists hold.
pub open spec fn byte_views(parts: Seq<Vec<u8>>) -> Seq<Seq<u8>> {
    parts.map_values(|part: Vec<u8>| part@)
}

/// The parts of some bytes between newlines.
pub fn split_newlines(bytes: &[u8]) -> (parts: Vec<Vec<u8>>)
    ensures
        byte_views(parts@) == newline_parts(bytes@),
{
    let mut parts: Vec<Vec<u8>> = Vec::new();
    let mut part: Vec<u8> = Vec::new();
    let mut i: usize = 0;
    assert(byte_views(parts@).push(part@) =~= newline_parts(bytes@.take(0)));
    while i < bytes.len()
        invariant
            i <= bytes@.len(),
            byte_views(parts@).push(part@) == newline_parts(bytes@.take(i as int)),
        decreases bytes@.len() - i,
    {
        let byte: u8 = bytes[i];
        let ghost whole = byte_views(parts@).push(part@);
        assert(bytes@.take(i + 1).drop_last() =~= bytes@.take(i as int));
        assert(bytes@.take(i + 1).last() == byte);
        if byte == 10 {
            let mut fresh: Vec<u8> = Vec::new();
            std::mem::swap(&mut part, &mut fresh);
            let ghost held = byte_views(parts@);
            let ghost line = fresh@;
            parts.push(fresh);
            assert(byte_views(parts@) =~= held.push(line));
            assert(byte_views(parts@).push(part@) =~= whole.push(Seq::<u8>::empty()));
        } else {
            part.push(byte);
            assert(byte_views(parts@).push(part@) =~= whole.update(whole.len() - 1, whole.last().push(byte)));
        }
        i += 1;
    }
    assert(bytes@.take(i as int) =~= bytes@);
    let ghost held = byte_views(parts@);
    let ghost line = part@;
    parts.push(part);
    assert(byte_views(parts@) =~= held.push(line));
    parts
}

/// The text that bytes are the UTF-8 form of; empty where they are of none.
pub open spec fn part_text(part: Seq<u8>) -> Seq<char> {
    if valid_utf8(part) {
        decode_utf8(part)
    } else {
        Seq::empty()
    }
}

/// The lines of a text that are not blank, without white space at their ends.
pub open spec fn trimmed_lines(parts: Seq<Seq<u8>>) -> Seq<Seq<char>>
    decreases parts.len(),
{
    if parts.len() == 0 {
        Seq::empty()
    } else {
        let rest = trimmed_lines(parts.drop_last());
        let line = trimmed(part_text(parts.last()));
        if line.len() == 0 {
            rest
        } else {
            rest.push(line)
        }
    }
}

/// The lines of a text that are not blank, without white space at their ends;
/// none where the bytes are not a text.
pub fn read_trimmed_lines(bytes: &[u8]) -> (lines: Vec<String>)
    ensures
        lines@.map_values(|line: String| line@) == if valid_utf8(bytes@) {
            trimmed_lines(newline_parts(bytes@))
        } else {
            Seq::empty()
        },
{
    let mut lines: Vec<String> = Vec::new();
    let ghost view = |line: String| line@;
    assert(lines@.map_values(view) =~= Seq::empty());
    if read_utf8(bytes).is_err() {
        return lines;
    }
    let parts = split_newlines(bytes);
    let ghost all = newline_parts(bytes@);
    let mut i: usize = 0;
    assert(all.take(0) =~= Seq::empty());
    while i < parts.len()
        invariant
            i <= parts@.len(),
            byte_views(parts@) == all,
            view == (|line: String| line@),
            lines@.map_values(view) == trimmed_lines(all.take(i as int)),
        decreases parts@.len() - i,
    {
        proof {
            assert(all.take(i + 1).drop_last() =~= all.take(i as int));
            assert(all.take(i + 1).last() == parts@[i as int]@);
        }
        let text = match read_utf8(&parts[i]) {
            Ok(text) => text,
            Err(_) => String::new(),
        };
        proof {
            reveal_strlit("");
            assert(text@ =~= part_text(parts@[i as int]@));
        }
        let line = trim(text.as_str());
        if line.as_str().unicode_len() > 0 {
            let ghost held = lines@.map_values(view);
            let ghost shown = line@;
            lines.push(line);
            assert(lines@.map_values(view) =~= held.push(shown));
        }
        i += 1;
    }
    assert(all.take(i as int) =~= all);
    lines
}

/// The number that a text spells in decimal digits behind an optional plus sign.
pub open spec fn unsigned_value(bytes: Seq<u8>) -> Option<nat> {
    let digits = if bytes.len() > 0 && bytes[0] == 43 {
        bytes.skip(1)
    } else {
        bytes
    };
    if digits.len() > 0 && all_digits(digits) {
        Some(decimal_value(digits))
    } else {
        None
    }
}

/// The number that bytes spell in decimal digits behind an optional plus sign,
/// if they do and it fits 64 bits.
pub fn parse_u64(bytes: &[u8]) -> (value: Option<u64>)
    ensures
        value == match unsigned_value(bytes@) {
            Some(value) => if value <= u64::MAX {
                Some(value as u64)
            } else {
                None
            },
            None => None,
        },
{
    assert(bytes@.skip(0) =~= bytes@);
    if bytes.len() == 0 {
        return None;
    }
    let from: usize = if bytes[0] == 43 {
        1
    } else {
        0
    };
    parse_digits(bytes, from)
}

/// The byte budget that the value of a variable sets: the number that it
/// spells, white space around it aside, or the default where it is unset or
/// spells none that fits.
pub open spec fn cache_budget(value: Option<Seq<char>>, default: usize) -> usize {
    match value {
        None => default,
        Some(text) => match unsigned_value(encode_utf8(trimmed(text))) {
            Some(value) => if value <= usize::MAX {
                value as usize
            } else {
                default
            },
            None => default,
        },
    }
}

/// The byte budget that the value of a variable sets.
pub fn cache_budget_from_env(value: Option<&str>, default: usize) -> (budget: usize)
    ensures
        budget == cache_budget(
            match value {
                Some(text) => Some(text@),
                None => None,
            },
            default,
        ),
{
    match value {
        None => default,
        Some(text) => {
            let trimmed_text = trim(text);
            match parse_u64(trimmed_text.as_str().as_bytes()) {
                Some(number) => if number <= usize::MAX as u64 {
                    number as usize
                } else {
                    default
                },
                None => default,
            }
        },
    }
}

/// Approximate byte budget for the decoded-object cache, given the value of the
/// variable that sets it.
pub fn object_cache_budget(value: Option<&str>) -> (budget: usize)
    ensures
        budget == cache_budget(
            match value {
                Some(text) => Some(text@),
                None => None,
            },
            crate::lru::DEFAULT_OBJECT_CACHE_BYTES,
        ),
{
    cache_budget_from_env(value, crate::lru::DEFAULT_OBJECT_CACHE_BYTES)
}

/// Approximate byte budget for each per-pack delta-base cache, given the value
/// of the variable that sets it.
pub fn delta_base_cache_budget(value: Option<&str>) -> (budget: usize)
    ensures
        budget == cache_budget(
            match value {
                Some(text) => Some(text@),
                None => None,
            },
            crate::lru::DEFAULT_DELTA_BASE_CACHE_BYTES,
        ),
{
    cache_budget_from_env(value, crate::lru::DEFAULT_DELTA_BASE_CACHE_BYTES)
}

/// Whether every object is to be hashed again when it is read, given the value
/// of the variable that asks for it: any but an empty one and `0`.
pub fn verify_reads_enabled(value: Option<&str>) -> (enabled: bool)
    ensures
        enabled == (value matches Some(text) && trimmed(text@) != ""@ && trimmed(text@) != "0"@),
{
    match value {
        None => false,
        Some(text) => {
            let trimmed_text = trim(text);
            !text_eq(trimmed_text.as_str(), "") && !text_eq(trimmed_text.as_str(), "0")
        },
    }
}

} // verus!
