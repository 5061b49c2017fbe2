//! Loose objects: their framing, their integrity, and which of them are known
//! to be there.

use crate::error::GitError;
use crate::object::framed;
use crate::object::ObjectType;
use crate::object_id::byte_slice_eq;
use crate::object_id::copy_bytes;
use crate::text_file::parse_u64;
use crate::text_file::read_utf8;
use crate::text_file::unsigned_value;
use crate::text_file::utf8_fault;
use vstd::prelude::*;
use vstd::slice::slice_subrange;
use vstd::string::*;
use vstd::utf8::*;

verus! {

/// The most bytes that are inflated in search of the end of a loose object's
/// header.
pub const MAX_LOOSE_HEADER_LEN: usize = 32;

/// The message for a stream that does not inflate, as far as its first two
/// bytes tell why: their check bits, the compression method, the window size,
/// and the flag for a preset dictionary, in this order.
pub open spec fn header_diagnostic(input: Seq<u8>) -> Option<Seq<char>> {
    if input.len() < 2 {
        None
    } else if (input[0] * 256 + input[1]) % 31 != 0 {
        Some("inflate: data stream error (incorrect header check)"@)
    } else if input[0] % 16 != 8 {
        Some("inflate: data stream error (unknown compression method)"@)
    } else if input[0] / 16 > 7 {
        Some("inflate: data stream error (invalid window size)"@)
    } else if (input[1] / 32) % 2 == 1 {
        Some("inflate: needs dictionary (no message)"@)
    } else {
        None
    }
}

/// The message for a stream that does not inflate, as far as its first two
/// bytes tell why.
pub fn inflate_header_diagnostic(input: &[u8]) -> (diagnostic: Option<&'static str>)
    ensures
        match diagnostic {
            Some(text) => header_diagnostic(input@) == Some(text@),
            None => header_diagnostic(input@) is None,
        },
{
    if input.len() < 2 {
        return None;
    }
    let cmf: u8 = input[0];
    let flg: u8 = input[1];
    if (cmf as u32 * 256 + flg as u32) % 31 != 0 {
        return Some("inflate: data stream error (incorrect header check)");
    }
    if cmf % 16 != 8 {
        return Some("inflate: data stream error (unknown compression method)");
    }
    if cmf / 16 > 7 {
        return Some("inflate: data stream error (invalid window size)");
    }
    if (flg / 32) % 2 == 1 {
        return Some("inflate: needs dictionary (no message)");
    }
    None
}

/// The first position of a byte from a position on.
pub open spec fn find_byte(bytes: Seq<u8>, byte: u8, from: int) -> Option<int>
    decreases bytes.len() - from,
{
    if from < 0 || from >= bytes.len() {
        None
    } else if bytes[from] == byte {
        Some(from)
    } else {
        find_byte(bytes, byte, from + 1)
    }
}

pub(crate) fn position_of(bytes: &[u8], byte: u8) -> (position: Option<usize>)
    ensures
        match position {
            Some(at) => find_byte(bytes@, byte, 0) == Some(at as int) && at < bytes@.len() && at < usize::MAX,
            None => find_byte(bytes@, byte, 0) is None,
        },
{
    let mut i: usize = 0;
    while i < bytes.len()
        invariant
            i <= bytes@.len(),
            find_byte(bytes@, byte, 0) == find_byte(bytes@, byte, i as int),
        decreases bytes@.len() - i,
    {
        if bytes[i] == byte {
            assert(i < bytes.len());
            return Some(i);
        }
        i += 1;
    }
    None
}

/// A byte that is found is there, and not before.
pub proof fn lemma_find_byte(bytes: Seq<u8>, byte: u8, from: int)
    requires
        0 <= from,
    ensures
        match find_byte(bytes, byte, from) {
            Some(at) => from <= at < bytes.len() && bytes[at] == byte && forall|i: int|
                from <= i < at ==> bytes[i] != byte,
            None => forall|i: int| from <= i < bytes.len() ==> bytes[i] != byte,
        },
    decreases bytes.len() - from,
{
    if from < bytes.len() && bytes[from] != byte {
        lemma_find_byte(bytes, byte, from + 1);
    }
}

/// The first place at which a byte stands is where it is found.
pub proof fn lemma_found_at(bytes: Seq<u8>, byte: u8, at: int)
    requires
        0 <= at < bytes.len(),
        bytes[at] == byte,
        forall|i: int| 0 <= i < at ==> bytes[i] != byte,
    ensures
        find_byte(bytes, byte, 0) == Some(at),
{
    lemma_find_byte(bytes, byte, 0);
}

/// Whether the header that inflated bytes begin with ends within the window.
pub open spec fn is_terminated(framed: Seq<u8>) -> bool {
    find_byte(framed, 0, 0) matches Some(at) && at < MAX_LOOSE_HEADER_LEN
}

/// Whether the header that inflated bytes begin with ends within the window.
pub fn framed_loose_header_terminated(framed: &[u8]) -> (terminated: bool)
    ensures
        terminated == is_terminated(framed@),
{
    match position_of(framed, 0) {
        Some(at) => at < MAX_LOOSE_HEADER_LEN,
        None => false,
    }
}

/// The header that inflated bytes begin with: what stands before the first
/// zero.
pub open spec fn loose_header(framed: Seq<u8>) -> Option<Seq<u8>> {
    match find_byte(framed, 0, 0) {
        Some(at) => Some(framed.take(at)),
        None => None,
    }
}

/// The two words of a header: what stands before and behind its first space.
pub open spec fn header_words(header: Seq<u8>) -> Option<(Seq<u8>, Seq<u8>)> {
    match find_byte(header, 32, 0) {
        Some(at) => Some((header.take(at), header.skip(at + 1))),
        None => None,
    }
}

/// The size that a header in a text gives, where it has two words.
pub open spec fn declared_size(framed: Seq<u8>) -> Option<nat> {
    match loose_header(framed) {
        None => None,
        Some(header) => if !valid_utf8(header) {
            None
        } else {
            match header_words(header) {
                None => None,
                Some((_, size)) => unsigned_value(size),
            }
        },
    }
}

/// The size that a loose object's header gives, where it has the form of a word
/// and a number that fits.
pub fn loose_header_declared_size(framed: &[u8]) -> (size: Option<usize>)
    ensures
        size == match declared_size(framed@) {
            Some(size) => if size <= usize::MAX {
                Some(size as usize)
            } else {
                None
            },
            None => None,
        },
{
    let nul: usize = match position_of(framed, 0) {
        Some(nul) => nul,
        None => {
            return None;
        },
    };
    let header = slice_subrange(framed, 0, nul);
    assert(header@ =~= framed@.take(nul as int));
    if read_utf8(header).is_err() {
        return None;
    }
    let space: usize = match position_of(header, 32) {
        Some(space) => space,
        None => {
            return None;
        },
    };
    let size = slice_subrange(header, space + 1, header.len());
    assert(size@ =~= header@.skip(space + 1));
    match parse_u64(size) {
        Some(value) => if value <= usize::MAX as u64 {
            Some(value as usize)
        } else {
            None
        },
        None => None,
    }
}

/// The type with a name.
pub open spec fn named_type(name: Seq<u8>) -> Option<ObjectType> {
    if name == ObjectType::Commit.spec_name() {
        Some(ObjectType::Commit)
    } else if name == ObjectType::Tree.spec_name() {
        Some(ObjectType::Tree)
    } else if name == ObjectType::Blob.spec_name() {
        Some(ObjectType::Blob)
    } else if name == ObjectType::Tag.spec_name() {
        Some(ObjectType::Tag)
    } else {
        None
    }
}

/// The type with a name.
pub fn type_of_name(name: &[u8]) -> (object_type: Option<ObjectType>)
    ensures
        object_type == named_type(name@),
{
    if byte_slice_eq(name, &ObjectType::Commit.name()) {
        Some(ObjectType::Commit)
    } else if byte_slice_eq(name, &ObjectType::Tree.name()) {
        Some(ObjectType::Tree)
    } else if byte_slice_eq(name, &ObjectType::Blob.name()) {
        Some(ObjectType::Blob)
    } else if byte_slice_eq(name, &ObjectType::Tag.name()) {
        Some(ObjectType::Tag)
    } else {
        None
    }
}

/// What a header says: a type and a size that fits 64 bits.
pub open spec fn parsed_header(header: Seq<u8>) -> Option<(ObjectType, u64)> {
    match header_words(header) {
        None => None,
        Some((kind, size)) => match (named_type(kind), unsigned_value(size)) {
            (Some(object_type), Some(value)) => if value <= u64::MAX {
                Some((object_type, value as u64))
            } else {
                None
            },
            _ => None,
        },
    }
}

/// Whether `err` tells what is wrong with a header: it is no text, has no size,
/// names no type, or its size is no number that fits.
pub open spec fn is_header_fault(err: GitError, header: Seq<u8>) -> bool {
    err matches GitError::InvalidObject(text) && text@ == if !valid_utf8(header) {
        utf8_fault(header)
    } else {
        match header_words(header) {
            None => "missing object size"@,
            Some((kind, _)) => if named_type(kind) is None {
                "unknown object type"@
            } else {
                "invalid object size"@
            },
        }
    }
}

/// Bytes below 128 are UTF-8.
pub proof fn lemma_ascii_is_utf8(bytes: Seq<u8>)
    requires
        forall|i: int| 0 <= i < bytes.len() ==> #[trigger] bytes[i] < 128,
    ensures
        valid_utf8(bytes),
    decreases bytes.len(),
{
    if bytes.len() > 0 {
        let first = bytes[0];
        assert(is_leading_byte_width_1(first)) by {
            assert(first < 128 ==> first & 0x80 == 0) by (bit_vector);
        }
        let rest = pop_first_scalar(bytes);
        assert(rest =~= bytes.skip(1));
        lemma_ascii_is_utf8(rest);
    }
}

/// A header that says something is a text.
proof fn lemma_parsed_header_is_utf8(header: Seq<u8>)
    requires
        parsed_header(header) is Some,
    ensures
        valid_utf8(header),
{
    lemma_find_byte(header, 32, 0);
    let at = find_byte(header, 32, 0)->Some_0;
    let (kind, size) = header_words(header)->Some_0;
    let object_type = named_type(kind)->Some_0;
    assert(kind == object_type.spec_name());
    assert forall|i: int| 0 <= i < kind.len() implies #[trigger] kind[i] < 128 by {
        match object_type {
            ObjectType::Commit => {},
            ObjectType::Tree => {},
            ObjectType::Blob => {},
            ObjectType::Tag => {},
        }
    }
    assert forall|i: int| 0 <= i < size.len() implies #[trigger] size[i] < 128 by {
        if size[0] == 43 {
            if i > 0 {
                assert(size.skip(1)[i - 1] == size[i]);
            }
        }
    }
    assert forall|i: int| 0 <= i < header.len() implies #[trigger] header[i] < 128 by {
        if i < at {
            assert(kind[i] == header[i]);
        } else if i > at {
            assert(size[i - at - 1] == header[i]);
        }
    }
    lemma_ascii_is_utf8(header);
}

/// Reads a header. Where it says nothing, the error tells what is wrong.
pub(crate) fn parse_header(header: &[u8]) -> (parsed: Result<(ObjectType, u64), GitError>)
    ensures
        match parsed_header(header@) {
            Some(pair) => parsed == Ok::<(ObjectType, u64), GitError>(pair),
            None => parsed matches Err(err) && is_header_fault(err, header@),
        },
{
    proof {
        if parsed_header(header@) is Some {
            lemma_parsed_header_is_utf8(header@);
        }
    }
    match read_utf8(header) {
        Ok(_) => {},
        Err(fault) => {
            return Err(GitError::InvalidObject(fault));
        },
    }
    let space: usize = match position_of(header, 32) {
        Some(space) => space,
        None => {
            return Err(GitError::InvalidObject(String::from_str("missing object size")));
        },
    };
    let kind = slice_subrange(header, 0, space);
    let size = slice_subrange(header, space + 1, header.len());
    assert(kind@ =~= header@.take(space as int));
    assert(size@ =~= header@.skip(space + 1));
    match type_of_name(kind) {
        None => Err(GitError::InvalidObject(String::from_str("unknown object type"))),
        Some(object_type) => match parse_u64(size) {
            Some(value) => Ok((object_type, value)),
            None => Err(GitError::InvalidObject(String::from_str("invalid object size"))),
        },
    }
}

/// What a framed object holds: its type and its body, whose length is the size
/// that the header gives.
pub open spec fn parsed_object(framed: Seq<u8>) -> Option<(ObjectType, Seq<u8>)> {
    match find_byte(framed, 0, 0) {
        None => None,
        Some(nul) => match parsed_header(framed.take(nul)) {
            Some((object_type, size)) => if framed.len() - nul - 1 == size {
                Some((object_type, framed.skip(nul + 1)))
            } else {
                None
            },
            None => None,
        },
    }
}

/// Whether `err` tells what is wrong with a framed object: its header does not
/// end, says nothing, or gives another size than the body has.
pub open spec fn is_object_fault(err: GitError, framed: Seq<u8>) -> bool {
    match find_byte(framed, 0, 0) {
        None => err matches GitError::InvalidObject(text) && text@ == "missing object header terminator"@,
        Some(nul) => if parsed_header(framed.take(nul)) is None {
            is_header_fault(err, framed.take(nul))
        } else {
            err matches GitError::InvalidObject(text) && text@ == "object size mismatch"@
        },
    }
}

/// Reads a framed object.
pub fn parse_framed_object(framed: &[u8]) -> (parsed: Result<(ObjectType, Vec<u8>), GitError>)
    ensures
        match parsed_object(framed@) {
            Some((object_type, body)) => parsed is Ok && parsed->Ok_0.0 == object_type && parsed->Ok_0.1@ == body,
            None => parsed matches Err(err) && is_object_fault(err, framed@),
        },
{
    let nul: usize = match position_of(framed, 0) {
        Some(nul) => nul,
        None => {
            return Err(GitError::InvalidObject(String::from_str("missing object header terminator")));
        },
    };
    let header = slice_subrange(framed, 0, nul);
    assert(header@ =~= framed@.take(nul as int));
    match parse_header(header) {
        Err(err) => Err(err),
        Ok((object_type, size)) => {
            let body = slice_subrange(framed, nul + 1, framed.len());
            assert(body@ =~= framed@.skip(nul + 1));
            if body.len() as u64 != size {
                return Err(GitError::InvalidObject(String::from_str("object size mismatch")));
            }
            Ok((object_type, copy_bytes(body)))
        },
    }
}

/// The header of a framed object with an unknown type, where its size is right.
pub open spec fn unknown_type_header(framed: Seq<u8>) -> Option<Seq<u8>> {
    match find_byte(framed, 0, 0) {
        None => None,
        Some(nul) => {
            let header = framed.take(nul);
            if !valid_utf8(header) {
                None
            } else {
                match header_words(header) {
                    None => None,
                    Some((kind, size)) => if unsigned_value(size) == Some((framed.len() - nul - 1) as nat)
                        && named_type(kind) is None {
                        Some(header)
                    } else {
                        None
                    },
                }
            }
        },
    }
}

/// The header of a framed object with an unknown type, where its size is right.
pub(crate) fn loose_header_with_unknown_type(framed: &[u8]) -> (header: Option<String>)
    ensures
        match unknown_type_header(framed@) {
            Some(bytes) => header matches Some(text) && text@ == decode_utf8(bytes),
            None => header is None,
        },
{
    let nul: usize = match position_of(framed, 0) {
        Some(nul) => nul,
        None => {
            return None;
        },
    };
    let header = slice_subrange(framed, 0, nul);
    assert(header@ =~= framed@.take(nul as int));
    let text = match read_utf8(header) {
        Ok(text) => text,
        Err(_) => {
            return None;
        },
    };
    let space: usize = match position_of(header, 32) {
        Some(space) => space,
        None => {
            return None;
        },
    };
    let kind = slice_subrange(header, 0, space);
    let size = slice_subrange(header, space + 1, header.len());
    assert(kind@ =~= header@.take(space as int));
    assert(size@ =~= header@.skip(space + 1));
    assert(framed.len() == framed@.len());
    match parse_u64(size) {
        None => None,
        Some(value) => {
            if value != (framed.len() - nul - 1) as u64 || type_of_name(kind).is_some() {
                None
            } else {
                Some(text)
            }
        },
    }
}

} // verus!
