//! What reading a loose object file yields, and the round trip of a write.

use crate::error::GitError;
use crate::loose::declared_size;
use crate::loose::find_byte;
use crate::loose::framed_loose_header_terminated;
use crate::loose::header_diagnostic;
use crate::loose::inflate_header_diagnostic;
use crate::loose::is_terminated;
use crate::loose::lemma_found_at;
use crate::loose::loose_header_declared_size;
use crate::loose::loose_header_with_unknown_type;
use crate::loose::named_type;
use crate::loose::is_header_fault;
use crate::loose::is_object_fault;
use crate::loose::lemma_ascii_is_utf8;
use crate::loose::parse_framed_object;
use crate::loose::parse_header;
use crate::loose::parsed_header;
use crate::loose::parsed_object;
use crate::loose::position_of;
use crate::loose::unknown_type_header;
use crate::loose::MAX_LOOSE_HEADER_LEN;
use crate::object::digest;
use crate::object::digest_bytes;
use crate::object::framed;
use crate::object::EncodedObject;
use crate::object::ObjectType;
use crate::object_id::copy_bytes;
use crate::object_id::ObjectFormat;
use crate::object_id::ObjectId;
use crate::text::all_digits;
use crate::text::concat2;
use crate::text::concat3;
use crate::text::decimal_bytes;
use crate::text::decimal_value;
use crate::text::digit_byte;
use crate::text::hex;
use crate::text_file::unsigned_value;
use crate::zlib::deflate;
use crate::zlib::inflate_stream;
use crate::zlib::inflate_window;
use crate::zlib::zlib_read;
use crate::zlib::zlib_stream;
use crate::zlib::zlib_window;
use crate::zlib::ZlibEnd;
use vstd::prelude::*;
use vstd::slice::slice_subrange;
use vstd::string::*;
use vstd::utf8::*;

verus! {

/// What came of inflating the header of a loose object.
pub enum LooseHeader {
    /// The header, which ends within the window.
    Found(Vec<u8>),
    /// The stream does not inflate.
    Bad,
    /// The window is full, or the stream at its end, and the header is not.
    TooLong,
}

/// What the window of inflated bytes says of the header.
pub fn judge_header_window(window: Result<Vec<u8>, String>) -> (header: LooseHeader)
    ensures
        match window {
            Err(_) => header is Bad,
            Ok(bytes) => match find_byte(bytes@, 0, 0) {
                Some(nul) => header matches LooseHeader::Found(text) && text@ == bytes@.take(nul),
                None => header is TooLong,
            },
        },
{
    match window {
        Err(_) => LooseHeader::Bad,
        Ok(bytes) => match position_of(&bytes, 0) {
            Some(nul) => {
                let text = slice_subrange(bytes.as_slice(), 0, nul);
                assert(text@ =~= bytes@.take(nul as int));
                LooseHeader::Found(copy_bytes(text))
            },
            None => LooseHeader::TooLong,
        },
    }
}

/// Inflates the header of a loose object: one bounded step into the window,
/// then a search for the end of the header in what came out. Corruption
/// further back does not show here.
pub fn inflate_loose_header(compressed: &[u8]) -> (header: LooseHeader)
    ensures
        match zlib_window(compressed@, MAX_LOOSE_HEADER_LEN as nat) {
            Err(_) => header is Bad,
            Ok(bytes) => match find_byte(bytes, 0, 0) {
                Some(nul) => header matches LooseHeader::Found(text) && text@ == bytes.take(nul),
                None => header is TooLong,
            },
        },
{
    judge_header_window(inflate_window(compressed, MAX_LOOSE_HEADER_LEN))
}

/// What a read reports beside its result: the lines to print as errors.
pub struct Reported<T> {
    pub result: T,
    pub lines: Vec<String>,
}

pub open spec fn line_views(lines: Seq<String>) -> Seq<Seq<char>> {
    lines.map_values(|line: String| line@)
}

/// The line for a stream that does not inflate, where its first bytes tell why.
pub open spec fn diagnostic_lines(compressed: Seq<u8>) -> Seq<Seq<char>> {
    match header_diagnostic(compressed) {
        Some(text) => seq!["error: "@ + text],
        None => Seq::empty(),
    }
}

fn list_diagnostic(compressed: &[u8]) -> (lines: Vec<String>)
    ensures
        line_views(lines@) == diagnostic_lines(compressed@),
{
    let mut lines: Vec<String> = Vec::new();
    match inflate_header_diagnostic(compressed) {
        Some(text) => {
            lines.push(concat2("error: ", text));
            assert(line_views(lines@) =~= seq!["error: "@ + text@]);
        },
        None => {
            assert(line_views(lines@) =~= Seq::empty());
        },
    }
    lines
}

/// Whether `err` is what reading the header of a loose object reports.
pub open spec fn is_header_error(err: GitError, oid: ObjectId, window: Result<Seq<u8>, Seq<char>>) -> bool {
    match window {
        Err(_) => err matches GitError::InvalidObject(text) && text@ == "unable to unpack "@ + hex(oid.raw())
            + " header"@,
        Ok(bytes) => match find_byte(bytes, 0, 0) {
            None => err matches GitError::InvalidObject(text) && text@ == "header for "@ + hex(oid.raw())
                + " too long, exceeds 32 bytes"@,
            Some(nul) => parsed_header(bytes.take(nul)) is None && is_header_fault(err, bytes.take(nul)),
        },
    }
}

fn unpack_failed(oid: &ObjectId) -> (err: GitError)
    ensures
        err matches GitError::InvalidObject(text) && text@ == "unable to unpack "@ + hex(oid.raw()) + " header"@,
{
    let name = oid.to_hex();
    GitError::InvalidObject(concat3("unable to unpack ", name.as_str(), " header"))
}

fn header_too_long(oid: &ObjectId) -> (err: GitError)
    ensures
        err matches GitError::InvalidObject(text) && text@ == "header for "@ + hex(oid.raw())
            + " too long, exceeds 32 bytes"@,
{
    let name = oid.to_hex();
    GitError::InvalidObject(concat3("header for ", name.as_str(), " too long, exceeds 32 bytes"))
}

/// The type and size that the header of a loose object file gives.
pub fn read_header(oid: &ObjectId, compressed: &[u8]) -> (read: Reported<Result<(ObjectType, u64), GitError>>)
    ensures
        ({
            let window = zlib_window(compressed@, MAX_LOOSE_HEADER_LEN as nat);
            let header = match window {
                Ok(bytes) => match find_byte(bytes, 0, 0) {
                    Some(nul) => parsed_header(bytes.take(nul)),
                    None => None,
                },
                Err(_) => None,
            };
            &&& match header {
                Some(pair) => read.result == Ok::<(ObjectType, u64), GitError>(pair),
                None => read.result matches Err(err) && is_header_error(err, *oid, window),
            }
            &&& line_views(read.lines@) == if window is Err {
                diagnostic_lines(compressed@)
            } else {
                Seq::empty()
            }
        }),
{
    let none: Vec<String> = Vec::new();
    assert(line_views(none@) =~= Seq::empty());
    match inflate_loose_header(compressed) {
        LooseHeader::Found(header) => Reported { result: parse_header(&header), lines: none },
        LooseHeader::Bad => Reported {
            result: Err(unpack_failed(oid)),
            lines: list_diagnostic(compressed),
        },
        LooseHeader::TooLong => Reported { result: Err(header_too_long(oid)), lines: none },
    }
}

/// Whether `read` is what the inflated bytes of a loose object come to.
/// `complete` says whether its stream is whole, and `verify` whether what is
/// read is hashed again.
pub open spec fn is_loose_read(
    read: Result<(ObjectType, Vec<u8>), GitError>,
    format: ObjectFormat,
    oid: ObjectId,
    path: Seq<char>,
    complete: bool,
    inflated: Seq<u8>,
    verify: bool,
) -> bool {
    if !complete && !is_terminated(inflated) {
        read matches Err(GitError::InvalidObject(text)) && text@ == "unable to unpack "@ + hex(oid.raw())
            + " header"@
    } else if !complete {
        read matches Err(GitError::InvalidObject(text)) && text@ == "corrupt loose object '"@ + hex(oid.raw())
            + "'"@
    } else if !is_terminated(inflated) {
        read matches Err(GitError::InvalidObject(text)) && text@ == "header for "@ + hex(oid.raw())
            + " too long, exceeds 32 bytes"@
    } else {
        match parsed_object(inflated) {
            None => read matches Err(err) && is_object_fault(err, inflated),
            Some((object_type, body)) => {
                let actual = digest(format, framed(object_type, body));
                if verify && !(oid.spec_format() == format && oid.raw() == actual) {
                    read matches Err(GitError::InvalidObject(text)) && text@ == "loose object "@ + path
                        + " hashes to "@ + hex(actual)
                } else {
                    read is Ok && read->Ok_0.0 == object_type && read->Ok_0.1@ == body
                }
            },
        }
    }
}

/// The id of an object with a type and a body.
fn object_id_of(format: ObjectFormat, object_type: ObjectType, body: &Vec<u8>) -> (oid: ObjectId)
    ensures
        oid.spec_format() == format,
        oid.raw() == digest(format, framed(object_type, body@)),
{
    let bytes = frame(object_type, body);
    digest_bytes(format, &bytes)
}

/// The bytes whose digest names an object.
pub fn frame(object_type: ObjectType, body: &[u8]) -> (bytes: Vec<u8>)
    ensures
        bytes@ == framed(object_type, body@),
{
    let mut bytes = object_type.name();
    bytes.push(32);
    let mut size = crate::text::decimal_digits(body.len() as u64);
    bytes.append(&mut size);
    bytes.push(0);
    let mut copy = copy_bytes(body);
    bytes.append(&mut copy);
    assert(bytes@ =~= framed(object_type, body@));
    bytes
}

/// What the inflated bytes of a loose object come to.
pub fn judge_loose_read(
    format: ObjectFormat,
    oid: &ObjectId,
    path: &str,
    complete: bool,
    inflated: &[u8],
    verify: bool,
) -> (read: Result<(ObjectType, Vec<u8>), GitError>)
    ensures
        is_loose_read(read, format, *oid, path@, complete, inflated@, verify),
{
    let terminated = framed_loose_header_terminated(inflated);
    if !complete {
        if !terminated {
            return Err(unpack_failed(oid));
        }
        let name = oid.to_hex();
        return Err(GitError::InvalidObject(concat3("corrupt loose object '", name.as_str(), "'")));
    }
    if !terminated {
        return Err(header_too_long(oid));
    }
    match parse_framed_object(inflated) {
        Err(err) => Err(err),
        Ok((object_type, body)) => {
            if verify {
                let actual = object_id_of(format, object_type, &body);
                if !actual.same(oid) {
                    let got = actual.to_hex();
                    return Err(
                        GitError::InvalidObject(
                            concat2(concat3("loose object ", path, " hashes to ").as_str(), got.as_str()),
                        ),
                    );
                }
            }
            Ok((object_type, body))
        },
    }
}

/// Reads a loose object file: its type and body. The lines are what is printed
/// where the stream does not inflate.
pub fn read_object(
    format: ObjectFormat,
    oid: &ObjectId,
    path: &str,
    compressed: &[u8],
    verify: bool,
) -> (read: Reported<Result<(ObjectType, Vec<u8>), GitError>>)
    ensures
        zlib_read(compressed@).0 == ZlibEnd::Complete ==> is_loose_read(
            read.result,
            format,
            *oid,
            path@,
            true,
            zlib_read(compressed@).1,
            verify,
        ) && line_views(read.lines@) == Seq::<Seq<char>>::empty(),
        zlib_read(compressed@).0 != ZlibEnd::Complete ==> line_views(read.lines@) == diagnostic_lines(compressed@)
            && (read.result matches Err(GitError::InvalidObject(text)) && (text@ == "unable to unpack "@ + hex(
            oid.raw(),
        ) + " header"@ || text@ == "corrupt loose object '"@ + hex(oid.raw()) + "'"@)),
{
    let stream = inflate_stream(compressed);
    let complete = match stream.end {
        ZlibEnd::Complete => true,
        _ => false,
    };
    let result = judge_loose_read(format, oid, path, complete, &stream.output, verify);
    let lines = if complete {
        Vec::new()
    } else {
        list_diagnostic(compressed)
    };
    proof {
        if complete {
            assert(line_views(lines@) =~= Seq::<Seq<char>>::empty());
        } else {
            assert(is_loose_read(result, format, *oid, path@, false, stream.output@, verify));
        }
    }
    Reported { result, lines }
}

/// How sound a loose object file is.
#[derive(Debug, PartialEq, Eq)]
pub enum LooseObjectIntegrity {
    /// Inflated, read, and hashed to the id that its path gives.
    Sound,
    /// Sound in itself, but its content has another id.
    HashMismatch { actual: ObjectId },
    /// Unreadable.
    Corrupt,
}

/// What makes a loose object file corrupt, and what is printed of it.
pub open spec fn corruption(
    oid: ObjectId,
    display_path: Seq<char>,
    compressed: Seq<u8>,
    complete: bool,
    inflated: Seq<u8>,
    consumed: u64,
) -> Option<Seq<Seq<char>>> {
    let name = hex(oid.raw());
    let contents = "error: unable to unpack contents of "@ + display_path;
    let header = "error: unable to unpack header of "@ + display_path;
    let broken = "error: corrupt loose object '"@ + name + "'"@;
    if !complete {
        if is_terminated(inflated) {
            Some(diagnostic_lines(compressed) + seq![broken, contents])
        } else {
            Some(diagnostic_lines(compressed) + seq![header])
        }
    } else if !is_terminated(inflated) {
        Some(seq![header])
    } else if consumed < compressed.len() {
        Some(seq!["error: garbage at end of loose object '"@ + name + "'"@, contents])
    } else if declared_size(inflated) is Some && declared_size(inflated)->Some_0 <= usize::MAX && inflated.len()
        - find_byte(inflated, 0, 0)->Some_0 - 1 < declared_size(inflated)->Some_0 {
        Some(seq![broken, contents])
    } else if parsed_object(inflated) is None {
        match unknown_type_header(inflated) {
            Some(bytes) => Some(
                seq!["error: unable to parse type from header '"@ + decode_utf8(bytes) + "' of "@ + display_path],
            ),
            None => Some(seq!["error: unable to parse header of "@ + display_path]),
        }
    } else {
        None
    }
}

fn two_lines(first: String, second: String) -> (lines: Vec<String>)
    ensures
        line_views(lines@) == seq![first@, second@],
{
    let mut lines: Vec<String> = Vec::new();
    lines.push(first);
    lines.push(second);
    assert(line_views(lines@) =~= seq![first@, second@]);
    lines
}

fn one_line(line: String) -> (lines: Vec<String>)
    ensures
        line_views(lines@) == seq![line@],
{
    let mut lines: Vec<String> = Vec::new();
    lines.push(line);
    assert(line_views(lines@) =~= seq![line@]);
    lines
}

/// How sound a loose object file is, given what its stream inflated to.
pub fn judge_loose_object(
    format: ObjectFormat,
    oid: &ObjectId,
    display_path: &str,
    compressed: &[u8],
    complete: bool,
    inflated: &[u8],
    consumed: u64,
) -> (verdict: Reported<LooseObjectIntegrity>)
    ensures
        match corruption(*oid, display_path@, compressed@, complete, inflated@, consumed) {
            Some(lines) => verdict.result is Corrupt && line_views(verdict.lines@) == lines,
            None => {
                let (object_type, body) = parsed_object(inflated@)->Some_0;
                let actual = digest(format, framed(object_type, body));
                &&& verdict.lines@.len() == 0
                &&& if oid.spec_format() == format && oid.raw() == actual {
                    verdict.result is Sound
                } else {
                    verdict.result matches LooseObjectIntegrity::HashMismatch { actual: other } && other.raw()
                        == actual && other.spec_format() == format
                }
            },
        },
{
    let name = oid.to_hex();
    let contents = concat2("error: unable to unpack contents of ", display_path);
    let terminated = framed_loose_header_terminated(inflated);
    if !complete {
        let mut lines = list_diagnostic(compressed);
        let ghost first = line_views(lines@);
        let mut more = if terminated {
            two_lines(concat3("error: corrupt loose object '", name.as_str(), "'"), contents)
        } else {
            one_line(concat2("error: unable to unpack header of ", display_path))
        };
        let ghost second = line_views(more@);
        lines.append(&mut more);
        assert(line_views(lines@) =~= first + second);
        return Reported { result: LooseObjectIntegrity::Corrupt, lines };
    }
    if !terminated {
        return Reported {
            result: LooseObjectIntegrity::Corrupt,
            lines: one_line(concat2("error: unable to unpack header of ", display_path)),
        };
    }
    assert(compressed.len() == compressed@.len());
    if consumed < compressed.len() as u64 {
        return Reported {
            result: LooseObjectIntegrity::Corrupt,
            lines: two_lines(
                concat3("error: garbage at end of loose object '", name.as_str(), "'"),
                contents,
            ),
        };
    }
    match loose_header_declared_size(inflated) {
        Some(declared) => {
            let nul: usize = match position_of(inflated, 0) {
                Some(nul) => nul,
                None => inflated.len(),
            };
            assert(inflated.len() == inflated@.len());
            let body_len: usize = inflated.len() - nul - 1;
            if body_len < declared {
                return Reported {
                    result: LooseObjectIntegrity::Corrupt,
                    lines: two_lines(
                        concat3("error: corrupt loose object '", name.as_str(), "'"),
                        contents,
                    ),
                };
            }
        },
        None => {},
    }
    match parse_framed_object(inflated) {
        Err(_) => match loose_header_with_unknown_type(inflated) {
            Some(header) => Reported {
                result: LooseObjectIntegrity::Corrupt,
                lines: one_line(
                    concat3(
                        concat2("error: unable to parse type from header '", header.as_str()).as_str(),
                        "' of ",
                        display_path,
                    ),
                ),
            },
            None => Reported {
                result: LooseObjectIntegrity::Corrupt,
                lines: one_line(concat2("error: unable to parse header of ", display_path)),
            },
        },
        Ok((object_type, body)) => {
            let actual = object_id_of(format, object_type, &body);
            if actual.same(oid) {
                Reported { result: LooseObjectIntegrity::Sound, lines: Vec::new() }
            } else {
                Reported { result: LooseObjectIntegrity::HashMismatch { actual }, lines: Vec::new() }
            }
        },
    }
}

/// How sound a loose object file is: it is inflated, read, and hashed against
/// the id that its path gives. The lines are what is printed of what is wrong,
/// with `display_path` as it stands.
pub fn verify_object(format: ObjectFormat, oid: &ObjectId, display_path: &str, compressed: &[u8]) -> (verdict: Reported<
    LooseObjectIntegrity,
>)
    ensures
        zlib_read(compressed@).0 != ZlibEnd::Complete ==> verdict.result is Corrupt && exists|inflated: Seq<u8>|
            Some(line_views(verdict.lines@)) == #[trigger] corruption(
                *oid,
                display_path@,
                compressed@,
                false,
                inflated,
                0,
            ),
        zlib_read(compressed@).0 == ZlibEnd::Complete ==> {
            let (_, inflated, consumed) = zlib_read(compressed@);
            match corruption(*oid, display_path@, compressed@, true, inflated, consumed) {
                Some(lines) => verdict.result is Corrupt && line_views(verdict.lines@) == lines,
                None => {
                    let (object_type, body) = parsed_object(inflated)->Some_0;
                    let actual = digest(format, framed(object_type, body));
                    &&& verdict.lines@.len() == 0
                    &&& if oid.spec_format() == format && oid.raw() == actual {
                        verdict.result is Sound
                    } else {
                        verdict.result matches LooseObjectIntegrity::HashMismatch { actual: other }
                            && other.raw() == actual && other.spec_format() == format
                    }
                },
            }
        },
{
    let stream = inflate_stream(compressed);
    let complete = match stream.end {
        ZlibEnd::Complete => true,
        _ => false,
    };
    let verdict = judge_loose_object(
        format,
        oid,
        display_path,
        compressed,
        complete,
        &stream.output,
        stream.consumed,
    );
    proof {
        if !complete {
            assert(Some(line_views(verdict.lines@)) == corruption(
                *oid,
                display_path@,
                compressed@,
                false,
                stream.output@,
                0,
            ));
        }
    }
    verdict
}

/// The bytes that a loose object file is written with: the compressed frame of
/// the object.
pub fn loose_object_bytes(object: &EncodedObject) -> (bytes: Result<Vec<u8>, GitError>)
    ensures
        bytes matches Ok(bytes) && {
            let frame = framed(object.spec_type(), object.body@);
            &&& bytes@ == zlib_stream(frame)
            &&& zlib_read(bytes@) == (ZlibEnd::Complete, frame, bytes@.len() as u64)
            &&& zlib_window(bytes@, 32) == Ok::<Seq<u8>, Seq<char>>(
                if frame.len() <= 32 {
                    frame
                } else {
                    frame.take(32)
                },
            )
        },
{
    let bytes = object.framed_bytes();
    match deflate(&bytes) {
        Some(stream) => {
            proof {
                assert(stream@ + Seq::<u8>::empty() =~= stream@);
                assert(zlib_read(stream@ + Seq::<u8>::empty()) == zlib_read(stream@));
            }
            Ok(stream)
        },
        None => {
            assert(false);
            Err(GitError::Io(String::from_str("zlib deflate failed")))
        },
    }
}

spec fn pow10(k: nat) -> nat
    decreases k,
{
    if k == 0 {
        1
    } else {
        10 * pow10((k - 1) as nat)
    }
}

proof fn lemma_decimal_len(n: nat, k: nat)
    requires
        k >= 1,
        n < pow10(k),
    ensures
        1 <= decimal_bytes(n).len() <= k,
    decreases n,
{
    if n >= 10 {
        if k == 1 {
            assert(pow10(1) == 10 * pow10(0));
            assert(pow10(0) == 1);
        } else {
            assert(n / 10 < pow10((k - 1) as nat)) by (nonlinear_arith)
                requires
                    n < 10 * pow10((k - 1) as nat),
            ;
            lemma_decimal_len(n / 10, (k - 1) as nat);
        }
    }
}

proof fn lemma_decimal(n: nat)
    ensures
        all_digits(decimal_bytes(n)),
        decimal_value(decimal_bytes(n)) == n,
        decimal_bytes(n).len() >= 1,
    decreases n,
{
    let digits = decimal_bytes(n);
    if n < 10 {
        assert(digits == seq![digit_byte(n as int)]);
        assert(digits.drop_last() =~= Seq::empty());
        assert(decimal_value(digits.drop_last()) == 0);
    } else {
        lemma_decimal(n / 10);
        let rest = decimal_bytes(n / 10);
        assert(digits == rest.push(digit_byte((n % 10) as int)));
        assert(digits.drop_last() =~= rest);
        assert forall|i: int| 0 <= i < digits.len() implies 48 <= #[trigger] digits[i] <= 57 by {
            if i < rest.len() {
                assert(digits[i] == rest[i]);
            }
        }
    }
}

/// The header of a framed object: the name of its type and its size.
pub open spec fn frame_header(object_type: ObjectType, len: nat) -> Seq<u8> {
    object_type.spec_name() + seq![32u8] + decimal_bytes(len)
}

/// A framed object reads as what was framed, and its header ends within the
/// window.
pub proof fn law_framing_round_trip(object_type: ObjectType, body: Seq<u8>)
    requires
        body.len() <= u64::MAX,
    ensures
        parsed_object(framed(object_type, body)) == Some((object_type, body)),
        find_byte(framed(object_type, body), 0, 0) == Some(
            frame_header(object_type, body.len()).len() as int,
        ),
        framed(object_type, body).take(frame_header(object_type, body.len()).len() as int) == frame_header(
            object_type,
            body.len(),
        ),
        parsed_header(frame_header(object_type, body.len())) == Some((object_type, body.len() as u64)),
        is_terminated(framed(object_type, body)),
        declared_size(framed(object_type, body)) == Some(body.len()),
{
    let name = object_type.spec_name();
    let digits = decimal_bytes(body.len());
    let header = frame_header(object_type, body.len());
    let bytes = framed(object_type, body);
    lemma_decimal(body.len());
    assert(u64::MAX < pow10(20)) by {
        reveal_with_fuel(pow10, 21);
    }
    lemma_decimal_len(body.len(), 20);
    assert(3 <= name.len() <= 6);
    assert forall|i: int| 0 <= i < name.len() implies 97 <= #[trigger] name[i] <= 122 by {}
    let nul = header.len() as int;
    assert(bytes =~= header + seq![0u8] + body);
    assert(bytes[nul] == 0);
    assert forall|i: int| 0 <= i < nul implies bytes[i] != 0 by {
        assert(bytes[i] == header[i]);
        if i > name.len() {
            assert(header[i] == digits[i - name.len() - 1]);
        } else if i < name.len() {
            assert(header[i] == name[i]);
        }
    }
    lemma_found_at(bytes, 0, nul);
    assert(bytes.take(nul) =~= header);
    assert forall|i: int| 0 <= i < header.len() implies #[trigger] header[i] < 128 by {
        if i > name.len() {
            assert(header[i] == digits[i - name.len() - 1]);
        } else if i < name.len() {
            assert(header[i] == name[i]);
        }
    }
    lemma_ascii_is_utf8(header);
    assert(header[name.len() as int] == 32);
    assert forall|i: int| 0 <= i < name.len() implies header[i] != 32 by {
        assert(header[i] == name[i]);
    }
    lemma_found_at(header, 32, name.len() as int);
    assert(header.take(name.len() as int) =~= name);
    assert(header.skip(name.len() as int + 1) =~= digits);
    assert(digits[0] != 43);
    assert(unsigned_value(digits) == Some(body.len()));
    assert(named_type(name) == Some(object_type)) by {
        let commit = ObjectType::Commit.spec_name();
        let tree = ObjectType::Tree.spec_name();
        let blob = ObjectType::Blob.spec_name();
        let tag = ObjectType::Tag.spec_name();
        assert(commit.len() == 6 && tree.len() == 4 && blob.len() == 4 && tag.len() == 3);
        assert(tree[0] == 116 && blob[0] == 98);
    }
    assert(bytes.skip(nul + 1) =~= body);
    assert(bytes.len() - nul - 1 == body.len());
}

/// What is written as a loose object reads back as the object, is found sound
/// under its id, and shows its type and size to a header read.
pub proof fn law_written_object_reads_back(
    format: ObjectFormat,
    oid: ObjectId,
    path: Seq<char>,
    object_type: ObjectType,
    body: Seq<u8>,
    stream: Seq<u8>,
    read: Result<(ObjectType, Vec<u8>), GitError>,
    verify: bool,
)
    requires
        body.len() <= u64::MAX,
        stream.len() <= u64::MAX,
        oid.spec_format() == format,
        oid.raw() == digest(format, framed(object_type, body)),
        zlib_read(stream) == (ZlibEnd::Complete, framed(object_type, body), stream.len() as u64),
        zlib_window(stream, 32) == Ok::<Seq<u8>, Seq<char>>(
            if framed(object_type, body).len() <= 32 {
                framed(object_type, body)
            } else {
                framed(object_type, body).take(32)
            },
        ),
        is_loose_read(read, format, oid, path, true, zlib_read(stream).1, verify),
    ensures
        read is Ok,
        read->Ok_0.0 == object_type,
        read->Ok_0.1@ == body,
        corruption(oid, path, stream, true, zlib_read(stream).1, zlib_read(stream).2) is None,
        zlib_window(stream, MAX_LOOSE_HEADER_LEN as nat) matches Ok(window) && (find_byte(
            window,
            0,
            0,
        ) matches Some(nul) && parsed_header(window.take(nul)) == Some((object_type, body.len() as u64))),
{
    let bytes = framed(object_type, body);
    law_framing_round_trip(object_type, body);
    let header = frame_header(object_type, body.len());
    let window = zlib_window(stream, 32)->Ok_0;
    let nul = header.len() as int;
    assert(nul < 32);
    crate::loose::lemma_find_byte(bytes, 0, 0);
    assert(window[nul] == bytes[nul]);
    assert forall|i: int| 0 <= i < nul implies window[i] != 0 by {
        assert(window[i] == bytes[i]);
    }
    lemma_found_at(window, 0, nul);
    assert(window.take(nul) =~= bytes.take(nul));
}

} // verus!
