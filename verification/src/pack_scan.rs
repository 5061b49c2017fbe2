//! Reading where the entries of a pack begin and end, and what deltas build on.

use crate::error::GitError;
use crate::install::be32;
use crate::midx::index_of_pack_name;
use crate::midx::MultiPackIndexData;
use crate::midx::MultiPackIndexEntry;
use crate::object::digest;
use crate::object::digest_bytes;
use crate::object_id::byte_slice_eq;
use crate::object_id::ObjectFormat;
use crate::object_id::ObjectId;
use crate::pack_file::has_pack_signature;
use crate::pack_file::pack_signature;
use crate::pack_file::PackIndexEntry;
use crate::text::concat2;
use crate::text::concat3;
use crate::text::decimal;
use crate::text::decimal_text;
use crate::text::hex;
use crate::text::strip_suffix;
use crate::text::text_eq;
use crate::zlib::inflate_stream;
use crate::zlib::inflate_window;
use crate::zlib::zlib_read;
use crate::zlib::zlib_window;
use crate::zlib::ZlibEnd;
use vstd::prelude::*;
use vstd::slice::slice_subrange;
use vstd::string::*;

verus! {

/// What a delta in a pack builds on.
#[derive(Debug, Clone, Copy, PartialEq, Eq)]
pub enum PackDeltaBase {
    /// The entry at an offset of the same pack.
    Offset(u64),
    /// The object with an id.
    Ref(ObjectId),
}

/// Why the entries of a pack cannot be read.
pub enum PackFailure {
    Truncated,
    OffsetOverflow,
    BeforeStart,
    TruncatedBase,
    InvalidKind(u8),
    PastChecksum,
    /// The compressed bytes that do not inflate.
    InflateFailed(Seq<u8>),
    TruncatedStream,
    EmptyStream,
    TooShort,
    /// The checksum stored, and that of the contents.
    ChecksumMismatch(Seq<u8>, Seq<u8>),
    MissingSignature,
    Version(u32),
    TrailingBytes(int),
}

/// Whether an error says of compressed bytes what the decompressor does, given
/// room for so many bytes.
pub open spec fn is_inflate_error(err: GitError, bytes: Seq<u8>, room: nat) -> bool {
    err matches GitError::InvalidObject(text) && text@ == "zlib inflate failed: "@ + match zlib_window(bytes, room) {
        Err(said) => said,
        Ok(_) => Seq::empty(),
    }
}

/// The message of a failure, and which error it is.
pub open spec fn is_pack_error(failure: PackFailure, err: GitError) -> bool {
    match failure {
        PackFailure::Truncated => err matches GitError::InvalidFormat(text) && text@ == "truncated pack entry"@,
        PackFailure::OffsetOverflow => err matches GitError::InvalidFormat(text) && text@
            == "ofs-delta offset overflow"@,
        PackFailure::BeforeStart => err matches GitError::InvalidFormat(text) && text@
            == "ofs-delta points before pack start"@,
        PackFailure::TruncatedBase => err matches GitError::InvalidFormat(text) && text@
            == "truncated ref-delta base object id"@,
        PackFailure::InvalidKind(kind) => err matches GitError::InvalidFormat(text) && text@
            == "invalid pack object kind "@ + decimal(kind as nat),
        PackFailure::PastChecksum => err matches GitError::InvalidFormat(text) && text@
            == "pack entry extends past checksum"@,
        PackFailure::InflateFailed(bytes) => exists|room: nat| #[trigger] is_inflate_error(err, bytes, room),
        PackFailure::TruncatedStream => err matches GitError::InvalidObject(text) && text@
            == "truncated zlib stream"@,
        PackFailure::EmptyStream => err matches GitError::InvalidFormat(text) && text@
            == "empty compressed pack entry"@,
        PackFailure::TooShort => err matches GitError::InvalidFormat(text) && text@ == "pack file too short"@,
        PackFailure::ChecksumMismatch(expected, actual) => err matches GitError::InvalidFormat(text) && text@
            == "pack checksum mismatch: expected "@ + hex(expected) + ", got "@ + hex(actual),
        PackFailure::MissingSignature => err matches GitError::InvalidFormat(text) && text@
            == "missing PACK signature"@,
        PackFailure::Version(version) => err matches GitError::Unsupported(text) && text@ == "pack version "@
            + decimal(version as nat),
        PackFailure::TrailingBytes(count) => err matches GitError::InvalidFormat(text) && text@ == "pack has "@
            + decimal(count as nat) + " trailing bytes before checksum"@,
    }
}

fn invalid_format(text: &str) -> (err: GitError)
    ensures
        err matches GitError::InvalidFormat(inner) && inner@ == text@,
{
    GitError::InvalidFormat(String::from_str(text))
}

/// Where the header of an entry ends: behind the first byte without a
/// continuation bit.
pub open spec fn header_end(pack: Seq<u8>, at: int) -> Option<int>
    decreases pack.len() - at,
{
    if at < 0 || at >= pack.len() {
        None
    } else if pack[at] < 128 {
        Some(at + 1)
    } else {
        header_end(pack, at + 1)
    }
}

/// The type of an entry: bits 4 to 6 of its first byte.
pub open spec fn entry_kind(byte: u8) -> u8 {
    ((byte / 16) % 8) as u8
}

/// The distance that an offset delta records, with the number read so far, and
/// where it ends. Each byte but the last adds one before its bits are
/// appended; bits that leave the top are lost.
pub open spec fn ofs_distance(pack: Seq<u8>, at: int, so_far: u64) -> Result<(u64, int), PackFailure>
    decreases pack.len() - at,
{
    if at < 0 || at >= pack.len() {
        Err(PackFailure::Truncated)
    } else if so_far == u64::MAX {
        Err(PackFailure::OffsetOverflow)
    } else {
        let next = (((so_far + 1) * 128) % 0x1_0000_0000_0000_0000 + pack[at] % 128) as u64;
        if pack[at] < 128 {
            Ok((next, at + 1))
        } else {
            ofs_distance(pack, at + 1, next)
        }
    }
}

/// What an offset delta at `entry_offset` builds on, where its base is recorded
/// from `at` on, and where that ends.
pub open spec fn ofs_base(pack: Seq<u8>, at: int, entry_offset: u64) -> Result<(u64, int), PackFailure> {
    if at < 0 || at >= pack.len() {
        Err(PackFailure::Truncated)
    } else {
        let first = (pack[at] % 128) as u64;
        let distance = if pack[at] < 128 {
            Ok::<(u64, int), PackFailure>((first, at + 1))
        } else {
            ofs_distance(pack, at + 1, first)
        };
        match distance {
            Err(failure) => Err(failure),
            Ok((relative, end)) => if relative > entry_offset {
                Err(PackFailure::BeforeStart)
            } else {
                Ok(((entry_offset - relative) as u64, end))
            },
        }
    }
}

/// What the offset delta at `entry_offset` builds on; moves the cursor behind
/// where that is recorded.
fn parse_ofs_delta_base_offset(pack: &[u8], cursor: &mut usize, entry_offset: u64) -> (base: Result<u64, GitError>)
    ensures
        match ofs_base(pack@, *old(cursor) as int, entry_offset) {
            Ok((offset, end)) => base == Ok::<u64, GitError>(offset) && *final(cursor) == end && end
                <= pack@.len(),
            Err(failure) => base matches Err(err) && is_pack_error(failure, err),
        },
{
    let start: usize = *cursor;
    if start >= pack.len() {
        return Err(invalid_format("truncated pack entry"));
    }
    let mut byte: u8 = pack[start];
    let mut at: usize = start + 1;
    let mut relative: u64 = (byte % 128) as u64;
    while byte >= 128
        invariant
            start < at <= pack@.len(),
            start == *old(cursor),
            *cursor == *old(cursor),
            byte == pack@[at - 1],
            ({
                let distance = if pack@[start as int] < 128 {
                    Ok::<(u64, int), PackFailure>(((pack@[start as int] % 128) as u64, start + 1))
                } else {
                    ofs_distance(pack@, start + 1, (pack@[start as int] % 128) as u64)
                };
                distance == if byte < 128 {
                    Ok::<(u64, int), PackFailure>((relative, at as int))
                } else {
                    ofs_distance(pack@, at as int, relative)
                }
            }),
        decreases pack@.len() - at,
    {
        if at >= pack.len() {
            return Err(invalid_format("truncated pack entry"));
        }
        if relative == u64::MAX {
            return Err(invalid_format("ofs-delta offset overflow"));
        }
        byte = pack[at];
        at += 1;
        let shifted: u128 = ((relative as u128 + 1) * 128) % 0x1_0000_0000_0000_0000;
        assert(shifted % 128 == 0) by (nonlinear_arith)
            requires
                shifted == ((relative + 1) * 128) % 0x1_0000_0000_0000_0000,
        ;
        assert(shifted + byte % 128 <= u64::MAX) by (nonlinear_arith)
            requires
                shifted % 128 == 0,
                0 <= shifted < 0x1_0000_0000_0000_0000,
                0 <= byte <= 255,
        ;
        relative = shifted as u64 + (byte % 128) as u64;
    }
    *cursor = at;
    if relative > entry_offset {
        return Err(invalid_format("ofs-delta points before pack start"));
    }
    Ok(entry_offset - relative)
}

/// The id that a reference delta records from `at` on, and where it ends.
pub open spec fn ref_base(pack: Seq<u8>, at: int, format: ObjectFormat) -> Result<(Seq<u8>, int), PackFailure> {
    if at + format.raw() > pack.len() {
        Err(PackFailure::TruncatedBase)
    } else {
        Ok((pack.subrange(at, at + format.raw()), at + format.raw()))
    }
}

/// The id that a reference delta builds on; moves the cursor behind it.
fn parse_ref_delta_base_oid(format: ObjectFormat, pack: &[u8], cursor: &mut usize) -> (base: Result<
    ObjectId,
    GitError,
>)
    requires
        *old(cursor) <= pack@.len(),
    ensures
        match ref_base(pack@, *old(cursor) as int, format) {
            Ok((raw, end)) => base is Ok && base->Ok_0.raw() == raw && base->Ok_0.spec_format() == format
                && *final(cursor) == end && end <= pack@.len(),
            Err(failure) => base matches Err(err) && is_pack_error(failure, err),
        },
{
    let raw_len: usize = format.raw_len();
    let at: usize = *cursor;
    if raw_len > pack.len() - at {
        return Err(invalid_format("truncated ref-delta base object id"));
    }
    let raw = slice_subrange(pack, at, at + raw_len);
    match ObjectId::from_raw(format, raw) {
        Some(oid) => {
            *cursor = at + raw_len;
            Ok(oid)
        },
        None => {
            assert(false);
            Err(invalid_format("truncated ref-delta base object id"))
        },
    }
}

/// Moves the cursor from the first byte of an entry behind its header.
fn skip_entry_header(pack: &[u8], cursor: &mut usize) -> (kind: Result<u8, GitError>)
    ensures
        match header_end(pack@, *old(cursor) as int) {
            Some(end) => kind == Ok::<u8, GitError>(entry_kind(pack@[*old(cursor) as int])) && *final(cursor) == end
                && *old(cursor) < end <= pack@.len(),
            None => kind matches Err(err) && is_pack_error(PackFailure::Truncated, err),
        },
{
    let start: usize = *cursor;
    let mut at: usize = start;
    while at < pack.len()
        invariant
            start <= at,
            start == *old(cursor),
            *cursor == *old(cursor),
            at > start ==> at <= pack@.len(),
            header_end(pack@, start as int) == header_end(pack@, at as int),
        decreases pack@.len() - at,
    {
        if pack[at] < 128 {
            *cursor = at + 1;
            return Ok((pack[start] / 16) % 8);
        }
        at += 1;
    }
    Err(invalid_format("truncated pack entry"))
}

/// What the entry at an offset builds on, or why that cannot be read.
pub open spec fn delta_base(format: ObjectFormat, pack: Seq<u8>, entry_offset: u64) -> Result<
    Option<(u8, u64, Seq<u8>)>,
    PackFailure,
> {
    match header_end(pack, entry_offset as int) {
        None => Err(PackFailure::Truncated),
        Some(end) => {
            let kind = entry_kind(pack[entry_offset as int]);
            if kind == 6 {
                match ofs_base(pack, end, entry_offset) {
                    Ok((offset, _)) => Ok(Some((kind, offset, Seq::empty()))),
                    Err(failure) => Err(failure),
                }
            } else if kind == 7 {
                match ref_base(pack, end, format) {
                    Ok((raw, _)) => Ok(Some((kind, 0, raw))),
                    Err(failure) => Err(failure),
                }
            } else {
                Ok(None)
            }
        },
    }
}

/// Whether `base` is what is recorded.
pub open spec fn is_base(base: PackDeltaBase, recorded: (u8, u64, Seq<u8>), format: ObjectFormat) -> bool {
    match base {
        PackDeltaBase::Offset(offset) => recorded.0 == 6 && offset == recorded.1,
        PackDeltaBase::Ref(oid) => recorded.0 == 7 && oid.raw() == recorded.2 && oid.spec_format() == format,
    }
}

/// What the entry of a pack at an offset builds on, if it is a delta.
pub fn pack_entry_delta_base(format: ObjectFormat, pack: &[u8], entry_offset: u64) -> (base: Result<
    Option<PackDeltaBase>,
    GitError,
>)
    ensures
        match delta_base(format, pack@, entry_offset) {
            Ok(None) => base matches Ok(None),
            Ok(Some(recorded)) => base matches Ok(Some(base)) && is_base(base, recorded, format),
            Err(failure) => base matches Err(err) && is_pack_error(failure, err),
        },
{
    if entry_offset >= pack.len() as u64 {
        return Err(invalid_format("truncated pack entry"));
    }
    let mut cursor: usize = entry_offset as usize;
    let kind: u8 = match skip_entry_header(pack, &mut cursor) {
        Ok(kind) => kind,
        Err(err) => {
            return Err(err);
        },
    };
    if kind == 6 {
        match parse_ofs_delta_base_offset(pack, &mut cursor, entry_offset) {
            Ok(offset) => Ok(Some(PackDeltaBase::Offset(offset))),
            Err(err) => Err(err),
        }
    } else if kind == 7 {
        match parse_ref_delta_base_oid(format, pack, &mut cursor) {
            Ok(oid) => Ok(Some(PackDeltaBase::Ref(oid))),
            Err(err) => Err(err),
        }
    } else {
        Ok(None)
    }
}

/// The bytes that the zlib stream at the front of some bytes takes.
pub open spec fn member_len(bytes: Seq<u8>) -> Result<int, PackFailure> {
    let (end, _, consumed) = zlib_read(bytes);
    match end {
        ZlibEnd::Complete => Ok(consumed as int),
        ZlibEnd::Incomplete => Err(PackFailure::TruncatedStream),
        ZlibEnd::Corrupt => Err(PackFailure::InflateFailed(bytes)),
    }
}

/// What the end of a zlib stream means for the length of a pack entry, given
/// what the decompressor says of a corrupt one.
pub fn member_len_of(end: ZlibEnd, consumed: u64, complaint: &str) -> (len: Result<u64, GitError>)
    ensures
        match end {
            ZlibEnd::Complete => len == Ok::<u64, GitError>(consumed),
            ZlibEnd::Incomplete => len matches Err(err) && (err matches GitError::InvalidObject(text) && text@
                == "truncated zlib stream"@),
            ZlibEnd::Corrupt => len matches Err(err) && (err matches GitError::InvalidObject(text) && text@
                == "zlib inflate failed: "@ + complaint@),
        },
{
    match end {
        ZlibEnd::Complete => Ok(consumed),
        ZlibEnd::Incomplete => Err(GitError::InvalidObject(String::from_str("truncated zlib stream"))),
        ZlibEnd::Corrupt => Err(GitError::InvalidObject(concat2("zlib inflate failed: ", complaint))),
    }
}

/// The bytes that the compressed part of a pack entry takes.
pub fn inflate_pack_member_len(compressed: &[u8]) -> (len: Result<usize, GitError>)
    ensures
        match member_len(compressed@) {
            Ok(consumed) => len matches Ok(len) && len == consumed && len <= compressed@.len(),
            Err(failure) => len matches Err(err) && is_pack_error(failure, err),
        },
{
    let read = inflate_stream(compressed);
    // With room for more than it came to, one call reaches the fault.
    let room: usize = if read.produced < 0x7fff_ffff {
        read.produced as usize + 1
    } else {
        0x7fff_ffff
    };
    let complaint = match read.end {
        ZlibEnd::Corrupt => match inflate_window(compressed, room) {
            Err(said) => said,
            Ok(_) => String::new(),
        },
        _ => String::new(),
    };
    match member_len_of(read.end, read.consumed, complaint.as_str()) {
        Ok(consumed) => {
            assert(compressed.len() == compressed@.len());
            Ok(consumed as usize)
        },
        Err(err) => {
            proof {
                if read.end == ZlibEnd::Corrupt {
                    reveal_strlit("");
                    assert(zlib_window(compressed@, room as nat) is Ok ==> complaint@ =~= Seq::empty());
                    assert(is_inflate_error(err, compressed@, room as nat));
                    assert(exists|room: nat| #[trigger] is_inflate_error(err, compressed@, room));
                    let failure = PackFailure::InflateFailed(compressed@);
                    assert(failure->InflateFailed_0 == compressed@);
                    assert(is_pack_error(failure, err));
                }
            }
            Err(err)
        },
    }
}

/// Where the entry that begins at `at` ends, or why it cannot be read. The
/// checksum of the pack begins at `trailer`.
pub open spec fn entry_end(format: ObjectFormat, pack: Seq<u8>, trailer: int, at: int) -> Result<int, PackFailure> {
    match header_end(pack, at) {
        None => Err(PackFailure::Truncated),
        Some(header) => {
            let kind = entry_kind(pack[at]);
            let base = if 1 <= kind <= 4 {
                Ok(header)
            } else if kind == 6 {
                match ofs_base(pack, header, at as u64) {
                    Ok((_, end)) => Ok(end),
                    Err(failure) => Err(failure),
                }
            } else if kind == 7 {
                match ref_base(pack, header, format) {
                    Ok((_, end)) => Ok(end),
                    Err(failure) => Err(failure),
                }
            } else {
                Err(PackFailure::InvalidKind(kind))
            };
            match base {
                Err(failure) => Err(failure),
                Ok(start) => if start > trailer {
                    Err(PackFailure::PastChecksum)
                } else {
                    match member_len(pack.subrange(start, trailer)) {
                        Err(failure) => Err(failure),
                        Ok(len) => if len == 0 {
                            Err(PackFailure::EmptyStream)
                        } else {
                            Ok(start + len)
                        },
                    }
                },
            }
        },
    }
}

/// Where the entry that begins at `at` ends.
fn find_entry_end(format: ObjectFormat, pack: &[u8], trailer: usize, at: usize) -> (end: Result<usize, GitError>)
    requires
        at <= trailer <= pack@.len(),
    ensures
        match entry_end(format, pack@, trailer as int, at as int) {
            Ok(position) => end matches Ok(end) && end == position && at < end <= trailer,
            Err(failure) => end matches Err(err) && is_pack_error(failure, err),
        },
{
    let mut cursor: usize = at;
    let kind: u8 = match skip_entry_header(pack, &mut cursor) {
        Ok(kind) => kind,
        Err(err) => {
            return Err(err);
        },
    };
    if kind == 6 {
        match parse_ofs_delta_base_offset(pack, &mut cursor, at as u64) {
            Ok(_) => {},
            Err(err) => {
                return Err(err);
            },
        }
    } else if kind == 7 {
        match parse_ref_delta_base_oid(format, pack, &mut cursor) {
            Ok(_) => {},
            Err(err) => {
                return Err(err);
            },
        }
    } else if kind == 0 || kind == 5 {
        return Err(
            GitError::InvalidFormat(
                concat2("invalid pack object kind ", decimal_text(kind as u64).as_str()),
            ),
        );
    }
    proof {
        lemma_ofs_end(pack@, header_end(pack@, at as int)->Some_0, at as u64);
    }
    if cursor > trailer {
        return Err(invalid_format("pack entry extends past checksum"));
    }
    let len: usize = match inflate_pack_member_len(slice_subrange(pack, cursor, trailer)) {
        Ok(len) => len,
        Err(err) => {
            return Err(err);
        },
    };
    if len == 0 {
        return Err(invalid_format("empty compressed pack entry"));
    }
    Ok(cursor + len)
}

proof fn lemma_ofs_end(pack: Seq<u8>, at: int, entry_offset: u64)
    requires
        0 <= at,
    ensures
        ofs_base(pack, at, entry_offset) matches Ok((_, end)) ==> at < end <= pack.len(),
{
    if at < pack.len() {
        lemma_distance_end(pack, at + 1, (pack[at] % 128) as u64);
    }
}

proof fn lemma_distance_end(pack: Seq<u8>, at: int, so_far: u64)
    requires
        0 <= at,
    ensures
        ofs_distance(pack, at, so_far) matches Ok((_, end)) ==> at < end <= pack.len(),
    decreases pack.len() - at,
{
    if at < pack.len() && so_far != u64::MAX && pack[at] >= 128 {
        lemma_distance_end(
            pack,
            at + 1,
            (((so_far + 1) * 128) % 0x1_0000_0000_0000_0000 + pack[at] % 128) as u64,
        );
    }
}

/// Where the entry at `target` ends, in a walk over `remaining` entries from
/// `at` on; none where no entry begins there.
pub open spec fn scan_entries(
    format: ObjectFormat,
    pack: Seq<u8>,
    trailer: int,
    at: int,
    remaining: nat,
    target: u64,
) -> Result<Option<int>, PackFailure>
    decreases remaining,
{
    if remaining == 0 {
        if at != trailer {
            Err(PackFailure::TrailingBytes(trailer - at))
        } else {
            Ok(None)
        }
    } else {
        match entry_end(format, pack, trailer, at) {
            Err(failure) => Err(failure),
            Ok(end) => if at == target {
                Ok(Some(end))
            } else {
                scan_entries(format, pack, trailer, end, (remaining - 1) as nat, target)
            },
        }
    }
}

/// Where the entry of a pack at `target` ends, read from the pack alone: its
/// checksum and header are checked first, then the entries are walked.
pub open spec fn scanned_end(format: ObjectFormat, pack: Seq<u8>, target: u64) -> Result<Option<int>, PackFailure> {
    let trailer = pack.len() - format.raw();
    if pack.len() < 12 + format.raw() {
        Err(PackFailure::TooShort)
    } else if digest(format, pack.take(trailer)) != pack.skip(trailer) {
        Err(PackFailure::ChecksumMismatch(pack.skip(trailer), digest(format, pack.take(trailer))))
    } else if pack.take(4) != pack_signature() {
        Err(PackFailure::MissingSignature)
    } else if be32(pack, 4) != 2 && be32(pack, 4) != 3 {
        Err(PackFailure::Version(be32(pack, 4)))
    } else {
        scan_entries(format, pack, trailer, 12, be32(pack, 8) as nat, target)
    }
}

fn be32_at(bytes: &[u8], at: usize) -> (value: u32)
    requires
        at + 4 <= bytes@.len(),
    ensures
        value == be32(bytes@, at as int),
{
    assert(at + 4 <= bytes.len());
    (bytes[at] as u32) * 0x100_0000 + (bytes[at + 1] as u32) * 0x1_0000 + (bytes[at + 2] as u32) * 0x100
        + bytes[at + 3] as u32
}

/// Where the entry of a pack at an offset ends, read from the pack alone; none
/// where no entry begins there.
pub fn scan_pack_offsets_without_index(format: ObjectFormat, pack: &[u8], target_offset: u64) -> (end: Result<
    Option<u64>,
    GitError,
>)
    ensures
        match scanned_end(format, pack@, target_offset) {
            Ok(Some(position)) => end matches Ok(Some(end)) && end == position,
            Ok(None) => end matches Ok(None),
            Err(failure) => end matches Err(err) && is_pack_error(failure, err),
        },
{
    let trailer_len: usize = format.raw_len();
    if pack.len() < 12 + trailer_len {
        return Err(invalid_format("pack file too short"));
    }
    let trailer: usize = pack.len() - trailer_len;
    let covered = slice_subrange(pack, 0, trailer);
    let tail = slice_subrange(pack, trailer, pack.len());
    proof {
        assert(covered@ =~= pack@.take(trailer as int));
        assert(tail@ =~= pack@.skip(trailer as int));
    }
    let actual = digest_bytes(format, covered);
    let actual_raw = actual.as_bytes();
    if !byte_slice_eq(&actual_raw, tail) {
        let expected_text = crate::text::hex_text(tail);
        let actual_text = actual.to_hex();
        return Err(
            GitError::InvalidFormat(
                concat2(
                    concat3("pack checksum mismatch: expected ", expected_text.as_str(), ", got ").as_str(),
                    actual_text.as_str(),
                ),
            ),
        );
    }
    if !has_pack_signature(pack) {
        return Err(invalid_format("missing PACK signature"));
    }
    let version: u32 = be32_at(pack, 4);
    if version != 2 && version != 3 {
        return Err(
            GitError::Unsupported(concat2("pack version ", decimal_text(version as u64).as_str())),
        );
    }
    let count: u32 = be32_at(pack, 8);
    let mut cursor: usize = 12;
    let mut done: u32 = 0;
    while done < count
        invariant
            done <= count,
            cursor <= trailer <= pack@.len(),
            scan_entries(format, pack@, trailer as int, 12, count as nat, target_offset) == scan_entries(
                format,
                pack@,
                trailer as int,
                cursor as int,
                (count - done) as nat,
                target_offset,
            ),
            scanned_end(format, pack@, target_offset) == scan_entries(
                format,
                pack@,
                trailer as int,
                12,
                count as nat,
                target_offset,
            ),
        decreases count - done,
    {
        let entry_offset: usize = cursor;
        match find_entry_end(format, pack, trailer, cursor) {
            Err(err) => {
                return Err(err);
            },
            Ok(end) => {
                if entry_offset as u64 == target_offset {
                    return Ok(Some(end as u64));
                }
                cursor = end;
            },
        }
        done += 1;
    }
    if cursor != trailer {
        let rest: usize = trailer - cursor;
        return Err(
            GitError::InvalidFormat(
                concat3("pack has ", decimal_text(rest as u64).as_str(), " trailing bytes before checksum"),
            ),
        );
    }
    Ok(None)
}

/// Where an entry ends, and the id of what it builds on.
pub struct PackIndexOffsetInfo {
    pub end_offset: u64,
    pub delta_base_oid: Option<ObjectId>,
}

/// How many of the first `n` entries begin at an offset.
pub open spec fn offset_count(entries: Seq<PackIndexEntry>, offset: u64, n: nat) -> nat
    decreases n,
{
    if n == 0 {
        0
    } else if entries[n - 1].offset == offset {
        offset_count(entries, offset, (n - 1) as nat) + 1
    } else {
        offset_count(entries, offset, (n - 1) as nat)
    }
}

/// The least offset behind another among the first `n` entries.
pub open spec fn next_offset(entries: Seq<PackIndexEntry>, offset: u64, n: nat) -> Option<u64>
    decreases n,
{
    if n == 0 {
        None
    } else {
        let candidate = entries[n - 1].offset;
        match next_offset(entries, offset, (n - 1) as nat) {
            Some(best) => if offset < candidate < best {
                Some(candidate)
            } else {
                Some(best)
            },
            None => if offset < candidate {
                Some(candidate)
            } else {
                None
            },
        }
    }
}

/// The last of the first `n` entries that begins at an offset.
pub open spec fn oid_at_offset(entries: Seq<PackIndexEntry>, offset: u64, n: nat) -> Option<ObjectId>
    decreases n,
{
    if n == 0 {
        None
    } else if entries[n - 1].offset == offset {
        Some(entries[n - 1].oid)
    } else {
        oid_at_offset(entries, offset, (n - 1) as nat)
    }
}

/// Why the place of an entry cannot be told from an index.
pub open spec fn offsets_failure(
    entries: Seq<PackIndexEntry>,
    target: u64,
    trailer: Option<u64>,
    base: Option<u64>,
    err: GitError,
) -> bool {
    if offset_count(entries, target, entries.len()) == 0 {
        err matches GitError::InvalidFormat(text) && text@ == "pack index offset "@ + decimal(target as nat)
            + " not found"@
    } else if base is Some && oid_at_offset(entries, base->Some_0, entries.len()) is None {
        err matches GitError::InvalidFormat(text) && text@ == "ofs-delta base offset "@ + decimal(
            base->Some_0 as nat,
        ) + " not found"@
    } else {
        &&& offset_count(entries, target, entries.len()) == 1
        &&& next_offset(entries, target, entries.len()) is None
        &&& trailer is None
        &&& err matches GitError::InvalidFormat(text) && text@
            == "pack size unavailable for final indexed object"@
    }
}

/// Whether the place of an entry can be told from an index.
pub open spec fn offsets_known(
    entries: Seq<PackIndexEntry>,
    target: u64,
    trailer: Option<u64>,
    base: Option<u64>,
) -> bool {
    &&& offset_count(entries, target, entries.len()) > 0
    &&& base matches Some(offset) ==> oid_at_offset(entries, offset, entries.len()) is Some
    &&& offset_count(entries, target, entries.len()) > 1 || next_offset(entries, target, entries.len()) is Some
        || trailer is Some
}

/// Where the entry at an offset ends, as an index tells: where the next entry
/// begins, or where the checksum does. An entry that shares its offset with
/// another takes nothing.
pub open spec fn indexed_end(entries: Seq<PackIndexEntry>, target: u64, trailer: Option<u64>) -> u64 {
    if offset_count(entries, target, entries.len()) > 1 {
        target
    } else {
        match next_offset(entries, target, entries.len()) {
            Some(offset) => offset,
            None => trailer->Some_0,
        }
    }
}

proof fn lemma_offset_count_bound(entries: Seq<PackIndexEntry>, offset: u64, n: nat)
    ensures
        offset_count(entries, offset, n) <= n,
    decreases n,
{
    if n > 0 {
        lemma_offset_count_bound(entries, offset, (n - 1) as nat);
    }
}

/// Where the entry at an offset ends, and the id of the entry that it builds
/// on, told from the index of the pack.
pub fn scan_pack_index_offsets(
    entries: &Vec<PackIndexEntry>,
    target_offset: u64,
    trailer_offset: Option<u64>,
    delta_base_offset: Option<u64>,
) -> (info: Result<PackIndexOffsetInfo, GitError>)
    ensures
        info is Ok <==> offsets_known(entries@, target_offset, trailer_offset, delta_base_offset),
        match info {
            Ok(info) => {
                &&& info.end_offset == indexed_end(entries@, target_offset, trailer_offset)
                &&& info.delta_base_oid == match delta_base_offset {
                    Some(offset) => oid_at_offset(entries@, offset, entries@.len()),
                    None => None,
                }
            },
            Err(err) => offsets_failure(entries@, target_offset, trailer_offset, delta_base_offset, err),
        },
{
    let mut target_count: usize = 0;
    let mut next: Option<u64> = None;
    let mut base_oid: Option<ObjectId> = None;
    let mut i: usize = 0;
    while i < entries.len()
        invariant
            i <= entries@.len(),
            target_count == offset_count(entries@, target_offset, i as nat),
            next == next_offset(entries@, target_offset, i as nat),
            base_oid == match delta_base_offset {
                Some(offset) => oid_at_offset(entries@, offset, i as nat),
                None => None,
            },
        decreases entries@.len() - i,
    {
        let offset: u64 = entries[i].offset;
        proof {
            lemma_offset_count_bound(entries@, target_offset, i as nat);
        }
        if offset == target_offset {
            target_count += 1;
        } else if offset > target_offset {
            next = match next {
                Some(best) => if best <= offset {
                    Some(best)
                } else {
                    Some(offset)
                },
                None => Some(offset),
            };
        }
        match delta_base_offset {
            Some(base) => {
                if base == offset {
                    base_oid = Some(entries[i].oid);
                }
            },
            None => {},
        }
        i += 1;
    }
    if target_count == 0 {
        return Err(
            GitError::InvalidFormat(
                concat3("pack index offset ", decimal_text(target_offset).as_str(), " not found"),
            ),
        );
    }
    match delta_base_offset {
        Some(offset) => {
            if base_oid.is_none() {
                return Err(
                    GitError::InvalidFormat(
                        concat3("ofs-delta base offset ", decimal_text(offset).as_str(), " not found"),
                    ),
                );
            }
        },
        None => {},
    }
    let end_offset: u64 = if target_count > 1 {
        target_offset
    } else {
        match next {
            Some(offset) => offset,
            None => match trailer_offset {
                Some(offset) => offset,
                None => {
                    return Err(invalid_format("pack size unavailable for final indexed object"));
                },
            },
        }
    };
    Ok(PackIndexOffsetInfo { end_offset, delta_base_oid: base_oid })
}

/// The number that a multi-pack index gives the pack with an index name.
pub open spec fn pack_number(names: Seq<String>, index_name: Seq<char>, n: nat) -> Option<int>
    decreases n,
{
    if n == 0 {
        None
    } else {
        match pack_number(names, index_name, (n - 1) as nat) {
            Some(i) => Some(i),
            None => if names[n - 1]@ == index_name {
                Some(n - 1)
            } else {
                None
            },
        }
    }
}

/// The first of the first `n` objects that is in a pack at an offset.
pub open spec fn midx_oid_at(
    objects: Seq<MultiPackIndexEntry>,
    pack: u32,
    offset: u64,
    n: nat,
) -> Option<ObjectId>
    decreases n,
{
    if n == 0 {
        None
    } else {
        match midx_oid_at(objects, pack, offset, (n - 1) as nat) {
            Some(oid) => Some(oid),
            None => if objects[n - 1].pack_int_id == pack && objects[n - 1].offset == offset {
                Some(objects[n - 1].oid)
            } else {
                None
            },
        }
    }
}

/// The name of the index that goes with the name of a pack file; the name
/// itself where it is not that of a pack file.
pub open spec fn index_name_of(pack_name: Seq<char>) -> Seq<char> {
    match index_of_pack_name(pack_name) {
        Some(name) => name,
        None => pack_name,
    }
}

/// The object that a multi-pack index has at an offset of a pack.
pub open spec fn midx_oid(midx: MultiPackIndexData, pack_name: Seq<char>, offset: u64) -> Option<ObjectId> {
    match pack_number(midx.pack_names@, index_name_of(pack_name), midx.pack_names@.len()) {
        Some(number) => midx_oid_at(midx.objects@, number as u32, offset, midx.objects@.len()),
        None => None,
    }
}

proof fn lemma_pack_number(names: Seq<String>, index_name: Seq<char>, n: nat, m: nat)
    requires
        n <= m,
        pack_number(names, index_name, n) is Some,
    ensures
        pack_number(names, index_name, m) == pack_number(names, index_name, n),
    decreases m - n,
{
    if n < m {
        lemma_pack_number(names, index_name, n, (m - 1) as nat);
    }
}

proof fn lemma_midx_oid_at(objects: Seq<MultiPackIndexEntry>, pack: u32, offset: u64, n: nat, m: nat)
    requires
        n <= m,
        midx_oid_at(objects, pack, offset, n) is Some,
    ensures
        midx_oid_at(objects, pack, offset, m) == midx_oid_at(objects, pack, offset, n),
    decreases m - n,
{
    if n < m {
        lemma_midx_oid_at(objects, pack, offset, n, (m - 1) as nat);
    }
}

/// The object that a multi-pack index has at an offset of the pack with a file
/// name.
pub fn midx_oid_for_pack_offset(midx: &MultiPackIndexData, pack_name: &str, offset: u64) -> (oid: Option<ObjectId>)
    ensures
        oid == midx_oid(*midx, pack_name@, offset),
{
    let index_name = match strip_suffix(pack_name, ".pack") {
        Some(stem) => {
            proof {
                reveal_strlit(".pack");
                assert(pack_name@.take(pack_name@.len() - 5) =~= stem@);
            }
            concat2(stem.as_str(), ".idx")
        },
        None => String::from_str(pack_name),
    };
    let mut number: usize = 0;
    let mut found = false;
    while number < midx.pack_names.len() && !found
        invariant
            number <= midx.pack_names@.len(),
            index_name@ == index_name_of(pack_name@),
            !found ==> pack_number(midx.pack_names@, index_name@, number as nat) is None,
            found ==> number < midx.pack_names@.len() && pack_number(
                midx.pack_names@,
                index_name@,
                midx.pack_names@.len(),
            ) == Some(number as int),
        decreases midx.pack_names@.len() - number + if found {
                0int
            } else {
                1
            },
    {
        if text_eq(midx.pack_names[number].as_str(), index_name.as_str()) {
            proof {
                lemma_pack_number(
                    midx.pack_names@,
                    index_name@,
                    (number + 1) as nat,
                    midx.pack_names@.len(),
                );
            }
            found = true;
        } else {
            number += 1;
        }
    }
    if !found {
        return None;
    }
    let pack: u32 = number as u32;
    let mut i: usize = 0;
    while i < midx.objects.len()
        invariant
            i <= midx.objects@.len(),
            midx_oid_at(midx.objects@, pack, offset, i as nat) is None,
            midx_oid(*midx, pack_name@, offset) == midx_oid_at(midx.objects@, pack, offset, midx.objects@.len()),
        decreases midx.objects@.len() - i,
    {
        let entry = midx.objects[i];
        if entry.pack_int_id == pack && entry.offset == offset {
            proof {
                lemma_midx_oid_at(midx.objects@, pack, offset, (i + 1) as nat, midx.objects@.len());
            }
            return Some(entry.oid);
        }
        i += 1;
    }
    None
}

/// How much of a pack an object takes, and what it builds on; the null id where
/// it builds on nothing.
#[derive(Debug, Clone, Copy, PartialEq, Eq)]
pub struct ObjectStorageInfo {
    pub disk_size: u64,
    pub deltabase: ObjectId,
}

/// The offset that a recorded base is at.
pub open spec fn base_offset(recorded: Option<(u8, u64, Seq<u8>)>) -> Option<u64> {
    match recorded {
        Some((kind, offset, _)) => if kind == 6 {
            Some(offset)
        } else {
            None
        },
        None => None,
    }
}

/// Whether `oid` is what the entry builds on, given the id found at the offset
/// that it records, if any.
pub open spec fn is_deltabase(
    oid: ObjectId,
    recorded: Option<(u8, u64, Seq<u8>)>,
    at_offset: Option<ObjectId>,
    format: ObjectFormat,
) -> bool {
    match recorded {
        None => oid.spec_format() == format && oid.raw() == Seq::new(format.raw(), |i: int| 0u8),
        Some((kind, _, raw)) => if kind == 6 {
            at_offset == Some(oid)
        } else {
            oid.spec_format() == format && oid.raw() == raw
        },
    }
}

/// What the bytes of a pack say an entry builds on; nothing where there are
/// none.
pub open spec fn recorded_base(format: ObjectFormat, pack: Option<Seq<u8>>, offset: u64) -> Result<
    Option<(u8, u64, Seq<u8>)>,
    PackFailure,
> {
    match pack {
        Some(bytes) => delta_base(format, bytes, offset),
        None => Ok(None),
    }
}

/// Whether `info` is what the index of a pack, and the pack where it is there,
/// tell of the object at an offset.
pub open spec fn is_indexed_info(
    format: ObjectFormat,
    offset: u64,
    entries: Seq<PackIndexEntry>,
    pack: Option<Seq<u8>>,
    info: Result<ObjectStorageInfo, GitError>,
) -> bool {
    let trailer = match pack {
        Some(bytes) => Some((bytes.len() - format.raw()) as u64),
        None => None::<u64>,
    };
    if pack is Some && pack->Some_0.len() < format.raw() {
        info matches Err(GitError::InvalidFormat(text)) && text@ == "pack file shorter than checksum"@
    } else {
        match recorded_base(format, pack, offset) {
            Err(failure) => info matches Err(err) && is_pack_error(failure, err),
            Ok(recorded) => if !offsets_known(entries, offset, trailer, base_offset(recorded)) {
                info matches Err(err) && offsets_failure(
                    entries,
                    offset,
                    trailer,
                    base_offset(recorded),
                    err,
                )
            } else if indexed_end(entries, offset, trailer) < offset {
                info matches Err(GitError::InvalidFormat(text)) && text@
                    == "pack index offsets are not sorted"@
            } else {
                &&& info is Ok
                &&& info->Ok_0.disk_size == indexed_end(entries, offset, trailer) - offset
                &&& is_deltabase(
                    info->Ok_0.deltabase,
                    recorded,
                    match base_offset(recorded) {
                        Some(at) => oid_at_offset(entries, at, entries.len()),
                        None => None,
                    },
                    format,
                )
            },
        }
    }
}

/// What a packed object takes and builds on, told from the index of its pack.
pub fn indexed_storage_info(
    format: ObjectFormat,
    offset: u64,
    entries: &Vec<PackIndexEntry>,
    pack: Option<&[u8]>,
) -> (info: Result<ObjectStorageInfo, GitError>)
    ensures
        is_indexed_info(
            format,
            offset,
            entries@,
            match pack {
                Some(bytes) => Some(bytes@),
                None => None,
            },
            info,
        ),
{
    let mut trailer: Option<u64> = None;
    let mut base: Option<PackDeltaBase> = None;
    match pack {
        Some(bytes) => {
            if bytes.len() < format.raw_len() {
                return Err(invalid_format("pack file shorter than checksum"));
            }
            trailer = Some((bytes.len() - format.raw_len()) as u64);
            base = match pack_entry_delta_base(format, bytes, offset) {
                Ok(base) => base,
                Err(err) => {
                    return Err(err);
                },
            };
        },
        None => {},
    }
    let delta_base_offset = match base {
        Some(PackDeltaBase::Offset(at)) => Some(at),
        _ => None,
    };
    let found = match scan_pack_index_offsets(entries, offset, trailer, delta_base_offset) {
        Ok(found) => found,
        Err(err) => {
            return Err(err);
        },
    };
    if found.end_offset < offset {
        return Err(invalid_format("pack index offsets are not sorted"));
    }
    let deltabase = match base {
        Some(PackDeltaBase::Ref(oid)) => oid,
        Some(PackDeltaBase::Offset(_)) => match found.delta_base_oid {
            Some(oid) => oid,
            None => {
                assert(false);
                ObjectId::null(format)
            },
        },
        None => ObjectId::null(format),
    };
    Ok(ObjectStorageInfo { disk_size: found.end_offset - offset, deltabase })
}

/// Whether `info` is what a pack alone, and a multi-pack index where there is
/// one, tell of the object at an offset.
pub open spec fn is_scanned_info(
    format: ObjectFormat,
    offset: u64,
    pack: Seq<u8>,
    pack_name: Seq<char>,
    midx: Option<MultiPackIndexData>,
    info: Result<ObjectStorageInfo, GitError>,
) -> bool {
    let base_at = |at: u64|
        match midx {
            Some(midx) => midx_oid(midx, pack_name, at),
            None => None,
        };
    if pack.len() < format.raw() {
        info matches Err(GitError::InvalidFormat(text)) && text@ == "pack file shorter than checksum"@
    } else {
        match delta_base(format, pack, offset) {
            Err(failure) => info matches Err(err) && is_pack_error(failure, err),
            Ok(recorded) => match scanned_end(format, pack, offset) {
                Err(failure) => info matches Err(err) && is_pack_error(failure, err),
                Ok(None) => info matches Err(GitError::InvalidFormat(text)) && text@ == "pack offset "@
                    + decimal(offset as nat) + " not found"@,
                Ok(Some(end)) => if base_offset(recorded) is Some && base_at(
                    base_offset(recorded)->Some_0,
                ) is None {
                    info matches Err(GitError::InvalidFormat(text)) && text@ == "ofs-delta base offset "@
                        + decimal(base_offset(recorded)->Some_0 as nat) + " not found"@
                } else {
                    &&& info is Ok
                    &&& info->Ok_0.disk_size == end - offset
                    &&& is_deltabase(
                        info->Ok_0.deltabase,
                        recorded,
                        match base_offset(recorded) {
                            Some(at) => base_at(at),
                            None => None,
                        },
                        format,
                    )
                },
            },
        }
    }
}

/// What a packed object takes and builds on, told from its pack alone and, for
/// the id of an entry that it builds on, from a multi-pack index.
pub fn scanned_storage_info(
    format: ObjectFormat,
    offset: u64,
    pack: &[u8],
    pack_name: &str,
    midx: &Option<MultiPackIndexData>,
) -> (info: Result<ObjectStorageInfo, GitError>)
    ensures
        is_scanned_info(format, offset, pack@, pack_name@, *midx, info),
{
    if pack.len() < format.raw_len() {
        return Err(invalid_format("pack file shorter than checksum"));
    }
    let base = match pack_entry_delta_base(format, pack, offset) {
        Ok(base) => base,
        Err(err) => {
            return Err(err);
        },
    };
    let end: u64 = match scan_pack_offsets_without_index(format, pack, offset) {
        Err(err) => {
            return Err(err);
        },
        Ok(None) => {
            return Err(
                GitError::InvalidFormat(
                    concat3("pack offset ", decimal_text(offset).as_str(), " not found"),
                ),
            );
        },
        Ok(Some(end)) => end,
    };
    proof {
        lemma_scan_forward(format, pack@, offset);
    }
    let deltabase = match base {
        Some(PackDeltaBase::Ref(oid)) => oid,
        Some(PackDeltaBase::Offset(at)) => {
            let found = match midx {
                Some(midx) => midx_oid_for_pack_offset(midx, pack_name, at),
                None => None,
            };
            match found {
                Some(oid) => oid,
                None => {
                    return Err(
                        GitError::InvalidFormat(
                            concat3("ofs-delta base offset ", decimal_text(at).as_str(), " not found"),
                        ),
                    );
                },
            }
        },
        None => ObjectId::null(format),
    };
    Ok(ObjectStorageInfo { disk_size: end - offset, deltabase })
}

proof fn lemma_entry_forward(format: ObjectFormat, pack: Seq<u8>, trailer: int, at: int)
    requires
        0 <= at,
    ensures
        entry_end(format, pack, trailer, at) matches Ok(end) ==> at < end,
{
    lemma_header_forward(pack, at);
    if let Some(header) = header_end(pack, at) {
        lemma_ofs_end(pack, header, at as u64);
    }
}

proof fn lemma_header_forward(pack: Seq<u8>, at: int)
    ensures
        header_end(pack, at) matches Some(end) ==> at < end <= pack.len(),
    decreases pack.len() - at,
{
    if 0 <= at < pack.len() && pack[at] >= 128 {
        lemma_header_forward(pack, at + 1);
    }
}

proof fn lemma_scan_entries_forward(
    format: ObjectFormat,
    pack: Seq<u8>,
    trailer: int,
    at: int,
    remaining: nat,
    target: u64,
)
    requires
        0 <= at,
    ensures
        scan_entries(format, pack, trailer, at, remaining, target) matches Ok(Some(end)) ==> target < end,
    decreases remaining,
{
    if remaining > 0 {
        lemma_entry_forward(format, pack, trailer, at);
        if let Ok(end) = entry_end(format, pack, trailer, at) {
            if at != target {
                lemma_scan_entries_forward(format, pack, trailer, end, (remaining - 1) as nat, target);
            }
        }
    }
}

/// An entry that is found ends behind where it begins.
proof fn lemma_scan_forward(format: ObjectFormat, pack: Seq<u8>, target: u64)
    ensures
        scanned_end(format, pack, target) matches Ok(Some(end)) ==> target < end,
{
    if pack.len() >= 12 + format.raw() {
        lemma_scan_entries_forward(
            format,
            pack,
            pack.len() - format.raw(),
            12,
            be32(pack, 8) as nat,
            target,
        );
    }
}

/// What a packed object takes and builds on: told from the index of its pack
/// where that reads, else from the pack alone, which must then be there.
pub fn packed_object_storage_info(
    format: ObjectFormat,
    offset: u64,
    index: &Option<Vec<PackIndexEntry>>,
    pack: &Result<Vec<u8>, GitError>,
    pack_name: &str,
    midx: &Option<MultiPackIndexData>,
) -> (info: Result<ObjectStorageInfo, GitError>)
    ensures
        match (*index, *pack) {
            (Some(entries), Ok(bytes)) => is_indexed_info(format, offset, entries@, Some(bytes@), info),
            (Some(entries), Err(_)) => is_indexed_info(format, offset, entries@, None, info),
            (None, Ok(bytes)) => is_scanned_info(format, offset, bytes@, pack_name@, *midx, info),
            (None, Err(err)) => info == Err::<ObjectStorageInfo, GitError>(err),
        },
{
    match index {
        Some(entries) => match pack {
            Ok(bytes) => indexed_storage_info(format, offset, entries, Some(bytes.as_slice())),
            Err(_) => indexed_storage_info(format, offset, entries, None),
        },
        None => match pack {
            Ok(bytes) => scanned_storage_info(format, offset, bytes.as_slice(), pack_name, midx),
            Err(err) => Err(err.copy()),
        },
    }
}

} // verus!
