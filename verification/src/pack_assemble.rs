//! Packs put together from entries that are copied as they stand and objects
//! that are written whole.

use crate::error::GitError;
use crate::install::be32;
use crate::object::digest;
use crate::object::digest_bytes;
use crate::object::EncodedObject;
use crate::object::ObjectType;
use crate::object_id::copy_bytes;
use crate::object_id::ObjectFormat;
use crate::pack_file::has_pack_signature;
use crate::pack_file::pack_signature;
use crate::pack_scan::entry_end;
use crate::pack_scan::entry_kind;
use crate::pack_scan::header_end;
use crate::pack_scan::member_len;
use crate::text::concat2;
use crate::text::decimal;
use crate::text::decimal_text;
use crate::transfer::ReachablePackObject;
use crate::zlib::deflate;
use crate::zlib::zlib_read;
use crate::zlib::zlib_stream;
use crate::zlib::ZlibEnd;
use vstd::prelude::*;
use vstd::slice::slice_subrange;
use vstd::string::*;

verus! {

/// The number of a type in the header of a pack entry.
pub open spec fn type_bits(object_type: ObjectType) -> u8 {
    match object_type {
        ObjectType::Commit => 1,
        ObjectType::Tree => 2,
        ObjectType::Blob => 3,
        ObjectType::Tag => 4,
    }
}

/// A number in groups of seven bits, the lowest first, each but the last with
/// the continuation bit.
pub open spec fn varint(n: nat) -> Seq<u8>
    decreases n,
{
    if n < 128 {
        seq![n as u8]
    } else {
        seq![(128 + n % 128) as u8] + varint(n / 128)
    }
}

/// The header of a pack entry: the type and the low four bits of the size in
/// its first byte, the rest of the size behind.
pub open spec fn entry_header(object_type: ObjectType, size: nat) -> Seq<u8> {
    if size < 16 {
        seq![(16 * type_bits(object_type) + size) as u8]
    } else {
        seq![(128 + 16 * type_bits(object_type) + size % 16) as u8] + varint(size / 16)
    }
}

/// The pack entry of an object that is written whole.
pub open spec fn whole_entry(object_type: ObjectType, body: Seq<u8>) -> Seq<u8> {
    entry_header(object_type, body.len()) + zlib_stream(body)
}

/// Whether the compressed form of a body is what the decoder reads the body
/// back from, whatever follows.
pub open spec fn is_readable(body: Seq<u8>) -> bool {
    let stream = zlib_stream(body);
    &&& stream.len() > 0
    &&& forall|tail: Seq<u8>| #[trigger]
        zlib_read(stream + tail) == (ZlibEnd::Complete, body, stream.len() as u64)
}

/// Adds the pack entry of an object that is written whole.
pub fn write_undeltified_pack_entry(out: &mut Vec<u8>, object: &EncodedObject) -> (written: Result<(), GitError>)
    ensures
        written is Ok,
        final(out)@ == old(out)@ + whole_entry(object.spec_type(), object.body@),
        is_readable(object.body@),
{
    let kind: u8 = match object.object_type() {
        ObjectType::Commit => 1,
        ObjectType::Tree => 2,
        ObjectType::Blob => 3,
        ObjectType::Tag => 4,
    };
    let stream = match deflate(&object.body) {
        Some(stream) => stream,
        None => {
            assert(false);
            return Err(GitError::Io(String::from_str("zlib deflate failed")));
        },
    };
    let size: usize = object.body.len();
    let ghost header = entry_header(object.spec_type(), object.body@.len());
    if size < 16 {
        out.push(16 * kind + size as u8);
        assert(out@ =~= old(out)@ + header);
    } else {
        out.push(128 + 16 * kind + (size % 16) as u8);
        let mut rest: usize = size / 16;
        assert(out@ + varint(rest as nat) =~= old(out)@ + header);
        while rest >= 128
            invariant
                out@ + varint(rest as nat) == old(out)@ + header,
            decreases rest,
        {
            let ghost held = out@;
            out.push((128 + rest % 128) as u8);
            assert(held + (seq![(128 + rest % 128) as u8] + varint((rest / 128) as nat)) =~= out@ + varint(
                (rest / 128) as nat,
            ));
            rest = rest / 128;
        }
        let ghost held = out@;
        out.push(rest as u8);
        assert(out@ =~= held + varint(rest as nat));
    }
    let mut stream = stream;
    let ghost compressed = stream@;
    let ghost begun = out@;
    out.append(&mut stream);
    assert(out@ =~= old(out)@ + (header + compressed));
    Ok(())
}

/// The four bytes of a number, most significant first.
pub open spec fn be32_bytes(n: u32) -> Seq<u8> {
    seq![
        (n / 0x100_0000) as u8,
        ((n / 0x1_0000) % 256) as u8,
        ((n / 0x100) % 256) as u8,
        (n % 256) as u8,
    ]
}

/// The header of a pack of the current version with a number of objects.
pub open spec fn pack_header(count: u32) -> Seq<u8> {
    pack_signature() + be32_bytes(2) + be32_bytes(count)
}

fn push_be32(out: &mut Vec<u8>, n: u32)
    ensures
        final(out)@ == old(out)@ + be32_bytes(n),
{
    out.push((n / 0x100_0000) as u8);
    out.push(((n / 0x1_0000) % 256) as u8);
    out.push(((n / 0x100) % 256) as u8);
    out.push((n % 256) as u8);
    assert(out@ =~= old(out)@ + be32_bytes(n));
}

fn begin_pack(count: u32) -> (out: Vec<u8>)
    ensures
        out@ == pack_header(count),
{
    let mut out: Vec<u8> = vec![80u8, 65, 67, 75];
    assert(out@ =~= pack_signature());
    push_be32(&mut out, 2);
    push_be32(&mut out, count);
    out
}

/// The entries of objects that are written whole, in a row.
pub open spec fn whole_entries(objects: Seq<ReachablePackObject>) -> Seq<u8>
    decreases objects.len(),
{
    if objects.len() == 0 {
        Seq::empty()
    } else {
        whole_entries(objects.drop_last()) + whole_entry(
            objects.last().object.spec_type(),
            objects.last().object.body@,
        )
    }
}

/// Whether the compressed form of each object reads back.
pub open spec fn all_readable(objects: Seq<ReachablePackObject>) -> bool {
    forall|i: int| 0 <= i < objects.len() ==> is_readable((#[trigger] objects[i]).object.body@)
}

fn append_objects(out: &mut Vec<u8>, objects: &[ReachablePackObject]) -> (written: Result<(), GitError>)
    ensures
        written is Ok,
        final(out)@ == old(out)@ + whole_entries(objects@),
        all_readable(objects@),
{
    let mut i: usize = 0;
    assert(out@ =~= old(out)@ + whole_entries(objects@.take(0)));
    while i < objects.len()
        invariant
            i <= objects@.len(),
            out@ == old(out)@ + whole_entries(objects@.take(i as int)),
            forall|k: int| 0 <= k < i ==> is_readable((#[trigger] objects@[k]).object.body@),
        decreases objects@.len() - i,
    {
        let ghost held = out@;
        assert(objects@.take(i + 1).drop_last() =~= objects@.take(i as int));
        match write_undeltified_pack_entry(out, &objects[i].object) {
            Err(err) => {
                return Err(err);
            },
            Ok(()) => {},
        }
        assert(out@ =~= old(out)@ + whole_entries(objects@.take(i + 1)));
        i += 1;
    }
    assert(objects@.take(i as int) =~= objects@);
    Ok(())
}

fn end_pack(format: ObjectFormat, out: &mut Vec<u8>)
    ensures
        final(out)@ == old(out)@ + digest(format, old(out)@),
{
    let checksum = digest_bytes(format, out.as_slice());
    let mut raw = checksum.as_bytes();
    out.append(&mut raw);
}

/// Why a pack cannot be taken over as it stands.
pub enum ReuseFailure {
    TooShort,
    NoSignature,
    Version(u32),
    TooMany,
}

pub open spec fn is_reuse_error(failure: ReuseFailure, err: GitError) -> bool {
    match failure {
        ReuseFailure::TooShort => err matches GitError::InvalidFormat(text) && text@ == "reused pack too short"@,
        ReuseFailure::NoSignature => err matches GitError::InvalidFormat(text) && text@
            == "reused pack has no signature"@,
        ReuseFailure::Version(version) => err matches GitError::Unsupported(text) && text@
            == "reused pack version "@ + decimal(version as nat),
        ReuseFailure::TooMany => err matches GitError::InvalidFormat(text) && text@ == "too many pack objects"@,
    }
}

/// How many objects packs hold together, as their headers say, or why one of
/// them cannot be taken over.
pub open spec fn reused_count(format: ObjectFormat, packs: Seq<&[u8]>) -> Result<u32, ReuseFailure>
    decreases packs.len(),
{
    if packs.len() == 0 {
        Ok(0)
    } else {
        match reused_count(format, packs.drop_last()) {
            Err(failure) => Err(failure),
            Ok(count) => {
                let pack = packs.last()@;
                if pack.len() < 12 + format.raw() {
                    Err(ReuseFailure::TooShort)
                } else if pack.take(4) != pack_signature() {
                    Err(ReuseFailure::NoSignature)
                } else if be32(pack, 4) != 2 {
                    Err(ReuseFailure::Version(be32(pack, 4)))
                } else if count + be32(pack, 8) > u32::MAX {
                    Err(ReuseFailure::TooMany)
                } else {
                    Ok((count + be32(pack, 8)) as u32)
                }
            },
        }
    }
}

/// The entries of packs in a row, each without its header and its checksum.
pub open spec fn reused_bodies(format: ObjectFormat, packs: Seq<&[u8]>) -> Seq<u8>
    decreases packs.len(),
{
    if packs.len() == 0 {
        Seq::empty()
    } else {
        reused_bodies(format, packs.drop_last()) + packs.last()@.subrange(12, packs.last()@.len() - format.raw())
    }
}

proof fn lemma_reuse_fails(format: ObjectFormat, packs: Seq<&[u8]>, n: int)
    requires
        0 <= n <= packs.len(),
        reused_count(format, packs.take(n)) is Err,
    ensures
        reused_count(format, packs) == reused_count(format, packs.take(n)),
    decreases packs.len() - n,
{
    if n < packs.len() {
        assert(packs.take(n + 1).drop_last() =~= packs.take(n));
        lemma_reuse_fails(format, packs, n + 1);
    } else {
        assert(packs.take(n) =~= packs);
    }
}

proof fn lemma_reused_are_long(format: ObjectFormat, packs: Seq<&[u8]>, i: int)
    requires
        reused_count(format, packs) is Ok,
        0 <= i < packs.len(),
    ensures
        packs[i]@.len() >= 12 + format.raw(),
    decreases packs.len(),
{
    if i < packs.len() - 1 {
        lemma_reused_are_long(format, packs.drop_last(), i);
    }
}

fn be32_of(bytes: &[u8], at: usize) -> (value: u32)
    requires
        at + 4 <= bytes@.len(),
    ensures
        value == be32(bytes@, at as int),
{
    assert(at + 4 <= bytes.len());
    (bytes[at] as u32) * 0x100_0000 + (bytes[at + 1] as u32) * 0x1_0000 + (bytes[at + 2] as u32) * 0x100
        + bytes[at + 3] as u32
}

fn count_reused(format: ObjectFormat, packs: &[&[u8]]) -> (count: Result<u32, GitError>)
    ensures
        match reused_count(format, packs@) {
            Ok(total) => count == Ok::<u32, GitError>(total),
            Err(failure) => count matches Err(err) && is_reuse_error(failure, err),
        },
{
    let hash_len: usize = format.raw_len();
    let mut total: u32 = 0;
    let mut i: usize = 0;
    assert(packs@.take(0) =~= Seq::empty());
    while i < packs.len()
        invariant
            i <= packs@.len(),
            hash_len == format.raw(),
            reused_count(format, packs@.take(i as int)) == Ok::<u32, ReuseFailure>(total),
        decreases packs@.len() - i,
    {
        assert(packs@.take(i + 1).drop_last() =~= packs@.take(i as int));
        let pack = packs[i];
        if pack.len() < 12 + hash_len {
            proof {
                lemma_reuse_fails(format, packs@, i + 1);
            }
            return Err(GitError::InvalidFormat(String::from_str("reused pack too short")));
        }
        if !has_pack_signature(pack) {
            proof {
                lemma_reuse_fails(format, packs@, i + 1);
            }
            return Err(GitError::InvalidFormat(String::from_str("reused pack has no signature")));
        }
        let version: u32 = be32_of(pack, 4);
        if version != 2 {
            proof {
                lemma_reuse_fails(format, packs@, i + 1);
            }
            return Err(
                GitError::Unsupported(concat2("reused pack version ", decimal_text(version as u64).as_str())),
            );
        }
        match total.checked_add(be32_of(pack, 8)) {
            Some(more) => {
                total = more;
            },
            None => {
                proof {
                    lemma_reuse_fails(format, packs@, i + 1);
                }
                return Err(GitError::InvalidFormat(String::from_str("too many pack objects")));
            },
        }
        i += 1;
    }
    assert(packs@.take(i as int) =~= packs@);
    Ok(total)
}

/// What an assembled pack holds before its checksum.
pub open spec fn assembled(count: u32, reused: Seq<u8>, objects: Seq<ReachablePackObject>) -> Seq<u8> {
    pack_header(count) + reused + whole_entries(objects)
}

/// Puts a pack together from the entries of other packs as they stand and from
/// objects that are written whole. Returns it with the number of objects that
/// were taken over.
pub fn assemble_pack_with_verbatim_reuses(
    format: ObjectFormat,
    reused_packs: &[&[u8]],
    appended: &[ReachablePackObject],
) -> (pack: Result<(Vec<u8>, u32), GitError>)
    requires
        appended@.len() <= u32::MAX,
    ensures
        match reused_count(format, reused_packs@) {
            Err(failure) => pack matches Err(err) && is_reuse_error(failure, err),
            Ok(count) => if count + appended@.len() > u32::MAX {
                pack matches Err(err) && is_reuse_error(ReuseFailure::TooMany, err)
            } else {
                let body = assembled(
                    (count + appended@.len()) as u32,
                    reused_bodies(format, reused_packs@),
                    appended@,
                );
                pack matches Ok((bytes, reused)) && bytes@ == body + digest(format, body) && reused == count
                    && all_readable(appended@)
            },
        },
{
    let count: u32 = match count_reused(format, reused_packs) {
        Ok(count) => count,
        Err(err) => {
            return Err(err);
        },
    };
    let total: u32 = match count.checked_add(appended.len() as u32) {
        Some(total) => total,
        None => {
            return Err(GitError::InvalidFormat(String::from_str("too many pack objects")));
        },
    };
    let hash_len: usize = format.raw_len();
    let mut out = begin_pack(total);
    let mut i: usize = 0;
    assert(out@ =~= pack_header(total) + reused_bodies(format, reused_packs@.take(0)));
    while i < reused_packs.len()
        invariant
            i <= reused_packs@.len(),
            hash_len == format.raw(),
            reused_count(format, reused_packs@) is Ok,
            out@ == pack_header(total) + reused_bodies(format, reused_packs@.take(i as int)),
        decreases reused_packs@.len() - i,
    {
        let pack = reused_packs[i];
        proof {
            lemma_reused_are_long(format, reused_packs@, i as int);
            assert(reused_packs@.take(i + 1).drop_last() =~= reused_packs@.take(i as int));
        }
        let mut body = copy_bytes(slice_subrange(pack, 12, pack.len() - hash_len));
        out.append(&mut body);
        assert(out@ =~= pack_header(total) + reused_bodies(format, reused_packs@.take(i + 1)));
        i += 1;
    }
    assert(reused_packs@.take(i as int) =~= reused_packs@);
    match append_objects(&mut out, appended) {
        Err(err) => {
            return Err(err);
        },
        Ok(()) => {},
    }
    end_pack(format, &mut out);
    Ok((out, count))
}

/// Entries in a row.
pub open spec fn entry_bytes(entries: Seq<&[u8]>) -> Seq<u8>
    decreases entries.len(),
{
    if entries.len() == 0 {
        Seq::empty()
    } else {
        entry_bytes(entries.drop_last()) + entries.last()@
    }
}

/// Puts a pack together from the entries of one other pack as they stand and
/// from objects that are written whole.
pub fn assemble_pack_with_verbatim_reuse(
    format: ObjectFormat,
    reused_pack: &[u8],
    appended: &[ReachablePackObject],
) -> (pack: Result<(Vec<u8>, u32), GitError>)
    requires
        appended@.len() <= u32::MAX,
    ensures
        match reused_count(format, seq![reused_pack]) {
            Err(failure) => pack matches Err(err) && is_reuse_error(failure, err),
            Ok(count) => if count + appended@.len() > u32::MAX {
                pack matches Err(err) && is_reuse_error(ReuseFailure::TooMany, err)
            } else {
                let body = assembled(
                    (count + appended@.len()) as u32,
                    reused_bodies(format, seq![reused_pack]),
                    appended@,
                );
                pack matches Ok((bytes, reused)) && bytes@ == body + digest(format, body) && reused == count
                    && all_readable(appended@)
            },
        },
{
    let mut packs: Vec<&[u8]> = Vec::new();
    packs.push(reused_pack);
    assert(packs@ =~= seq![reused_pack]);
    assemble_pack_with_verbatim_reuses(format, &packs, appended)
}

/// Puts a pack together from entries as they stand and from objects that are
/// written whole. Returns it with the number of entries that were taken over.
pub fn assemble_pack_with_verbatim_entries(
    format: ObjectFormat,
    reused_entries: &[&[u8]],
    appended: &[ReachablePackObject],
) -> (pack: Result<(Vec<u8>, u32), GitError>)
    requires
        appended@.len() <= u32::MAX,
    ensures
        if reused_entries@.len() + appended@.len() > u32::MAX {
            pack matches Err(err) && is_reuse_error(ReuseFailure::TooMany, err)
        } else {
            let body = assembled(
                (reused_entries@.len() + appended@.len()) as u32,
                entry_bytes(reused_entries@),
                appended@,
            );
            pack matches Ok((bytes, reused)) && bytes@ == body + digest(format, body) && reused
                == reused_entries@.len() && all_readable(appended@)
        },
{
    assert(reused_entries.len() == reused_entries@.len());
    assert(appended.len() == appended@.len());
    if reused_entries.len() as u64 > u32::MAX as u64 {
        return Err(GitError::InvalidFormat(String::from_str("too many pack objects")));
    }
    let count: u32 = reused_entries.len() as u32;
    let total: u32 = match count.checked_add(appended.len() as u32) {
        Some(total) => total,
        None => {
            return Err(GitError::InvalidFormat(String::from_str("too many pack objects")));
        },
    };
    let mut out = begin_pack(total);
    let mut i: usize = 0;
    assert(out@ =~= pack_header(total) + entry_bytes(reused_entries@.take(0)));
    while i < reused_entries.len()
        invariant
            i <= reused_entries@.len(),
            out@ == pack_header(total) + entry_bytes(reused_entries@.take(i as int)),
        decreases reused_entries@.len() - i,
    {
        assert(reused_entries@.take(i + 1).drop_last() =~= reused_entries@.take(i as int));
        let mut entry = copy_bytes(reused_entries[i]);
        out.append(&mut entry);
        assert(out@ =~= pack_header(total) + entry_bytes(reused_entries@.take(i + 1)));
        i += 1;
    }
    assert(reused_entries@.take(i as int) =~= reused_entries@);
    match append_objects(&mut out, appended) {
        Err(err) => {
            return Err(err);
        },
        Ok(()) => {},
    }
    end_pack(format, &mut out);
    Ok((out, count))
}

proof fn lemma_varint_end(pack: Seq<u8>, at: int, n: nat)
    requires
        0 <= at,
        at + varint(n).len() <= pack.len(),
        pack.subrange(at, at + varint(n).len()) == varint(n),
    ensures
        header_end(pack, at) == Some(at + varint(n).len() as int),
        varint(n).len() >= 1,
    decreases n,
{
    let bytes = varint(n);
    if n < 128 {
        assert(bytes[0] == n as u8);
        assert(pack[at] == pack.subrange(at, at + bytes.len())[0]);
    } else {
        let rest = varint(n / 128);
        assert(bytes == seq![(128 + n % 128) as u8] + rest);
        assert(bytes[0] == (128 + n % 128) as u8);
        assert(pack[at] == pack.subrange(at, at + bytes.len())[0]);
        assert(pack.subrange(at + 1, at + 1 + rest.len()) =~= rest) by {
            assert forall|i: int| 0 <= i < rest.len() implies pack.subrange(at + 1, at + 1 + rest.len())[i]
                == rest[i] by {
                assert(bytes[i + 1] == rest[i]);
                assert(pack.subrange(at, at + bytes.len())[i + 1] == pack[at + 1 + i]);
            }
        }
        lemma_varint_end(pack, at + 1, n / 128);
    }
}

/// Where a pack holds the entry of an object that was written whole, a scan
/// finds an entry of the object's type that ends where it was written to end.
pub proof fn law_written_entry_is_scanned(
    format: ObjectFormat,
    pack: Seq<u8>,
    trailer: int,
    at: int,
    object_type: ObjectType,
    body: Seq<u8>,
)
    requires
        0 <= at,
        at + whole_entry(object_type, body).len() <= trailer <= pack.len() <= u64::MAX,
        pack.subrange(at, at + whole_entry(object_type, body).len()) == whole_entry(object_type, body),
        is_readable(body),
    ensures
        entry_kind(pack[at]) == type_bits(object_type),
        entry_end(format, pack, trailer, at) == Ok::<int, crate::pack_scan::PackFailure>(
            at + whole_entry(object_type, body).len(),
        ),
{
    let header = entry_header(object_type, body.len());
    let stream = zlib_stream(body);
    let entry = whole_entry(object_type, body);
    let kind = type_bits(object_type);
    assert(entry == header + stream);
    assert(pack[at] == pack.subrange(at, at + entry.len())[0]);
    assert(entry[0] == header[0]);
    if body.len() < 16 {
        assert(header[0] == (16 * kind + body.len()) as u8);
        assert(header.len() == 1);
        assert(header_end(pack, at) == Some(at + 1));
    } else {
        let rest = varint(body.len() / 16);
        assert(header == seq![(128 + 16 * kind + body.len() % 16) as u8] + rest);
        assert(header[0] == (128 + 16 * kind + body.len() % 16) as u8);
        assert(pack.subrange(at + 1, at + 1 + rest.len()) =~= rest) by {
            assert forall|i: int| 0 <= i < rest.len() implies pack.subrange(at + 1, at + 1 + rest.len())[i]
                == rest[i] by {
                assert(entry[i + 1] == header[i + 1]);
                assert(header[i + 1] == rest[i]);
                assert(pack.subrange(at, at + entry.len())[i + 1] == pack[at + 1 + i]);
            }
        }
        lemma_varint_end(pack, at + 1, body.len() / 16);
    }
    let start = at + header.len();
    assert(header_end(pack, at) == Some(start));
    let tail = pack.subrange(start + stream.len(), trailer);
    assert(pack.subrange(start, trailer) =~= stream + tail) by {
        assert forall|i: int| 0 <= i < stream.len() implies pack[start + i] == stream[i] by {
            assert(entry[header.len() + i] == stream[i]);
            assert(pack.subrange(at, at + entry.len())[header.len() + i] == pack[start + i]);
        }
    }
    assert(zlib_read(stream + tail) == (ZlibEnd::Complete, body, stream.len() as u64));
    assert(member_len(pack.subrange(start, trailer)) == Ok::<int, crate::pack_scan::PackFailure>(
        stream.len() as int,
    ));
}

} // verus!
