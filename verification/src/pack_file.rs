//! What is known of packs: index entries, the output of a pack writer, and the
//! files of a pack directory.

use crate::error::GitError;
use crate::object::digest;
use crate::object::digest_bytes;
use crate::object_id::byte_slice_eq;
use crate::object_id::ObjectFormat;
use crate::object_id::ObjectId;
use crate::oid_map::OidSet;
use crate::order::is_order;
use crate::order::law_stable_sort;
use crate::order::lemma_oid_order;
use crate::order::oid_less;
use crate::order::sort;
use crate::order::stable_sort;
use crate::order::Less;
use crate::order::Order;
use crate::text::concat2;
use crate::text::hex;
use vstd::prelude::*;
use vstd::string::*;

verus! {

/// One object in a pack index.
#[derive(Debug, Clone, Copy, PartialEq, Eq)]
pub struct PackIndexEntry {
    pub oid: ObjectId,
    pub crc32: u32,
    pub offset: u64,
}

impl PackIndexEntry {
    pub fn same(&self, other: &PackIndexEntry) -> (same: bool)
        ensures
            same == (*self == *other),
    {
        self.oid == other.oid && self.crc32 == other.crc32 && self.offset == other.offset
    }
}

/// What a parsed pack index says.
pub struct PackIndexData {
    pub entries: Vec<PackIndexEntry>,
    pub pack_checksum: ObjectId,
}

/// What a pack writer yields.
pub struct PackWrite {
    /// Bytes of the `.pack` file.
    pub pack: Vec<u8>,
    /// Bytes of the matching `.idx` file.
    pub index: Vec<u8>,
    pub checksum: ObjectId,
    /// The objects written, in the order in which they were.
    pub entries: Vec<PackIndexEntry>,
}

/// A `.pack` file in a pack directory, and the sidecars that stand next to it.
#[derive(Debug, PartialEq, Eq)]
pub struct PackFile {
    /// The file name without `.pack`.
    pub stem: String,
    /// Bytes in the file.
    pub size: u64,
    pub has_index: bool,
    pub has_keep: bool,
    pub has_promisor: bool,
    /// Whether a `.mtimes` sidecar makes it a cruft pack.
    pub has_mtimes: bool,
}

impl PackFile {
    /// Another value equal to this one.
    pub fn copy(&self) -> (file: PackFile)
        ensures
            file == *self,
    {
        PackFile {
            stem: self.stem.clone(),
            size: self.size,
            has_index: self.has_index,
            has_keep: self.has_keep,
            has_promisor: self.has_promisor,
            has_mtimes: self.has_mtimes,
        }
    }
}

/// The stem of the pack with a checksum.
pub open spec fn pack_stem(checksum: ObjectId) -> Seq<char> {
    "pack-"@ + hex(checksum.raw())
}

/// The stem of the pack with a checksum: `pack-` and the checksum in
/// hexadecimal.
pub fn pack_name(checksum: &ObjectId) -> (name: String)
    ensures
        name@ == pack_stem(*checksum),
{
    concat2("pack-", checksum.to_hex().as_str())
}

/// The four bytes that every pack starts with.
pub open spec fn pack_signature() -> Seq<u8> {
    seq![80u8, 65, 67, 75]
}

/// The offset of a pack's trailing checksum.
pub open spec fn trailer_offset(format: ObjectFormat, pack: Seq<u8>) -> int {
    pack.len() - format.raw()
}

/// Whether a pack has room for a header and a trailer, starts with the
/// signature, and ends in the digest of what comes before.
pub open spec fn is_checksummed(format: ObjectFormat, pack: Seq<u8>, checksum: ObjectId) -> bool {
    &&& pack.len() >= 12 + format.raw()
    &&& pack.take(4) == pack_signature()
    &&& digest(format, pack.take(trailer_offset(format, pack))) == checksum.raw()
    &&& pack.skip(trailer_offset(format, pack)) == checksum.raw()
}

/// Whether `pack` starts with the pack signature.
pub fn has_pack_signature(pack: &[u8]) -> (signed: bool)
    requires
        pack@.len() >= 4,
    ensures
        signed == (pack@.take(4) == pack_signature()),
{
    let signed = pack[0] == 80 && pack[1] == 65 && pack[2] == 67 && pack[3] == 75;
    proof {
        let head = pack@.take(4);
        assert(head[0] == pack@[0] && head[1] == pack@[1] && head[2] == pack@[2] && head[3] == pack@[3]);
        if signed {
            assert(head =~= pack_signature());
        } else {
            assert(pack_signature()[0] == 80 && pack_signature()[1] == 65 && pack_signature()[2] == 67
                && pack_signature()[3] == 75);
        }
    }
    signed
}

/// Why a pack does not have the checksum that it should have. `context` says
/// which pack it is.
pub open spec fn checksum_failure(
    pack: Seq<u8>,
    format: ObjectFormat,
    expected: ObjectId,
    context: Seq<char>,
    err: GitError,
) -> bool {
    if expected.spec_format() != format {
        err matches GitError::InvalidObjectId(text) && text@ == context
            + " checksum format does not match object format"@
    } else if pack.len() < 12 + format.raw() {
        err matches GitError::InvalidFormat(text) && text@ == context + " pack file too short"@
    } else if pack.take(4) != pack_signature() {
        err matches GitError::InvalidFormat(text) && text@ == context
            + " pack file missing PACK signature"@
    } else {
        &&& !is_checksummed(format, pack, expected)
        &&& err matches GitError::InvalidFormat(text) && text@ == context
            + " pack checksum does not match generated pack"@
    }
}

/// Checks that `pack` is framed by a header and the checksum `expected`.
pub fn validate_pack_checksum(
    pack: &[u8],
    format: ObjectFormat,
    expected: &ObjectId,
    context: &str,
) -> (checked: Result<(), GitError>)
    ensures
        checked is Ok <==> expected.spec_format() == format && is_checksummed(format, pack@, *expected),
        checked matches Err(err) ==> checksum_failure(pack@, format, *expected, context@, err),
{
    if expected.format() != format {
        return Err(
            GitError::InvalidObjectId(
                concat2(context, " checksum format does not match object format"),
            ),
        );
    }
    let hash_len: usize = format.raw_len();
    if pack.len() < 12 + hash_len {
        return Err(GitError::InvalidFormat(concat2(context, " pack file too short")));
    }
    if !has_pack_signature(pack) {
        return Err(GitError::InvalidFormat(concat2(context, " pack file missing PACK signature")));
    }
    let trailer: usize = pack.len() - hash_len;
    let (covered, tail) = pack.split_at(trailer);
    let actual = digest_bytes(format, covered);
    proof {
        assert(covered@ =~= pack@.take(trailer as int));
        assert(tail@ =~= pack@.skip(trailer as int));
    }
    let expected_raw = expected.as_bytes();
    let actual_raw = actual.as_bytes();
    if !byte_slice_eq(&actual_raw, &expected_raw) || !byte_slice_eq(tail, &expected_raw) {
        return Err(
            GitError::InvalidFormat(concat2(context, " pack checksum does not match generated pack")),
        );
    }
    Ok(())
}

/// Index entries by id.
pub open spec fn entry_order() -> Less<PackIndexEntry> {
    |a: PackIndexEntry, b: PackIndexEntry| a.oid.less(b.oid)
}

pub proof fn lemma_entry_order()
    ensures
        is_order(entry_order()),
{
    lemma_oid_order();
    let less = entry_order();
    let by_oid = oid_less();
    assert forall|a: PackIndexEntry, b: PackIndexEntry| #[trigger] less(a, b) implies !less(b, a) by {
        assert(by_oid(a.oid, b.oid));
    }
    assert forall|a: PackIndexEntry, b: PackIndexEntry, c: PackIndexEntry| #[trigger] less(a, c)
        implies #[trigger] less(a, b) || less(b, c) by {
        assert(by_oid(a.oid, c.oid));
        assert(by_oid(a.oid, b.oid) || by_oid(b.oid, c.oid));
    }
}

/// Index entries by id.
pub struct ByEntryOid;

impl Order<PackIndexEntry> for ByEntryOid {
    open spec fn less(&self) -> Less<PackIndexEntry> {
        entry_order()
    }

    proof fn lemma_is_order(&self) {
        lemma_entry_order();
    }

    fn is_less(&self, a: &PackIndexEntry, b: &PackIndexEntry) -> (less: bool) {
        a.oid.is_less(&b.oid)
    }
}

/// Whether a parsed index lists exactly what the writer wrote, in index order.
pub fn pack_index_entries_match_writer(
    parsed: &[PackIndexEntry],
    writer_entries: &[PackIndexEntry],
) -> (matches: bool)
    ensures
        matches == (parsed@ == stable_sort(entry_order(), writer_entries@)),
{
    proof {
        lemma_entry_order();
        law_stable_sort(entry_order(), writer_entries@);
    }
    if parsed.len() != writer_entries.len() {
        return false;
    }
    let sorted = sort(&ByEntryOid, writer_entries);
    let mut i: usize = 0;
    while i < parsed.len()
        invariant
            i <= parsed@.len(),
            sorted@ == stable_sort(entry_order(), writer_entries@),
            parsed@.len() == sorted@.len(),
            forall|k: int| 0 <= k < i ==> parsed@[k] == sorted@[k],
        decreases parsed@.len() - i,
    {
        if !parsed[i].same(&sorted[i]) {
            assert(parsed@[i as int] != sorted@[i as int]);
            return false;
        }
        i += 1;
    }
    assert(parsed@ =~= sorted@);
    true
}

/// The ids of index entries.
pub open spec fn entry_ids(entries: Seq<PackIndexEntry>) -> Seq<ObjectId> {
    entries.map_values(|entry: PackIndexEntry| entry.oid)
}

/// The set of the ids of index entries.
pub fn entry_id_set(entries: &[PackIndexEntry]) -> (oids: OidSet)
    ensures
        oids@ == entry_ids(entries@).to_set(),
{
    let mut oids = OidSet::new();
    let ghost all = entry_ids(entries@);
    let mut i: usize = 0;
    while i < entries.len()
        invariant
            i <= entries@.len(),
            all == entry_ids(entries@),
            oids@ == all.take(i as int).to_set(),
        decreases entries@.len() - i,
    {
        oids.insert(entries[i].oid);
        proof {
            assert(all.take(i + 1) =~= all.take(i as int).push(all[i as int]));
            all.take(i as int).lemma_push_to_set_commute(all[i as int]);
        }
        i += 1;
    }
    assert(all.take(i as int) =~= all);
    oids
}

/// The ids of index entries, in their order.
pub fn entry_id_list(entries: &[PackIndexEntry]) -> (oids: Vec<ObjectId>)
    ensures
        oids@ == entry_ids(entries@),
{
    let mut oids: Vec<ObjectId> = Vec::with_capacity(entries.len());
    let mut i: usize = 0;
    while i < entries.len()
        invariant
            i <= entries@.len(),
            oids@ == entry_ids(entries@).take(i as int),
        decreases entries@.len() - i,
    {
        oids.push(entries[i].oid);
        assert(entry_ids(entries@).take(i + 1) =~= entry_ids(entries@).take(i as int).push(
            entry_ids(entries@)[i as int],
        ));
        i += 1;
    }
    assert(entry_ids(entries@).take(i as int) =~= entry_ids(entries@));
    oids
}

/// The ids of `oids` that are in `kept`, in their order.
pub fn retain_in(oids: &[ObjectId], kept: &OidSet) -> (out: Vec<ObjectId>)
    ensures
        out@ == oids@.filter(|oid: ObjectId| kept@.contains(oid)),
{
    let ghost keep = |oid: ObjectId| kept@.contains(oid);
    let mut out: Vec<ObjectId> = Vec::new();
    let mut i: usize = 0;
    assert(oids@.take(0).filter(keep) =~= Seq::empty()) by {
        reveal(Seq::filter);
    }
    while i < oids.len()
        invariant
            i <= oids@.len(),
            keep == (|oid: ObjectId| kept@.contains(oid)),
            out@ == oids@.take(i as int).filter(keep),
        decreases oids@.len() - i,
    {
        proof {
            reveal(Seq::filter);
            assert(oids@.take(i + 1).drop_last() =~= oids@.take(i as int));
        }
        if kept.contains(&oids[i]) {
            out.push(oids[i]);
        }
        i += 1;
    }
    assert(oids@.take(i as int) =~= oids@);
    out
}

/// The ids of `oids` that are not in `dropped`, in their order.
pub fn retain_outside(oids: &[ObjectId], dropped: &OidSet) -> (out: Vec<ObjectId>)
    ensures
        out@ == oids@.filter(|oid: ObjectId| !dropped@.contains(oid)),
{
    let ghost keep = |oid: ObjectId| !dropped@.contains(oid);
    let mut out: Vec<ObjectId> = Vec::new();
    let mut i: usize = 0;
    assert(oids@.take(0).filter(keep) =~= Seq::empty()) by {
        reveal(Seq::filter);
    }
    while i < oids.len()
        invariant
            i <= oids@.len(),
            keep == (|oid: ObjectId| !dropped@.contains(oid)),
            out@ == oids@.take(i as int).filter(keep),
        decreases oids@.len() - i,
    {
        proof {
            reveal(Seq::filter);
            assert(oids@.take(i + 1).drop_last() =~= oids@.take(i as int));
        }
        if !dropped.contains(&oids[i]) {
            out.push(oids[i]);
        }
        i += 1;
    }
    assert(oids@.take(i as int) =~= oids@);
    out
}

} // verus!
