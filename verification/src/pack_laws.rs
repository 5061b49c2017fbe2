//! What packs are made of, and what is reported and listed of them.

use crate::bitmap::extended_without;
use crate::database::Alternate;
use crate::error::GitError;
use crate::install::be32;
use crate::install::receipt_reports;
use crate::install_plan::midx_stem;
use crate::install_plan::Op;
use crate::loose_repack::live_roots;
use crate::loose_repack::unpacked_loose;
use crate::loose_repack::wanted_loose;
use crate::lru::body_cost;
use crate::object::ObjectType;
use crate::object_id::ObjectFormat;
use crate::object_id::ObjectId;
use crate::order::lemma_filter_contains;
use crate::pack_assemble::assembled;
use crate::pack_assemble::be32_bytes;
use crate::pack_assemble::entry_header;
use crate::pack_assemble::reused_bodies;
use crate::pack_assemble::varint;
use crate::pack_assemble::whole_entries;
use crate::pack_dir::index_failure;
use crate::pack_dir::names_text;
use crate::pack_dir::IndexRead;
use crate::pack_file::PackFile;
use crate::pack_file::PackIndexData;
use crate::pack_file::PackWrite;
use crate::pack_install::is_installable;
use crate::pack_install::pack_ops;
use crate::pack_install::CanonicalIndex;
use crate::pack_order::lookup_order;
use crate::quarantine::alternates_text;
use crate::repack::promisor_count;
use crate::text::hex;
use crate::transfer::ReachablePackObject;
use vstd::prelude::*;

verus! {

/// The number that bytes spell seven bits at a time, the lowest first.
pub open spec fn varint_value(bytes: Seq<u8>) -> nat
    decreases bytes.len(),
{
    if bytes.len() == 0 {
        0
    } else {
        (bytes[0] % 128) as nat + 128 * varint_value(bytes.drop_first())
    }
}

/// The size that the header of a pack entry gives: four bits of its first byte,
/// and behind them seven bits of each further one.
pub open spec fn header_size(header: Seq<u8>) -> nat {
    (header[0] % 16) as nat + 16 * varint_value(header.drop_first())
}

proof fn lemma_varint_value(n: nat)
    ensures
        varint(n).len() > 0,
        varint_value(varint(n)) == n,
        forall|i: int| 0 <= i < varint(n).len() - 1 ==> #[trigger] varint(n)[i] >= 128,
        varint(n).last() < 128,
    decreases n,
{
    let all = varint(n);
    if n < 128 {
        assert(all.drop_first() =~= Seq::empty());
        assert(varint_value(all.drop_first()) == 0);
    } else {
        lemma_varint_value(n / 128);
        let rest = varint(n / 128);
        assert(all.drop_first() =~= rest);
        assert forall|i: int| 0 <= i < all.len() - 1 implies #[trigger] all[i] >= 128 by {
            if i > 0 {
                assert(all[i] == rest[i - 1]);
            }
        }
        assert(all.last() == rest.last());
        assert(all[0] % 128 == n % 128);
    }
}

/// The header of a pack entry gives the type of the object and its size, and
/// ends with the first byte whose highest bit is clear.
pub proof fn law_entry_header_gives_type_and_size(object_type: ObjectType, size: nat)
    ensures
        ({
            let header = entry_header(object_type, size);
            &&& header.len() > 0
            &&& (header[0] / 16) % 8 == match object_type {
                ObjectType::Commit => 1,
                ObjectType::Tree => 2,
                ObjectType::Blob => 3,
                ObjectType::Tag => 4int,
            }
            &&& header_size(header) == size
            &&& forall|i: int| 0 <= i < header.len() - 1 ==> #[trigger] header[i] >= 128
            &&& header.last() < 128
        }),
{
    let header = entry_header(object_type, size);
    if size < 16 {
        assert(header.drop_first() =~= Seq::empty());
        assert(varint_value(header.drop_first()) == 0);
    } else {
        lemma_varint_value(size / 16);
        let rest = varint(size / 16);
        assert(header.drop_first() =~= rest);
        assert forall|i: int| 0 <= i < header.len() - 1 implies #[trigger] header[i] >= 128 by {
            if i > 0 {
                assert(header[i] == rest[i - 1]);
            }
        }
        assert(header.last() == rest.last());
    }
}

/// A number written as four bytes reads as that number.
pub proof fn law_four_bytes_read_back(lead: Seq<u8>, n: u32, tail: Seq<u8>)
    ensures
        be32_bytes(n).len() == 4,
        be32(lead + be32_bytes(n) + tail, lead.len() as int) == n,
{
    let all = lead + be32_bytes(n) + tail;
    let at = lead.len() as int;
    assert(all[at] == be32_bytes(n)[0]);
    assert(all[at + 1] == be32_bytes(n)[1]);
    assert(all[at + 2] == be32_bytes(n)[2]);
    assert(all[at + 3] == be32_bytes(n)[3]);
    assert(n as int == (n / 0x100_0000) * 0x100_0000 + ((n / 0x1_0000) % 256) * 0x1_0000 + ((n / 0x100) % 256) * 0x100
        + n % 256) by (nonlinear_arith);
}

/// An assembled pack begins with its signature, the version two and the number
/// of its entries; then come the reused entries as they were, and the others.
pub proof fn law_assembled_pack_counts_its_entries(count: u32, reused: Seq<u8>, objects: Seq<ReachablePackObject>)
    ensures
        ({
            let pack = assembled(count, reused, objects);
            &&& pack.len() == 12 + reused.len() + whole_entries(objects).len()
            &&& pack.take(4) == seq![80u8, 65, 67, 75]
            &&& be32(pack, 4) == 2
            &&& be32(pack, 8) == count
            &&& pack.subrange(12, 12 + reused.len() as int) == reused
            &&& pack.skip(12 + reused.len() as int) == whole_entries(objects)
        }),
{
    let pack = assembled(count, reused, objects);
    let signature = seq![80u8, 65, 67, 75];
    let tail = reused + whole_entries(objects);
    assert(pack =~= signature + be32_bytes(2) + (be32_bytes(count) + tail));
    law_four_bytes_read_back(signature, 2, be32_bytes(count) + tail);
    assert(pack =~= (signature + be32_bytes(2)) + be32_bytes(count) + tail);
    law_four_bytes_read_back(signature + be32_bytes(2), count, tail);
    assert(pack.take(4) =~= signature);
    assert(pack.subrange(12, 12 + reused.len() as int) =~= reused);
    assert(pack.skip(12 + reused.len() as int) =~= whole_entries(objects));
}

/// Of a further reused pack the entries are taken as they are: all but its
/// header and its checksum.
pub proof fn law_reused_entries_are_verbatim(format: ObjectFormat, packs: Seq<&[u8]>, pack: &[u8])
    ensures
        reused_bodies(format, packs.push(pack)) == reused_bodies(format, packs) + pack@.subrange(
            12,
            pack@.len() - format.raw(),
        ),
{
    assert(packs.push(pack).drop_last() =~= packs);
}

/// Receipt is reported when the header of a pack is complete, with the number of
/// objects that it gives, and at least once in a quarter of a mebibyte: what came
/// in since the last report is always less. Each report gives how much has come
/// in.
pub proof fn law_receipt_is_reported_in_time(before: Seq<u8>, after: Seq<u8>, last: u64)
    requires
        before.len() <= after.len() <= u64::MAX,
        last <= before.len(),
        before.len() < 12 ==> last == 0,
    ensures
        ({
            let reports = receipt_reports(before, after, last);
            let reported = if reports.len() > 0 {
                reports.last().received_bytes
            } else {
                last
            };
            let complete = before.len() < 12 && after.len() >= 12 && after.take(4) == seq![80u8, 65, 67, 75];
            &&& after.len() - reported < 0x4_0000
            &&& complete ==> reports.len() > 0 && reports[0].received_bytes == 12
            &&& !complete ==> forall|i: int|
                0 <= i < reports.len() ==> (#[trigger] reports[i]).received_bytes == after.len()
            &&& !complete && after.len() - last < 0x4_0000 ==> reports.len() == 0
            &&& forall|i: int|
                0 <= i < reports.len() ==> (#[trigger] reports[i]).indexed_objects == 0 && reports[i].total_objects
                    == if after.len() >= 12 && after.take(4) == seq![80u8, 65, 67, 75] {
                    be32(after, 8) as u64
                } else {
                    0
                }
        }),
{
}

/// A repack of loose objects takes those that no pack holds, and one of
/// reachable loose objects of these the ones that are led to from roots that are
/// there or promised.
pub proof fn law_loose_repack_takes_unpacked_objects(
    loose: Seq<ObjectId>,
    wanted: Set<ObjectId>,
    packed: Set<ObjectId>,
    roots: Seq<ObjectId>,
    present: Set<ObjectId>,
    promisor: Set<ObjectId>,
    oid: ObjectId,
)
    ensures
        unpacked_loose(loose, packed).contains(oid) <==> loose.contains(oid) && !packed.contains(oid),
        wanted_loose(loose, wanted, packed).contains(oid) <==> loose.contains(oid) && wanted.contains(oid)
            && !packed.contains(oid),
        live_roots(roots, present, promisor).contains(oid) <==> roots.contains(oid) && (promisor.contains(oid)
            || present.contains(oid)),
{
    lemma_filter_contains(loose, |oid: ObjectId| !packed.contains(oid), oid);
    lemma_filter_contains(loose, |oid: ObjectId| wanted.contains(oid) && !packed.contains(oid), oid);
    lemma_filter_contains(roots, |oid: ObjectId| promisor.contains(oid) || present.contains(oid), oid);
}

/// Promisor packs are repacked where there are at least two of them.
pub proof fn law_two_promisor_packs_are_repacked(packs: Seq<(PackFile, Vec<ObjectId>)>)
    ensures
        promisor_count(packs) > 1 <==> exists|i: int, j: int|
            0 <= i < j < packs.len() && (#[trigger] packs[i]).0.has_promisor && (#[trigger] packs[j]).0.has_promisor,
        promisor_count(packs) == 0 <==> forall|i: int|
            0 <= i < packs.len() ==> !(#[trigger] packs[i]).0.has_promisor,
    decreases packs.len(),
{
    if packs.len() > 0 {
        let rest = packs.drop_last();
        let last = packs.len() - 1;
        law_two_promisor_packs_are_repacked(rest);
        assert(packs[last] == packs.last());
        assert forall|i: int| 0 <= i < last implies (#[trigger] packs[i]) == rest[i] by {}
        assert forall|i: int| 0 <= i < last implies (#[trigger] rest[i]) == packs[i] by {}
        if promisor_count(rest) > 1 {
            let (i, j) = choose|i: int, j: int|
                0 <= i < j < rest.len() && (#[trigger] rest[i]).0.has_promisor && (#[trigger] rest[j]).0.has_promisor;
            assert(packs[i].0.has_promisor && packs[j].0.has_promisor);
        }
        if packs.last().0.has_promisor && promisor_count(rest) > 0 {
            let i = choose|i: int| 0 <= i < rest.len() && (#[trigger] rest[i]).0.has_promisor;
            assert(packs[i].0.has_promisor && packs[last].0.has_promisor);
        }
        if exists|i: int, j: int|
            0 <= i < j < packs.len() && (#[trigger] packs[i]).0.has_promisor && (#[trigger] packs[j]).0.has_promisor {
            let (i, j) = choose|i: int, j: int|
                0 <= i < j < packs.len() && (#[trigger] packs[i]).0.has_promisor
                    && (#[trigger] packs[j]).0.has_promisor;
            assert(rest[i].0.has_promisor);
            if j < last {
                assert(rest[j].0.has_promisor);
            }
        }
    }
}

/// Listing the objects of packs fails with the failure of the first index that
/// does not read, of packs that are there and that no multi-pack index covers.
pub proof fn law_first_unread_index_fails(packs: Seq<IndexRead>, covered: Seq<String>)
    ensures
        match index_failure(packs, covered) {
            None => forall|i: int|
                0 <= i < packs.len() && (#[trigger] packs[i]).has_pack && packs[i].listing is Err ==> names_text(
                    covered,
                    packs[i].name@,
                ),
            Some(err) => exists|i: int|
                0 <= i < packs.len() && (#[trigger] packs[i]).has_pack && (packs[i].listing matches Err(e) && e == err)
                    && !names_text(covered, packs[i].name@) && forall|j: int|
                    0 <= j < i && (#[trigger] packs[j]).has_pack && packs[j].listing is Err ==> names_text(
                        covered,
                        packs[j].name@,
                    ),
        },
    decreases packs.len(),
{
    if packs.len() > 0 {
        let rest = packs.drop_last();
        let last = packs.len() - 1;
        law_first_unread_index_fails(rest, covered);
        assert(packs[last] == packs.last());
        assert forall|i: int| 0 <= i < last implies (#[trigger] packs[i]) == rest[i] by {}
        if let Some(err) = index_failure(rest, covered) {
            let i = choose|i: int|
                0 <= i < rest.len() && (#[trigger] rest[i]).has_pack && (rest[i].listing matches Err(e) && e == err)
                    && !names_text(covered, rest[i].name@) && forall|j: int|
                    0 <= j < i && (#[trigger] rest[j]).has_pack && rest[j].listing is Err ==> names_text(
                        covered,
                        rest[j].name@,
                    );
            assert(packs[i].has_pack);
        }
    }
}

/// A multi-pack index names a pack by its index.
pub proof fn law_index_name_gives_the_stem(stem: Seq<char>)
    ensures
        midx_stem(stem + ".idx"@) == stem,
{
    reveal_strlit(".idx");
    let name = stem + ".idx"@;
    assert(name.skip(name.len() - 4) =~= ".idx"@);
    assert(name.take(name.len() - 4) =~= stem);
}

/// The alternates file of a quarantine gives each alternate a line.
pub proof fn law_alternates_stand_on_lines(alternates: Seq<Alternate>, alternate: Alternate)
    ensures
        alternates_text(alternates.push(alternate)) == alternates_text(alternates) + alternate.path@ + "\n"@,
{
    assert(alternates.push(alternate).drop_last() =~= alternates);
}

/// What an object takes up in a cache is its bytes and sixty-four more, as far
/// as that can be counted.
pub proof fn law_cost_grows_with_the_body(len: nat)
    ensures
        len + 64 <= usize::MAX ==> body_cost(len) == len + 64,
        len + 64 > usize::MAX ==> body_cost(len) == usize::MAX,
{
}

/// A lookup tries the pack that the last one was found in first.
pub proof fn law_hinted_pack_is_tried_first(count: nat, hint: usize)
    requires
        hint < count,
    ensures
        lookup_order(count, Some(hint)).len() > 0,
        lookup_order(count, Some(hint))[0] == hint,
{
}

/// Subtracting a walk takes away, of the objects outside, those that it found.
pub proof fn law_subtracting_takes_away_what_was_found(
    extended: Seq<(ObjectId, ObjectType)>,
    others: Set<ObjectId>,
    pair: (ObjectId, ObjectType),
)
    ensures
        extended_without(extended, others).contains(pair) <==> extended.contains(pair) && !others.contains(pair.0),
{
    lemma_filter_contains(extended, |pair: (ObjectId, ObjectType)| !others.contains(pair.0), pair);
}

/// Installing a pack writes the pack and then its index, unless it is installed
/// already, and marks it where it is a promisor pack.
pub proof fn law_pack_is_written_once(pack: PackWrite, is_installed: bool, promisor: bool)
    ensures
        ({
            let stem = "pack-"@ + hex(pack.checksum.raw());
            let ops = pack_ops(pack, is_installed, promisor);
            let first: int = if is_installed {
                0
            } else {
                2
            };
            &&& ops.len() == first + if promisor {
                1int
            } else {
                0
            }
            &&& !is_installed ==> ops[0] == Op::Write(stem + ".pack"@, pack.pack@) && ops[1] == Op::Write(
                stem + ".idx"@,
                pack.index@,
            )
            &&& promisor ==> ops[first] == Op::Write(stem + ".promisor"@, Seq::empty())
        }),
{
}

/// A pack that comes with its index is installed only where the index that its
/// bytes give is the one it came with, under the same checksum, and all is of
/// the format of the store.
pub proof fn law_only_matching_index_is_installed(
    format: ObjectFormat,
    pack: PackWrite,
    canonical: Result<CanonicalIndex, GitError>,
    parsed: Result<PackIndexData, GitError>,
)
    ensures
        is_installable(format, pack, canonical, parsed) <==> {
            &&& pack.checksum.spec_format() == format
            &&& forall|i: int|
                0 <= i < pack.entries@.len() ==> (#[trigger] pack.entries@[i]).oid.spec_format() == format
            &&& canonical matches Ok(index) && index.pack_checksum == pack.checksum && index.index@ == pack.index@
            &&& parsed matches Ok(index) && index.pack_checksum == pack.checksum
        },
{
}

} // verus!
