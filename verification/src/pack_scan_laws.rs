//! What the place of an object in a pack says of its size and of the base it
//! is stored against.

use crate::error::GitError;
use crate::install::be32;
use crate::midx::MultiPackIndexEntry;
use crate::object::digest;
use crate::object::ObjectType;
use crate::object_id::ObjectFormat;
use crate::pack_assemble::assembled;
use crate::pack_assemble::is_readable;
use crate::pack_assemble::law_written_entry_is_scanned;
use crate::pack_assemble::whole_entries;
use crate::pack_assemble::whole_entry;
use crate::pack_file::PackIndexEntry;
use crate::pack_laws::law_assembled_pack_counts_its_entries;
use crate::pack_scan::delta_base;
use crate::pack_scan::header_end;
use crate::pack_scan::indexed_end;
use crate::pack_scan::is_indexed_info;
use crate::pack_scan::midx_oid_at;
use crate::pack_scan::next_offset;
use crate::pack_scan::offset_count;
use crate::pack_scan::ofs_base;
use crate::pack_scan::ofs_distance;
use crate::pack_scan::oid_at_offset;
use crate::pack_scan::scan_entries;
use crate::pack_scan::scanned_end;
use crate::pack_scan::ObjectStorageInfo;
use crate::pack_scan::PackFailure;
use crate::packed_read::first_at_offset;
use crate::packed_read::is_layered_lookup;
use crate::packed_read::is_midx_lookup;
use crate::packed_read::MidxLayer;
use crate::transfer::ReachablePackObject;
use vstd::prelude::*;

verus! {

proof fn lemma_offset_count(entries: Seq<PackIndexEntry>, offset: u64, n: nat)
    requires
        n <= entries.len(),
    ensures
        offset_count(entries, offset, n) == 0 <==> forall|i: int|
            0 <= i < n ==> (#[trigger] entries[i]).offset != offset,
        offset_count(entries, offset, n) > 1 <==> exists|i: int, j: int|
            0 <= i < j < n && (#[trigger] entries[i]).offset == offset && (#[trigger] entries[j]).offset == offset,
    decreases n,
{
    if n > 0 {
        lemma_offset_count(entries, offset, (n - 1) as nat);
        let last = entries[n - 1];
        if last.offset == offset && offset_count(entries, offset, (n - 1) as nat) > 0 {
            let i = choose|i: int| 0 <= i < n - 1 && (#[trigger] entries[i]).offset == offset;
            assert(entries[i].offset == offset && entries[n - 1].offset == offset);
        }
    }
}

proof fn lemma_next_offset(entries: Seq<PackIndexEntry>, offset: u64, n: nat)
    requires
        n <= entries.len(),
    ensures
        match next_offset(entries, offset, n) {
            None => forall|i: int| 0 <= i < n ==> (#[trigger] entries[i]).offset <= offset,
            Some(next) => {
                &&& exists|i: int| 0 <= i < n && (#[trigger] entries[i]).offset == next
                &&& next > offset
                &&& forall|i: int| 0 <= i < n && (#[trigger] entries[i]).offset > offset ==> next <= entries[i].offset
            },
        },
    decreases n,
{
    if n > 0 {
        lemma_next_offset(entries, offset, (n - 1) as nat);
        let last = entries[n - 1];
        if let Some(before) = next_offset(entries, offset, (n - 1) as nat) {
            let i = choose|i: int| 0 <= i < n - 1 && (#[trigger] entries[i]).offset == before;
            assert(entries[i].offset == before);
        }
    }
}

/// An indexed object reaches up to the next greater offset in the index, or
/// where there is none up to the checksum of the pack. Where the index lists its
/// offset twice it takes up nothing.
pub proof fn law_object_ends_where_the_next_begins(entries: Seq<PackIndexEntry>, target: u64, trailer: u64)
    ensures
        ({
            let end = indexed_end(entries, target, Some(trailer));
            let twice = exists|i: int, j: int|
                0 <= i < j < entries.len() && (#[trigger] entries[i]).offset == target && (
                #[trigger] entries[j]).offset == target;
            &&& twice ==> end == target
            &&& !twice && (forall|i: int| 0 <= i < entries.len() ==> (#[trigger] entries[i]).offset <= target) ==> end
                == trailer
            &&& !twice && (exists|i: int| 0 <= i < entries.len() && (#[trigger] entries[i]).offset > target) ==> {
                &&& end > target
                &&& exists|i: int| 0 <= i < entries.len() && (#[trigger] entries[i]).offset == end
                &&& forall|i: int|
                    0 <= i < entries.len() && (#[trigger] entries[i]).offset > target ==> end <= entries[i].offset
            }
        }),
{
    lemma_offset_count(entries, target, entries.len());
    lemma_next_offset(entries, target, entries.len());
}

/// The object at an offset of a pack is one that the index lists there; there is
/// none only where the index lists none.
pub proof fn law_object_at_offset_is_listed(entries: Seq<PackIndexEntry>, offset: u64, n: nat)
    requires
        n <= entries.len(),
    ensures
        match oid_at_offset(entries, offset, n) {
            Some(oid) => exists|i: int|
                0 <= i < n && (#[trigger] entries[i]).offset == offset && entries[i].oid == oid,
            None => forall|i: int| 0 <= i < n ==> (#[trigger] entries[i]).offset != offset,
        },
        match first_at_offset(entries, offset, n) {
            Some(oid) => exists|i: int|
                0 <= i < n && (#[trigger] entries[i]).offset == offset && entries[i].oid == oid && forall|j: int|
                    0 <= j < i ==> (#[trigger] entries[j]).offset != offset,
            None => forall|i: int| 0 <= i < n ==> (#[trigger] entries[i]).offset != offset,
        },
    decreases n,
{
    if n > 0 {
        law_object_at_offset_is_listed(entries, offset, (n - 1) as nat);
        let last = entries[n - 1];
        if let Some(oid) = first_at_offset(entries, offset, (n - 1) as nat) {
            let i = choose|i: int|
                0 <= i < n - 1 && (#[trigger] entries[i]).offset == offset && entries[i].oid == oid && forall|j: int|
                    0 <= j < i ==> (#[trigger] entries[j]).offset != offset;
            assert(entries[i].oid == oid);
        }
        if let Some(oid) = oid_at_offset(entries, offset, (n - 1) as nat) {
            let i = choose|i: int|
                0 <= i < n - 1 && (#[trigger] entries[i]).offset == offset && entries[i].oid == oid;
            assert(entries[i].oid == oid);
        }
    }
}

/// The object that a multi-pack index has at an offset of a pack is the first
/// that it lists there.
pub proof fn law_multi_pack_object_at_offset(objects: Seq<MultiPackIndexEntry>, pack: u32, offset: u64, n: nat)
    requires
        n <= objects.len(),
    ensures
        match midx_oid_at(objects, pack, offset, n) {
            Some(oid) => exists|i: int|
                0 <= i < n && (#[trigger] objects[i]).pack_int_id == pack && objects[i].offset == offset
                    && objects[i].oid == oid && forall|j: int|
                    0 <= j < i ==> !((#[trigger] objects[j]).pack_int_id == pack && objects[j].offset == offset),
            None => forall|i: int|
                0 <= i < n ==> !((#[trigger] objects[i]).pack_int_id == pack && objects[i].offset == offset),
        },
    decreases n,
{
    if n > 0 {
        law_multi_pack_object_at_offset(objects, pack, offset, (n - 1) as nat);
        let last = objects[n - 1];
        if let Some(oid) = midx_oid_at(objects, pack, offset, (n - 1) as nat) {
            let i = choose|i: int|
                0 <= i < n - 1 && (#[trigger] objects[i]).pack_int_id == pack && objects[i].offset == offset
                    && objects[i].oid == oid && forall|j: int|
                    0 <= j < i ==> !((#[trigger] objects[j]).pack_int_id == pack && objects[j].offset == offset);
            assert(objects[i].oid == oid);
        }
    }
}

/// Of the layers of an incremental multi-pack index the last that can be used
/// and lists the object says where it is; where none does, nothing is found.
pub proof fn law_newest_layer_answers(layers: Seq<MidxLayer>, found: Result<Option<(String, u64)>, GitError>)
    requires
        is_layered_lookup(layers, found),
    ensures
        forall|i: int|
            0 <= i < layers.len() && (#[trigger] layers[i]).is_usable && layers[i].place is Some && (forall|j: int|
                i < j < layers.len() ==> !((#[trigger] layers[j]).is_usable && layers[j].place is Some))
                ==> is_midx_lookup(layers[i].place, layers[i].pack_names@, found),
        (forall|j: int| 0 <= j < layers.len() ==> !((#[trigger] layers[j]).is_usable && layers[j].place is Some))
            ==> found == Ok::<Option<(String, u64)>, GitError>(None),
    decreases layers.len(),
{
    if layers.len() > 0 {
        let last = layers.len() - 1;
        let rest = layers.drop_last();
        assert(layers[last] == layers.last());
        if !(layers.last().is_usable && layers.last().place is Some) {
            law_newest_layer_answers(rest, found);
            assert forall|i: int|
                0 <= i < layers.len() && (#[trigger] layers[i]).is_usable && layers[i].place is Some && (forall|j: int|
                    i < j < layers.len() ==> !((#[trigger] layers[j]).is_usable && layers[j].place is Some))
                implies is_midx_lookup(layers[i].place, layers[i].pack_names@, found) by {
                assert(rest[i] == layers[i]);
                assert forall|j: int| i < j < rest.len() implies !((#[trigger] rest[j]).is_usable
                    && rest[j].place is Some) by {
                    assert(layers[j] == rest[j]);
                }
            }
            if forall|j: int|
                0 <= j < layers.len() ==> !((#[trigger] layers[j]).is_usable && layers[j].place is Some) {
                assert forall|j: int| 0 <= j < rest.len() implies !((#[trigger] rest[j]).is_usable
                    && rest[j].place is Some) by {
                    assert(layers[j] == rest[j]);
                }
            }
        } else {
            assert forall|i: int|
                0 <= i < layers.len() && (#[trigger] layers[i]).is_usable && layers[i].place is Some && (forall|j: int|
                    i < j < layers.len() ==> !((#[trigger] layers[j]).is_usable && layers[j].place is Some))
                implies is_midx_lookup(layers[i].place, layers[i].pack_names@, found) by {
                if i < last {
                    assert(layers[last].is_usable);
                }
            }
        }
    }
}

/// Where the entry of the `k`-th object of an assembled pack begins.
pub open spec fn entry_start(objects: Seq<ReachablePackObject>, k: int) -> int {
    12 + whole_entries(objects.take(k)).len() as int
}

/// The type of the `k`-th object.
spec fn type_at(objects: Seq<ReachablePackObject>, k: int) -> ObjectType {
    objects[k].object.spec_type()
}

proof fn lemma_entry_starts(objects: Seq<ReachablePackObject>, k: int)
    requires
        0 <= k < objects.len(),
        is_readable(objects[k].object.body@),
    ensures
        ({
            let entry = whole_entry(objects[k].object.spec_type(), objects[k].object.body@);
            &&& entry_start(objects, k + 1) == entry_start(objects, k) + entry.len()
            &&& entry.len() > 0
            &&& whole_entries(objects).len() >= whole_entries(objects.take(k)).len() + entry.len()
            &&& whole_entries(objects).subrange(
                whole_entries(objects.take(k)).len() as int,
                whole_entries(objects.take(k)).len() + entry.len() as int,
            ) == entry
        }),
    decreases objects.len(),
{
    let entry = whole_entry(type_at(objects, k), objects[k].object.body@);
    assert(objects.take(k + 1).drop_last() =~= objects.take(k));
    assert(objects.take(k + 1).last() == objects[k]);
    assert(whole_entries(objects.take(k + 1)) == whole_entries(objects.take(k)) + entry);
    let rest = objects.drop_last();
    let all = whole_entries(objects);
    let from = whole_entries(objects.take(k)).len() as int;
    if k < rest.len() {
        assert(rest[k] == objects[k]);
        lemma_entry_starts(rest, k);
        assert(rest.take(k) =~= objects.take(k));
        let before = whole_entries(rest);
        assert(all.subrange(from, from + entry.len()) =~= before.subrange(from, from + entry.len()));
    } else {
        assert(objects.take(k + 1) =~= objects);
        assert(all.subrange(from, from + entry.len()) =~= entry);
    }
}

proof fn lemma_scan_reaches(
    format: ObjectFormat,
    pack: Seq<u8>,
    trailer: int,
    objects: Seq<ReachablePackObject>,
    k: int,
    j: int,
)
    requires
        0 <= k <= j < objects.len(),
        forall|i: int| 0 <= i < objects.len() ==> is_readable((#[trigger] objects[i]).object.body@),
        trailer == 12 + whole_entries(objects).len(),
        trailer <= pack.len() <= u64::MAX,
        pack.subrange(12, trailer) == whole_entries(objects),
    ensures
        scan_entries(
            format,
            pack,
            trailer,
            entry_start(objects, k),
            (objects.len() - k) as nat,
            entry_start(objects, j) as u64,
        ) == Ok::<Option<int>, PackFailure>(Some(entry_start(objects, j + 1))),
        entry_start(objects, k) <= entry_start(objects, j) < trailer,
    decreases j - k,
{
    assert(is_readable(objects[k].object.body@) && is_readable(objects[j].object.body@));
    lemma_entry_starts(objects, k);
    lemma_entry_starts(objects, j);
    let object_type = type_at(objects, k);
    let body = objects[k].object.body@;
    let entry = whole_entry(object_type, body);
    let at = entry_start(objects, k);
    let from = whole_entries(objects.take(k)).len() as int;
    let own = pack.subrange(at, at + entry.len());
    let meant = whole_entries(objects).subrange(from, from + entry.len());
    assert forall|i: int| 0 <= i < entry.len() implies #[trigger] own[i] == meant[i] by {
        assert(pack.subrange(12, trailer)[from + i] == pack[12 + (from + i)]);
    }
    assert(own =~= meant);
    law_written_entry_is_scanned(format, pack, trailer, at, object_type, body);
    if k < j {
        lemma_scan_reaches(format, pack, trailer, objects, k + 1, j);
    }
}

/// In a pack that was assembled from objects, an object takes up its entry: a
/// scan finds that each ends where the next begins, the last at the checksum.
pub proof fn law_assembled_pack_is_scanned(
    format: ObjectFormat,
    objects: Seq<ReachablePackObject>,
    pack: Seq<u8>,
    k: int,
)
    requires
        0 <= k < objects.len() <= u32::MAX,
        forall|i: int| 0 <= i < objects.len() ==> is_readable((#[trigger] objects[i]).object.body@),
        ({
            let body = assembled(objects.len() as u32, Seq::empty(), objects);
            pack == body + digest(format, body) && digest(format, body).len() == format.raw() && pack.len()
                <= u64::MAX
        }),
    ensures
        scanned_end(format, pack, entry_start(objects, k) as u64) == Ok::<Option<int>, PackFailure>(
            Some(entry_start(objects, k + 1)),
        ),
        entry_start(objects, 0) == 12,
        entry_start(objects, k + 1) == entry_start(objects, k) + whole_entry(
            objects[k].object.spec_type(),
            objects[k].object.body@,
        ).len(),
        entry_start(objects, objects.len() as int) == pack.len() - format.raw(),
{
    let body = assembled(objects.len() as u32, Seq::empty(), objects);
    let trailer = body.len() as int;
    law_assembled_pack_counts_its_entries(objects.len() as u32, Seq::empty(), objects);
    assert(objects.take(0) =~= Seq::empty());
    assert(objects.take(objects.len() as int) =~= objects);
    assert(pack.take(trailer) =~= body);
    assert(pack.skip(trailer) =~= digest(format, body));
    assert(pack.take(4) =~= body.take(4));
    assert(body.skip(12 + Seq::<u8>::empty().len() as int) =~= whole_entries(objects));
    let inner = pack.subrange(12, trailer);
    assert forall|i: int| 0 <= i < inner.len() implies #[trigger] inner[i] == whole_entries(objects)[i] by {
        assert(body.skip(12)[i] == body[12 + i]);
    }
    assert(inner =~= whole_entries(objects));
    assert(be32(pack, 4) == be32(body, 4) && be32(pack, 8) == be32(body, 8));
    lemma_scan_reaches(format, pack, trailer, objects, 0, k);
    assert(is_readable(objects[k].object.body@));
    lemma_entry_starts(objects, k);
}

/// The number that bytes spell seven bits at a time, the highest first, with one
/// added before each further byte.
proof fn lemma_two_byte_distance(pack: Seq<u8>, at: int, first: u64)
    requires
        0 <= at < pack.len(),
        pack[at] < 128,
        first < 128,
    ensures
        ofs_distance(pack, at, first) == Ok::<(u64, int), PackFailure>(
            (((first + 1) * 128 + pack[at]) as u64, at + 1),
        ),
{
}

/// The base of an offset delta lies before it by the distance that the bytes
/// behind the entry's header give: by the byte itself where it is below a
/// hundred and twenty-eight, and where two bytes give it by one more than the
/// low bits of the first, times a hundred and twenty-eight, and the second. A
/// distance that leads before the start of the pack is refused.
pub proof fn law_offset_base_lies_before(pack: Seq<u8>, at: int, entry_offset: u64)
    requires
        0 <= at,
        at + 1 < pack.len(),
    ensures
        pack[at] < 128 && pack[at] <= entry_offset ==> ofs_base(pack, at, entry_offset) == Ok::<
            (u64, int),
            PackFailure,
        >(((entry_offset - pack[at]) as u64, at + 1)),
        pack[at] < 128 && pack[at] > entry_offset ==> ofs_base(pack, at, entry_offset) is Err,
        pack[at] >= 128 && pack[at + 1] < 128 ==> {
            let distance = (pack[at] - 128 + 1) * 128 + pack[at + 1];
            if distance <= entry_offset {
                ofs_base(pack, at, entry_offset) == Ok::<(u64, int), PackFailure>(
                    ((entry_offset - distance) as u64, at + 2),
                )
            } else {
                ofs_base(pack, at, entry_offset) is Err
            }
        },
{
    if pack[at] >= 128 && pack[at + 1] < 128 {
        lemma_two_byte_distance(pack, at + 1, (pack[at] % 128) as u64);
    }
}

/// Each further byte of a distance goes on from what came before: one is added,
/// the sum is moved up by seven bits, and the low bits of the byte are put in.
pub proof fn law_distance_goes_on(pack: Seq<u8>, at: int, so_far: u64)
    requires
        0 <= at < pack.len(),
        so_far < 0x1_0000_0000_0000,
        pack[at] >= 128,
    ensures
        ofs_distance(pack, at, so_far) == ofs_distance(
            pack,
            at + 1,
            ((so_far + 1) * 128 + (pack[at] - 128)) as u64,
        ),
{
    assert((so_far + 1) * 128 < 0x1_0000_0000_0000_0000);
    assert(((so_far + 1) * 128) % 0x1_0000_0000_0000_0000 == (so_far + 1) * 128);
}

/// Which base a pack entry records: an offset for kind six, the bytes of an id
/// for kind seven, and none for any other. The kind is in the three bits above
/// the lowest four of the first byte.
pub proof fn law_delta_base_follows_the_kind(format: ObjectFormat, pack: Seq<u8>, entry_offset: u64)
    ensures
        delta_base(format, pack, entry_offset) matches Ok(base) ==> {
            let kind = (pack[entry_offset as int] / 16) % 8;
            &&& entry_offset < pack.len()
            &&& base is None <==> kind != 6 && kind != 7
            &&& base matches Some((recorded, _, raw)) ==> recorded == kind && (kind == 7 ==> raw.len()
                == format.raw())
        },
{
    lemma_header_end(pack, entry_offset as int);
}

proof fn lemma_header_end(pack: Seq<u8>, at: int)
    requires
        0 <= at,
    ensures
        header_end(pack, at) matches Some(end) ==> at < end <= pack.len(),
    decreases pack.len() - at,
{
    if at < pack.len() && pack[at] >= 128 {
        lemma_header_end(pack, at + 1);
    }
}

/// The object of an index entry takes up the bytes from its offset to where the
/// next one begins, or to the checksum of the pack, and one that is no delta has
/// no base.
pub proof fn law_indexed_object_takes_up_its_bytes(
    format: ObjectFormat,
    offset: u64,
    entries: Seq<PackIndexEntry>,
    pack: Seq<u8>,
    info: ObjectStorageInfo,
)
    requires
        is_indexed_info(format, offset, entries, Some(pack), Ok(info)),
        forall|i: int, j: int|
            0 <= i < j < entries.len() ==> (#[trigger] entries[i]).offset != (#[trigger] entries[j]).offset,
        pack.len() <= u64::MAX,
    ensures
        exists|i: int| 0 <= i < entries.len() && (#[trigger] entries[i]).offset == offset,
        (forall|i: int| 0 <= i < entries.len() ==> (#[trigger] entries[i]).offset <= offset) ==> offset
            + info.disk_size == pack.len() - format.raw(),
        (exists|i: int| 0 <= i < entries.len() && (#[trigger] entries[i]).offset > offset) ==> {
            &&& exists|i: int| 0 <= i < entries.len() && (#[trigger] entries[i]).offset == offset + info.disk_size
            &&& forall|i: int|
                0 <= i < entries.len() && (#[trigger] entries[i]).offset > offset ==> offset + info.disk_size
                    <= entries[i].offset
        },
        delta_base(format, pack, offset) matches Ok(None) ==> info.deltabase.raw() == Seq::new(
            format.raw(),
            |i: int| 0u8,
        ),
{
    let trailer = (pack.len() - format.raw()) as u64;
    lemma_offset_count(entries, offset, entries.len());
    law_object_ends_where_the_next_begins(entries, offset, trailer);
}

} // verus!
