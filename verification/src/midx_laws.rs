//! What a multi-pack index lists, and where, in terms of the packs.

use crate::midx::bit_order;
use crate::midx::gathered_entries;
use crate::midx::has_large_offsets;
use crate::midx::ids_are_bytes;
use crate::midx::in_bit_order;
use crate::midx::kept_entries;
use crate::midx::law_layer_lists_best_places;
use crate::midx::layer_less;
use crate::midx::layer_objects;
use crate::midx::named_pack;
use crate::midx::oldest_pack;
use crate::midx::preferred_of;
use crate::midx::MultiPackIndexEntry;
use crate::midx::MultiPackIndexLayerOptions;
use crate::midx::PackRead;
use crate::object_id::ObjectFormat;
use crate::object_id::ObjectId;
use crate::order::is_order;
use crate::order::law_stable_sort;
use crate::pack_assemble::be32_bytes;
use crate::pack_file::PackIndexEntry;
use crate::pack_laws::law_four_bytes_read_back;
use vstd::prelude::*;

verus! {

/// A layer lists each object once, in the order of ids. Of the copies of an
/// object it lists the one in the preferred pack, if that has one, else the one
/// in the newest pack, and of packs of one age that in the first.
pub proof fn law_layer_lists_the_best_copy(
    entries: Seq<MultiPackIndexEntry>,
    preferred: Option<u32>,
    mtimes: Seq<i128>,
    i: int,
    copy: MultiPackIndexEntry,
)
    requires
        ids_are_bytes(entries),
        0 <= i < layer_objects(entries, preferred, mtimes).len(),
        entries.contains(copy),
        layer_objects(entries, preferred, mtimes)[i].oid == copy.oid,
        forall|pack: int| 0 <= pack < entries.len() ==> (#[trigger] entries[pack]).pack_int_id < mtimes.len(),
    ensures
        ({
            let listed = layer_objects(entries, preferred, mtimes)[i];
            &&& entries.contains(listed)
            &&& preferred == Some(copy.pack_int_id) ==> preferred == Some(listed.pack_int_id)
            &&& preferred != Some(listed.pack_int_id) ==> {
                ||| mtimes[listed.pack_int_id as int] > mtimes[copy.pack_int_id as int]
                ||| mtimes[listed.pack_int_id as int] == mtimes[copy.pack_int_id as int] && listed.pack_int_id
                    <= copy.pack_int_id
            }
        }),
{
    law_layer_lists_best_places(entries, preferred, mtimes);
    let objects = layer_objects(entries, preferred, mtimes);
    let listed = objects[i];
    assert(entries.contains(listed));
    let k = choose|k: int|
        0 <= k < objects.len() && (#[trigger] objects[k]).oid == copy.oid && !layer_less(
            copy,
            objects[k],
            preferred,
            mtimes,
        );
    assert(k == i) by {
        if k < i {
            assert(objects[k].oid.less(objects[i].oid));
            lemma_not_less_itself(listed.oid);
        } else if i < k {
            assert(objects[i].oid.less(objects[k].oid));
            lemma_not_less_itself(listed.oid);
        }
    }
    lemma_not_less_itself(listed.oid);
    let a = choose|a: int| 0 <= a < entries.len() && entries[a] == listed;
    let b = choose|b: int| 0 <= b < entries.len() && entries[b] == copy;
    assert(entries[a].pack_int_id < mtimes.len() && entries[b].pack_int_id < mtimes.len());
}

proof fn lemma_not_less_itself(oid: ObjectId)
    ensures
        !oid.less(oid),
{
    crate::order::lemma_oid_order();
    let less = crate::order::oid_less();
    if less(oid, oid) {
        assert(!less(oid, oid));
    }
}

proof fn lemma_kept_entries(
    entries: Seq<PackIndexEntry>,
    large_offsets: bool,
    pack: u32,
    excluded: Set<ObjectId>,
    listed: MultiPackIndexEntry,
)
    ensures
        kept_entries(entries, large_offsets, pack, excluded).contains(listed) <==> listed.pack_int_id == pack
            && listed.force_large_offset == large_offsets && !excluded.contains(listed.oid) && exists|k: int|
            0 <= k < entries.len() && (#[trigger] entries[k]).oid == listed.oid && entries[k].offset == listed.offset,
    decreases entries.len(),
{
    if entries.len() > 0 {
        let rest = entries.drop_last();
        let last = entries.len() - 1;
        lemma_kept_entries(rest, large_offsets, pack, excluded, listed);
        let before = kept_entries(rest, large_offsets, pack, excluded);
        let after = kept_entries(entries, large_offsets, pack, excluded);
        assert(entries[last] == entries.last());
        if before.contains(listed) {
            let k = choose|k: int| 0 <= k < before.len() && before[k] == listed;
            assert(after[k] == listed);
        }
        if after.contains(listed) {
            let k = choose|k: int| 0 <= k < after.len() && after[k] == listed;
            if k < before.len() {
                assert(before[k] == listed);
            }
        }
        if exists|k: int|
            0 <= k < rest.len() && (#[trigger] rest[k]).oid == listed.oid && rest[k].offset == listed.offset {
            let k = choose|k: int|
                0 <= k < rest.len() && (#[trigger] rest[k]).oid == listed.oid && rest[k].offset == listed.offset;
            assert(entries[k] == rest[k]);
        }
        if exists|k: int|
            0 <= k < entries.len() && (#[trigger] entries[k]).oid == listed.oid && entries[k].offset == listed.offset {
            let k = choose|k: int|
                0 <= k < entries.len() && (#[trigger] entries[k]).oid == listed.oid && entries[k].offset
                    == listed.offset;
            if k < last {
                assert(rest[k] == entries[k]);
            } else if !excluded.contains(listed.oid) && listed.pack_int_id == pack && listed.force_large_offset
                == large_offsets {
                assert(after[before.len() as int] == listed);
            }
        }
    }
}

/// The entries of a layer are those of every pack, each with the number of its
/// pack, but for excluded objects. They can be told exactly where each pack can.
pub proof fn law_every_entry_is_gathered(
    packs: Seq<PackRead>,
    excluded: Set<ObjectId>,
    listed: MultiPackIndexEntry,
)
    requires
        packs.len() <= u32::MAX,
    ensures
        gathered_entries(packs, excluded) is Ok <==> forall|p: int|
            0 <= p < packs.len() ==> (#[trigger] packs[p]) is Listed,
        gathered_entries(packs, excluded) matches Ok(entries) ==> (entries.contains(listed) <==> {
            &&& listed.pack_int_id < packs.len()
            &&& packs[listed.pack_int_id as int] matches PackRead::Listed(listing) && {
                &&& listed.force_large_offset == listing.large_offsets
                &&& !excluded.contains(listed.oid)
                &&& exists|k: int|
                    0 <= k < listing.entries@.len() && (#[trigger] listing.entries@[k]).oid == listed.oid
                        && listing.entries@[k].offset == listed.offset
            }
        }),
    decreases packs.len(),
{
    if packs.len() > 0 {
        let rest = packs.drop_last();
        let last = packs.len() - 1;
        law_every_entry_is_gathered(rest, excluded, listed);
        assert(packs[last] == packs.last());
        assert forall|p: int| 0 <= p < rest.len() implies (#[trigger] packs[p]) == rest[p] by {}
        if gathered_entries(rest, excluded) is Ok {
            assert forall|p: int| 0 <= p < last implies (#[trigger] packs[p]) is Listed by {
                assert(rest[p] is Listed);
            }
        } else if forall|p: int| 0 <= p < packs.len() ==> (#[trigger] packs[p]) is Listed {
            assert forall|p: int| 0 <= p < rest.len() implies (#[trigger] rest[p]) is Listed by {
                assert(packs[p] is Listed);
            }
        }
        if let Ok(entries) = gathered_entries(packs, excluded) {
            let before = gathered_entries(rest, excluded)->Ok_0;
            if let PackRead::Listed(listing) = packs.last() {
                let more = kept_entries(listing.entries@, listing.large_offsets, last as u32, excluded);
                lemma_kept_entries(listing.entries@, listing.large_offsets, last as u32, excluded, listed);
                assert(entries =~= before + more);
                assert(entries.contains(listed) <==> before.contains(listed) || more.contains(listed)) by {
                    if before.contains(listed) {
                        let k = choose|k: int| 0 <= k < before.len() && before[k] == listed;
                        assert(entries[k] == listed);
                    }
                    if more.contains(listed) {
                        let k = choose|k: int| 0 <= k < more.len() && more[k] == listed;
                        assert(entries[before.len() + k] == listed);
                    }
                    if entries.contains(listed) {
                        let k = choose|k: int| 0 <= k < entries.len() && entries[k] == listed;
                        if k < before.len() {
                            assert(before[k] == listed);
                        } else {
                            assert(more[k - before.len()] == listed);
                        }
                    }
                }
            }
        }
    }
}

/// The order of bits takes in every object: those of the preferred pack come
/// first, then pack after pack by number, and within a pack by offset.
pub proof fn law_bits_go_by_pack_and_offset(objects: Seq<MultiPackIndexEntry>, preferred: u32, i: int, j: int)
    requires
        0 <= i < j < objects.len(),
    ensures
        in_bit_order(objects, preferred).len() == objects.len(),
        in_bit_order(objects, preferred).to_multiset() == objects.to_multiset(),
        ({
            let a = in_bit_order(objects, preferred)[i];
            let b = in_bit_order(objects, preferred)[j];
            ||| a.pack_int_id == b.pack_int_id && a.offset <= b.offset
            ||| a.pack_int_id == preferred && b.pack_int_id != preferred
            ||| b.pack_int_id != preferred && a.pack_int_id < b.pack_int_id
        }),
{
    let less = bit_order(Some(preferred));
    assert(is_order(less));
    law_stable_sort(less, objects);
    assert(!less(in_bit_order(objects, preferred)[j], in_bit_order(objects, preferred)[i]));
}

/// The oldest pack is no newer than any, and older than those before it.
proof fn lemma_oldest_pack(mtimes: Seq<i128>, n: nat)
    requires
        0 < n <= mtimes.len(),
        n <= u32::MAX,
    ensures
        oldest_pack(mtimes, n) < n,
        forall|k: int| 0 <= k < n ==> mtimes[oldest_pack(mtimes, n) as int] <= #[trigger] mtimes[k],
        forall|k: int|
            0 <= k < oldest_pack(mtimes, n) ==> mtimes[oldest_pack(mtimes, n) as int] < #[trigger] mtimes[k],
    decreases n,
{
    if n > 1 {
        lemma_oldest_pack(mtimes, (n - 1) as nat);
    }
}

proof fn lemma_named_pack(names: Seq<String>, asked: Seq<char>, n: nat)
    requires
        n <= names.len(),
    ensures
        match named_pack(names, asked, n) {
            Some(i) => 0 <= i < n && crate::midx::names_pack(asked, names[i]@) && forall|k: int|
                0 <= k < i ==> !crate::midx::names_pack(asked, (#[trigger] names[k])@),
            None => forall|k: int| 0 <= k < n ==> !crate::midx::names_pack(asked, (#[trigger] names[k])@),
        },
    decreases n,
{
    if n > 0 {
        lemma_named_pack(names, asked, (n - 1) as nat);
    }
}

/// The preferred pack of a layer is the one asked for, where there is one of
/// that name. A layer with a bitmap always has one: where none is asked for it
/// is the oldest, the first of packs of one age, and where there is none of the
/// name asked for it is the first. A layer without a bitmap has no other than
/// the one asked for.
pub proof fn law_preferred_pack(options: MultiPackIndexLayerOptions, mtimes: Seq<i128>, write_bitmap: bool)
    requires
        mtimes.len() == options.pack_names@.len(),
        0 < mtimes.len() <= u32::MAX,
    ensures
        write_bitmap ==> preferred_of(options, mtimes, write_bitmap) is Some,
        preferred_of(options, mtimes, write_bitmap) matches Some(pack) ==> pack < mtimes.len(),
        options.preferred_pack_name is None && !write_bitmap ==> preferred_of(options, mtimes, write_bitmap) is None,
        options.preferred_pack_name is None && write_bitmap ==> {
            let pack = preferred_of(options, mtimes, write_bitmap)->Some_0 as int;
            &&& forall|k: int| 0 <= k < mtimes.len() ==> mtimes[pack] <= #[trigger] mtimes[k]
            &&& forall|k: int| 0 <= k < pack ==> mtimes[pack] < #[trigger] mtimes[k]
        },
        options.preferred_pack_name matches Some(name) ==> {
            let preferred = preferred_of(options, mtimes, write_bitmap);
            &&& forall|k: int|
                0 <= k < options.pack_names@.len() && (#[trigger] options.pack_names@[k])@ == name@ && (forall|j: int|
                    0 <= j < options.pack_names@.len() && j != k ==> !crate::midx::names_pack(
                        name@,
                        (#[trigger] options.pack_names@[j])@,
                    )) ==> preferred == Some(k as u32)
            &&& forall|k: int, stem: Seq<char>|
                #![trigger options.pack_names@[k], stem + ".pack"@]
                0 <= k < options.pack_names@.len() && name@ == stem + ".pack"@ && options.pack_names@[k]@ == stem
                    + ".idx"@ && (forall|j: int|
                    0 <= j < options.pack_names@.len() && j != k ==> !crate::midx::names_pack(
                        name@,
                        (#[trigger] options.pack_names@[j])@,
                    )) ==> preferred == Some(k as u32)
            &&& (forall|j: int|
                0 <= j < options.pack_names@.len() ==> !crate::midx::names_pack(
                    name@,
                    (#[trigger] options.pack_names@[j])@,
                )) ==> preferred == if write_bitmap {
                Some(0u32)
            } else {
                None
            }
        },
{
    lemma_oldest_pack(mtimes, mtimes.len());
    if let Some(name) = options.preferred_pack_name {
        let names = options.pack_names@;
        lemma_named_pack(names, name@, names.len());
        assert forall|k: int, stem: Seq<char>|
            #![trigger options.pack_names@[k], stem + ".pack"@]
            0 <= k < names.len() && name@ == stem + ".pack"@ && names[k]@ == stem + ".idx"@ && (forall|j: int|
                0 <= j < names.len() && j != k ==> !crate::midx::names_pack(name@, (#[trigger] names[j])@))
            implies preferred_of(options, mtimes, write_bitmap) == Some(k as u32) by {
            reveal_strlit(".pack");
            assert(name@.take(name@.len() - 5) =~= stem);
            assert(name@.skip(name@.len() - 5) =~= ".pack"@);
            assert(crate::midx::names_pack(name@, names[k]@));
        }
        assert forall|k: int|
            0 <= k < names.len() && (#[trigger] names[k])@ == name@ && (forall|j: int|
                0 <= j < names.len() && j != k ==> !crate::midx::names_pack(name@, (#[trigger] names[j])@))
            implies preferred_of(options, mtimes, write_bitmap) == Some(k as u32) by {
            assert(crate::midx::names_pack(name@, names[k]@));
        }
    }
}

/// An index holds full-width offsets where there is anything between its tables
/// and its two checksums: behind its head and its fanout stand, for each object,
/// its id, a checksum of four bytes and an offset of four.
pub proof fn law_large_offsets_stand_behind_the_tables(
    format: ObjectFormat,
    version: Seq<u8>,
    fanout: Seq<u8>,
    count: u32,
    tables: Seq<u8>,
    extra: Seq<u8>,
    trailer: Seq<u8>,
)
    requires
        version.len() == 4,
        fanout.len() == 1020,
        tables.len() == count * (format.raw() + 8),
        trailer.len() == 2 * format.raw(),
    ensures
        has_large_offsets(
            seq![255u8, 116, 79, 99] + version + fanout + be32_bytes(count) + (tables + extra + trailer),
            format,
        ) <==> extra.len() > 0,
{
    let lead = seq![255u8, 116, 79, 99] + version + fanout;
    let tail = tables + extra + trailer;
    let bytes = lead + be32_bytes(count) + tail;
    law_four_bytes_read_back(lead, count, tail);
    assert(bytes.take(4) =~= seq![255u8, 116, 79, 99]);
    assert(lead.len() == 1028);
    assert(count * (format.raw() + 8) >= 0) by (nonlinear_arith)
        requires
            count >= 0,
            format.raw() >= 0,
    ;
    assert(bytes.len() == 1032 + count * (format.raw() + 8) + extra.len() + 2 * format.raw());
}

} // verus!
