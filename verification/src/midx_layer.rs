//! What is written for a selected layer of a multi-pack index.

use crate::bitmap::position_map;
use crate::bitmap_build::build_end;
use crate::bitmap_build::build_midx_bitmap;
use crate::bitmap_build::ends_in;
use crate::bitmap_build::is_plan;
use crate::bitmap_build::BitmapBuild;
use crate::bitmap_build::BitmapPlan;
use crate::bitmap_build::BuildEnd;
use crate::bitmap_load::list_midx_bit_order;
use crate::bitmap_load::midx_bit_order;
use crate::bitmap_walk::FillEnd;
use crate::error::GitError;
use crate::midx::bit_less;
use crate::midx::bit_order;
use crate::midx::in_bit_order;
use crate::midx::incremental_compact_bitmapped_pack_ranges;
use crate::midx::midx_bitmapped_pack_ranges;
use crate::midx::pack_count;
use crate::midx::pack_start;
use crate::midx::ByBit;
use crate::midx::MissingMidxBitmapPolicy;
use crate::midx::MultiPackBitmapPack;
use crate::midx::MultiPackIndexBitmapInputs;
use crate::midx::MultiPackIndexEntry;
use crate::midx::MultiPackIndexEntryLayerOptions;
use crate::midx::MultiPackIndexLayerError;
use crate::object::ObjectReader;
use crate::object::ObjectType;
use crate::object_id::byte_slice_eq;
use crate::object_id::ObjectFormat;
use crate::object_id::ObjectId;
use crate::oid_map::OidMap;
use crate::order::is_order;
use crate::order::lemma_sort_map;
use crate::order::sort;
use crate::order::stable_sort;
use crate::order::Less;
use crate::order::Order;
use crate::pack_file::entry_order;
use crate::pack_file::ByEntryOid;
use crate::pack_file::PackIndexEntry;
use crate::text::concat3;
use crate::text::hex;
use vstd::prelude::*;
use vstd::slice::slice_subrange;

verus! {

/// What the writer of a multi-pack index is handed beside packs and objects.
pub struct MultiPackIndexLayerWrite {
    /// The pack whose objects come first in the order of bits, where that is
    /// recorded.
    pub bit_preferred: Option<u32>,
    /// The bits of each pack, where a bitmap is to go with the index.
    pub bitmapped_packs: Option<Vec<MultiPackBitmapPack>>,
}

/// The preferred pack, or the first.
pub open spec fn preferred_or_first(preferred: Option<u32>) -> u32 {
    match preferred {
        Some(pack) => pack,
        None => 0,
    }
}

/// Says what is written for a layer whose objects are already selected: with a
/// bitmap, the order of bits and the bits of each pack, or for a compacted
/// incremental layer only how many they are.
pub fn build_multi_pack_index_layer_from_entries(options: &MultiPackIndexEntryLayerOptions) -> (write:
    MultiPackIndexLayerWrite)
    requires
        options.write_bitmap && options.version != 2 ==> forall|i: int|
            0 <= i < options.objects@.len() ==> (#[trigger] options.objects@[i]).pack_int_id
                < options.pack_names@.len(),
        options.write_bitmap ==> options.objects@.len() <= u32::MAX,
    ensures
        !options.write_bitmap ==> write.bit_preferred is None && write.bitmapped_packs is None,
        options.write_bitmap ==> {
            let preferred = preferred_or_first(options.preferred_pack);
            let objects = options.objects@;
            &&& write.bit_preferred == Some(preferred)
            &&& write.bitmapped_packs is Some
            &&& write.bitmapped_packs->Some_0@.len() == options.pack_names@.len()
            &&& forall|p: int|
                0 <= p < options.pack_names@.len() ==> {
                    let range = #[trigger] write.bitmapped_packs->Some_0@[p];
                    if options.version == 2 {
                        range.bitmap_pos == 0 && range.bitmap_nr == pack_count(objects, p, objects.len())
                    } else {
                        range.bitmap_pos == pack_start(in_bit_order(objects, preferred), p, objects.len())
                            && range.bitmap_nr == pack_count(in_bit_order(objects, preferred), p, objects.len())
                    }
                }
        },
{
    if !options.write_bitmap {
        return MultiPackIndexLayerWrite { bit_preferred: None, bitmapped_packs: None };
    }
    let preferred: u32 = match options.preferred_pack {
        Some(pack) => pack,
        None => 0,
    };
    let ranges = if options.version == 2 {
        incremental_compact_bitmapped_pack_ranges(options.pack_names.len(), &options.objects)
    } else {
        midx_bitmapped_pack_ranges(options.pack_names.len(), &options.objects, preferred)
    };
    MultiPackIndexLayerWrite { bit_preferred: Some(preferred), bitmapped_packs: Some(ranges) }
}

/// The checksum at the end of a written multi-pack index.
pub fn midx_checksum(format: ObjectFormat, midx: &[u8]) -> (checksum: Option<ObjectId>)
    ensures
        checksum is Some <==> midx@.len() >= format.raw(),
        checksum matches Some(oid) ==> oid.spec_format() == format && oid.raw() == midx@.skip(
            midx@.len() - format.raw(),
        ),
{
    let len: usize = format.raw_len();
    if midx.len() < len {
        return None;
    }
    let tail = slice_subrange(midx, midx.len() - len, midx.len());
    assert(tail@ =~= midx@.skip(midx@.len() - format.raw()));
    ObjectId::from_raw(format, tail)
}

/// Whether the files on disk are to be left as they are: that was asked for,
/// the stored index is the same in bytes, and a bitmap that is wanted is there.
pub fn layer_is_unchanged(
    skip_if_unchanged: bool,
    existing: Option<&[u8]>,
    midx: &[u8],
    write_bitmap: bool,
    bitmap_exists: bool,
) -> (unchanged: bool)
    ensures
        unchanged == (skip_if_unchanged && (existing matches Some(stored) && stored@ == midx@) && (!write_bitmap
            || bitmap_exists)),
{
    let same = match existing {
        Some(stored) => byte_slice_eq(stored, midx),
        None => false,
    };
    skip_if_unchanged && same && (!write_bitmap || bitmap_exists)
}

/// The name hashes that the bitmap of a pack records, in the order of its
/// index.
pub struct NameHashes {
    pub entries: Vec<PackIndexEntry>,
    pub cache: Vec<u32>,
}

/// The hashes of the first `n` objects of a pack, added to hashes known before,
/// which win.
pub open spec fn with_hashes(
    known: Map<ObjectId, u32>,
    entries: Seq<PackIndexEntry>,
    cache: Seq<u32>,
    n: nat,
) -> Map<ObjectId, u32>
    decreases n,
{
    if n == 0 {
        known
    } else {
        let before = with_hashes(known, entries, cache, (n - 1) as nat);
        if before.contains_key(entries[n - 1].oid) {
            before
        } else {
            before.insert(entries[n - 1].oid, cache[n - 1])
        }
    }
}

pub open spec fn shorter(a: nat, b: nat) -> nat {
    if a < b {
        a
    } else {
        b
    }
}

/// The hashes that packs record, the first pack that has one deciding.
pub open spec fn known_hashes(packs: Seq<NameHashes>) -> Map<ObjectId, u32>
    decreases packs.len(),
{
    if packs.len() == 0 {
        Map::empty()
    } else {
        let entries = stable_sort(entry_order(), packs.last().entries@);
        with_hashes(
            known_hashes(packs.drop_last()),
            entries,
            packs.last().cache@,
            shorter(entries.len(), packs.last().cache@.len()),
        )
    }
}

/// The name hash of each object of a layer: what the first pack whose bitmap
/// records one says, else zero.
pub fn midx_bitmap_name_hash_cache(packs: &Vec<NameHashes>, objects: &Vec<MultiPackIndexEntry>) -> (cache: Vec<
    u32,
>)
    ensures
        cache@ == objects@.map_values(
            |entry: MultiPackIndexEntry|
                if known_hashes(packs@).contains_key(entry.oid) {
                    known_hashes(packs@)[entry.oid]
                } else {
                    0u32
                },
        ),
{
    let mut by_oid: OidMap<u32> = OidMap::new();
    let mut i: usize = 0;
    while i < packs.len()
        invariant
            i <= packs@.len(),
            by_oid@ == known_hashes(packs@.take(i as int)),
        decreases packs@.len() - i,
    {
        assert(packs@.take(i + 1).drop_last() =~= packs@.take(i as int));
        let entries = sort(&ByEntryOid, &packs[i].entries);
        let cache = &packs[i].cache;
        let ghost known = by_oid@;
        let mut k: usize = 0;
        while k < entries.len() && k < cache.len()
            invariant
                k <= entries@.len(),
                k <= cache@.len(),
                by_oid@ == with_hashes(known, entries@, cache@, k as nat),
            decreases entries@.len() - k,
        {
            if !by_oid.contains_key(&entries[k].oid) {
                by_oid.insert(entries[k].oid, cache[k]);
            }
            k += 1;
        }
        i += 1;
    }
    assert(packs@.take(i as int) =~= packs@);
    let mut out: Vec<u32> = Vec::with_capacity(objects.len());
    let mut j: usize = 0;
    while j < objects.len()
        invariant
            j <= objects@.len(),
            by_oid@ == known_hashes(packs@),
            out@.len() == j,
            forall|m: int|
                0 <= m < j ==> out@[m] == if known_hashes(packs@).contains_key(objects@[m].oid) {
                    known_hashes(packs@)[objects@[m].oid]
                } else {
                    0u32
                },
        decreases objects@.len() - j,
    {
        match by_oid.get(&objects[j].oid) {
            Some(hash) => {
                out.push(*hash);
            },
            None => {
                out.push(0);
            },
        }
        j += 1;
    }
    assert(out@ =~= objects@.map_values(
        |entry: MultiPackIndexEntry|
            if known_hashes(packs@).contains_key(entry.oid) {
                known_hashes(packs@)[entry.oid]
            } else {
                0u32
            },
    ));
    out
}

/// An entry and its position in the index.
#[derive(Clone, Copy)]
pub struct Place {
    pub entry: MultiPackIndexEntry,
    pub at: u32,
}

pub open spec fn place_order(preferred: u32) -> Less<Place> {
    |a: Place, b: Place| bit_less(a.entry, b.entry, Some(preferred))
}

struct ByPlace {
    preferred: u32,
}

impl Order<Place> for ByPlace {
    closed spec fn less(&self) -> Less<Place> {
        place_order(self.preferred)
    }

    proof fn lemma_is_order(&self) {
        assert(is_order(place_order(self.preferred)));
    }

    fn is_less(&self, a: &Place, b: &Place) -> (less: bool) {
        let order = ByBit { preferred: Some(self.preferred) };
        order.is_less(&a.entry, &b.entry)
    }
}

pub open spec fn places(objects: Seq<MultiPackIndexEntry>) -> Seq<Place> {
    Seq::new(objects.len(), |i: int| Place { entry: objects[i], at: i as u32 })
}

/// For each bit, the position of its object in the index.
pub open spec fn reverse_positions(objects: Seq<MultiPackIndexEntry>, preferred: u32) -> Seq<u32> {
    stable_sort(place_order(preferred), places(objects)).map_values(|place: Place| place.at)
}

/// For each bit, the position of its object in the index.
pub fn list_reverse_positions(objects: &Vec<MultiPackIndexEntry>, preferred: u32) -> (positions: Vec<u32>)
    requires
        objects@.len() <= u32::MAX,
    ensures
        positions@ == reverse_positions(objects@, preferred),
{
    let mut items: Vec<Place> = Vec::with_capacity(objects.len());
    let mut i: usize = 0;
    while i < objects.len()
        invariant
            i <= objects@.len() <= u32::MAX,
            items@ == places(objects@).take(i as int),
        decreases objects@.len() - i,
    {
        items.push(Place { entry: objects[i], at: i as u32 });
        assert(items@ =~= places(objects@).take(i + 1));
        i += 1;
    }
    assert(items@ =~= places(objects@));
    let sorted = sort(&ByPlace { preferred }, &items);
    let mut positions: Vec<u32> = Vec::with_capacity(sorted.len());
    let mut k: usize = 0;
    while k < sorted.len()
        invariant
            k <= sorted@.len(),
            positions@.len() == k,
            forall|m: int| 0 <= m < k ==> positions@[m] == sorted@[m].at,
        decreases sorted@.len() - k,
    {
        positions.push(sorted[k].at);
        k += 1;
    }
    assert(positions@ =~= reverse_positions(objects@, preferred));
    positions
}

/// The object that the reverse index gives for a bit is the object of the bit.
pub proof fn law_reverse_index_is_bit_order(objects: Seq<MultiPackIndexEntry>, preferred: u32, i: int)
    requires
        0 <= i < objects.len() <= u32::MAX,
    ensures
        reverse_positions(objects, preferred).len() == objects.len(),
        reverse_positions(objects, preferred)[i] < objects.len(),
        objects[reverse_positions(objects, preferred)[i] as int] == in_bit_order(objects, preferred)[i],
{
    let by_place = ByPlace { preferred };
    let by_bit = ByBit { preferred: Some(preferred) };
    by_place.lemma_is_order();
    by_bit.lemma_is_order();
    let f = |place: Place| place.entry;
    let all = places(objects);
    crate::order::law_stable_sort(place_order(preferred), all);
    lemma_sort_map(place_order(preferred), bit_order(Some(preferred)), f, all);
    assert(all.map_values(f) =~= objects);
    let sorted = stable_sort(place_order(preferred), all);
    assert(sorted.map_values(f)[i] == sorted[i].entry);
    assert(sorted.contains(sorted[i]));
    crate::order::lemma_sort_contains(place_order(preferred), all, sorted[i]);
    let k = choose|k: int| 0 <= k < all.len() && all[k] == sorted[i];
    assert(all[k].at == k && all[k].entry == objects[k]);
}

/// The bitmap that goes with a layer, and what is stored beside it.
pub struct LayerBitmap {
    pub plan: BitmapPlan,
    pub name_hash_cache: Option<Vec<u32>>,
    pub lookup_table: bool,
    /// For each bit, the position of its object, for a file of its own.
    pub reverse_index: Option<Vec<u32>>,
}

/// The types that headers give, or the first that is not known.
pub open spec fn known_types(headers: Seq<Result<Option<ObjectType>, GitError>>, n: nat) -> Result<
    Seq<ObjectType>,
    int,
>
    decreases n,
{
    if n == 0 {
        Ok(Seq::empty())
    } else {
        match known_types(headers, (n - 1) as nat) {
            Err(at) => Err(at),
            Ok(types) => match headers[n - 1] {
                Ok(Some(object_type)) => Ok(types.push(object_type)),
                _ => Err(n - 1),
            },
        }
    }
}

proof fn lemma_unknown_type(headers: Seq<Result<Option<ObjectType>, GitError>>, n: nat, m: nat)
    requires
        n <= m,
        known_types(headers, n) is Err,
    ensures
        known_types(headers, m) == known_types(headers, n),
    decreases m - n,
{
    if n < m {
        lemma_unknown_type(headers, n, (m - 1) as nat);
    }
}

/// Whether `err` says why the type of an object is not known.
pub open spec fn is_type_failure(
    header: Result<Option<ObjectType>, GitError>,
    oid: ObjectId,
    err: GitError,
) -> bool {
    match header {
        Err(inner) => err == inner,
        Ok(_) => err matches GitError::InvalidFormat(text) && text@ == "object "@ + hex(oid.raw())
            + " missing while writing bitmap"@,
    }
}

/// The plan of a bitmap that gives only the types of objects. `headers` goes
/// with the objects in the order of bits.
pub fn write_empty_midx_bitmap(
    objects: &Vec<MultiPackIndexEntry>,
    preferred: u32,
    headers: &[Result<Option<ObjectType>, GitError>],
) -> (plan: Result<BitmapPlan, GitError>)
    requires
        headers@.len() == objects@.len(),
    ensures
        match known_types(headers@, headers@.len()) {
            Ok(types) => plan matches Ok(plan) && plan.object_types@ == types && plan.entries@.len() == 0
                && plan.merges@.len() == 0,
            Err(at) => plan matches Err(err) && is_type_failure(
                headers@[at],
                midx_bit_order(objects@, Some(preferred))[at],
                err,
            ),
        },
{
    let oids = list_midx_bit_order(objects, Some(preferred));
    let mut types: Vec<ObjectType> = Vec::with_capacity(headers.len());
    let mut i: usize = 0;
    while i < headers.len()
        invariant
            i <= headers@.len(),
            oids@.len() == headers@.len(),
            oids@ == midx_bit_order(objects@, Some(preferred)),
            known_types(headers@, i as nat) == Ok::<Seq<ObjectType>, int>(types@),
        decreases headers@.len() - i,
    {
        match &headers[i] {
            Err(err) => {
                proof {
                    lemma_unknown_type(headers@, (i + 1) as nat, headers@.len());
                }
                return Err(err.copy());
            },
            Ok(None) => {
                proof {
                    lemma_unknown_type(headers@, (i + 1) as nat, headers@.len());
                }
                let name = oids[i].to_hex();
                return Err(
                    GitError::InvalidFormat(
                        concat3("object ", name.as_str(), " missing while writing bitmap"),
                    ),
                );
            },
            Ok(Some(object_type)) => {
                types.push(*object_type);
            },
        }
        i += 1;
    }
    Ok(BitmapPlan { object_types: types, entries: Vec::new(), merges: Vec::new() })
}

/// What becomes of a bitmap whose selected tips do not have complete closure:
/// one of types only, where that is the policy, or a refusal.
pub open spec fn is_without_closure(
    bitmap: Result<LayerBitmap, MultiPackIndexLayerError>,
    policy: MissingMidxBitmapPolicy,
    headers: Seq<Result<Option<ObjectType>, GitError>>,
    order: Seq<ObjectId>,
) -> bool {
    if policy == MissingMidxBitmapPolicy::WriteEmpty {
        match known_types(headers, headers.len()) {
            Ok(types) => {
                &&& bitmap is Ok
                &&& bitmap->Ok_0.plan.object_types@ == types
                &&& bitmap->Ok_0.plan.entries@.len() == 0
                &&& bitmap->Ok_0.plan.merges@.len() == 0
                &&& bitmap->Ok_0.name_hash_cache is None
                &&& !bitmap->Ok_0.lookup_table
            },
            Err(at) => bitmap matches Err(MultiPackIndexLayerError::Source(err)) && is_type_failure(
                headers[at],
                order[at],
                err,
            ),
        }
    } else {
        bitmap matches Err(MultiPackIndexLayerError::BitmapUnavailable)
    }
}

/// Plans the bitmap of a selected layer. `headers` goes with the objects in
/// the order of bits, and `hashes` with the packs whose bitmaps record name
/// hashes. Without full closure the inputs decide between a bitmap of types
/// only and a refusal.
pub fn build_selected_multi_pack_index_layer<R: ObjectReader>(
    reader: &R,
    objects: &Vec<MultiPackIndexEntry>,
    preferred_pack: Option<u32>,
    inputs: &MultiPackIndexBitmapInputs,
    headers: &[Result<Option<ObjectType>, GitError>],
    hashes: &Vec<NameHashes>,
) -> (bitmap: Result<LayerBitmap, MultiPackIndexLayerError>)
    requires
        headers@.len() == objects@.len(),
        objects@.len() <= u32::MAX,
        forall|i: int|
            0 <= i < inputs.pseudo_merge_groups@.len() ==> (#[trigger] inputs.pseudo_merge_groups@[i]).wf(),
    ensures
        ({
            let preferred = preferred_or_first(preferred_pack);
            let order = midx_bit_order(objects@, Some(preferred));
            &&& objects@.len() == 0 ==> is_without_closure(bitmap, inputs.missing_closure, headers@, order)
            &&& objects@.len() > 0 ==> match build_end(
                reader,
                order,
                headers@,
                inputs.preferred_tips@,
                inputs.pseudo_merge_groups@,
            ) {
                BuildEnd::Done(types, selected, memo, merges) => {
                    &&& bitmap is Ok
                    &&& is_plan(
                        bitmap->Ok_0.plan,
                        reader,
                        position_map(order),
                        objects@.len(),
                        types,
                        selected,
                        memo,
                        merges,
                    )
                    &&& bitmap->Ok_0.lookup_table == inputs.write_lookup_table
                    &&& bitmap->Ok_0.name_hash_cache is Some == inputs.write_hash_cache
                    &&& bitmap->Ok_0.name_hash_cache matches Some(cache) ==> cache@ == objects@.map_values(
                        |entry: MultiPackIndexEntry|
                            if known_hashes(hashes@).contains_key(entry.oid) {
                                known_hashes(hashes@)[entry.oid]
                            } else {
                                0u32
                            },
                    )
                },
                BuildEnd::Stopped(FillEnd::Missing(_)) => is_without_closure(
                    bitmap,
                    inputs.missing_closure,
                    headers@,
                    order,
                ),
                BuildEnd::Stopped(end) => bitmap matches Err(MultiPackIndexLayerError::Source(err)) && ends_in(
                    end,
                    err,
                ),
            }
        }),
        bitmap matches Ok(bitmap) ==> {
            &&& bitmap.reverse_index is Some == inputs.write_reverse_index
            &&& bitmap.reverse_index matches Some(positions) ==> positions@ == reverse_positions(
                objects@,
                preferred_or_first(preferred_pack),
            )
        },
{
    let preferred: u32 = match preferred_pack {
        Some(pack) => pack,
        None => 0,
    };
    let build = build_midx_bitmap(
        reader,
        objects,
        preferred,
        headers,
        &inputs.preferred_tips,
        &inputs.pseudo_merge_groups,
    );
    let (plan, full) = match build {
        Err(err) => {
            return Err(MultiPackIndexLayerError::Source(err));
        },
        Ok(BitmapBuild::Plan(plan)) => (plan, true),
        Ok(_) => {
            if inputs.missing_closure != MissingMidxBitmapPolicy::WriteEmpty {
                return Err(MultiPackIndexLayerError::BitmapUnavailable);
            }
            match write_empty_midx_bitmap(objects, preferred, headers) {
                Err(err) => {
                    return Err(MultiPackIndexLayerError::Source(err));
                },
                Ok(plan) => (plan, false),
            }
        },
    };
    let name_hash_cache = if full && inputs.write_hash_cache {
        Some(midx_bitmap_name_hash_cache(hashes, objects))
    } else {
        None
    };
    let reverse_index = if inputs.write_reverse_index {
        Some(list_reverse_positions(objects, preferred))
    } else {
        None
    };
    Ok(
        LayerBitmap {
            plan,
            name_hash_cache,
            lookup_table: full && inputs.write_lookup_table,
            reverse_index,
        },
    )
}

/// The bytes of one multi-pack index layer and what was decided about it.
pub struct MultiPackIndexLayerOutcome {
    pub checksum: ObjectId,
    pub midx: Vec<u8>,
    pub bitmap: Option<Vec<u8>>,
    pub reverse_index: Option<Vec<u8>>,
    pub preferred_pack: Option<u32>,
    pub wrote_bitmap: bool,
    /// Whether the same index, with its bitmap where one is wanted, is on disk
    /// already. Every file is then to be left as it is.
    pub unchanged: bool,
}

/// The outcome of a layer from the bytes of its index and its sidecars. Where
/// the files on disk stay as they are there are no sidecars to write.
pub fn finish_multi_pack_index_layer(
    format: ObjectFormat,
    midx: Vec<u8>,
    preferred_pack: Option<u32>,
    write_bitmap: bool,
    unchanged: bool,
    bitmap: Option<Vec<u8>>,
    reverse_index: Option<Vec<u8>>,
) -> (outcome: MultiPackIndexLayerOutcome)
    requires
        midx@.len() >= format.raw(),
    ensures
        outcome.checksum.spec_format() == format,
        outcome.checksum.raw() == midx@.skip(midx@.len() - format.raw()),
        outcome.midx == midx,
        outcome.preferred_pack == preferred_pack,
        outcome.wrote_bitmap == write_bitmap,
        outcome.unchanged == unchanged,
        outcome.bitmap == if unchanged || !write_bitmap {
            None
        } else {
            bitmap
        },
        outcome.reverse_index == if unchanged || !write_bitmap {
            None
        } else {
            reverse_index
        },
{
    let checksum = match midx_checksum(format, &midx) {
        Some(checksum) => checksum,
        None => {
            assert(false);
            ObjectId::null(format)
        },
    };
    let writes = write_bitmap && !unchanged;
    MultiPackIndexLayerOutcome {
        checksum,
        midx,
        bitmap: if writes {
            bitmap
        } else {
            None
        },
        reverse_index: if writes {
            reverse_index
        } else {
            None
        },
        preferred_pack,
        wrote_bitmap: write_bitmap,
        unchanged,
    }
}

} // verus!
