//! Multi-pack indexes: what they say, and how a new layer is built.

use crate::bitmap_build::BitmapPseudoMergeGroup;
use crate::error::GitError;
use crate::install::be32;
use crate::object_id::bytes_less;
use crate::object_id::lemma_bytes_less_irreflexive;
use crate::object_id::lemma_bytes_less_total;
use crate::object_id::lemma_bytes_less_transitive;
use crate::object_id::ObjectFormat;
use crate::object_id::ObjectId;
use crate::oid_map::OidSet;
use crate::order::is_order;
use crate::order::is_sorted;
use crate::order::law_stable_sort;
use crate::order::lemma_sort_contains;
use crate::order::sort;
use crate::order::stable_sort;
use crate::order::Less;
use crate::order::Order;
use crate::pack_file::PackIndexEntry;
use crate::text::concat2;
use crate::text::concat3;
use crate::text::has_suffix;
use crate::text::strip_suffix;
use crate::text::text_eq;
use vstd::prelude::*;
use vstd::string::*;

verus! {

/// One object in a multi-pack index.
#[derive(Debug, Clone, Copy, PartialEq, Eq)]
pub struct MultiPackIndexEntry {
    pub oid: ObjectId,
    /// The pack that holds the object, as the index numbers its packs.
    pub pack_int_id: u32,
    pub offset: u64,
    /// Whether the offset is to be stored at full width whatever its size.
    pub force_large_offset: bool,
}

/// What a parsed multi-pack index says.
pub struct MultiPackIndexData {
    /// The names of its packs, each a file name in `.idx`, in its numbering.
    pub pack_names: Vec<String>,
    /// Its objects in the order of their ids.
    pub objects: Vec<MultiPackIndexEntry>,
    /// For each bit, the position of its object, where the index records that.
    pub reverse_index: Option<Vec<u32>>,
    pub checksum: ObjectId,
}

impl MultiPackIndexData {
    /// A parsed index has fewer objects than 32 bits count, and records the
    /// order of bits for all of them or not at all.
    pub open spec fn wf(self) -> bool {
        &&& self.objects@.len() <= u32::MAX
        &&& self.reverse_index matches Some(reverse) ==> reverse@.len() == self.objects@.len()
    }
}

/// The objects of a multi-pack index in the order of bits: the objects of the
/// preferred pack first, then by pack, then by offset.
pub open spec fn bit_less(a: MultiPackIndexEntry, b: MultiPackIndexEntry, preferred: Option<u32>) -> bool {
    let a_first = preferred == Some(a.pack_int_id);
    let b_first = preferred == Some(b.pack_int_id);
    if a_first != b_first {
        a_first
    } else if a.pack_int_id != b.pack_int_id {
        a.pack_int_id < b.pack_int_id
    } else {
        a.offset < b.offset
    }
}

pub open spec fn bit_order(preferred: Option<u32>) -> Less<MultiPackIndexEntry> {
    |a: MultiPackIndexEntry, b: MultiPackIndexEntry| bit_less(a, b, preferred)
}

/// Objects by their bit.
pub struct ByBit {
    pub preferred: Option<u32>,
}

impl ByBit {
    fn is_preferred(&self, pack: u32) -> (first: bool)
        ensures
            first == (self.preferred == Some(pack)),
    {
        match self.preferred {
            Some(preferred) => preferred == pack,
            None => false,
        }
    }
}

impl Order<MultiPackIndexEntry> for ByBit {
    open spec fn less(&self) -> Less<MultiPackIndexEntry> {
        bit_order(self.preferred)
    }

    proof fn lemma_is_order(&self) {
        assert(is_order(bit_order(self.preferred)));
    }

    fn is_less(&self, a: &MultiPackIndexEntry, b: &MultiPackIndexEntry) -> (less: bool) {
        let a_first = self.is_preferred(a.pack_int_id);
        let b_first = self.is_preferred(b.pack_int_id);
        if a_first != b_first {
            a_first
        } else if a.pack_int_id != b.pack_int_id {
            a.pack_int_id < b.pack_int_id
        } else {
            a.offset < b.offset
        }
    }
}

/// The ids of index entries.
pub open spec fn midx_ids(entries: Seq<MultiPackIndexEntry>) -> Seq<ObjectId> {
    entries.map_values(|entry: MultiPackIndexEntry| entry.oid)
}

/// The ids of index entries.
pub fn list_midx_ids(entries: &[MultiPackIndexEntry]) -> (oids: Vec<ObjectId>)
    ensures
        oids@ == midx_ids(entries@),
{
    let mut oids: Vec<ObjectId> = Vec::with_capacity(entries.len());
    let mut i: usize = 0;
    while i < entries.len()
        invariant
            i <= entries@.len(),
            oids@ == midx_ids(entries@.take(i as int)),
        decreases entries@.len() - i,
    {
        oids.push(entries[i].oid);
        assert(oids@ =~= midx_ids(entries@.take(i + 1)));
        i += 1;
    }
    assert(entries@.take(i as int) =~= entries@);
    oids
}

/// Policy for a requested bitmap whose selected tips do not have complete
/// closure in the packs of the new multi-pack index.
#[derive(Debug, Clone, Copy, PartialEq, Eq, Structural)]
pub enum MissingMidxBitmapPolicy {
    /// Refuse the write: the index must not land without its bitmap.
    Error,
    /// Write a bitmap that gives only the types of objects. Incremental layers
    /// use this, since what their objects lead to can be in older layers.
    WriteEmpty,
}

/// Inputs needed only when a bitmap is actually built.
pub struct MultiPackIndexBitmapInputs {
    pub preferred_tips: OidSet,
    pub pseudo_merge_groups: Vec<BitmapPseudoMergeGroup>,
    pub write_lookup_table: bool,
    pub write_hash_cache: bool,
    /// Kept for callers that set it; the selection of commits does not look at
    /// it.
    pub restrict_to_tips: bool,
    pub write_reverse_index: bool,
    pub missing_closure: MissingMidxBitmapPolicy,
}

impl Default for MultiPackIndexBitmapInputs {
    fn default() -> (inputs: MultiPackIndexBitmapInputs)
        ensures
            inputs.preferred_tips@ == Set::<ObjectId>::empty(),
            inputs.pseudo_merge_groups@.len() == 0,
            !inputs.write_lookup_table,
            inputs.write_hash_cache,
            !inputs.restrict_to_tips,
            !inputs.write_reverse_index,
            inputs.missing_closure == MissingMidxBitmapPolicy::Error,
    {
        MultiPackIndexBitmapInputs {
            preferred_tips: OidSet::new(),
            pseudo_merge_groups: Vec::new(),
            write_lookup_table: false,
            write_hash_cache: true,
            restrict_to_tips: false,
            write_reverse_index: false,
            missing_closure: MissingMidxBitmapPolicy::Error,
        }
    }
}

/// What one layer of a multi-pack index is to be built from.
pub struct MultiPackIndexLayerOptions {
    pub format: ObjectFormat,
    /// The version of the file format: `1`, or `2` for the layer that an
    /// incremental compaction writes.
    pub version: u8,
    /// The names of pack indexes, each a file name in `.idx`.
    pub pack_names: Vec<String>,
    /// Objects already represented by older incremental layers.
    pub excluded_oids: OidSet,
    pub write_bitmap: bool,
    pub preferred_pack_name: Option<String>,
    /// Whether a stored index with the same bytes is left as it is.
    pub skip_if_unchanged: bool,
}

impl MultiPackIndexLayerOptions {
    pub fn new(format: ObjectFormat, pack_names: Vec<String>) -> (options: MultiPackIndexLayerOptions)
        ensures
            options.format == format,
            options.version == 1,
            options.pack_names == pack_names,
            options.excluded_oids@ == Set::<ObjectId>::empty(),
            !options.write_bitmap,
            options.preferred_pack_name is None,
            !options.skip_if_unchanged,
    {
        MultiPackIndexLayerOptions {
            format,
            version: 1,
            pack_names,
            excluded_oids: OidSet::new(),
            write_bitmap: false,
            preferred_pack_name: None,
            skip_if_unchanged: false,
        }
    }
}

/// A layer whose pack table and object locations are already selected.
pub struct MultiPackIndexEntryLayerOptions {
    pub format: ObjectFormat,
    pub version: u8,
    pub pack_names: Vec<String>,
    pub objects: Vec<MultiPackIndexEntry>,
    pub write_bitmap: bool,
    pub preferred_pack: Option<u32>,
}

/// Diagnostics that do not stop the selection of a layer.
#[derive(Debug, PartialEq, Eq)]
pub enum MultiPackIndexEvent {
    UnknownPreferredPack(String),
    RefusingEmptyBitmap,
}

/// Failures that callers tell apart.
#[derive(Debug)]
pub enum MultiPackIndexLayerError {
    Source(GitError),
    CouldNotLoadPack,
    /// The preferred pack, by the name of its file, has no objects.
    EmptyPreferredPack(String),
    BitmapUnavailable,
}

impl MultiPackIndexLayerError {
    /// The message of a failure that is not another's.
    pub fn message(&self) -> (message: Option<String>)
        ensures
            match *self {
                MultiPackIndexLayerError::Source(_) => message is None,
                MultiPackIndexLayerError::CouldNotLoadPack => message matches Some(text) && text@
                    == "could not load pack"@,
                MultiPackIndexLayerError::EmptyPreferredPack(name) => message matches Some(text) && text@
                    == "cannot select preferred pack "@ + name@ + " with no objects"@,
                MultiPackIndexLayerError::BitmapUnavailable => message matches Some(text) && text@
                    == "could not write multi-pack bitmap"@,
            },
    {
        match self {
            MultiPackIndexLayerError::Source(_) => None,
            MultiPackIndexLayerError::CouldNotLoadPack => Some(String::from_str("could not load pack")),
            MultiPackIndexLayerError::EmptyPreferredPack(name) => Some(
                concat3("cannot select preferred pack ", name.as_str(), " with no objects"),
            ),
            MultiPackIndexLayerError::BitmapUnavailable => Some(
                String::from_str("could not write multi-pack bitmap"),
            ),
        }
    }
}

/// What came of reading a pack for a layer.
pub enum PackRead {
    /// There is no such pack.
    Missing,
    /// Its index does not read.
    Failed(GitError),
    Listed(PackListing),
}

/// What a pack index lists, and whether it stores offsets at full width.
pub struct PackListing {
    pub entries: Vec<PackIndexEntry>,
    pub large_offsets: bool,
}

/// Whether a version-2 pack index holds anything between the offsets and the
/// two checksums at its end.
pub open spec fn has_large_offsets(bytes: Seq<u8>, format: ObjectFormat) -> bool {
    &&& bytes.len() >= 1032 + 2 * format.raw()
    &&& bytes.take(4) == seq![255u8, 116, 79, 99]
    &&& 1032 + be32(bytes, 1028) * (format.raw() + 8) < bytes.len() - 2 * format.raw()
}

/// Whether a pack index has an area of offsets at full width.
pub fn pack_index_has_large_offset_area(bytes: &[u8], format: ObjectFormat) -> (large: bool)
    ensures
        large == has_large_offsets(bytes@, format),
{
    let hash_len: usize = format.raw_len();
    if bytes.len() < 1032 + 2 * hash_len {
        return false;
    }
    proof {
        let head = bytes@.take(4);
        assert(head[0] == bytes@[0] && head[1] == bytes@[1] && head[2] == bytes@[2] && head[3] == bytes@[3]);
        let magic = seq![255u8, 116, 79, 99];
        assert(magic[0] == 255 && magic[1] == 116 && magic[2] == 79 && magic[3] == 99);
        if head[0] == 255 && head[1] == 116 && head[2] == 79 && head[3] == 99 {
            assert(head =~= magic);
        }
    }
    if bytes[0] != 255 || bytes[1] != 116 || bytes[2] != 79 || bytes[3] != 99 {
        return false;
    }
    let count: u32 = (bytes[1028] as u32) * 0x100_0000 + (bytes[1029] as u32) * 0x1_0000 + (bytes[1030] as u32)
        * 0x100 + bytes[1031] as u32;
    let per_object: u64 = hash_len as u64 + 8;
    assert(count * per_object <= 0xffff_ffff * 40) by (nonlinear_arith)
        requires
            0 <= count <= 0xffff_ffff,
            0 <= per_object <= 40,
    ;
    let after_offsets: u64 = 1032 + count as u64 * per_object;
    let trailer: u64 = (bytes.len() - 2 * hash_len) as u64;
    after_offsets < trailer
}

/// The entries of one pack that are not excluded, as entries of the layer.
pub open spec fn listed_entries(
    listing: PackListing,
    pack_int_id: u32,
    excluded: Set<ObjectId>,
) -> Seq<MultiPackIndexEntry> {
    kept_entries(listing.entries@, listing.large_offsets, pack_int_id, excluded)
}

/// Entries that are not excluded, as entries of the layer.
pub open spec fn kept_entries(
    entries: Seq<PackIndexEntry>,
    large_offsets: bool,
    pack_int_id: u32,
    excluded: Set<ObjectId>,
) -> Seq<MultiPackIndexEntry>
    decreases entries.len(),
{
    if entries.len() == 0 {
        Seq::empty()
    } else {
        let kept = kept_entries(entries.drop_last(), large_offsets, pack_int_id, excluded);
        if excluded.contains(entries.last().oid) {
            kept
        } else {
            kept.push(
                MultiPackIndexEntry {
                    oid: entries.last().oid,
                    pack_int_id,
                    offset: entries.last().offset,
                    force_large_offset: large_offsets,
                },
            )
        }
    }
}

/// The entries of all packs in a row, or the failure of the first that does not
/// read.
pub open spec fn gathered_entries(packs: Seq<PackRead>, excluded: Set<ObjectId>) -> Result<
    Seq<MultiPackIndexEntry>,
    PackRead,
>
    decreases packs.len(),
{
    if packs.len() == 0 {
        Ok(Seq::empty())
    } else {
        match gathered_entries(packs.drop_last(), excluded) {
            Err(failure) => Err(failure),
            Ok(entries) => match packs.last() {
                PackRead::Listed(listing) => Ok(
                    entries + listed_entries(listing, (packs.len() - 1) as u32, excluded),
                ),
                failure => Err(failure),
            },
        }
    }
}

proof fn lemma_gathering_fails(packs: Seq<PackRead>, excluded: Set<ObjectId>, n: int)
    requires
        0 <= n <= packs.len(),
        gathered_entries(packs.take(n), excluded) is Err,
    ensures
        gathered_entries(packs, excluded) == gathered_entries(packs.take(n), excluded),
    decreases packs.len() - n,
{
    if n < packs.len() {
        assert(packs.take(n + 1).drop_last() =~= packs.take(n));
        lemma_gathering_fails(packs, excluded, n + 1);
    } else {
        assert(packs.take(n) =~= packs);
    }
}

/// Whether `err` is how the failure to read a pack is reported.
pub open spec fn is_pack_failure(failure: PackRead, err: MultiPackIndexLayerError) -> bool {
    match failure {
        PackRead::Missing => err is CouldNotLoadPack,
        PackRead::Failed(inner) => err matches MultiPackIndexLayerError::Source(source) && source == inner,
        PackRead::Listed(_) => false,
    }
}

/// The entries of all packs in a row.
fn gather_entries(packs: &Vec<PackRead>, excluded: &OidSet) -> (entries: Result<
    Vec<MultiPackIndexEntry>,
    MultiPackIndexLayerError,
>)
    requires
        packs@.len() <= u32::MAX,
    ensures
        match gathered_entries(packs@, excluded@) {
            Ok(all) => entries matches Ok(entries) && entries@ == all,
            Err(failure) => entries matches Err(err) && is_pack_failure(failure, err),
        },
{
    let mut out: Vec<MultiPackIndexEntry> = Vec::new();
    let mut i: usize = 0;
    while i < packs.len()
        invariant
            i <= packs@.len() <= u32::MAX,
            gathered_entries(packs@.take(i as int), excluded@) == Ok::<
                Seq<MultiPackIndexEntry>,
                PackRead,
            >(out@),
        decreases packs@.len() - i,
    {
        assert(packs@.take(i + 1).drop_last() =~= packs@.take(i as int));
        match &packs[i] {
            PackRead::Missing => {
                proof {
                    lemma_gathering_fails(packs@, excluded@, i + 1);
                }
                return Err(MultiPackIndexLayerError::CouldNotLoadPack);
            },
            PackRead::Failed(err) => {
                proof {
                    lemma_gathering_fails(packs@, excluded@, i + 1);
                }
                return Err(MultiPackIndexLayerError::Source(err.copy()));
            },
            PackRead::Listed(listing) => {
                let entries = &listing.entries;
                let ghost before = out@;
                let mut k: usize = 0;
                assert(before + kept_entries(
                    entries@.take(0),
                    listing.large_offsets,
                    i as u32,
                    excluded@,
                ) =~= before);
                while k < entries.len()
                    invariant
                        k <= entries@.len(),
                        entries@ == listing.entries@,
                        out@ == before + kept_entries(
                            entries@.take(k as int),
                            listing.large_offsets,
                            i as u32,
                            excluded@,
                        ),
                    decreases entries@.len() - k,
                {
                    let entry = entries[k];
                    let ghost held = out@;
                    assert(entries@.take(k + 1).drop_last() =~= entries@.take(k as int));
                    assert(entries@.take(k + 1).last() == entry);
                    if !excluded.contains(&entry.oid) {
                        out.push(
                            MultiPackIndexEntry {
                                oid: entry.oid,
                                pack_int_id: i as u32,
                                offset: entry.offset,
                                force_large_offset: listing.large_offsets,
                            },
                        );
                    }
                    assert(out@ =~= before + kept_entries(
                        entries@.take(k + 1),
                        listing.large_offsets,
                        i as u32,
                        excluded@,
                    ));
                    k += 1;
                }
                assert(entries@.take(k as int) =~= entries@);
            },
        }
        i += 1;
    }
    assert(packs@.take(i as int) =~= packs@);
    Ok(out)
}

/// When each pack was last modified, by its number.
pub open spec fn pack_mtime(mtimes: Seq<i128>, pack: u32) -> i128 {
    if pack < mtimes.len() {
        mtimes[pack as int]
    } else {
        0
    }
}

/// Which of two entries comes first in a layer: by id, and for one object the
/// entry of the preferred pack, then that of the newest pack, then that of the
/// pack with the lowest number.
pub open spec fn layer_less(
    a: MultiPackIndexEntry,
    b: MultiPackIndexEntry,
    preferred: Option<u32>,
    mtimes: Seq<i128>,
) -> bool {
    if a.oid.less(b.oid) {
        true
    } else if b.oid.less(a.oid) {
        false
    } else if (preferred == Some(a.pack_int_id)) != (preferred == Some(b.pack_int_id)) {
        preferred == Some(a.pack_int_id)
    } else if pack_mtime(mtimes, a.pack_int_id) != pack_mtime(mtimes, b.pack_int_id) {
        pack_mtime(mtimes, a.pack_int_id) > pack_mtime(mtimes, b.pack_int_id)
    } else {
        a.pack_int_id < b.pack_int_id
    }
}

pub open spec fn layer_order(preferred: Option<u32>, mtimes: Seq<i128>) -> Less<MultiPackIndexEntry> {
    |a: MultiPackIndexEntry, b: MultiPackIndexEntry| layer_less(a, b, preferred, mtimes)
}

proof fn lemma_layer_order(preferred: Option<u32>, mtimes: Seq<i128>)
    ensures
        is_order(layer_order(preferred, mtimes)),
{
    let less = layer_order(preferred, mtimes);
    assert forall|a: MultiPackIndexEntry, b: MultiPackIndexEntry| #[trigger] less(a, b) implies !less(b, a) by {
        if a.oid.less(b.oid) && b.oid.less(a.oid) {
            lemma_bytes_less_transitive(a.oid.raw(), b.oid.raw(), a.oid.raw());
            lemma_bytes_less_irreflexive(a.oid.raw());
        }
    }
    assert forall|a: MultiPackIndexEntry, b: MultiPackIndexEntry, c: MultiPackIndexEntry| #[trigger]
        less(a, c) implies #[trigger] less(a, b) || less(b, c) by {
        let (x, y, z) = (a.oid.raw(), b.oid.raw(), c.oid.raw());
        if !less(a, b) && !less(b, c) {
            if bytes_less(y, x) {
                if bytes_less(z, y) {
                    lemma_bytes_less_transitive(z, y, x);
                    if bytes_less(x, z) {
                        lemma_bytes_less_transitive(x, z, x);
                        lemma_bytes_less_irreflexive(x);
                    }
                } else {
                    lemma_bytes_less_total(y, z);
                    if bytes_less(x, z) {
                        lemma_bytes_less_transitive(x, z, x);
                        lemma_bytes_less_irreflexive(x);
                    }
                }
            } else {
                lemma_bytes_less_total(x, y);
                if bytes_less(z, y) {
                    if bytes_less(x, z) {
                        lemma_bytes_less_transitive(x, z, x);
                        lemma_bytes_less_irreflexive(x);
                    }
                } else {
                    lemma_bytes_less_total(y, z);
                }
            }
        }
    }
}

/// Entries in the order of a layer.
struct ByLayer<'a> {
    preferred: Option<u32>,
    mtimes: &'a Vec<i128>,
}

impl<'a> ByLayer<'a> {
    fn is_preferred(&self, pack: u32) -> (first: bool)
        ensures
            first == (self.preferred == Some(pack)),
    {
        match self.preferred {
            Some(preferred) => preferred == pack,
            None => false,
        }
    }

    fn mtime(&self, pack: u32) -> (mtime: i128)
        ensures
            mtime == pack_mtime(self.mtimes@, pack),
    {
        if (pack as usize) < self.mtimes.len() {
            self.mtimes[pack as usize]
        } else {
            0
        }
    }
}

impl<'a> Order<MultiPackIndexEntry> for ByLayer<'a> {
    closed spec fn less(&self) -> Less<MultiPackIndexEntry> {
        layer_order(self.preferred, self.mtimes@)
    }

    proof fn lemma_is_order(&self) {
        lemma_layer_order(self.preferred, self.mtimes@);
    }

    fn is_less(&self, a: &MultiPackIndexEntry, b: &MultiPackIndexEntry) -> (less: bool) {
        if a.oid.is_less(&b.oid) {
            return true;
        }
        if b.oid.is_less(&a.oid) {
            return false;
        }
        let a_first = self.is_preferred(a.pack_int_id);
        let b_first = self.is_preferred(b.pack_int_id);
        if a_first != b_first {
            return a_first;
        }
        let a_mtime: i128 = self.mtime(a.pack_int_id);
        let b_mtime: i128 = self.mtime(b.pack_int_id);
        if a_mtime != b_mtime {
            return a_mtime > b_mtime;
        }
        a.pack_int_id < b.pack_int_id
    }
}

/// The first of each run of entries for one object.
pub open spec fn deduplicated(entries: Seq<MultiPackIndexEntry>) -> Seq<MultiPackIndexEntry>
    decreases entries.len(),
{
    if entries.len() == 0 {
        entries
    } else {
        let kept = deduplicated(entries.drop_last());
        if kept.len() > 0 && kept.last().oid == entries.last().oid {
            kept
        } else {
            kept.push(entries.last())
        }
    }
}

/// What a layer lists of gathered entries: each object once.
pub open spec fn layer_objects(
    entries: Seq<MultiPackIndexEntry>,
    preferred: Option<u32>,
    mtimes: Seq<i128>,
) -> Seq<MultiPackIndexEntry> {
    deduplicated(stable_sort(layer_order(preferred, mtimes), entries))
}

fn select_objects(entries: &Vec<MultiPackIndexEntry>, preferred: Option<u32>, mtimes: &Vec<i128>) -> (objects: Vec<
    MultiPackIndexEntry,
>)
    ensures
        objects@ == layer_objects(entries@, preferred, mtimes@),
{
    let order = ByLayer { preferred, mtimes };
    let sorted = sort(&order, entries);
    let mut objects: Vec<MultiPackIndexEntry> = Vec::new();
    let mut i: usize = 0;
    assert(sorted@.take(0) =~= Seq::empty());
    while i < sorted.len()
        invariant
            i <= sorted@.len(),
            objects@ == deduplicated(sorted@.take(i as int)),
        decreases sorted@.len() - i,
    {
        let entry = sorted[i];
        assert(sorted@.take(i + 1).drop_last() =~= sorted@.take(i as int));
        assert(sorted@.take(i + 1).last() == entry);
        let count: usize = objects.len();
        if count == 0 || objects[count - 1].oid != entry.oid {
            objects.push(entry);
        }
        i += 1;
    }
    assert(sorted@.take(i as int) =~= sorted@);
    objects
}

/// What is kept of a list is in the list.
proof fn lemma_kept_is_listed(entries: Seq<MultiPackIndexEntry>, i: int)
    requires
        0 <= i < deduplicated(entries).len(),
    ensures
        entries.contains(deduplicated(entries)[i]),
    decreases entries.len(),
{
    let fewer = entries.drop_last();
    let before = deduplicated(fewer);
    if i < before.len() {
        lemma_kept_is_listed(fewer, i);
        let k = choose|k: int| 0 <= k < fewer.len() && fewer[k] == before[i];
        assert(entries[k] == before[i]);
        assert(deduplicated(entries)[i] == before[i]);
    } else {
        assert(entries[entries.len() - 1] == entries.last());
    }
}

/// Whether ids that are the same in bytes are the same.
pub open spec fn ids_are_bytes(entries: Seq<MultiPackIndexEntry>) -> bool {
    forall|i: int, j: int|
        #![trigger entries[i], entries[j]]
        0 <= i < entries.len() && 0 <= j < entries.len() && entries[i].oid.raw() == entries[j].oid.raw()
            ==> entries[i].oid == entries[j].oid
}

proof fn lemma_kept_ascend(
    entries: Seq<MultiPackIndexEntry>,
    preferred: Option<u32>,
    mtimes: Seq<i128>,
    i: int,
    j: int,
)
    requires
        is_sorted(layer_order(preferred, mtimes), entries),
        ids_are_bytes(entries),
        0 <= i < j < deduplicated(entries).len(),
    ensures
        deduplicated(entries)[i].oid.less(deduplicated(entries)[j].oid),
    decreases entries.len(),
{
    let less = layer_order(preferred, mtimes);
    let fewer = entries.drop_last();
    let before = deduplicated(fewer);
    let last = entries.last();
    assert(is_sorted(less, fewer));
    assert(ids_are_bytes(fewer)) by {
        assert forall|a: int, b: int|
            #![trigger fewer[a], fewer[b]]
            0 <= a < fewer.len() && 0 <= b < fewer.len() && fewer[a].oid.raw() == fewer[b].oid.raw()
            implies fewer[a].oid == fewer[b].oid by {
            assert(fewer[a] == entries[a] && fewer[b] == entries[b]);
        }
    }
    if j < before.len() {
        lemma_kept_ascend(fewer, preferred, mtimes, i, j);
    } else {
        let top = before.len() - 1;
        lemma_kept_is_listed(fewer, top);
        let at = choose|at: int| 0 <= at < fewer.len() && fewer[at] == before[top];
        assert(entries[at] == before[top]);
        assert(entries[entries.len() - 1] == last);
        assert(!less(entries[entries.len() - 1], entries[at]));
        assert(before[top].oid != last.oid);
        assert(!last.oid.less(before[top].oid));
        if !before[top].oid.less(last.oid) {
            lemma_bytes_less_total(before[top].oid.raw(), last.oid.raw());
        }
        if i < top {
            lemma_kept_ascend(fewer, preferred, mtimes, i, top);
            lemma_bytes_less_transitive(before[i].oid.raw(), before[top].oid.raw(), last.oid.raw());
        }
    }
}

proof fn lemma_kept_is_best(
    entries: Seq<MultiPackIndexEntry>,
    preferred: Option<u32>,
    mtimes: Seq<i128>,
    k: int,
) -> (i: int)
    requires
        is_sorted(layer_order(preferred, mtimes), entries),
        0 <= k < entries.len(),
    ensures
        0 <= i < deduplicated(entries).len(),
        deduplicated(entries)[i].oid == entries[k].oid,
        !layer_less(entries[k], deduplicated(entries)[i], preferred, mtimes),
    decreases entries.len(),
{
    let less = layer_order(preferred, mtimes);
    let fewer = entries.drop_last();
    let before = deduplicated(fewer);
    let kept = deduplicated(entries);
    let last = entries.last();
    lemma_layer_order(preferred, mtimes);
    assert(is_sorted(less, fewer));
    if k < fewer.len() {
        let i = lemma_kept_is_best(fewer, preferred, mtimes, k);
        assert(kept[i] == before[i]);
        i
    } else if before.len() > 0 && before.last().oid == last.oid {
        let top = before.len() - 1;
        lemma_kept_is_listed(fewer, top);
        let at = choose|at: int| 0 <= at < fewer.len() && fewer[at] == before[top];
        assert(entries[at] == before[top]);
        assert(!less(entries[k], entries[at]));
        top
    } else {
        assert(kept[before.len() as int] == last);
        assert(less(last, last) ==> !less(last, last));
        before.len() as int
    }
}

/// A layer lists its objects in the strict order of their ids, each of them at
/// a place where a pack has it, and no place that was gathered for the object
/// comes before the one listed: the preferred pack, then the newest pack, then
/// the lowest number decides.
pub proof fn law_layer_lists_best_places(
    entries: Seq<MultiPackIndexEntry>,
    preferred: Option<u32>,
    mtimes: Seq<i128>,
)
    requires
        ids_are_bytes(entries),
    ensures
        ({
            let objects = layer_objects(entries, preferred, mtimes);
            &&& forall|i: int, j: int|
                #![trigger objects[i], objects[j]]
                0 <= i < j < objects.len() ==> objects[i].oid.less(objects[j].oid)
            &&& forall|i: int| 0 <= i < objects.len() ==> entries.contains(#[trigger] objects[i])
            &&& forall|entry: MultiPackIndexEntry| #[trigger]
                entries.contains(entry) ==> exists|i: int|
                    0 <= i < objects.len() && (#[trigger] objects[i]).oid == entry.oid && !layer_less(
                        entry,
                        objects[i],
                        preferred,
                        mtimes,
                    )
        }),
{
    let less = layer_order(preferred, mtimes);
    lemma_layer_order(preferred, mtimes);
    law_stable_sort(less, entries);
    let sorted = stable_sort(less, entries);
    let objects = layer_objects(entries, preferred, mtimes);
    assert(objects == deduplicated(sorted));
    assert(ids_are_bytes(sorted)) by {
        assert forall|a: int, b: int|
            #![trigger sorted[a], sorted[b]]
            0 <= a < sorted.len() && 0 <= b < sorted.len() && sorted[a].oid.raw() == sorted[b].oid.raw()
            implies sorted[a].oid == sorted[b].oid by {
            assert(sorted.contains(sorted[a]) && sorted.contains(sorted[b]));
            lemma_sort_contains(less, entries, sorted[a]);
            lemma_sort_contains(less, entries, sorted[b]);
            let i = choose|i: int| 0 <= i < entries.len() && entries[i] == sorted[a];
            let j = choose|j: int| 0 <= j < entries.len() && entries[j] == sorted[b];
            assert(entries[i].oid == entries[j].oid);
        }
    }
    assert forall|i: int, j: int|
        #![trigger objects[i], objects[j]]
        0 <= i < j < objects.len() implies objects[i].oid.less(objects[j].oid) by {
        lemma_kept_ascend(sorted, preferred, mtimes, i, j);
    }
    assert forall|i: int| 0 <= i < objects.len() implies entries.contains(#[trigger] objects[i]) by {
        lemma_kept_is_listed(sorted, i);
        lemma_sort_contains(less, entries, objects[i]);
    }
    assert forall|entry: MultiPackIndexEntry| #[trigger] entries.contains(entry) implies exists|i: int|
        0 <= i < objects.len() && (#[trigger] objects[i]).oid == entry.oid && !layer_less(
            entry,
            objects[i],
            preferred,
            mtimes,
        ) by {
        lemma_sort_contains(less, entries, entry);
        let k = choose|k: int| 0 <= k < sorted.len() && sorted[k] == entry;
        let i = lemma_kept_is_best(sorted, preferred, mtimes, k);
        assert(objects[i].oid == entry.oid);
    }
}

/// The file name of the index that goes with the file name of a pack.
pub open spec fn index_of_pack_name(name: Seq<char>) -> Option<Seq<char>> {
    if has_suffix(name, ".pack"@) {
        Some(name.take(name.len() - 5) + ".idx"@)
    } else {
        None
    }
}

/// Whether the name that was asked for means the pack with this index.
pub open spec fn names_pack(asked: Seq<char>, index_name: Seq<char>) -> bool {
    index_name == asked || index_of_pack_name(asked) == Some(index_name)
}

/// The first pack that the name means.
pub open spec fn named_pack(names: Seq<String>, asked: Seq<char>, n: nat) -> Option<int>
    decreases n,
{
    if n == 0 {
        None
    } else {
        match named_pack(names, asked, (n - 1) as nat) {
            Some(i) => Some(i),
            None => if names_pack(asked, names[n - 1]@) {
                Some(n - 1)
            } else {
                None
            },
        }
    }
}

proof fn lemma_named_pack(names: Seq<String>, asked: Seq<char>, n: nat, m: nat)
    requires
        n <= m,
        named_pack(names, asked, n) is Some,
    ensures
        named_pack(names, asked, m) == named_pack(names, asked, n),
    decreases m - n,
{
    if n < m {
        lemma_named_pack(names, asked, n, (m - 1) as nat);
    }
}

/// The first pack that the name means.
fn find_named_pack(names: &Vec<String>, asked: &str) -> (position: Option<usize>)
    ensures
        match position {
            Some(i) => i < names@.len() && named_pack(names@, asked@, names@.len()) == Some(i as int),
            None => named_pack(names@, asked@, names@.len()) is None,
        },
{
    let normalized = match strip_suffix(asked, ".pack") {
        Some(stem) => {
            proof {
                reveal_strlit(".pack");
                assert(asked@.take(asked@.len() - 5) =~= stem@);
            }
            Some(concat2(stem.as_str(), ".idx"))
        },
        None => None,
    };
    let mut i: usize = 0;
    while i < names.len()
        invariant
            i <= names@.len(),
            named_pack(names@, asked@, i as nat) is None,
            match normalized {
                Some(text) => index_of_pack_name(asked@) == Some(text@),
                None => index_of_pack_name(asked@) is None,
            },
        decreases names@.len() - i,
    {
        let name = names[i].as_str();
        let meant = text_eq(name, asked) || match &normalized {
            Some(text) => text_eq(name, text.as_str()),
            None => false,
        };
        if meant {
            proof {
                lemma_named_pack(names@, asked@, (i + 1) as nat, names@.len());
            }
            return Some(i);
        }
        i += 1;
    }
    None
}

/// The pack with the least modification time, the first of several.
pub open spec fn oldest_pack(mtimes: Seq<i128>, n: nat) -> u32
    decreases n,
{
    if n <= 1 {
        0
    } else {
        let best = oldest_pack(mtimes, (n - 1) as nat);
        if mtimes[n - 1] < mtimes[best as int] {
            (n - 1) as u32
        } else {
            best
        }
    }
}

fn find_oldest_pack(mtimes: &Vec<i128>) -> (pack: u32)
    requires
        mtimes@.len() <= u32::MAX,
    ensures
        pack == oldest_pack(mtimes@, mtimes@.len()),
{
    let mut best: u32 = 0;
    let mut i: usize = 0;
    while i < mtimes.len()
        invariant
            i <= mtimes@.len() <= u32::MAX,
            best == oldest_pack(mtimes@, i as nat),
            i > 0 ==> best < i,
        decreases mtimes@.len() - i,
    {
        if i > 0 && mtimes[i] < mtimes[best as usize] {
            best = i as u32;
        }
        i += 1;
    }
    best
}

/// The name of the file of the pack with an index name.
pub open spec fn pack_file_of(index_name: Seq<char>) -> Seq<char> {
    if has_suffix(index_name, ".idx"@) {
        index_name.take(index_name.len() - 4) + ".pack"@
    } else {
        index_name + ".pack"@
    }
}

/// The name of the file of the pack with an index name.
pub fn pack_file_name(index_name: &str) -> (name: String)
    ensures
        name@ == pack_file_of(index_name@),
{
    match strip_suffix(index_name, ".idx") {
        Some(stem) => {
            proof {
                reveal_strlit(".idx");
                assert(index_name@.take(index_name@.len() - 4) =~= stem@);
            }
            concat2(stem.as_str(), ".pack")
        },
        None => concat2(index_name, ".pack"),
    }
}

/// Which objects a layer lists, and which pack it prefers.
pub struct MultiPackIndexSelection {
    pub objects: Vec<MultiPackIndexEntry>,
    /// Whether a bitmap is still to be written.
    pub write_bitmap: bool,
    pub preferred_pack: Option<u32>,
    pub events: Vec<MultiPackIndexEvent>,
}

/// The number of objects that the index of a pack lists.
pub open spec fn listed_count(pack: PackRead) -> nat {
    match pack {
        PackRead::Listed(listing) => listing.entries@.len(),
        _ => 0,
    }
}

/// The pack that a layer prefers: the one that was named, if it is there; the
/// first, where a bitmap needs one and the one that was named is unknown; the
/// oldest, where a bitmap needs one and none was named.
pub open spec fn preferred_of(
    options: MultiPackIndexLayerOptions,
    mtimes: Seq<i128>,
    write_bitmap: bool,
) -> Option<u32> {
    match options.preferred_pack_name {
        Some(name) => match named_pack(options.pack_names@, name@, options.pack_names@.len()) {
            Some(i) => Some(i as u32),
            None => if write_bitmap {
                Some(0)
            } else {
                None
            },
        },
        None => if write_bitmap {
            Some(oldest_pack(mtimes, mtimes.len()))
        } else {
            None
        },
    }
}

/// Whether the pack that was named is there and lists nothing.
pub open spec fn prefers_empty_pack(options: MultiPackIndexLayerOptions, packs: Seq<PackRead>) -> bool {
    match options.preferred_pack_name {
        Some(name) => match named_pack(options.pack_names@, name@, options.pack_names@.len()) {
            Some(i) => listed_count(packs[i]) == 0,
            None => false,
        },
        None => false,
    }
}

/// Whether the pack that was named is not there.
pub open spec fn prefers_unknown_pack(options: MultiPackIndexLayerOptions) -> bool {
    options.preferred_pack_name matches Some(name) && named_pack(
        options.pack_names@,
        name@,
        options.pack_names@.len(),
    ) is None
}

/// Whether the events are those of a selection: first that an empty bitmap is
/// refused, then that the preferred pack is unknown, as far as they apply.
pub open spec fn are_events(
    events: Seq<MultiPackIndexEvent>,
    refuses_empty: bool,
    options: MultiPackIndexLayerOptions,
) -> bool {
    let unknown = prefers_unknown_pack(options);
    let first: int = if refuses_empty {
        1
    } else {
        0
    };
    &&& events.len() == first + if unknown {
        1int
    } else {
        0
    }
    &&& refuses_empty ==> events[0] is RefusingEmptyBitmap
    &&& unknown ==> (events[first] matches MultiPackIndexEvent::UnknownPreferredPack(name) && name@
        == options.preferred_pack_name->Some_0@)
}

/// Selects what an ordinary or incremental layer lists: reads the packs in
/// order, resolves the preferred pack, and picks one place for each object.
/// `packs` and `mtimes` go with `options.pack_names`.
pub fn build_multi_pack_index_layer(
    options: &MultiPackIndexLayerOptions,
    packs: &Vec<PackRead>,
    mtimes: &Vec<i128>,
) -> (selection: Result<MultiPackIndexSelection, MultiPackIndexLayerError>)
    requires
        packs@.len() == options.pack_names@.len(),
        mtimes@.len() == options.pack_names@.len(),
        packs@.len() <= u32::MAX,
    ensures
        match gathered_entries(packs@, options.excluded_oids@) {
            Err(failure) => selection matches Err(err) && is_pack_failure(failure, err),
            Ok(entries) => {
                let write_bitmap = options.write_bitmap && entries.len() > 0;
                let preferred = preferred_of(*options, mtimes@, write_bitmap);
                if prefers_empty_pack(*options, packs@) {
                    selection matches Err(MultiPackIndexLayerError::EmptyPreferredPack(name)) && name@
                        == pack_file_of(options.pack_names@[preferred->Some_0 as int]@)
                } else {
                    &&& selection is Ok
                    &&& selection->Ok_0.objects@ == layer_objects(entries, preferred, mtimes@)
                    &&& selection->Ok_0.write_bitmap == write_bitmap
                    &&& selection->Ok_0.preferred_pack == preferred
                    &&& are_events(
                        selection->Ok_0.events@,
                        options.write_bitmap && entries.len() == 0,
                        *options,
                    )
                }
            },
        },
{
    let entries = match gather_entries(packs, &options.excluded_oids) {
        Err(err) => {
            return Err(err);
        },
        Ok(entries) => entries,
    };
    let mut events: Vec<MultiPackIndexEvent> = Vec::new();
    let mut write_bitmap = options.write_bitmap;
    if write_bitmap && entries.len() == 0 {
        events.push(MultiPackIndexEvent::RefusingEmptyBitmap);
        write_bitmap = false;
    }
    let preferred_pack = match &options.preferred_pack_name {
        Some(name) => match find_named_pack(&options.pack_names, name.as_str()) {
            Some(position) => {
                let empty = match &packs[position] {
                    PackRead::Listed(listing) => listing.entries.len() == 0,
                    _ => true,
                };
                if empty {
                    return Err(
                        MultiPackIndexLayerError::EmptyPreferredPack(
                            pack_file_name(options.pack_names[position].as_str()),
                        ),
                    );
                }
                Some(position as u32)
            },
            None => {
                events.push(MultiPackIndexEvent::UnknownPreferredPack(name.clone()));
                if write_bitmap {
                    Some(0)
                } else {
                    None
                }
            },
        },
        None => if write_bitmap {
            Some(find_oldest_pack(mtimes))
        } else {
            None
        },
    };
    let objects = select_objects(&entries, preferred_pack, mtimes);
    Ok(MultiPackIndexSelection { objects, write_bitmap, preferred_pack, events })
}

/// The bits of one pack in a bitmap: where they begin, and how many they are.
#[derive(Debug, Clone, Copy, PartialEq, Eq, Structural)]
pub struct MultiPackBitmapPack {
    pub bitmap_pos: u32,
    pub bitmap_nr: u32,
}

/// How many of the first `n` entries are in a pack.
pub open spec fn pack_count(entries: Seq<MultiPackIndexEntry>, pack: int, n: nat) -> nat
    decreases n,
{
    if n == 0 {
        0
    } else if entries[n - 1].pack_int_id == pack {
        pack_count(entries, pack, (n - 1) as nat) + 1
    } else {
        pack_count(entries, pack, (n - 1) as nat)
    }
}

/// The first of the first `n` entries that is in a pack; zero where none is.
pub open spec fn pack_start(entries: Seq<MultiPackIndexEntry>, pack: int, n: nat) -> nat
    decreases n,
{
    if n == 0 {
        0
    } else if pack_count(entries, pack, (n - 1) as nat) == 0 && entries[n - 1].pack_int_id == pack {
        (n - 1) as nat
    } else {
        pack_start(entries, pack, (n - 1) as nat)
    }
}

/// The objects in the order of bits.
pub open spec fn in_bit_order(objects: Seq<MultiPackIndexEntry>, preferred: u32) -> Seq<MultiPackIndexEntry> {
    stable_sort(bit_order(Some(preferred)), objects)
}

proof fn lemma_pack_count_bound(entries: Seq<MultiPackIndexEntry>, pack: int, n: nat)
    ensures
        pack_count(entries, pack, n) <= n,
    decreases n,
{
    if n > 0 {
        lemma_pack_count_bound(entries, pack, (n - 1) as nat);
    }
}

/// The bits of each pack, in the order in which a bitmap numbers objects.
pub fn midx_bitmapped_pack_ranges(
    pack_total: usize,
    objects: &Vec<MultiPackIndexEntry>,
    preferred_pack: u32,
) -> (ranges: Vec<MultiPackBitmapPack>)
    requires
        forall|i: int| 0 <= i < objects@.len() ==> (#[trigger] objects@[i]).pack_int_id < pack_total,
        objects@.len() <= u32::MAX,
    ensures
        ranges@.len() == pack_total,
        forall|p: int|
            0 <= p < pack_total ==> (#[trigger] ranges@[p]).bitmap_nr == pack_count(
                in_bit_order(objects@, preferred_pack),
                p,
                objects@.len(),
            ) && ranges@[p].bitmap_pos == pack_start(in_bit_order(objects@, preferred_pack), p, objects@.len()),
{
    let mut ranges = empty_ranges(pack_total);
    let order = ByBit { preferred: Some(preferred_pack) };
    let sorted = sort(&order, objects);
    proof {
        order.lemma_is_order();
        law_stable_sort(order.less(), objects@);
        assert forall|i: int| 0 <= i < sorted@.len() implies (#[trigger] sorted@[i]).pack_int_id < pack_total by {
            assert(sorted@.contains(sorted@[i]));
            lemma_sort_contains(order.less(), objects@, sorted@[i]);
            let k = choose|k: int| 0 <= k < objects@.len() && objects@[k] == sorted@[i];
        }
    }
    let mut i: usize = 0;
    while i < sorted.len()
        invariant
            i <= sorted@.len() <= u32::MAX,
            ranges@.len() == pack_total,
            forall|k: int| 0 <= k < sorted@.len() ==> (#[trigger] sorted@[k]).pack_int_id < pack_total,
            forall|p: int|
                0 <= p < pack_total ==> (#[trigger] ranges@[p]).bitmap_nr == pack_count(sorted@, p, i as nat)
                    && ranges@[p].bitmap_pos == pack_start(sorted@, p, i as nat),
        decreases sorted@.len() - i,
    {
        let pack: usize = sorted[i].pack_int_id as usize;
        let range = ranges[pack];
        proof {
            lemma_pack_count_bound(sorted@, pack as int, i as nat);
        }
        let bitmap_pos: u32 = if range.bitmap_nr == 0 {
            i as u32
        } else {
            range.bitmap_pos
        };
        ranges.set(pack, MultiPackBitmapPack { bitmap_pos, bitmap_nr: range.bitmap_nr + 1 });
        i += 1;
    }
    ranges
}

/// Ranges without bits.
fn empty_ranges(pack_total: usize) -> (ranges: Vec<MultiPackBitmapPack>)
    ensures
        ranges@.len() == pack_total,
        forall|p: int|
            0 <= p < pack_total ==> #[trigger] ranges@[p] == (MultiPackBitmapPack {
                bitmap_pos: 0,
                bitmap_nr: 0,
            }),
{
    let mut ranges: Vec<MultiPackBitmapPack> = Vec::with_capacity(pack_total);
    let mut k: usize = 0;
    while k < pack_total
        invariant
            k <= pack_total,
            ranges@.len() == k,
            forall|p: int|
                0 <= p < k ==> #[trigger] ranges@[p] == (MultiPackBitmapPack { bitmap_pos: 0, bitmap_nr: 0 }),
        decreases pack_total - k,
    {
        ranges.push(MultiPackBitmapPack { bitmap_pos: 0, bitmap_nr: 0 });
        k += 1;
    }
    ranges
}

/// The number of objects of each pack, as a compacted incremental layer
/// records it: without where their bits begin. Objects of packs that are not
/// there are not counted.
pub fn incremental_compact_bitmapped_pack_ranges(
    pack_total: usize,
    objects: &Vec<MultiPackIndexEntry>,
) -> (ranges: Vec<MultiPackBitmapPack>)
    requires
        objects@.len() <= u32::MAX,
    ensures
        ranges@.len() == pack_total,
        forall|p: int|
            0 <= p < pack_total ==> (#[trigger] ranges@[p]).bitmap_nr == pack_count(
                objects@,
                p,
                objects@.len(),
            ) && ranges@[p].bitmap_pos == 0,
{
    let mut ranges = empty_ranges(pack_total);
    let mut i: usize = 0;
    while i < objects.len()
        invariant
            i <= objects@.len() <= u32::MAX,
            ranges@.len() == pack_total,
            forall|p: int|
                0 <= p < pack_total ==> (#[trigger] ranges@[p]).bitmap_nr == pack_count(objects@, p, i as nat)
                    && ranges@[p].bitmap_pos == 0,
        decreases objects@.len() - i,
    {
        let pack: usize = objects[i].pack_int_id as usize;
        if pack < ranges.len() {
            let range = ranges[pack];
            proof {
                lemma_pack_count_bound(objects@, pack as int, i as nat);
            }
            ranges.set(pack, MultiPackBitmapPack { bitmap_pos: 0, bitmap_nr: range.bitmap_nr + 1 });
        }
        i += 1;
    }
    ranges
}

proof fn lemma_range_is_run(entries: Seq<MultiPackIndexEntry>, pack: int, n: nat, i: int)
    requires
        n <= entries.len(),
        forall|a: int, b: int, c: int|
            #![trigger entries[a], entries[b], entries[c]]
            0 <= a < b < c < n && entries[a].pack_int_id == entries[c].pack_int_id ==> entries[b].pack_int_id
                == entries[a].pack_int_id,
        0 <= i < n,
    ensures
        entries[i].pack_int_id == pack <==> pack_start(entries, pack, n) <= i < pack_start(entries, pack, n)
            + pack_count(entries, pack, n),
        pack_start(entries, pack, n) + pack_count(entries, pack, n) <= n,
        pack_count(entries, pack, n) > 0 ==> entries[pack_start(entries, pack, n) as int].pack_int_id == pack,
    decreases n,
{
    lemma_pack_count_bound(entries, pack, n);
    let m = (n - 1) as nat;
    assert(pack_count(entries, pack, 0) == 0 && pack_start(entries, pack, 0) == 0);
    if m > 0 {
        lemma_range_is_run(entries, pack, m, if i < m {
            i
        } else {
            m - 1
        });
        let start = pack_start(entries, pack, m);
        let count = pack_count(entries, pack, m);
        if entries[m as int].pack_int_id == pack && count > 0 {
            // No object of another pack stands between.
            assert(entries[start as int].pack_int_id == pack);
            if start + count < m {
                lemma_range_is_run(entries, pack, m, (start + count) as int);
                let (a, b, c) = (start as int, (start + count) as int, m as int);
                assert(entries[a].pack_int_id == entries[c].pack_int_id);
                assert(entries[b].pack_int_id == entries[a].pack_int_id);
                assert(false);
            }
        }
    }
}

/// The objects whose bits are in the range of a pack are those of the pack.
pub proof fn law_ranges_hold_their_packs(objects: Seq<MultiPackIndexEntry>, preferred: u32, pack: u32, i: int)
    requires
        0 <= i < objects.len(),
    ensures
        ({
            let sorted = in_bit_order(objects, preferred);
            let start = pack_start(sorted, pack as int, objects.len());
            let count = pack_count(sorted, pack as int, objects.len());
            sorted[i].pack_int_id == pack <==> start <= i < start + count
        }),
{
    let order = ByBit { preferred: Some(preferred) };
    order.lemma_is_order();
    law_stable_sort(order.less(), objects);
    let sorted = in_bit_order(objects, preferred);
    let less = bit_order(Some(preferred));
    assert forall|a: int, b: int, c: int|
        #![trigger sorted[a], sorted[b], sorted[c]]
        0 <= a < b < c < objects.len() && sorted[a].pack_int_id == sorted[c].pack_int_id
        implies sorted[b].pack_int_id == sorted[a].pack_int_id by {
        assert(!less(sorted[b], sorted[a]));
        assert(!less(sorted[c], sorted[b]));
    }
    lemma_range_is_run(sorted, pack as int, objects.len(), i);
}

} // verus!
