//! How stored bitmaps are put together for consultation.

use crate::bitmap::cascade;
use crate::bitmap::cascade_pass;
use crate::bitmap::index_positions;
use crate::bitmap::lemma_position_map;
use crate::bitmap::position_map;
use crate::bitmap::reachable_end;
use crate::bitmap::bitmap_reachable;
use crate::bitmap::LoadedPackBitmap;
use crate::bitmap::LoadedPseudoMerge;
use crate::bitmap_walk::blobs_are_leaves;
use crate::bitmap_walk::lemma_leaves_below;
use crate::bitmap_walk::lemma_leaves_of_fewer;
use crate::bitmap_walk::lemma_start_leads;
use crate::bitmap_walk::fill;
use crate::bitmap_walk::has_mark;
use crate::bitmap_walk::is_closure;
use crate::bitmap_walk::is_misuse;
use crate::bitmap_walk::is_sound;
use crate::bitmap_walk::law_root_walk_is_reachability;
use crate::bitmap_walk::leads_to;
use crate::bitmap_walk::no_marks;
use crate::bitmap_walk::reader_tasks;
use crate::bitmap_walk::root_tasks;
use crate::bitmap_walk::stored_bits;
use crate::bitmap_walk::Coverage;
use crate::bitmap_walk::FillEnd;
use crate::bitset::bits;
use crate::bitset::bitset_set;
use crate::bitset::bitset_xor;
use crate::bitset::empty_bitset;
use crate::bitset::resize_bitset;
use crate::bitset::resized;
use crate::bitset::word_count_for;
use crate::bitset::words_for;
use crate::bitset::xor_words;
use crate::error::GitError;
use crate::install::be32;
use crate::midx::bit_order;
use crate::midx::list_midx_ids;
use crate::midx::midx_ids;
use crate::midx::ByBit;
use crate::midx::MultiPackIndexData;
use crate::midx::MultiPackIndexEntry;
use crate::object::share;
use crate::object::ObjectReader;
use crate::object::ObjectType;
use crate::object_id::ObjectFormat;
use crate::object_id::ObjectId;
use crate::oid_map::OidMap;
use crate::order::is_order;
use crate::order::law_stable_sort;
use crate::order::sort;
use crate::order::sort_names;
use crate::order::stable_sort;
use crate::order::text_order;
use crate::order::texts;
use crate::order::Less;
use crate::order::Order;
use crate::pack_file::entry_id_list;
use crate::pack_file::entry_ids;
use crate::pack_file::PackIndexData;
use crate::pack_file::PackIndexEntry;
use crate::text::has_prefix;
use crate::text::has_suffix;
use crate::text::starts_with;
use crate::text::strip_suffix;
use crate::text::text_eq;
use std::sync::Arc;
use vstd::prelude::*;
use vstd::string::*;

verus! {

/// The bitmap of one selected commit, as stored.
pub struct BitmapEntryData {
    /// The commit, by its position in the index.
    pub object_position: u32,
    /// How many entries back the entry stands that this one is to be combined
    /// with by exclusive or; zero where it stands alone.
    pub xor_offset: u32,
    /// The decompressed words, or why they do not decompress.
    pub words: Result<Vec<u64>, GitError>,
}

/// A stored pseudo-merge, decompressed as far as it can be.
pub struct PseudoMergeData {
    pub commits: Result<Vec<u64>, GitError>,
    pub bitmap: Result<Vec<u64>, GitError>,
}

/// What a parsed bitmap file says.
pub struct PackBitmapData {
    /// The checksum of the pack or multi-pack index that it belongs to.
    pub pack_checksum: ObjectId,
    pub commits: Result<Vec<u64>, GitError>,
    pub trees: Result<Vec<u64>, GitError>,
    pub blobs: Result<Vec<u64>, GitError>,
    pub tags: Result<Vec<u64>, GitError>,
    pub entries: Vec<BitmapEntryData>,
    pub pseudo_merges: Vec<PseudoMergeData>,
}

impl PackBitmapData {
    /// An entry is combined only with one ahead of it.
    pub open spec fn wf(self) -> bool {
        forall|i: int| 0 <= i < self.entries@.len() ==> (#[trigger] self.entries@[i]).xor_offset <= i
    }

    /// Whether each entry is combined only with one ahead of it.
    pub fn is_wf(&self) -> (wf: bool)
        ensures
            wf == self.wf(),
    {
        let mut i: usize = 0;
        while i < self.entries.len()
            invariant
                i <= self.entries@.len(),
                forall|k: int| 0 <= k < i ==> (#[trigger] self.entries@[k]).xor_offset <= k,
            decreases self.entries@.len() - i,
        {
            if self.entries[i].xor_offset as u64 > i as u64 {
                assert(self.entries@[i as int].xor_offset > i);
                return false;
            }
            i += 1;
        }
        true
    }
}

/// Why a stored bitmap cannot be used.
pub enum BitmapFailure {
    /// A part of it does not decompress.
    Words(GitError),
    /// An entry names a position that the index does not have.
    OutOfRange,
}

pub open spec fn words_failure(words: Result<Vec<u64>, GitError>) -> Option<BitmapFailure> {
    match words {
        Ok(_) => None,
        Err(err) => Some(BitmapFailure::Words(err)),
    }
}

pub open spec fn or_else(first: Option<BitmapFailure>, second: Option<BitmapFailure>) -> Option<BitmapFailure> {
    match first {
        Some(failure) => Some(failure),
        None => second,
    }
}

pub open spec fn entry_failure(entry: BitmapEntryData, count: nat) -> Option<BitmapFailure> {
    or_else(
        words_failure(entry.words),
        if entry.object_position < count {
            None
        } else {
            Some(BitmapFailure::OutOfRange)
        },
    )
}

/// The first failure among entries.
pub open spec fn entries_failure(entries: Seq<BitmapEntryData>, count: nat) -> Option<BitmapFailure>
    decreases entries.len(),
{
    if entries.len() == 0 {
        None
    } else {
        or_else(entry_failure(entries[0], count), entries_failure(entries.drop_first(), count))
    }
}

/// The first failure among pseudo-merges.
pub open spec fn merges_failure(merges: Seq<PseudoMergeData>) -> Option<BitmapFailure>
    decreases merges.len(),
{
    if merges.len() == 0 {
        None
    } else {
        or_else(
            or_else(words_failure(merges[0].commits), words_failure(merges[0].bitmap)),
            merges_failure(merges.drop_first()),
        )
    }
}

/// The first failure of a stored bitmap over `count` objects: of its entries,
/// its pseudo-merges, then its type bitmaps.
pub open spec fn bitmap_failure(parsed: PackBitmapData, count: nat) -> Option<BitmapFailure> {
    or_else(
        entries_failure(parsed.entries@, count),
        or_else(
            merges_failure(parsed.pseudo_merges@),
            or_else(
                words_failure(parsed.commits),
                or_else(
                    words_failure(parsed.trees),
                    or_else(words_failure(parsed.blobs), words_failure(parsed.tags)),
                ),
            ),
        ),
    )
}

/// The words of the entry at `i`, combined with those of the entry it refers
/// to.
pub open spec fn resolved_words(entries: Seq<BitmapEntryData>, count: nat, i: int) -> Seq<u64>
    decreases i,
{
    let own = resized(entries[i].words->Ok_0@, count);
    if 0 < entries[i].xor_offset <= i {
        xor_words(own, resolved_words(entries, count, i - entries[i].xor_offset))
    } else {
        own
    }
}

/// The words of each selected commit after the first `n` entries.
pub open spec fn commit_word_map(
    entries: Seq<BitmapEntryData>,
    lookup: Seq<ObjectId>,
    count: nat,
    n: nat,
) -> Map<ObjectId, Seq<u64>>
    decreases n,
{
    if n == 0 {
        Map::empty()
    } else {
        commit_word_map(entries, lookup, count, (n - 1) as nat).insert(
            lookup[entries[n - 1].object_position as int],
            resolved_words(entries, count, n - 1),
        )
    }
}

/// The words that handles lead to.
pub open spec fn words_of(map: Map<ObjectId, Arc<Vec<u64>>>) -> Map<ObjectId, Seq<u64>> {
    Map::new(|oid: ObjectId| map.contains_key(oid), |oid: ObjectId| map[oid]@)
}

fn expand(words: &Result<Vec<u64>, GitError>, count: usize) -> (expanded: Result<Vec<u64>, GitError>)
    ensures
        match expanded {
            Ok(expanded) => words is Ok && expanded@ == resized(words->Ok_0@, count as nat),
            Err(err) => *words == Err::<Vec<u64>, GitError>(err),
        },
{
    match words {
        Ok(words) => Ok(resize_bitset(words, count)),
        Err(err) => Err(err.copy()),
    }
}

/// Whether a loaded bitmap is what a stored one says of objects whose bits are
/// in the order of `pack_to_oid` and whose positions are those of `lookup`.
pub open spec fn is_assembled(
    loaded: LoadedPackBitmap,
    parsed: PackBitmapData,
    pack_to_oid: Seq<ObjectId>,
    lookup: Seq<ObjectId>,
) -> bool {
    let count = words_for(lookup.len());
    &&& loaded.wf()
    &&& loaded.pack_to_oid@ == pack_to_oid
    &&& words_of(loaded.commit_words@) == commit_word_map(
        parsed.entries@,
        lookup,
        count,
        parsed.entries@.len(),
    )
    &&& loaded.pseudo_merges@.len() == parsed.pseudo_merges@.len()
    &&& forall|i: int|
        0 <= i < parsed.pseudo_merges@.len() ==> (#[trigger] loaded.pseudo_merges@[i]).commits@ == resized(
            parsed.pseudo_merges@[i].commits->Ok_0@,
            count,
        ) && loaded.pseudo_merges@[i].bitmap@ == resized(parsed.pseudo_merges@[i].bitmap->Ok_0@, count)
    &&& loaded.commits@ == resized(parsed.commits->Ok_0@, count)
    &&& loaded.trees@ == resized(parsed.trees->Ok_0@, count)
    &&& loaded.blobs@ == resized(parsed.blobs->Ok_0@, count)
    &&& loaded.tags@ == resized(parsed.tags->Ok_0@, count)
}

/// The error that a failure is reported as.
pub open spec fn is_reported(failure: BitmapFailure, err: GitError) -> bool {
    match failure {
        BitmapFailure::Words(inner) => err == inner,
        BitmapFailure::OutOfRange => err matches GitError::InvalidFormat(text) && text@
            == "bitmap entry position out of range"@,
    }
}

proof fn lemma_entries_failure(entries: Seq<BitmapEntryData>, count: nat, n: int)
    requires
        0 <= n <= entries.len(),
        forall|k: int| 0 <= k < n ==> entry_failure(#[trigger] entries[k], count) is None,
    ensures
        entries_failure(entries, count) == entries_failure(entries.skip(n), count),
    decreases n,
{
    if n == 0 {
        assert(entries.skip(0) =~= entries);
    } else {
        lemma_entries_failure(entries, count, n - 1);
        assert(entries.skip(n - 1).drop_first() =~= entries.skip(n));
        assert(entries.skip(n - 1)[0] == entries[n - 1]);
    }
}

proof fn lemma_merges_failure(merges: Seq<PseudoMergeData>, n: int)
    requires
        0 <= n <= merges.len(),
        forall|k: int|
            0 <= k < n ==> (#[trigger] merges[k]).commits is Ok && merges[k].bitmap is Ok,
    ensures
        merges_failure(merges) == merges_failure(merges.skip(n)),
    decreases n,
{
    if n == 0 {
        assert(merges.skip(0) =~= merges);
    } else {
        lemma_merges_failure(merges, n - 1);
        assert(merges.skip(n - 1).drop_first() =~= merges.skip(n));
        assert(merges.skip(n - 1)[0] == merges[n - 1]);
    }
}

/// Expands the type bitmaps of a stored bitmap, resolves the entries of its
/// commits, and maps each entry's position back to a commit by `lookup`.
pub fn assemble_loaded_bitmap(
    parsed: &PackBitmapData,
    pack_to_oid: Vec<ObjectId>,
    lookup: &[ObjectId],
) -> (loaded: Result<LoadedPackBitmap, GitError>)
    requires
        parsed.wf(),
        pack_to_oid@.len() == lookup@.len(),
        lookup@.len() <= u32::MAX,
    ensures
        loaded is Ok <==> bitmap_failure(*parsed, lookup@.len()) is None,
        match loaded {
            Ok(loaded) => is_assembled(loaded, *parsed, pack_to_oid@, lookup@),
            Err(err) => is_reported(bitmap_failure(*parsed, lookup@.len())->Some_0, err),
        },
{
    let object_count: usize = lookup.len();
    let count: usize = word_count_for(object_count);
    let mut resolved: Vec<Arc<Vec<u64>>> = Vec::with_capacity(parsed.entries.len());
    let mut commit_words: OidMap<Arc<Vec<u64>>> = OidMap::new();
    let mut i: usize = 0;
    assert(words_of(commit_words@) =~= Map::empty());
    while i < parsed.entries.len()
        invariant
            parsed.wf(),
            i <= parsed.entries@.len(),
            count == words_for(lookup@.len()),
            resolved@.len() == i,
            forall|k: int|
                0 <= k < i ==> (#[trigger] resolved@[k])@ == resolved_words(parsed.entries@, count as nat, k)
                    && resolved@[k]@.len() == count,
            forall|k: int|
                0 <= k < i ==> entry_failure(#[trigger] parsed.entries@[k], lookup@.len()) is None,
            words_of(commit_words@) == commit_word_map(parsed.entries@, lookup@, count as nat, i as nat),
            forall|oid: ObjectId| #[trigger]
                commit_words@.contains_key(oid) ==> commit_words@[oid]@.len() == count,
        decreases parsed.entries@.len() - i,
    {
        proof {
            lemma_entries_failure(parsed.entries@, lookup@.len(), i as int);
            assert(parsed.entries@.skip(i as int)[0] == parsed.entries@[i as int]);
        }
        let entry = &parsed.entries[i];
        let mut words = match expand(&entry.words, count) {
            Ok(words) => words,
            Err(err) => {
                return Err(err);
            },
        };
        if entry.xor_offset > 0 {
            let base: usize = i - entry.xor_offset as usize;
            assert(resolved@[base as int]@ == resolved_words(parsed.entries@, count as nat, base as int));
            bitset_xor(&mut words, resolved[base].as_slice());
        }
        assert(words@ == resolved_words(parsed.entries@, count as nat, i as int));
        let words = Arc::new(words);
        resolved.push(share(&words));
        let position: usize = entry.object_position as usize;
        if position >= lookup.len() {
            return Err(GitError::InvalidFormat(String::from_str("bitmap entry position out of range")));
        }
        let ghost held = commit_words@;
        commit_words.insert(lookup[position], words);
        assert(words_of(commit_words@) =~= words_of(held).insert(lookup@[position as int], words@));
        i += 1;
    }
    proof {
        lemma_entries_failure(parsed.entries@, lookup@.len(), i as int);
        assert(parsed.entries@.skip(i as int) =~= Seq::empty());
    }
    let mut pseudo_merges: Vec<LoadedPseudoMerge> = Vec::with_capacity(parsed.pseudo_merges.len());
    let mut k: usize = 0;
    while k < parsed.pseudo_merges.len()
        invariant
            k <= parsed.pseudo_merges@.len(),
            count == words_for(lookup@.len()),
            entries_failure(parsed.entries@, lookup@.len()) is None,
            pseudo_merges@.len() == k,
            forall|m: int|
                0 <= m < k ==> (#[trigger] parsed.pseudo_merges@[m]).commits is Ok
                    && parsed.pseudo_merges@[m].bitmap is Ok,
            forall|m: int|
                0 <= m < k ==> (#[trigger] pseudo_merges@[m]).commits@ == resized(
                    parsed.pseudo_merges@[m].commits->Ok_0@,
                    count as nat,
                ) && pseudo_merges@[m].bitmap@ == resized(
                    parsed.pseudo_merges@[m].bitmap->Ok_0@,
                    count as nat,
                ),
        decreases parsed.pseudo_merges@.len() - k,
    {
        proof {
            lemma_merges_failure(parsed.pseudo_merges@, k as int);
            assert(parsed.pseudo_merges@.skip(k as int)[0] == parsed.pseudo_merges@[k as int]);
        }
        let merge = &parsed.pseudo_merges[k];
        let commits = match expand(&merge.commits, count) {
            Ok(words) => words,
            Err(err) => {
                return Err(err);
            },
        };
        let bitmap = match expand(&merge.bitmap, count) {
            Ok(words) => words,
            Err(err) => {
                return Err(err);
            },
        };
        pseudo_merges.push(LoadedPseudoMerge { commits: Arc::new(commits), bitmap: Arc::new(bitmap) });
        k += 1;
    }
    proof {
        lemma_merges_failure(parsed.pseudo_merges@, k as int);
        assert(parsed.pseudo_merges@.skip(k as int) =~= Seq::empty());
    }
    let commits = match expand(&parsed.commits, count) {
        Ok(words) => words,
        Err(err) => {
            return Err(err);
        },
    };
    let trees = match expand(&parsed.trees, count) {
        Ok(words) => words,
        Err(err) => {
            return Err(err);
        },
    };
    let blobs = match expand(&parsed.blobs, count) {
        Ok(words) => words,
        Err(err) => {
            return Err(err);
        },
    };
    let tags = match expand(&parsed.tags, count) {
        Ok(words) => words,
        Err(err) => {
            return Err(err);
        },
    };
    let oid_to_pack = index_positions(&pack_to_oid);
    Ok(
        LoadedPackBitmap {
            object_count: object_count as u32,
            oid_to_pack,
            pack_to_oid,
            commit_words,
            pseudo_merges,
            commits,
            trees,
            blobs,
            tags,
        },
    )
}

/// Index entries by their place in the pack.
pub open spec fn offset_order() -> Less<PackIndexEntry> {
    |a: PackIndexEntry, b: PackIndexEntry| a.offset < b.offset
}

/// Index entries by their place in the pack.
pub struct ByOffset;

impl Order<PackIndexEntry> for ByOffset {
    open spec fn less(&self) -> Less<PackIndexEntry> {
        offset_order()
    }

    proof fn lemma_is_order(&self) {
        assert(is_order(offset_order()));
    }

    fn is_less(&self, a: &PackIndexEntry, b: &PackIndexEntry) -> (less: bool) {
        a.offset < b.offset
    }
}

/// The objects of a pack in the order of bits: as they stand in the pack.
pub open spec fn pack_bit_order(entries: Seq<PackIndexEntry>) -> Seq<ObjectId> {
    entry_ids(stable_sort(offset_order(), entries))
}

/// The objects of a pack in the order of bits.
pub fn list_pack_bit_order(entries: &[PackIndexEntry]) -> (oids: Vec<ObjectId>)
    ensures
        oids@ == pack_bit_order(entries@),
        oids@.len() == entries@.len(),
{
    proof {
        ByOffset.lemma_is_order();
        law_stable_sort(offset_order(), entries@);
    }
    let sorted = sort(&ByOffset, entries);
    entry_id_list(&sorted)
}

/// The objects of a multi-pack index in the order of bits.
pub open spec fn midx_bit_order(entries: Seq<MultiPackIndexEntry>, preferred: Option<u32>) -> Seq<ObjectId> {
    midx_ids(stable_sort(bit_order(preferred), entries))
}

/// The objects of a multi-pack index in the order of bits.
pub fn list_midx_bit_order(entries: &[MultiPackIndexEntry], preferred: Option<u32>) -> (oids: Vec<ObjectId>)
    ensures
        oids@ == midx_bit_order(entries@, preferred),
        oids@.len() == entries@.len(),
{
    let order = ByBit { preferred };
    proof {
        order.lemma_is_order();
        law_stable_sort(bit_order(preferred), entries@);
    }
    let sorted = sort(&order, entries);
    list_midx_ids(&sorted)
}

/// Loads the bitmap of a pack, unless it belongs to another pack.
pub fn load_pack_bitmap_file(index: &PackIndexData, parsed: &PackBitmapData) -> (loaded: Result<
    Option<LoadedPackBitmap>,
    GitError,
>)
    requires
        parsed.wf(),
        index.entries@.len() <= u32::MAX,
    ensures
        parsed.pack_checksum != index.pack_checksum ==> loaded matches Ok(None),
        parsed.pack_checksum == index.pack_checksum ==> match loaded {
            Ok(Some(bitmap)) => bitmap_failure(*parsed, index.entries@.len()) is None && is_assembled(
                bitmap,
                *parsed,
                pack_bit_order(index.entries@),
                entry_ids(index.entries@),
            ),
            Ok(None) => false,
            Err(err) => bitmap_failure(*parsed, index.entries@.len()) matches Some(failure) && is_reported(
                failure,
                err,
            ),
        },
{
    if !parsed.pack_checksum.same(&index.pack_checksum) {
        return Ok(None);
    }
    let pack_to_oid = list_pack_bit_order(&index.entries);
    let lookup = entry_id_list(&index.entries);
    match assemble_loaded_bitmap(parsed, pack_to_oid, &lookup) {
        Ok(bitmap) => Ok(Some(bitmap)),
        Err(err) => Err(err),
    }
}

/// The number that eight bytes spell, most significant first.
pub open spec fn be64(bytes: Seq<u8>, at: int) -> u64 {
    (be32(bytes, at) * 0x1_0000_0000 + be32(bytes, at + 4)) as u64
}

fn read_be32(bytes: &[u8], at: usize) -> (value: u32)
    requires
        at + 4 <= bytes@.len(),
    ensures
        value == be32(bytes@, at as int),
{
    assert(at + 4 <= bytes.len());
    (bytes[at] as u32) * 0x100_0000 + (bytes[at + 1] as u32) * 0x1_0000 + (bytes[at + 2] as u32) * 0x100
        + bytes[at + 3] as u32
}

fn read_be64(bytes: &[u8], at: usize) -> (value: u64)
    requires
        at + 8 <= bytes@.len(),
    ensures
        value == be64(bytes@, at as int),
{
    assert(at + 8 <= bytes.len());
    (read_be32(bytes, at) as u64) * 0x1_0000_0000 + read_be32(bytes, at + 4) as u64
}

/// The end of what a checksum of the given length at the end of a file covers.
pub open spec fn covered_len(bytes: Seq<u8>, format: ObjectFormat) -> int {
    if bytes.len() < format.raw() {
        0
    } else {
        bytes.len() - format.raw()
    }
}

/// Whether a file has the header of a multi-pack index and room for the table
/// of the chunks that it declares.
pub open spec fn has_chunk_table(bytes: Seq<u8>, format: ObjectFormat) -> bool {
    &&& bytes.len() >= 24 + format.raw()
    &&& bytes.take(4) == seq![77u8, 73, 68, 88]
    &&& 12 + 12 * (bytes[6] + 1) <= covered_len(bytes, format)
}

/// The start of a chunk, and with it the end of the chunk ahead of it.
pub open spec fn chunk_start(bytes: Seq<u8>, i: int) -> usize {
    be64(bytes, 16 + 12 * i) as usize
}

fn read_chunk_start(bytes: &[u8], i: usize) -> (start: usize)
    requires
        24 + 12 * i <= bytes@.len(),
    ensures
        start == chunk_start(bytes@, i as int),
{
    assert(24 + 12 * i <= bytes.len());
    read_be64(bytes, 16 + 12 * i) as usize
}

/// The four bytes that name a chunk.
pub open spec fn chunk_name(bytes: Seq<u8>, i: int) -> Seq<u8> {
    bytes.subrange(12 + 12 * i, 16 + 12 * i)
}

/// Whether a chunk ends behind its start and before `limit`.
pub open spec fn is_chunk_within(bytes: Seq<u8>, i: int, limit: int) -> bool {
    chunk_start(bytes, i) <= chunk_start(bytes, i + 1) <= limit
}

/// The last chunk with a name among the first `n`.
pub open spec fn find_chunk(bytes: Seq<u8>, name: Seq<u8>, n: nat) -> Option<int>
    decreases n,
{
    if n == 0 {
        None
    } else if chunk_name(bytes, n - 1) == name {
        Some(n - 1)
    } else {
        find_chunk(bytes, name, (n - 1) as nat)
    }
}

pub open spec fn fanout_name() -> Seq<u8> {
    seq![79u8, 73, 68, 70]
}

pub open spec fn reverse_name() -> Seq<u8> {
    seq![82u8, 73, 68, 88]
}

/// Whether a multi-pack index is sound as far as its chunk table goes, has a
/// fanout of the right size, and a reverse-index chunk whose size does not
/// match the number of objects that the fanout ends in.
pub open spec fn is_bad_ridx(bytes: Seq<u8>, format: ObjectFormat) -> bool {
    let count = bytes[6] as nat;
    &&& has_chunk_table(bytes, format)
    &&& forall|i: int|
        0 <= i < count ==> #[trigger] is_chunk_within(bytes, i, covered_len(bytes, format))
    &&& match (find_chunk(bytes, fanout_name(), count), find_chunk(bytes, reverse_name(), count)) {
        (Some(fanout), Some(reverse)) => {
            let fanout_end = chunk_start(bytes, fanout + 1);
            &&& fanout_end - chunk_start(bytes, fanout) == 1024
            &&& chunk_start(bytes, reverse + 1) - chunk_start(bytes, reverse) != 4 * be32(
                bytes,
                fanout_end - 4,
            )
        },
        _ => false,
    }
}

fn chunk_is(bytes: &[u8], i: usize, a: u8, b: u8, c: u8, d: u8) -> (same: bool)
    requires
        16 + 12 * i <= bytes@.len(),
    ensures
        same == (chunk_name(bytes@, i as int) == seq![a, b, c, d]),
{
    assert(16 + 12 * i <= bytes.len());
    let at: usize = 12 + 12 * i;
    let same = bytes[at] == a && bytes[at + 1] == b && bytes[at + 2] == c && bytes[at + 3] == d;
    proof {
        let name = chunk_name(bytes@, i as int);
        let other = seq![a, b, c, d];
        assert(name[0] == bytes@[at as int] && name[1] == bytes@[at + 1] && name[2] == bytes@[at + 2]
            && name[3] == bytes@[at + 3]);
        assert(other[0] == a && other[1] == b && other[2] == c && other[3] == d);
        if same {
            assert(name =~= other);
        }
    }
    same
}

/// Whether a multi-pack index has a reverse-index chunk of the wrong size. One
/// that is malformed in another way is not for this to say.
pub fn midx_has_bad_ridx_chunk(bytes: &[u8], format: ObjectFormat) -> (bad: bool)
    ensures
        bad == is_bad_ridx(bytes@, format),
{
    let hash_len: usize = format.raw_len();
    if bytes.len() < 24 + hash_len {
        return false;
    }
    proof {
        let head = bytes@.take(4);
        assert(head[0] == bytes@[0] && head[1] == bytes@[1] && head[2] == bytes@[2] && head[3] == bytes@[3]);
        let magic = seq![77u8, 73, 68, 88];
        assert(magic[0] == 77 && magic[1] == 73 && magic[2] == 68 && magic[3] == 88);
        if head[0] == 77 && head[1] == 73 && head[2] == 68 && head[3] == 88 {
            assert(head =~= magic);
        }
    }
    if bytes[0] != 77 || bytes[1] != 73 || bytes[2] != 68 || bytes[3] != 88 {
        return false;
    }
    let count: usize = bytes[6] as usize;
    let limit: usize = bytes.len() - hash_len;
    if 12 + 12 * (count + 1) > limit {
        return false;
    }
    let mut fanout: Option<usize> = None;
    let mut reverse: Option<usize> = None;
    let mut i: usize = 0;
    while i < count
        invariant
            count == bytes@[6] as nat,
            limit == covered_len(bytes@, format),
            12 + 12 * (count + 1) <= limit <= bytes@.len(),
            i <= count,
            forall|k: int|
                0 <= k < i ==> #[trigger] is_chunk_within(bytes@, k, limit as int),
            fanout is None ==> find_chunk(bytes@, fanout_name(), i as nat) is None,
            reverse is None ==> find_chunk(bytes@, reverse_name(), i as nat) is None,
            fanout matches Some(at) ==> at < i && find_chunk(bytes@, fanout_name(), i as nat) == Some(at as int),
            reverse matches Some(at) ==> at < i && find_chunk(bytes@, reverse_name(), i as nat) == Some(at as int),
        decreases count - i,
    {
        let start: usize = read_chunk_start(bytes, i);
        let end: usize = read_chunk_start(bytes, i + 1);
        if end < start || end > limit {
            assert(!is_chunk_within(bytes@, i as int, limit as int));
            return false;
        }
        if chunk_is(bytes, i, 79, 73, 68, 70) {
            fanout = Some(i);
        }
        if chunk_is(bytes, i, 82, 73, 68, 88) {
            reverse = Some(i);
        }
        i += 1;
    }
    match (fanout, reverse) {
        (Some(fanout), Some(reverse)) => {
            let fanout_start: usize = read_chunk_start(bytes, fanout);
            let fanout_end: usize = read_chunk_start(bytes, fanout + 1);
            assert(is_chunk_within(bytes@, fanout as int, limit as int));
            if fanout_end - fanout_start != 1024 {
                return false;
            }
            let reverse_start: usize = read_chunk_start(bytes, reverse);
            let reverse_end: usize = read_chunk_start(bytes, reverse + 1);
            assert(is_chunk_within(bytes@, reverse as int, limit as int));
            let objects: u32 = read_be32(bytes, fanout_end - 4);
            let size: usize = reverse_end - reverse_start;
            size as u64 != objects as u64 * 4
        },
        _ => false,
    }
}

/// Whether the value of the variable that controls it lets the reverse-index
/// chunk of a multi-pack index be read: any but `0` and `false`.
pub open spec fn reads_ridx_chunk(value: Option<Seq<char>>) -> bool {
    match value {
        None => true,
        Some(text) => text != "0"@ && !(text.len() == 5 && forall|i: int|
            0 <= i < 5 ==> is_letter(#[trigger] text[i], "false"@[i])),
    }
}

/// Whether `c` is the lower-case ASCII letter `letter` in either case.
pub open spec fn is_letter(c: char, letter: char) -> bool {
    c as u32 == letter as u32 || c as u32 + 32 == letter as u32
}

/// Whether the reverse-index chunk of a multi-pack index is to be read, given
/// the value of the variable that controls it.
pub fn ridx_chunk_enabled(value: Option<&str>) -> (enabled: bool)
    ensures
        enabled == reads_ridx_chunk(
            match value {
                Some(text) => Some(text@),
                None => None,
            },
        ),
{
    match value {
        None => true,
        Some(text) => {
            if text_eq(text, "0") {
                return false;
            }
            if text.unicode_len() != 5 {
                return true;
            }
            let word = "false";
            proof {
                reveal_strlit("false");
            }
            let mut i: usize = 0;
            while i < 5
                invariant
                    i <= 5,
                    text@.len() == 5,
                    text@ != "0"@,
                    value == Some(text),
                    word@ == "false"@,
                    word@.len() == 5,
                    forall|k: int| 0 <= k < i ==> is_letter(#[trigger] text@[k], "false"@[k]),
                decreases 5 - i,
            {
                let c: u32 = text.get_char(i) as u32;
                let letter: u32 = word.get_char(i) as u32;
                if c != letter && (c > 0x7fff_ffff || c + 32 != letter) {
                    assert(!is_letter(text@[i as int], "false"@[i as int]));
                    return true;
                }
                i += 1;
            }
            false
        },
    }
}

/// What came of loading the bitmap of a multi-pack index.
pub enum MidxBitmapLoad {
    Loaded(LoadedPackBitmap),
    /// The reverse index is unusable, which is worth a warning.
    BadReverseIndex,
    Unavailable,
}

/// The order of bits that a multi-pack index goes by: the chunk of its own
/// unless that is not to be read, else the separate file.
pub open spec fn chosen_reverse(
    midx: MultiPackIndexData,
    read_ridx_chunk: bool,
    rev: Option<Seq<u32>>,
) -> Option<Seq<u32>> {
    match midx.reverse_index {
        Some(chunk) => if read_ridx_chunk {
            Some(chunk@)
        } else {
            rev
        },
        None => rev,
    }
}

/// Whether each bit names an object.
pub open spec fn in_range(reverse: Seq<u32>, count: nat) -> bool {
    forall|i: int| 0 <= i < reverse.len() ==> (#[trigger] reverse[i]) < count
}

/// The objects in the order that a reverse index gives.
pub open spec fn reversed_ids(reverse: Seq<u32>, objects: Seq<MultiPackIndexEntry>) -> Seq<ObjectId> {
    Seq::new(reverse.len(), |i: int| objects[reverse[i] as int].oid)
}

/// The objects in the order that a reverse index gives, if it names only
/// objects.
fn order_by_reverse(reverse: &Vec<u32>, objects: &Vec<MultiPackIndexEntry>) -> (oids: Option<Vec<ObjectId>>)
    ensures
        oids is Some <==> in_range(reverse@, objects@.len()),
        oids matches Some(oids) ==> oids@ == reversed_ids(reverse@, objects@),
{
    let mut oids: Vec<ObjectId> = Vec::with_capacity(reverse.len());
    let mut i: usize = 0;
    while i < reverse.len()
        invariant
            i <= reverse@.len(),
            forall|k: int| 0 <= k < i ==> (#[trigger] reverse@[k]) < objects@.len(),
            oids@.len() == i,
            forall|k: int| 0 <= k < i ==> oids@[k] == objects@[reverse@[k] as int].oid,
        decreases reverse@.len() - i,
    {
        let position: usize = reverse[i] as usize;
        if position >= objects.len() {
            assert(!(reverse@[i as int] < objects@.len()));
            return None;
        }
        oids.push(objects[position].oid);
        i += 1;
    }
    assert(oids@ =~= reversed_ids(reverse@, objects@));
    Some(oids)
}

/// The message of a multi-pack index whose reverse-index chunk has the wrong
/// size.
pub open spec fn is_ridx_size_error(err: GitError) -> bool {
    err matches GitError::InvalidFormat(text) && text@
        == "multi-pack-index reverse-index chunk is the wrong size"@
}

/// Whether a stored bitmap belongs to a multi-pack index and can be used with
/// the order of bits that was found.
pub open spec fn is_usable_midx_bitmap(
    midx: MultiPackIndexData,
    reverse: Option<Seq<u32>>,
    bitmap: Option<PackBitmapData>,
) -> bool {
    match (reverse, bitmap) {
        (Some(reverse), Some(parsed)) => {
            &&& parsed.pack_checksum == midx.checksum
            &&& in_range(reverse, midx.objects@.len())
            &&& bitmap_failure(parsed, midx.objects@.len()) is None
        },
        _ => false,
    }
}

/// Loads the bitmap of a multi-pack index: `bytes` is the index as stored,
/// `midx` what it parses to, `rev` the order of bits from the separate file and
/// `bitmap` the stored bitmap, as far as they can be read. Whatever is missing
/// or unusable makes the bitmap unavailable, never an error.
pub fn load_midx_bitmap(
    bytes: &[u8],
    format: ObjectFormat,
    midx: &Result<MultiPackIndexData, GitError>,
    read_ridx_chunk: bool,
    rev: &Option<Vec<u32>>,
    bitmap: &Option<PackBitmapData>,
) -> (load: MidxBitmapLoad)
    requires
        midx matches Ok(midx) ==> midx.wf() && (rev matches Some(rev) ==> rev@.len() == midx.objects@.len()),
        bitmap matches Some(parsed) ==> parsed.wf(),
    ensures
        load is BadReverseIndex <==> is_bad_ridx(bytes@, format) || (*midx matches Err(err)
            && is_ridx_size_error(err)),
        load is Loaded <==> !is_bad_ridx(bytes@, format) && (*midx matches Ok(midx) && is_usable_midx_bitmap(
            midx,
            chosen_reverse(
                midx,
                read_ridx_chunk,
                match *rev {
                    Some(rev) => Some(rev@),
                    None => None,
                },
            ),
            *bitmap,
        )),
        load matches MidxBitmapLoad::Loaded(loaded) ==> is_assembled(
            loaded,
            (*bitmap)->Some_0,
            reversed_ids(
                chosen_reverse(
                    (*midx)->Ok_0,
                    read_ridx_chunk,
                    match *rev {
                        Some(rev) => Some(rev@),
                        None => None,
                    },
                )->Some_0,
                (*midx)->Ok_0.objects@,
            ),
            midx_ids((*midx)->Ok_0.objects@),
        ),
{
    if midx_has_bad_ridx_chunk(bytes, format) {
        return MidxBitmapLoad::BadReverseIndex;
    }
    let midx = match midx {
        Ok(midx) => midx,
        Err(GitError::InvalidFormat(text)) => {
            if text_eq(text.as_str(), "multi-pack-index reverse-index chunk is the wrong size") {
                return MidxBitmapLoad::BadReverseIndex;
            }
            return MidxBitmapLoad::Unavailable;
        },
        Err(_) => {
            return MidxBitmapLoad::Unavailable;
        },
    };
    let parsed = match bitmap {
        Some(parsed) => parsed,
        None => {
            return MidxBitmapLoad::Unavailable;
        },
    };
    let reverse = match &midx.reverse_index {
        Some(chunk) => if read_ridx_chunk {
            Some(chunk)
        } else {
            rev.as_ref()
        },
        None => rev.as_ref(),
    };
    let reverse = match reverse {
        Some(reverse) => reverse,
        None => {
            return MidxBitmapLoad::Unavailable;
        },
    };
    if !parsed.pack_checksum.same(&midx.checksum) {
        return MidxBitmapLoad::Unavailable;
    }
    let pack_to_oid = match order_by_reverse(reverse, &midx.objects) {
        Some(oids) => oids,
        None => {
            return MidxBitmapLoad::Unavailable;
        },
    };
    let lookup = list_midx_ids(&midx.objects);
    match assemble_loaded_bitmap(parsed, pack_to_oid, &lookup) {
        Ok(loaded) => MidxBitmapLoad::Loaded(loaded),
        Err(_) => MidxBitmapLoad::Unavailable,
    }
}

/// The objects of one layer of an incremental multi-pack index in the order of
/// bits, if its reverse index names only objects.
pub open spec fn layer_bit_order(layer: MultiPackIndexData) -> Option<Seq<ObjectId>> {
    match layer.reverse_index {
        Some(reverse) => if in_range(reverse@, layer.objects@.len()) {
            Some(reversed_ids(reverse@, layer.objects@))
        } else {
            None
        },
        None => Some(midx_bit_order(layer.objects@, None)),
    }
}

/// The objects of the layers in a row.
pub open spec fn chain_bit_order(layers: Seq<MultiPackIndexData>) -> Option<Seq<ObjectId>>
    decreases layers.len(),
{
    if layers.len() == 0 {
        Some(Seq::empty())
    } else {
        match (chain_bit_order(layers.drop_last()), layer_bit_order(layers.last())) {
            (Some(below), Some(order)) => Some(below + order),
            _ => None,
        }
    }
}

proof fn lemma_chain_fails(layers: Seq<MultiPackIndexData>, n: int)
    requires
        0 <= n <= layers.len(),
        chain_bit_order(layers.take(n)) is None,
    ensures
        chain_bit_order(layers) is None,
    decreases layers.len() - n,
{
    if n < layers.len() {
        assert(layers.take(n + 1).drop_last() =~= layers.take(n));
        lemma_chain_fails(layers, n + 1);
    } else {
        assert(layers.take(n) =~= layers);
    }
}

/// The objects of an incremental multi-pack index in the order of bits, layer
/// by layer; none where a layer's reverse index is unusable, and where there
/// are no objects or too many to number.
pub fn incremental_bit_order(layers: &Vec<MultiPackIndexData>) -> (oids: Option<Vec<ObjectId>>)
    ensures
        match chain_bit_order(layers@) {
            Some(order) => if 0 < order.len() <= u32::MAX {
                oids matches Some(oids) && oids@ == order
            } else {
                oids is None
            },
            None => oids is None,
        },
{
    let mut oids: Vec<ObjectId> = Vec::new();
    let mut i: usize = 0;
    while i < layers.len()
        invariant
            i <= layers@.len(),
            chain_bit_order(layers@.take(i as int)) == Some(oids@),
        decreases layers@.len() - i,
    {
        let layer = &layers[i];
        assert(layers@.take(i + 1).drop_last() =~= layers@.take(i as int));
        let order = match &layer.reverse_index {
            Some(reverse) => match order_by_reverse(reverse, &layer.objects) {
                Some(order) => order,
                None => {
                    proof {
                        lemma_chain_fails(layers@, i + 1);
                    }
                    return None;
                },
            },
            None => list_midx_bit_order(&layer.objects, None),
        };
        let mut order = order;
        oids.append(&mut order);
        i += 1;
    }
    assert(layers@.take(i as int) =~= layers@);
    if oids.len() == 0 || oids.len() as u64 > u32::MAX as u64 {
        return None;
    }
    Some(oids)
}

/// The bits of the objects of one type.
pub open spec fn type_bits(types: Seq<Option<ObjectType>>, object_type: ObjectType) -> Set<int> {
    Set::new(|p: int| 0 <= p < types.len() && types[p] == Some(object_type))
}

/// The objects that are commits, in order.
pub open spec fn commits_of(oids: Seq<ObjectId>, types: Seq<Option<ObjectType>>) -> Seq<ObjectId>
    decreases oids.len(),
{
    if oids.len() == 0 {
        Seq::empty()
    } else if types[oids.len() - 1] == Some(ObjectType::Commit) {
        commits_of(oids.drop_last(), types).push(oids.last())
    } else {
        commits_of(oids.drop_last(), types)
    }
}

/// The closures stored for commits, one commit after the other, each with the
/// help of those before; a commit that leads outside gets none. An error is
/// the end of the walk that met it.
pub open spec fn gathered_closures<R: ObjectReader>(
    reader: &R,
    positions: Map<ObjectId, u32>,
    commits: Seq<ObjectId>,
) -> Result<Map<ObjectId, Set<int>>, FillEnd>
    decreases commits.len(),
{
    if commits.len() == 0 {
        Ok(Map::empty())
    } else {
        match gathered_closures(reader, positions, commits.drop_last()) {
            Err(end) => Err(end),
            Ok(stored) => match fill(
                reader_tasks(reader, true),
                Coverage { positions, stored, open: true },
                root_tasks(reader, seq![commits.last()]),
                no_marks(),
            ) {
                FillEnd::Done(marks) => if marks.extended.len() == 0 {
                    Ok(stored.insert(commits.last(), marks.bits))
                } else {
                    Ok(stored)
                },
                end => Err(end),
            },
        }
    }
}

proof fn lemma_gathering_fails<R: ObjectReader>(
    reader: &R,
    positions: Map<ObjectId, u32>,
    commits: Seq<ObjectId>,
    n: int,
)
    requires
        0 <= n <= commits.len(),
        gathered_closures(reader, positions, commits.take(n)) is Err,
    ensures
        gathered_closures(reader, positions, commits) == gathered_closures(reader, positions, commits.take(n)),
    decreases commits.len() - n,
{
    if n < commits.len() {
        assert(commits.take(n + 1).drop_last() =~= commits.take(n));
        lemma_gathering_fails(reader, positions, commits, n + 1);
    } else {
        assert(commits.take(n) =~= commits);
    }
}

/// Puts together the bitmap of an incremental multi-pack index whose objects,
/// in the order of bits, are `pack_to_oid` and have the given types. There is
/// none where the type of an object is not known.
pub fn load_incremental_midx_bitmap<R: ObjectReader>(
    reader: &R,
    pack_to_oid: Vec<ObjectId>,
    types: &[Option<ObjectType>],
) -> (loaded: Result<Option<LoadedPackBitmap>, GitError>)
    requires
        pack_to_oid@.len() <= u32::MAX,
        types@.len() == pack_to_oid@.len(),
    ensures
        types@.contains(None::<ObjectType>) ==> loaded matches Ok(None),
        !types@.contains(None::<ObjectType>) ==> match gathered_closures(
            reader,
            position_map(pack_to_oid@),
            commits_of(pack_to_oid@, types@),
        ) {
            Ok(stored) => {
                &&& loaded matches Ok(Some(_))
                &&& ({
                    let bitmap = loaded->Ok_0->Some_0;
                    &&& bitmap.wf()
                    &&& bitmap.pack_to_oid@ == pack_to_oid@
                    &&& stored_bits(bitmap.commit_words@) == stored
                    &&& bitmap.pseudo_merges@.len() == 0
                    &&& forall|object_type: ObjectType|
                        bits(#[trigger] bitmap.spec_type_words(object_type)) == type_bits(types@, object_type)
                })
            },
            Err(FillEnd::Failed(err)) => loaded matches Err(failure) && failure == err,
            Err(FillEnd::Misused(oid)) => loaded matches Err(failure) && is_misuse(failure, oid),
            Err(_) => false,
        },
{
    let object_count: usize = pack_to_oid.len();
    let count: usize = word_count_for(object_count);
    let ghost oids = pack_to_oid@;
    let mut commits: Vec<u64> = empty_bitset(count);
    let mut trees: Vec<u64> = empty_bitset(count);
    let mut blobs: Vec<u64> = empty_bitset(count);
    let mut tags: Vec<u64> = empty_bitset(count);
    let mut commit_oids: Vec<ObjectId> = Vec::new();
    let mut i: usize = 0;
    proof {
        assert(type_bits(types@.take(0), ObjectType::Commit) =~= Set::empty());
        assert(type_bits(types@.take(0), ObjectType::Tree) =~= Set::empty());
        assert(type_bits(types@.take(0), ObjectType::Blob) =~= Set::empty());
        assert(type_bits(types@.take(0), ObjectType::Tag) =~= Set::empty());
    }
    while i < pack_to_oid.len()
        invariant
            i <= pack_to_oid@.len() <= u32::MAX,
            oids == pack_to_oid@,
            types@.len() == pack_to_oid@.len(),
            count == words_for(pack_to_oid@.len()),
            commits@.len() == count,
            trees@.len() == count,
            blobs@.len() == count,
            tags@.len() == count,
            bits(commits@) == type_bits(types@.take(i as int), ObjectType::Commit),
            bits(trees@) == type_bits(types@.take(i as int), ObjectType::Tree),
            bits(blobs@) == type_bits(types@.take(i as int), ObjectType::Blob),
            bits(tags@) == type_bits(types@.take(i as int), ObjectType::Tag),
            commit_oids@ == commits_of(oids.take(i as int), types@),
            forall|k: int| 0 <= k < i ==> (#[trigger] types@[k]) is Some,
        decreases pack_to_oid@.len() - i,
    {
        let oid = pack_to_oid[i];
        proof {
            assert(oids.take(i + 1).drop_last() =~= oids.take(i as int));
            assert(oids.take(i + 1).last() == oid);
            assert(64 * count >= pack_to_oid@.len());
        }
        let ghost shorter = types@.take(i as int);
        let ghost longer = types@.take(i + 1);
        match types[i] {
            None => {
                assert(types@[i as int] == None::<ObjectType>);
                return Ok(None);
            },
            Some(object_type) => match object_type {
                ObjectType::Commit => {
                    bitset_set(&mut commits, i as u32);
                    commit_oids.push(oid);
                },
                ObjectType::Tree => {
                    bitset_set(&mut trees, i as u32);
                },
                ObjectType::Blob => {
                    bitset_set(&mut blobs, i as u32);
                },
                ObjectType::Tag => {
                    bitset_set(&mut tags, i as u32);
                },
            },
        }
        proof {
            assert(bits(commits@) =~= type_bits(longer, ObjectType::Commit));
            assert(bits(trees@) =~= type_bits(longer, ObjectType::Tree));
            assert(bits(blobs@) =~= type_bits(longer, ObjectType::Blob));
            assert(bits(tags@) =~= type_bits(longer, ObjectType::Tag));
        }
        i += 1;
    }
    assert(types@.take(i as int) =~= types@);
    assert(oids.take(i as int) =~= oids);
    let oid_to_pack = index_positions(&pack_to_oid);
    let mut loaded = LoadedPackBitmap {
        object_count: object_count as u32,
        oid_to_pack,
        pack_to_oid,
        commit_words: OidMap::new(),
        pseudo_merges: Vec::new(),
        commits,
        trees,
        blobs,
        tags,
    };
    let ghost positions = position_map(oids);
    let ghost all = commit_oids@;
    let mut k: usize = 0;
    assert(stored_bits(loaded.commit_words@) =~= Map::empty());
    while k < commit_oids.len()
        invariant
            k <= commit_oids@.len(),
            all == commit_oids@,
            all == commits_of(oids, types@),
            oids == pack_to_oid@,
            !types@.contains(None::<ObjectType>),
            positions == position_map(oids),
            loaded.wf(),
            loaded.pack_to_oid@ == oids,
            loaded.pseudo_merges@.len() == 0,
            bits(loaded.commits@) == type_bits(types@, ObjectType::Commit),
            bits(loaded.trees@) == type_bits(types@, ObjectType::Tree),
            bits(loaded.blobs@) == type_bits(types@, ObjectType::Blob),
            bits(loaded.tags@) == type_bits(types@, ObjectType::Tag),
            gathered_closures(reader, positions, all.take(k as int)) == Ok::<
                Map<ObjectId, Set<int>>,
                FillEnd,
            >(stored_bits(loaded.commit_words@)),
        decreases commit_oids@.len() - k,
    {
        let oid = commit_oids[k];
        let mut roots: Vec<ObjectId> = Vec::new();
        roots.push(oid);
        proof {
            assert(roots@ =~= seq![oid]);
            assert(all.take(k + 1).drop_last() =~= all.take(k as int));
            assert(all.take(k + 1).last() == oid);
        }
        let ghost stored = stored_bits(loaded.commit_words@);
        match bitmap_reachable(&loaded, reader, &roots, true) {
            Err(err) => {
                proof {
                    lemma_gathering_fails(reader, positions, all, k + 1);
                }
                return Err(err);
            },
            Ok(result) => {
                proof {
                    let end = reachable_end(loaded, reader, roots@, true);
                    let marked = end->Done_0.bits;
                    assert(cascade_pass(loaded.pseudo_merges@, 0, Set::empty(), marked) == (
                        Set::<int>::empty(),
                        marked,
                    ));
                    assert(cascade(loaded.pseudo_merges@, Set::empty(), marked).1 == marked);
                }
                if result.extended.len() == 0 {
                    let ghost held = loaded.commit_words@;
                    let words = Arc::new(result.words);
                    loaded.commit_words.insert(oid, words);
                    assert(stored_bits(loaded.commit_words@) =~= stored.insert(oid, bits(words@)));
                }
            },
        }
        k += 1;
    }
    assert(all.take(k as int) =~= all);
    Ok(Some(loaded))
}

/// Every closure stored for an incremental bitmap is that of its commit.
pub proof fn law_incremental_bitmap_is_sound<R: ObjectReader>(
    reader: &R,
    oids: Seq<ObjectId>,
    commits: Seq<ObjectId>,
)
    requires
        blobs_are_leaves(reader, commits.to_set()),
        oids.len() <= u32::MAX,
    ensures
        gathered_closures(reader, position_map(oids), commits) matches Ok(stored) ==> is_sound(
            reader,
            (Coverage { positions: position_map(oids), stored, open: true }),
        ),
    decreases commits.len(),
{
    let positions = position_map(oids);
    lemma_position_map(oids);
    if commits.len() == 0 {
    } else {
        let fewer = commits.drop_last();
        assert forall|c: ObjectId| fewer.to_set().contains(c) implies #[trigger] commits.to_set().contains(c) by {
            let k = choose|k: int| 0 <= k < fewer.len() && fewer[k] == c;
            assert(commits[k] == c);
        }
        lemma_leaves_of_fewer(reader, commits.to_set(), fewer.to_set());
        law_incremental_bitmap_is_sound(reader, oids, fewer);
        if let Ok(stored) = gathered_closures(reader, positions, fewer) {
            let cover = Coverage { positions, stored, open: true };
            let commit = commits.last();
            let roots = seq![commit];
            assert(roots.to_set() =~= set![commit]) by {
                assert(roots[0] == commit);
            }
            assert(commits[commits.len() - 1] == commit);
            assert(commits.to_set().contains(commit));
            lemma_start_leads(reader, commits.to_set(), commit);
            lemma_leaves_below(reader, commits.to_set(), commit);
            law_root_walk_is_reachability(reader, cover, roots);
            if let FillEnd::Done(marks) = fill(
                reader_tasks(reader, true),
                cover,
                root_tasks(reader, roots),
                no_marks(),
            ) {
                if marks.extended.len() == 0 {
                    assert(roots.to_set() =~= set![commit]) by {
                        assert(roots[0] == commit);
                    }
                    let more = stored.insert(commit, marks.bits);
                    crate::bitmap_walk::lemma_marked_bits_have_objects(
                        reader,
                        cover,
                        roots,
                    );
                    assert(is_closure(reader, positions, set![commit], marks.bits)) by {
                        assert forall|o: ObjectId| #[trigger] leads_to(reader, set![commit], o) <==> positions.contains_key(
                            o,
                        ) && marks.bits.contains(positions[o] as int) by {
                            assert(has_mark(cover, marks, o) == (positions.contains_key(o) && marks.bits.contains(
                                positions[o] as int,
                            )));
                        }
                    }
                    let grown = Coverage { positions, stored: more, open: true };
                    assert forall|c: ObjectId| #[trigger] grown.stored.contains_key(c) && grown.positions.contains_key(
                        c,
                    ) implies is_closure(reader, positions, set![c], grown.stored[c]) by {
                        if c != commit {
                            assert(stored.contains_key(c));
                        }
                    }
                    assert(is_sound(reader, grown));
                }
            }
        }
    }
}

/// The names of pack bitmaps among file names, in order.
pub open spec fn is_pack_bitmap(name: Seq<char>) -> bool {
    has_prefix(name, "pack-"@) && has_suffix(name, ".bitmap"@)
}

/// The pack bitmaps among file names, in the order in which they are tried.
pub fn bitmap_candidates(names: &[String]) -> (candidates: Vec<String>)
    ensures
        texts(candidates@) == stable_sort(
            text_order(),
            texts(names@).filter(|name: Seq<char>| is_pack_bitmap(name)),
        ),
{
    let ghost keep = |name: Seq<char>| is_pack_bitmap(name);
    let mut found: Vec<String> = Vec::new();
    let mut i: usize = 0;
    assert(texts(found@) =~= texts(names@).take(0).filter(keep)) by {
        reveal(Seq::filter);
    }
    while i < names.len()
        invariant
            i <= names@.len(),
            keep == (|name: Seq<char>| is_pack_bitmap(name)),
            texts(found@) == texts(names@).take(i as int).filter(keep),
        decreases names@.len() - i,
    {
        let name = names[i].as_str();
        let ghost all = texts(names@);
        let ghost held = texts(found@);
        assert(all.take(i + 1).drop_last() =~= all.take(i as int));
        assert(all.take(i + 1).last() == name@);
        if starts_with(name, "pack-") && strip_suffix(name, ".bitmap").is_some() {
            found.push(names[i].clone());
            assert(texts(found@) =~= held.push(name@));
        }
        assert(texts(found@) == all.take(i + 1).filter(keep)) by {
            reveal(Seq::filter);
        }
        i += 1;
    }
    assert(texts(names@).take(i as int) =~= texts(names@));
    sort_names(&found)
}

/// A place where a bitmap may be found.
#[derive(Debug, Clone, Copy, PartialEq, Eq, Structural)]
pub enum BitmapProbe {
    /// The chain of an incremental multi-pack index.
    Incremental,
    /// The multi-pack index.
    MultiPack,
    /// A pack, by its place among the candidates.
    Pack(usize),
}

/// What came of trying a place.
#[derive(Debug, Clone, Copy, PartialEq, Eq, Structural)]
pub enum ProbeOutcome {
    Found,
    Absent,
    Failed,
}

/// What to do next in search of a bitmap.
#[derive(Debug, Clone, Copy, PartialEq, Eq, Structural)]
pub enum BitmapSearch {
    /// Use what was found.
    Use,
    /// Report the failure.
    Fail,
    Try(BitmapProbe),
    /// There is no usable bitmap.
    GiveUp,
}

/// What to do after a place was tried: the first bitmap found is used, an
/// incremental multi-pack index first, then the multi-pack index, then the
/// packs in order; only the failure of the first of these is reported.
pub open spec fn bitmap_search(probe: BitmapProbe, outcome: ProbeOutcome, candidates: usize) -> BitmapSearch {
    if outcome == ProbeOutcome::Found {
        BitmapSearch::Use
    } else {
        match probe {
            BitmapProbe::Incremental => if outcome == ProbeOutcome::Failed {
                BitmapSearch::Fail
            } else {
                BitmapSearch::Try(BitmapProbe::MultiPack)
            },
            BitmapProbe::MultiPack => if candidates > 0 {
                BitmapSearch::Try(BitmapProbe::Pack(0))
            } else {
                BitmapSearch::GiveUp
            },
            BitmapProbe::Pack(i) => if i + 1 < candidates {
                BitmapSearch::Try(BitmapProbe::Pack((i + 1) as usize))
            } else {
                BitmapSearch::GiveUp
            },
        }
    }
}

/// What to do after a place was tried.
pub fn load_pack_bitmap(probe: BitmapProbe, outcome: ProbeOutcome, candidates: usize) -> (search: BitmapSearch)
    ensures
        search == bitmap_search(probe, outcome, candidates),
{
    match outcome {
        ProbeOutcome::Found => BitmapSearch::Use,
        _ => match probe {
            BitmapProbe::Incremental => match outcome {
                ProbeOutcome::Failed => BitmapSearch::Fail,
                _ => BitmapSearch::Try(BitmapProbe::MultiPack),
            },
            BitmapProbe::MultiPack => if candidates > 0 {
                BitmapSearch::Try(BitmapProbe::Pack(0))
            } else {
                BitmapSearch::GiveUp
            },
            BitmapProbe::Pack(i) => if i < candidates && i + 1 < candidates {
                BitmapSearch::Try(BitmapProbe::Pack(i + 1))
            } else {
                BitmapSearch::GiveUp
            },
        },
    }
}

} // verus!
