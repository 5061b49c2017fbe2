//! Repacking: which objects go into a new pack, what it supersedes, and what
//! may be pruned.

use crate::error::GitError;
use crate::filter::ids_of;
use crate::filter::lists_text;
use crate::filter::oids_of;
use crate::filter::text_set;
use crate::object::share;
use crate::object::EncodedObject;
use crate::object::ObjectReader;
use crate::object::ObjectType;
use crate::object_id::ObjectFormat;
use crate::object_id::ObjectId;
use crate::oid_map::OidMap;
use crate::oid_map::OidSet;
use crate::order::is_sorted;
use crate::order::law_stable_sort;
use crate::order::lemma_oid_order;
use crate::order::lemma_sort_contains;
use crate::order::lemma_sort_map;
use crate::order::lemma_text_order;
use crate::order::oid_less;
use crate::order::sort;
use crate::order::sort_names;
use crate::order::sort_oids;
use crate::order::stable_sort;
use crate::order::text_order;
use crate::order::texts;
use crate::order::Less;
use crate::order::Order;
use crate::pack_file::checksum_failure;
use crate::pack_file::entry_id_set;
use crate::pack_file::entry_ids;
use crate::pack_file::is_checksummed;
use crate::pack_file::pack_name;
use crate::pack_file::pack_stem;
use crate::pack_file::retain_in;
use crate::pack_file::validate_pack_checksum;
use crate::pack_file::PackFile;
use crate::pack_file::PackIndexData;
use crate::pack_file::PackIndexEntry;
use crate::pack_file::PackWrite;
use crate::reachability::copy_oids;
use crate::reachability::schedule_stacked;
use crate::reachability::stacked_schedule;
use crate::text::text_eq;
use crate::transfer::ReachablePackObject;
use crate::walk::walk;
use crate::walk::walk_from;
use crate::walk::Expand;
use crate::walk::Schedule;
use crate::walk::Visit;
use std::sync::Arc;
use vstd::prelude::*;

verus! {

/// Whether installing a repack result accounts for every loose object that is
/// duplicated by a surviving pack.
#[derive(Debug, Clone, Copy, PartialEq, Eq, Structural)]
pub enum LooseObjectPruneOutcome {
    /// Installing the result performs the complete packed-loose cleanup itself.
    Complete,
    /// Retained or promisor packs may duplicate loose objects outside the new
    /// pack, so the caller must run the broader packed-loose cleanup.
    FollowUpRequired,
}

/// What a repack retains of an object until an optional bitmap is built: its
/// type and, for commits and trees, the object itself. Blob bodies are
/// deliberately not retained.
pub struct RepackBitmapObject {
    pub oid: ObjectId,
    pub object_type: ObjectType,
    pub graph_object: Option<Arc<EncodedObject>>,
}

pub struct RepackResult {
    /// Bytes of the freshly written `.pack` file.
    pub pack: Vec<u8>,
    /// Bytes of the matching `.idx` file for [`RepackResult::pack`].
    pub idx: Vec<u8>,
    /// Number of distinct objects contained in the new pack.
    pub object_count: usize,
    /// Stems of pre-existing `*.pack` files now superseded by the new pack.
    pub obsolete_packs: Vec<String>,
    /// Loose object ids that are now also present in the new pack and therefore
    /// redundant on disk.
    pub packed_loose: Vec<ObjectId>,
    /// Pack stems that policy says must survive pruning even if the new pack
    /// contains all of their objects.
    pub retained_pack_stems: Vec<String>,
    /// Whether the freshly written pack should receive a `.promisor` sidecar.
    pub promisor: bool,
    pub pack_checksum: ObjectId,
    pub index_entries: Vec<PackIndexEntry>,
    /// What an optional bitmap needs of the packed objects, in index order.
    pub bitmap_cache: Vec<RepackBitmapObject>,
    pub loose_prune_outcome: LooseObjectPruneOutcome,
}

/// Cached objects by id.
pub open spec fn cache_order() -> Less<RepackBitmapObject> {
    |a: RepackBitmapObject, b: RepackBitmapObject| a.oid.less(b.oid)
}

impl RepackResult {
    /// The object type retained by the repack walk, when `oid` belongs to the
    /// packed closure.
    pub fn cached_object_type(&self, oid: &ObjectId) -> (object_type: Option<ObjectType>)
        requires
            is_sorted(cache_order(), self.bitmap_cache@),
        ensures
            match object_type {
                Some(object_type) => exists|i: int|
                    0 <= i < self.bitmap_cache@.len() && (#[trigger] self.bitmap_cache@[i]).oid == *oid
                        && self.bitmap_cache@[i].object_type == object_type,
                None => forall|i: int|
                    0 <= i < self.bitmap_cache@.len() ==> (#[trigger] self.bitmap_cache@[i]).oid != *oid,
            },
    {
        let ghost cache = self.bitmap_cache@;
        let mut lo: usize = 0;
        let mut hi: usize = self.bitmap_cache.len();
        proof {
            lemma_oid_order();
        }
        while lo < hi
            invariant
                lo <= hi <= cache.len(),
                cache == self.bitmap_cache@,
                is_sorted(cache_order(), cache),
                forall|i: int| 0 <= i < lo ==> (#[trigger] cache[i]).oid != *oid,
                forall|i: int| hi <= i < cache.len() ==> (#[trigger] cache[i]).oid != *oid,
            decreases hi - lo,
        {
            let mid: usize = lo + (hi - lo) / 2;
            let entry = &self.bitmap_cache[mid];
            if entry.oid == *oid {
                assert(cache[mid as int].oid == *oid);
                return Some(entry.object_type);
            }
            proof {
                lemma_oid_order();
                let less = oid_less();
                assert forall|i: int, j: int| 0 <= i < j < cache.len() implies !less(
                    (#[trigger] cache[j]).oid,
                    (#[trigger] cache[i]).oid,
                ) by {
                    assert(!(cache_order())(cache[j], cache[i]));
                }
                assert forall|a: ObjectId, b: ObjectId| #[trigger] less(a, b) implies a != b by {}
            }
            if entry.oid.is_less(oid) {
                proof {
                    let less = oid_less();
                    assert forall|i: int| 0 <= i <= mid implies (#[trigger] cache[i]).oid != *oid by {
                        if i < mid && cache[i].oid == *oid {
                            assert(less(cache[mid as int].oid, cache[i].oid));
                        }
                    }
                }
                lo = mid + 1;
            } else {
                let other_way = oid.is_less(&entry.oid);
                proof {
                    let less = oid_less();
                    assert forall|i: int| mid <= i < cache.len() implies (#[trigger] cache[i]).oid != *oid by {
                        if i > mid && cache[i].oid == *oid {
                            assert(less(*oid, cache[mid as int].oid));
                        }
                    }
                }
                hi = mid;
            }
        }
        None
    }

    pub fn loose_object_prune_outcome(&self) -> (outcome: LooseObjectPruneOutcome)
        ensures
            outcome == self.loose_prune_outcome,
    {
        self.loose_prune_outcome
    }
}

/// What is retained of a packed object.
pub open spec fn cached(entry: ReachablePackObject) -> RepackBitmapObject {
    RepackBitmapObject {
        oid: entry.oid,
        object_type: entry.object.spec_type(),
        graph_object: if entry.object.spec_type() == ObjectType::Commit || entry.object.spec_type()
            == ObjectType::Tree {
            Some(entry.object)
        } else {
            None
        },
    }
}

struct ByObjectOid;

impl<'a> Order<&'a ReachablePackObject> for ByObjectOid {
    closed spec fn less(&self) -> Less<&'a ReachablePackObject> {
        |a: &'a ReachablePackObject, b: &'a ReachablePackObject| a.oid.less(b.oid)
    }

    proof fn lemma_is_order(&self) {
        lemma_oid_order();
        let less = <Self as Order<&'a ReachablePackObject>>::less(self);
        let by_oid = oid_less();
        assert forall|a: &'a ReachablePackObject, b: &'a ReachablePackObject| #[trigger] less(a, b)
            implies !less(b, a) by {
            assert(by_oid(a.oid, b.oid));
        }
        assert forall|a: &'a ReachablePackObject, b: &'a ReachablePackObject, c: &'a ReachablePackObject|
            #[trigger] less(a, c) implies #[trigger] less(a, b) || less(b, c) by {
            assert(by_oid(a.oid, c.oid));
            assert(by_oid(a.oid, b.oid) || by_oid(b.oid, c.oid));
        }
    }

    fn is_less(&self, a: &&'a ReachablePackObject, b: &&'a ReachablePackObject) -> (less: bool) {
        a.oid.is_less(&b.oid)
    }
}

/// Packed objects by id.
pub open spec fn object_order() -> Less<ReachablePackObject> {
    |a: ReachablePackObject, b: ReachablePackObject| a.oid.less(b.oid)
}

fn sorted_refs<'a>(objects: &'a [ReachablePackObject]) -> (sorted: Vec<&'a ReachablePackObject>)
    ensures
        sorted@.map_values(|entry: &ReachablePackObject| *entry) == stable_sort(object_order(), objects@),
{
    let mut refs: Vec<&'a ReachablePackObject> = Vec::new();
    let mut i: usize = 0;
    while i < objects.len()
        invariant
            i <= objects@.len(),
            refs@.len() == i,
            forall|k: int| 0 <= k < i ==> *refs@[k] == objects@[k],
        decreases objects@.len() - i,
    {
        refs.push(&objects[i]);
        i += 1;
    }
    let sorted = sort(&ByObjectOid, &refs);
    proof {
        let f = |entry: &ReachablePackObject| *entry;
        assert(refs@.map_values(f) =~= objects@);
        lemma_sort_map(ByObjectOid.less(), object_order(), f, refs@);
    }
    sorted
}

/// The objects in index order.
pub fn sort_pack_objects(objects: &[ReachablePackObject]) -> (sorted: Vec<ReachablePackObject>)
    ensures
        sorted@ == stable_sort(object_order(), objects@),
{
    let refs = sorted_refs(objects);
    let mut sorted: Vec<ReachablePackObject> = Vec::new();
    let mut i: usize = 0;
    while i < refs.len()
        invariant
            i <= refs@.len(),
            sorted@.len() == i,
            forall|k: int| 0 <= k < i ==> sorted@[k] == *refs@[k],
        decreases refs@.len() - i,
    {
        sorted.push(refs[i].copy());
        i += 1;
    }
    assert(sorted@ =~= refs@.map_values(|entry: &ReachablePackObject| *entry));
    sorted
}

/// What a repack retains of its objects for an optional bitmap, in index order.
pub fn bitmap_object_cache(objects: &[ReachablePackObject]) -> (cache: Vec<RepackBitmapObject>)
    ensures
        cache@ == stable_sort(
            cache_order(),
            objects@.map_values(|entry: ReachablePackObject| cached(entry)),
        ),
        is_sorted(cache_order(), cache@),
        cache@.len() == objects@.len(),
{
    let refs = sorted_refs(objects);
    let mut cache: Vec<RepackBitmapObject> = Vec::new();
    let mut i: usize = 0;
    while i < refs.len()
        invariant
            i <= refs@.len(),
            cache@.len() == i,
            forall|k: int| 0 <= k < i ==> cache@[k] == cached(*refs@[k]),
        decreases refs@.len() - i,
    {
        let entry = refs[i];
        let object_type = entry.object.object_type();
        let graph_object = if object_type == ObjectType::Commit || object_type == ObjectType::Tree {
            Some(share(&entry.object))
        } else {
            None
        };
        cache.push(RepackBitmapObject { oid: entry.oid, object_type, graph_object });
        i += 1;
    }
    proof {
        let f = |entry: ReachablePackObject| cached(entry);
        let sorted = stable_sort(object_order(), objects@);
        assert(refs@.map_values(|entry: &ReachablePackObject| *entry) == sorted);
        assert forall|k: int| 0 <= k < cache@.len() implies cache@[k] == sorted.map_values(f)[k] by {
            assert(sorted[k] == refs@.map_values(|entry: &ReachablePackObject| *entry)[k]);
        }
        assert(cache@ =~= sorted.map_values(f));
        lemma_sort_map(object_order(), cache_order(), f, objects@);
        lemma_cache_order();
        law_stable_sort(cache_order(), objects@.map_values(f));
    }
    cache
}

proof fn lemma_cache_order()
    ensures
        crate::order::is_order(cache_order()),
{
    lemma_oid_order();
    let less = cache_order();
    let by_oid = oid_less();
    assert forall|a: RepackBitmapObject, b: RepackBitmapObject| #[trigger] less(a, b) implies !less(b, a) by {
        assert(by_oid(a.oid, b.oid));
    }
    assert forall|a: RepackBitmapObject, b: RepackBitmapObject, c: RepackBitmapObject| #[trigger] less(a, c)
        implies #[trigger] less(a, b) || less(b, c) by {
        assert(by_oid(a.oid, c.oid));
        assert(by_oid(a.oid, b.oid) || by_oid(b.oid, c.oid));
    }
}

/// A cached object type is the type of the packed object: looking it up in a
/// freshly built cache finds what was packed.
pub proof fn law_cache_holds_types(objects: Seq<ReachablePackObject>, entry: ReachablePackObject)
    requires
        objects.contains(entry),
    ensures
        stable_sort(cache_order(), objects.map_values(|e: ReachablePackObject| cached(e))).contains(
            cached(entry),
        ),
{
    let f = |e: ReachablePackObject| cached(e);
    let all = objects.map_values(f);
    let i = choose|i: int| 0 <= i < objects.len() && objects[i] == entry;
    assert(all[i] == cached(entry));
    lemma_cache_order();
    lemma_sort_contains(cache_order(), all, cached(entry));
}

/// The types and the graph objects of a cache, by id.
pub fn bitmap_lookup_cache(cache: &[RepackBitmapObject]) -> (maps: (
    OidMap<ObjectType>,
    OidMap<Arc<EncodedObject>>,
))
    ensures
        maps.0@ == cached_types(cache@),
        maps.1@ == cached_graph(cache@),
{
    let mut object_types: OidMap<ObjectType> = OidMap::new();
    let mut graph_objects: OidMap<Arc<EncodedObject>> = OidMap::new();
    let mut i: usize = 0;
    assert(cache@.take(0) =~= Seq::empty());
    while i < cache.len()
        invariant
            i <= cache@.len(),
            object_types@ == cached_types(cache@.take(i as int)),
            graph_objects@ == cached_graph(cache@.take(i as int)),
        decreases cache@.len() - i,
    {
        assert(cache@.take(i + 1).drop_last() =~= cache@.take(i as int));
        let entry = &cache[i];
        object_types.insert(entry.oid, entry.object_type);
        match &entry.graph_object {
            Some(object) => {
                graph_objects.insert(entry.oid, share(object));
            },
            None => {},
        }
        i += 1;
    }
    assert(cache@.take(i as int) =~= cache@);
    (object_types, graph_objects)
}

/// The type of each cached id; of entries with one id, the last counts.
pub open spec fn cached_types(cache: Seq<RepackBitmapObject>) -> Map<ObjectId, ObjectType>
    decreases cache.len(),
{
    if cache.len() == 0 {
        Map::empty()
    } else {
        cached_types(cache.drop_last()).insert(cache.last().oid, cache.last().object_type)
    }
}

/// The graph object of each cached id that has one.
pub open spec fn cached_graph(cache: Seq<RepackBitmapObject>) -> Map<ObjectId, Arc<EncodedObject>>
    decreases cache.len(),
{
    if cache.len() == 0 {
        Map::empty()
    } else {
        match cache.last().graph_object {
            Some(object) => cached_graph(cache.drop_last()).insert(cache.last().oid, object),
            None => cached_graph(cache.drop_last()),
        }
    }
}

/// Reads the commits and trees that a repack retained, and everything else from
/// the database behind it.
pub struct RepackBitmapReader<'a, R> {
    pub cached: &'a OidMap<Arc<EncodedObject>>,
    pub fallback: &'a R,
}

impl<'a, R: ObjectReader> ObjectReader for RepackBitmapReader<'a, R> {
    open spec fn object_at(&self, oid: ObjectId) -> Result<Arc<EncodedObject>, GitError> {
        if self.cached@.contains_key(oid) {
            Ok(self.cached@[oid])
        } else {
            self.fallback.object_at(oid)
        }
    }

    open spec fn grafted(&self, oid: ObjectId) -> bool {
        self.fallback.grafted(oid)
    }

    open spec fn promised(&self, oid: ObjectId) -> bool {
        self.fallback.promised(oid)
    }

    fn read_object(&self, oid: &ObjectId) -> (read: Result<Arc<EncodedObject>, GitError>) {
        match self.cached.get(oid) {
            Some(object) => Ok(share(object)),
            None => self.fallback.read_object(oid),
        }
    }

    fn is_shallow_graft(&self, oid: &ObjectId) -> (shallow: bool) {
        self.fallback.is_shallow_graft(oid)
    }

    fn is_promised_object(&self, oid: &ObjectId) -> (promised: bool) {
        self.fallback.is_promised_object(oid)
    }

    fn has_shallow_grafts(&self) -> (any: bool) {
        self.fallback.has_shallow_grafts()
    }
}

#[derive(Debug)]
pub struct RepackOptions {
    /// Do not borrow objects from alternates (`git repack --local`).
    pub local: bool,
    /// Force fresh object compression even when one existing pack already has
    /// the exact reachable set (`git repack -f` / `-F`).
    pub force_rewrite: bool,
    /// Repack objects that are already in `.keep` / `--keep-pack` packs.
    pub pack_kept_objects: bool,
    /// Explicit `--keep-pack=<name>` pack stems (`pack-<checksum>`).
    pub keep_pack_stems: Vec<String>,
}

impl Default for RepackOptions {
    fn default() -> (options: RepackOptions)
        ensures
            !options.local,
            !options.force_rewrite,
            !options.pack_kept_objects,
            options.keep_pack_stems@ == Seq::<String>::empty(),
    {
        RepackOptions {
            local: false,
            force_rewrite: false,
            pack_kept_objects: false,
            keep_pack_stems: Vec::new(),
        }
    }
}

/// Installation policy for pack companions produced by a repack.
#[derive(Debug, Clone, Copy, PartialEq, Eq, Structural)]
pub struct RepackInstallOptions {
    pub prune: bool,
    pub write_reverse_index: bool,
    pub write_bitmap_lookup_table: bool,
    pub write_bitmap_hash_cache: bool,
}

impl RepackInstallOptions {
    pub fn new(prune: bool) -> (options: RepackInstallOptions)
        ensures
            options == (RepackInstallOptions {
                prune,
                write_reverse_index: true,
                write_bitmap_lookup_table: false,
                write_bitmap_hash_cache: true,
            }),
    {
        RepackInstallOptions {
            prune,
            write_reverse_index: true,
            write_bitmap_lookup_table: false,
            write_bitmap_hash_cache: true,
        }
    }

    pub fn with_reverse_index(self, write_reverse_index: bool) -> (options: RepackInstallOptions)
        ensures
            options == (RepackInstallOptions { write_reverse_index, ..self }),
    {
        RepackInstallOptions { write_reverse_index, ..self }
    }

    pub fn with_bitmap_extensions(
        self,
        write_lookup_table: bool,
        write_hash_cache: bool,
    ) -> (options: RepackInstallOptions)
        ensures
            options == (RepackInstallOptions {
                write_bitmap_lookup_table: write_lookup_table,
                write_bitmap_hash_cache: write_hash_cache,
                ..self
            }),
    {
        RepackInstallOptions {
            write_bitmap_lookup_table: write_lookup_table,
            write_bitmap_hash_cache: write_hash_cache,
            ..self
        }
    }
}

/// The stems of packs that a repack must not touch: the explicitly kept ones
/// and, where `.keep` files count, those of packs that have one.
pub open spec fn retained_stems(files: Seq<PackFile>, explicit: Seq<String>, keep_dot_keep: bool) -> Set<
    Seq<char>,
> {
    text_set(explicit).union(
        Set::new(
            |stem: Seq<char>|
                keep_dot_keep && exists|i: int|
                    0 <= i < files.len() && (#[trigger] files[i]).has_keep && files[i].stem@ == stem,
        ),
    )
}

/// Adds `name` to `names` unless it is there.
fn add_name(names: &mut Vec<String>, name: &String)
    requires
        texts(old(names)@).no_duplicates(),
    ensures
        texts(final(names)@).no_duplicates(),
        text_set(final(names)@) == text_set(old(names)@).insert(name@),
{
    if lists_text(names, name.as_str()) {
        assert(text_set(names@) =~= text_set(names@).insert(name@));
    } else {
        let ghost before = texts(names@);
        names.push(name.clone());
        proof {
            assert(texts(names@) =~= before.push(name@));
            before.lemma_push_to_set_commute(name@);
            assert(names@.map_values(|path: String| path@) =~= texts(names@));
            assert(old(names)@.map_values(|path: String| path@) =~= before);
            assert(!before.contains(name@));
        }
    }
}

/// The stems of packs that a repack must not touch, sorted.
pub fn repack_retained_pack_stems(files: &[PackFile], explicit: &[String], keep_dot_keep: bool) -> (stems: Vec<
    String,
>)
    ensures
        text_set(stems@) == retained_stems(files@, explicit@, keep_dot_keep),
        texts(stems@).no_duplicates(),
        is_sorted(text_order(), texts(stems@)),
{
    let mut stems: Vec<String> = Vec::new();
    assert(text_set(stems@) =~= Set::empty());
    let mut i: usize = 0;
    while i < explicit.len()
        invariant
            i <= explicit@.len(),
            texts(stems@).no_duplicates(),
            text_set(stems@) == text_set(explicit@.take(i as int)),
        decreases explicit@.len() - i,
    {
        add_name(&mut stems, &explicit[i]);
        proof {
            let f = |path: String| path@;
            let done = explicit@.take(i as int).map_values(f);
            assert(explicit@.take(i + 1).map_values(f) =~= done.push(explicit@[i as int]@));
            done.lemma_push_to_set_commute(explicit@[i as int]@);
        }
        i += 1;
    }
    assert(explicit@.take(i as int) =~= explicit@);
    if keep_dot_keep {
        let mut k: usize = 0;
        assert(text_set(stems@) =~= retained_stems(files@.take(0), explicit@, true));
        while k < files.len()
            invariant
                k <= files@.len(),
                texts(stems@).no_duplicates(),
                text_set(stems@) == retained_stems(files@.take(k as int), explicit@, true),
            decreases files@.len() - k,
        {
            let ghost done = files@.take(k as int);
            let ghost next = files@.take(k + 1);
            let ghost before = text_set(stems@);
            if files[k].has_keep {
                add_name(&mut stems, &files[k].stem);
            }
            proof {
                assert forall|stem: Seq<char>|
                    text_set(stems@).contains(stem) == retained_stems(next, explicit@, true).contains(stem) by {
                    assert(next[k as int] == files@[k as int]);
                    if retained_stems(done, explicit@, true).contains(stem) && !text_set(explicit@).contains(
                        stem,
                    ) {
                        let m = choose|m: int|
                            0 <= m < done.len() && (#[trigger] done[m]).has_keep && done[m].stem@ == stem;
                        assert(next[m] == done[m]);
                    }
                    if retained_stems(next, explicit@, true).contains(stem) && !text_set(explicit@).contains(
                        stem,
                    ) {
                        let m = choose|m: int|
                            0 <= m < next.len() && (#[trigger] next[m]).has_keep && next[m].stem@ == stem;
                        if m < k {
                            assert(done[m] == next[m]);
                        }
                    }
                }
                assert(text_set(stems@) =~= retained_stems(next, explicit@, true));
            }
            k += 1;
        }
        assert(files@.take(k as int) =~= files@);
    } else {
        assert(text_set(stems@) =~= retained_stems(files@, explicit@, false));
    }
    let sorted = sort_names(&stems);
    proof {
        lemma_text_order();
        law_stable_sort(text_order(), texts(stems@));
        texts(stems@).lemma_multiset_has_no_duplicates();
        texts(sorted@).lemma_multiset_has_no_duplicates_conv();
        assert forall|stem: Seq<char>| text_set(sorted@).contains(stem) == text_set(stems@).contains(stem) by {
            lemma_sort_contains(text_order(), texts(stems@), stem);
            assert(sorted@.map_values(|path: String| path@) =~= texts(sorted@));
            assert(stems@.map_values(|path: String| path@) =~= texts(stems@));
        }
        assert(text_set(sorted@) =~= text_set(stems@));
    }
    sorted
}

/// What the packs of the first `n` alternates have under an id: the object of
/// the first that lists and holds it.
pub open spec fn lent<A: ObjectReader>(alternates: Seq<A>, packed: Seq<OidSet>, n: nat, oid: ObjectId) -> Result<
    Option<Arc<EncodedObject>>,
    GitError,
>
    decreases n,
{
    if n == 0 {
        Ok(None)
    } else {
        match lent(alternates, packed, (n - 1) as nat, oid) {
            Ok(None) => if packed[n - 1]@.contains(oid) {
                match alternates[n - 1].object_at(oid) {
                    Ok(object) => Ok(Some(object)),
                    Err(GitError::NotFound(_)) => Ok(None),
                    Err(err) => Err(err),
                }
            } else {
                Ok(None)
            },
            other => other,
        }
    }
}

proof fn lemma_lent_stays<A: ObjectReader>(
    alternates: Seq<A>,
    packed: Seq<OidSet>,
    n: nat,
    more: nat,
    oid: ObjectId,
)
    requires
        n <= more,
        lent(alternates, packed, n, oid) != Ok::<Option<Arc<EncodedObject>>, GitError>(None),
    ensures
        lent(alternates, packed, more, oid) == lent(alternates, packed, n, oid),
    decreases more - n,
{
    if n < more {
        lemma_lent_stays(alternates, packed, n, (more - 1) as nat, oid);
    }
}

/// What an all-into-one repack has under an id: nothing where a promisor remote
/// holds it; what the reader holds, or what packs of alternates do.
pub open spec fn repack_object<R: ObjectReader, A: ObjectReader>(
    reader: &R,
    alternates: Seq<A>,
    packed: Seq<OidSet>,
    lenders: nat,
    promisor: Set<ObjectId>,
    oid: ObjectId,
) -> Result<Option<Arc<EncodedObject>>, GitError> {
    if promisor.contains(oid) {
        Ok(None)
    } else {
        match reader.object_at(oid) {
            Ok(object) => Ok(Some(object)),
            Err(GitError::NotFound(_)) => lent(alternates, packed, lenders, oid),
            Err(err) => Err(err),
        }
    }
}

/// The walk that gathers objects for an all-into-one pack: objects that a
/// promisor remote holds are not entered, and missing ones are passed over.
pub open spec fn repack_schedule<R: ObjectReader, A: ObjectReader>(
    reader: &R,
    alternates: Seq<A>,
    packed: Seq<OidSet>,
    lenders: nat,
    promisor: Set<ObjectId>,
) -> Schedule {
    |oid: ObjectId|
        match repack_object(reader, alternates, packed, lenders, promisor, oid) {
            Err(err) => Err(err),
            Ok(None) => Ok(Seq::<ObjectId>::empty()),
            Ok(Some(object)) => stacked_schedule(*object, reader.grafted(oid)),
        }
}

struct RepackGraph<'a, R, A> {
    reader: &'a R,
    alternates: &'a [A],
    packed: &'a [OidSet],
    lenders: usize,
    promisor: &'a OidSet,
}

/// The object that an all-into-one pack takes for an id, if any.
pub open spec fn packable<R: ObjectReader, A: ObjectReader>(
    reader: &R,
    alternates: Seq<A>,
    packed: Seq<OidSet>,
    lenders: nat,
    promisor: Set<ObjectId>,
    oid: ObjectId,
) -> Option<Arc<EncodedObject>> {
    match repack_object(reader, alternates, packed, lenders, promisor, oid) {
        Ok(found) => found,
        Err(_) => None,
    }
}

/// What the packs of the first `count` alternates have under an id.
fn borrow_object<A: ObjectReader>(alternates: &[A], packed: &[OidSet], count: usize, oid: &ObjectId) -> (object: Result<
    Option<Arc<EncodedObject>>,
    GitError,
>)
    requires
        count <= alternates@.len(),
        count <= packed@.len(),
    ensures
        object == lent(alternates@, packed@, count as nat, *oid),
{
    let mut i: usize = 0;
    while i < count
        invariant
            i <= count,
            count <= alternates@.len(),
            count <= packed@.len(),
            lent(alternates@, packed@, i as nat, *oid) == Ok::<Option<Arc<EncodedObject>>, GitError>(None),
        decreases count - i,
    {
        if packed[i].contains(oid) {
            match alternates[i].read_object(oid) {
                Ok(object) => {
                    proof {
                        lemma_lent_stays(alternates@, packed@, (i + 1) as nat, count as nat, *oid);
                    }
                    return Ok(Some(object));
                },
                Err(GitError::NotFound(_)) => {},
                Err(err) => {
                    proof {
                        lemma_lent_stays(alternates@, packed@, (i + 1) as nat, count as nat, *oid);
                    }
                    return Err(err);
                },
            }
        }
        i += 1;
    }
    Ok(None)
}

impl<'a, R: ObjectReader, A: ObjectReader> Expand for RepackGraph<'a, R, A> {
    closed spec fn object_of(&self, oid: ObjectId) -> Option<Arc<EncodedObject>> {
        packable(self.reader, self.alternates@, self.packed@, self.lent_by(), self.promisor@, oid)
    }

    closed spec fn schedule(&self) -> Schedule {
        repack_schedule(self.reader, self.alternates@, self.packed@, self.lent_by(), self.promisor@)
    }

    fn expand(&self, oid: &ObjectId) -> (visit: Result<Visit, GitError>) {
        if self.promisor.contains(oid) {
            return Ok(Visit { object: None, scheduled: Vec::new() });
        }
        let found = match self.reader.read_object(oid) {
            Ok(object) => Some(object),
            Err(GitError::NotFound(_)) => match borrow_object(
                self.alternates,
                self.packed,
                self.usable(),
                oid,
            ) {
                Err(err) => {
                    return Err(err);
                },
                Ok(found) => found,
            },
            Err(err) => {
                return Err(err);
            },
        };
        match found {
            None => Ok(Visit { object: None, scheduled: Vec::new() }),
            Some(object) => {
                let cut = self.reader.is_shallow_graft(oid);
                match schedule_stacked(&object, cut) {
                    Err(err) => Err(err),
                    Ok(scheduled) => Ok(Visit { object: Some(object), scheduled }),
                }
            },
        }
    }
}

impl<'a, R, A> RepackGraph<'a, R, A> {
    /// How many of the alternates lend: those that were asked for and are
    /// there.
    spec fn lent_by(self) -> nat {
        if self.lenders <= self.alternates@.len() && self.lenders <= self.packed@.len() {
            self.lenders as nat
        } else {
            0
        }
    }

    fn usable(&self) -> (count: usize)
        ensures
            count == self.lent_by(),
            count <= self.alternates@.len(),
            count <= self.packed@.len(),
    {
        if self.lenders <= self.alternates.len() && self.lenders <= self.packed.len() {
            self.lenders
        } else {
            0
        }
    }
}

/// The objects that the walk over `ids` packs: those that are neither excluded
/// nor passed over, in walk order.
pub open spec fn packed_of<R: ObjectReader, A: ObjectReader>(
    reader: &R,
    alternates: Seq<A>,
    packed: Seq<OidSet>,
    lenders: nat,
    promisor: Set<ObjectId>,
    excluded: Set<ObjectId>,
    ids: Seq<ObjectId>,
) -> Seq<ReachablePackObject>
    decreases ids.len(),
{
    if ids.len() == 0 {
        Seq::empty()
    } else {
        let rest = packed_of(reader, alternates, packed, lenders, promisor, excluded, ids.drop_last());
        match packable(reader, alternates, packed, lenders, promisor, ids.last()) {
            Some(object) => if excluded.contains(ids.last()) {
                rest
            } else {
                rest.push(ReachablePackObject { oid: ids.last(), object })
            },
            None => rest,
        }
    }
}

/// What the walk for an all-into-one pack visits, in order.
pub open spec fn repack_walk<R: ObjectReader, A: ObjectReader>(
    reader: &R,
    alternates: Seq<A>,
    packed: Seq<OidSet>,
    lenders: nat,
    promisor: Set<ObjectId>,
    roots: Seq<ObjectId>,
) -> Result<Seq<ObjectId>, GitError> {
    walk_from(
        repack_schedule(reader, alternates, packed, lenders, promisor),
        Set::empty(),
        roots,
        Seq::empty(),
    )
}

/// Gathers the reachability closure of `roots`. Objects in `excluded` are
/// walked through but not packed.
pub fn gather_repack_objects<R: ObjectReader, A: ObjectReader>(
    reader: &R,
    alternates: &[A],
    packed: &[OidSet],
    lenders: usize,
    roots: &[ObjectId],
    promisor: &OidSet,
    excluded: &OidSet,
) -> (gathered: Result<Vec<ReachablePackObject>, GitError>)
    requires
        lenders <= alternates@.len(),
        lenders <= packed@.len(),
    ensures
        match gathered {
            Ok(objects) => repack_closure(
                reader,
                alternates@,
                packed@,
                lenders as nat,
                roots@,
                promisor@,
                excluded@,
            ) == Ok::<Seq<ReachablePackObject>, GitError>(objects@),
            Err(err) => repack_closure(
                reader,
                alternates@,
                packed@,
                lenders as nat,
                roots@,
                promisor@,
                excluded@,
            ) == Err::<Seq<ReachablePackObject>, GitError>(err),
        },
{
    let graph = RepackGraph { reader, alternates, packed, lenders, promisor };
    let walked = match walk(&graph, copy_oids(roots), &OidSet::new()) {
        Err(err) => {
            return Err(err);
        },
        Ok(walked) => walked,
    };
    let ghost ids = walked.seen.items();
    let mut objects: Vec<ReachablePackObject> = Vec::new();
    let count: usize = walked.seen.len();
    let mut i: usize = 0;
    while i < count
        invariant
            i <= count == ids.len(),
            ids == walked.seen.items(),
            graph.reader == reader,
            graph.alternates == alternates,
            graph.packed == packed,
            graph.lent_by() == lenders,
            graph.promisor == promisor,
            walked.objects@ == ids.map_values(|oid: ObjectId| graph.object_of(oid)),
            objects@ == packed_of(reader, alternates@, packed@, lenders as nat, promisor@, excluded@, ids.take(i as int)),
        decreases count - i,
    {
        let oid = walked.seen.get(i);
        assert(ids.take(i + 1).drop_last() =~= ids.take(i as int));
        assert(walked.objects@[i as int] == packable(reader, alternates@, packed@, lenders as nat, promisor@, oid));
        match &walked.objects[i] {
            None => {},
            Some(object) => {
                if !excluded.contains(&oid) {
                    objects.push(ReachablePackObject { oid, object: share(object) });
                }
            },
        }
        i += 1;
    }
    assert(ids.take(i as int) =~= ids);
    Ok(objects)
}

/// Whether a blob-size filter moves an object out of the main pack: a blob of
/// at least `limit` bytes that no root names.
pub open spec fn over_limit(entry: ReachablePackObject, limit: u64, roots: Set<ObjectId>) -> bool {
    &&& entry.object.spec_type() == ObjectType::Blob
    &&& !roots.contains(entry.oid)
    &&& entry.object.body@.len() >= limit
}

/// The objects for the main pack, and those that a blob-size filter moves to a
/// pack of their own.
pub struct RepackSelection {
    pub objects: Vec<ReachablePackObject>,
    pub filtered_out: Vec<ReachablePackObject>,
    /// Whether an existing pack that holds exactly `objects` may stand in for a
    /// new one.
    pub may_reuse: bool,
}

/// Splits `objects` by a blob-size filter.
fn split_by_limit(objects: Vec<ReachablePackObject>, limit: u64, roots: &OidSet) -> (parts: (
    Vec<ReachablePackObject>,
    Vec<ReachablePackObject>,
))
    ensures
        parts.0@ == objects@.filter(|entry: ReachablePackObject| !over_limit(entry, limit, roots@)),
        parts.1@ == objects@.filter(|entry: ReachablePackObject| over_limit(entry, limit, roots@)),
{
    let ghost keep = |entry: ReachablePackObject| !over_limit(entry, limit, roots@);
    let ghost omit = |entry: ReachablePackObject| over_limit(entry, limit, roots@);
    let mut kept: Vec<ReachablePackObject> = Vec::new();
    let mut omitted: Vec<ReachablePackObject> = Vec::new();
    let mut i: usize = 0;
    proof {
        reveal(Seq::filter);
        assert(objects@.take(0).filter(keep) =~= Seq::empty());
        assert(objects@.take(0).filter(omit) =~= Seq::empty());
    }
    while i < objects.len()
        invariant
            i <= objects@.len(),
            keep == (|entry: ReachablePackObject| !over_limit(entry, limit, roots@)),
            omit == (|entry: ReachablePackObject| over_limit(entry, limit, roots@)),
            kept@ == objects@.take(i as int).filter(keep),
            omitted@ == objects@.take(i as int).filter(omit),
        decreases objects@.len() - i,
    {
        proof {
            reveal(Seq::filter);
            assert(objects@.take(i + 1).drop_last() =~= objects@.take(i as int));
        }
        let entry = &objects[i];
        if entry.object.object_type() == ObjectType::Blob && !roots.contains(&entry.oid) && entry.object.body.len()
            as u64 >= limit {
            omitted.push(entry.copy());
        } else {
            kept.push(entry.copy());
        }
        i += 1;
    }
    assert(objects@.take(i as int) =~= objects@);
    (kept, omitted)
}

/// The objects that an all-into-one repack gathers, before any filter: the
/// reachability closure of `roots`, as far as it is there.
pub open spec fn repack_closure<R: ObjectReader, A: ObjectReader>(
    reader: &R,
    alternates: Seq<A>,
    packed: Seq<OidSet>,
    lenders: nat,
    roots: Seq<ObjectId>,
    promisor: Set<ObjectId>,
    excluded: Set<ObjectId>,
) -> Result<Seq<ReachablePackObject>, GitError> {
    match repack_walk(reader, alternates, packed, lenders, promisor, roots) {
        Err(err) => Err(err),
        Ok(ids) => Ok(packed_of(reader, alternates, packed, lenders, promisor, excluded, ids)),
    }
}

/// How many of its alternates a repack takes objects from: none where it is
/// local.
pub open spec fn lender_count(local: bool, alternates: nat) -> nat {
    if local {
        0
    } else {
        alternates
    }
}

/// Chooses the objects of `git repack -a`: the reachability closure of `roots`
/// in the repository and, unless the repack is local, in packs of alternates;
/// without objects of kept packs. With `blob_limit`, blobs of at least that many
/// bytes that are not roots are set apart.
pub fn gather_reachable_repack<R: ObjectReader, A: ObjectReader>(
    reader: &R,
    alternates: &[A],
    packed: &[OidSet],
    roots: &[ObjectId],
    options: &RepackOptions,
    promisor: &OidSet,
    excluded: &OidSet,
    blob_limit: Option<u64>,
) -> (selection: Result<RepackSelection, GitError>)
    requires
        packed@.len() == alternates@.len(),
    ensures
        match (
            selection,
            repack_closure(
                reader,
                alternates@,
                packed@,
                lender_count(options.local, alternates@.len()),
                roots@,
                promisor@,
                excluded@,
            ),
        ) {
            (Err(err), Err(e)) => err == e,
            (Ok(selection), Ok(objects)) => {
                &&& match blob_limit {
                    None => selection.objects@ == objects && selection.filtered_out@.len() == 0,
                    Some(limit) => {
                        &&& selection.objects@ == objects.filter(
                            |entry: ReachablePackObject| !over_limit(entry, limit, roots@.to_set()),
                        )
                        &&& selection.filtered_out@ == objects.filter(
                            |entry: ReachablePackObject| over_limit(entry, limit, roots@.to_set()),
                        )
                    },
                }
                &&& selection.may_reuse == (blob_limit is None && !options.force_rewrite)
            },
            _ => false,
        },
{
    let lenders: usize = if options.local {
        0
    } else {
        alternates.len()
    };
    let objects = match gather_repack_objects(reader, alternates, packed, lenders, roots, promisor, excluded) {
        Err(err) => {
            return Err(err);
        },
        Ok(objects) => objects,
    };
    let may_reuse = blob_limit.is_none() && !options.force_rewrite;
    match blob_limit {
        None => Ok(RepackSelection { objects, filtered_out: Vec::new(), may_reuse }),
        Some(limit) => {
            let wanted = OidSet::from_slice(roots);
            let (kept, omitted) = split_by_limit(objects, limit, &wanted);
            Ok(RepackSelection { objects: kept, filtered_out: omitted, may_reuse })
        },
    }
}

/// Whether an index lists as many entries as there are objects, and no id that
/// is not one of theirs.
pub open spec fn lists_exactly(entries: Seq<PackIndexEntry>, objects: Seq<ReachablePackObject>) -> bool {
    &&& entries.len() == objects.len()
    &&& forall|i: int|
        0 <= i < entries.len() ==> ids_of(objects).contains((#[trigger] entries[i]).oid)
}

/// Whether an existing pack, by its index, holds exactly the objects that a
/// repack would pack.
pub fn pack_lists_exactly(entries: &[PackIndexEntry], objects: &[ReachablePackObject]) -> (exact: bool)
    ensures
        exact == lists_exactly(entries@, objects@),
{
    if entries.len() != objects.len() {
        return false;
    }
    let reachable = oids_of(objects);
    let mut i: usize = 0;
    while i < entries.len()
        invariant
            i <= entries@.len(),
            reachable@ == ids_of(objects@).to_set(),
            forall|k: int| 0 <= k < i ==> ids_of(objects@).contains((#[trigger] entries@[k]).oid),
        decreases entries@.len() - i,
    {
        if !reachable.contains(&entries[i].oid) {
            assert(!ids_of(objects@).contains(entries@[i as int].oid));
            return false;
        }
        i += 1;
    }
    true
}

/// An index without repetitions that lists exactly the objects has their ids
/// and no others.
pub proof fn law_exact_listing_is_same_set(entries: Seq<PackIndexEntry>, objects: Seq<ReachablePackObject>)
    requires
        lists_exactly(entries, objects),
        entry_ids(entries).no_duplicates(),
    ensures
        entry_ids(entries).to_set() == ids_of(objects).to_set(),
{
    let a = entry_ids(entries);
    let b = ids_of(objects);
    a.unique_seq_to_set();
    b.lemma_cardinality_of_set();
    assert(a.to_set().subset_of(b.to_set())) by {
        assert forall|oid: ObjectId| a.to_set().contains(oid) implies b.to_set().contains(oid) by {
            let i = choose|i: int| 0 <= i < a.len() && a[i] == oid;
            assert(entries[i].oid == oid);
        }
    }
    vstd::seq_lib::seq_to_set_is_finite(a);
    vstd::seq_lib::seq_to_set_is_finite(b);
    vstd::set_lib::lemma_len_subset(a.to_set(), b.to_set());
    vstd::set_lib::lemma_subset_equality(a.to_set(), b.to_set());
}

/// The loose ids that a pack with these entries serves, in index order.
pub open spec fn served_loose(loose: Seq<ObjectId>, entries: Seq<PackIndexEntry>) -> Seq<ObjectId> {
    stable_sort(
        oid_less(),
        loose.filter(|oid: ObjectId| entry_ids(entries).to_set().contains(oid)),
    )
}

fn collect_served_loose(loose: &[ObjectId], entries: &[PackIndexEntry]) -> (served: Vec<ObjectId>)
    ensures
        served@ == served_loose(loose@, entries@),
{
    let packed = entry_id_set(entries);
    let kept = retain_in(loose, &packed);
    sort_oids(&kept)
}

/// The stems of `files` other than `new_stem`, in their order.
pub open spec fn superseded(files: Seq<PackFile>, new_stem: Seq<char>) -> Seq<Seq<char>>
    decreases files.len(),
{
    if files.len() == 0 {
        Seq::empty()
    } else {
        let rest = superseded(files.drop_last(), new_stem);
        if files.last().stem@ == new_stem {
            rest
        } else {
            rest.push(files.last().stem@)
        }
    }
}

/// The packs that a new pack supersedes: every other one, by stem.
pub fn superseded_stems(files: &[PackFile], checksum: &ObjectId) -> (stems: Vec<String>)
    ensures
        texts(stems@) == superseded(files@, pack_stem(*checksum)),
{
    let new_stem = pack_name(checksum);
    let mut stems: Vec<String> = Vec::new();
    let mut i: usize = 0;
    assert(texts(stems@) =~= superseded(files@.take(0), new_stem@));
    while i < files.len()
        invariant
            i <= files@.len(),
            texts(stems@) == superseded(files@.take(i as int), new_stem@),
        decreases files@.len() - i,
    {
        assert(files@.take(i + 1).drop_last() =~= files@.take(i as int));
        if !text_eq(files[i].stem.as_str(), new_stem.as_str()) {
            let ghost before = texts(stems@);
            stems.push(files[i].stem.clone());
            assert(texts(stems@) =~= before.push(files@[i as int].stem@));
        }
        i += 1;
    }
    assert(files@.take(i as int) =~= files@);
    stems
}

/// Whether `result` presents the pack with the given bytes, entries and
/// objects. The remaining fields are for the caller to say.
pub open spec fn presents(
    result: RepackResult,
    pack: Seq<u8>,
    idx: Seq<u8>,
    checksum: ObjectId,
    entries: Seq<PackIndexEntry>,
    objects: Seq<ReachablePackObject>,
    loose: Seq<ObjectId>,
) -> bool {
    &&& result.pack@ == pack
    &&& result.idx@ == idx
    &&& result.pack_checksum == checksum
    &&& result.index_entries@ == entries
    &&& result.object_count == entries.len()
    &&& result.packed_loose@ == served_loose(loose, entries)
    &&& result.bitmap_cache@ == stable_sort(
        cache_order(),
        objects.map_values(|entry: ReachablePackObject| cached(entry)),
    )
    &&& is_sorted(cache_order(), result.bitmap_cache@)
}

/// The result of a repack that wrote `written` for `objects`. `loose` are the
/// loose ids that count as packed where the new pack serves them.
pub fn repack_result(
    written: PackWrite,
    objects: &[ReachablePackObject],
    obsolete_packs: Vec<String>,
    loose: &[ObjectId],
    retained_pack_stems: Vec<String>,
    promisor: bool,
    loose_prune_outcome: LooseObjectPruneOutcome,
) -> (result: RepackResult)
    ensures
        presents(
            result,
            written.pack@,
            written.index@,
            written.checksum,
            written.entries@,
            objects@,
            loose@,
        ),
        result.obsolete_packs == obsolete_packs,
        result.retained_pack_stems == retained_pack_stems,
        result.promisor == promisor,
        result.loose_prune_outcome == loose_prune_outcome,
{
    let packed_loose = collect_served_loose(loose, &written.entries);
    RepackResult {
        object_count: written.entries.len(),
        pack: written.pack,
        idx: written.index,
        obsolete_packs,
        packed_loose,
        retained_pack_stems,
        promisor,
        pack_checksum: written.checksum,
        index_entries: written.entries,
        bitmap_cache: bitmap_object_cache(objects),
        loose_prune_outcome,
    }
}

/// Whether a repack that leaves no pack in place knows of every duplicate: no
/// pack is retained, and no promisor pack exists.
pub open spec fn prune_outcome(retained: Seq<String>, promisor: Set<ObjectId>) -> LooseObjectPruneOutcome {
    if retained.len() == 0 && promisor == Set::<ObjectId>::empty() {
        LooseObjectPruneOutcome::Complete
    } else {
        LooseObjectPruneOutcome::FollowUpRequired
    }
}

/// The result of an all-into-one repack: every other pack is superseded, since
/// its reachable objects are in the new pack and its unreachable ones are being
/// dropped.
pub fn finish_reachable_repack(
    written: PackWrite,
    objects: &[ReachablePackObject],
    files: &[PackFile],
    loose: &[ObjectId],
    retained_pack_stems: Vec<String>,
    promisor: &OidSet,
) -> (result: RepackResult)
    ensures
        presents(
            result,
            written.pack@,
            written.index@,
            written.checksum,
            written.entries@,
            objects@,
            loose@,
        ),
        texts(result.obsolete_packs@) == superseded(files@, pack_stem(written.checksum)),
        result.retained_pack_stems == retained_pack_stems,
        !result.promisor,
        result.loose_prune_outcome == prune_outcome(retained_pack_stems@, promisor@),
{
    let outcome = if retained_pack_stems.len() == 0 && promisor.is_empty() {
        LooseObjectPruneOutcome::Complete
    } else {
        LooseObjectPruneOutcome::FollowUpRequired
    };
    let obsolete = superseded_stems(files, &written.checksum);
    repack_result(written, objects, obsolete, loose, retained_pack_stems, false, outcome)
}

/// Whether an existing pack stands in for a new one: it is the only pack, its
/// index can be read and lists exactly the objects, and its bytes can be read.
pub open spec fn reuse_applies(
    files: Seq<PackFile>,
    index: Option<PackIndexData>,
    pack: Option<Vec<u8>>,
    objects: Seq<ReachablePackObject>,
) -> bool {
    &&& files.len() == 1
    &&& index is Some
    &&& lists_exactly(index->Some_0.entries@, objects)
    &&& pack is Some
}

/// Reuses an existing single pack when its object set is already exactly the
/// requested repack output. Multiple packs, an unreadable index or pack,
/// unreachable objects in the existing pack, or newly reachable objects all
/// yield `None`; a pack that does not have the checksum of its index is an
/// error. A pack whose file is not named by its checksum is superseded by the
/// properly named copy.
pub fn reuse_exact_single_pack(
    format: ObjectFormat,
    files: &[PackFile],
    index_bytes: Vec<u8>,
    index: Option<PackIndexData>,
    pack: Option<Vec<u8>>,
    objects: &[ReachablePackObject],
    loose: &[ObjectId],
    retained_pack_stems: Vec<String>,
    promisor: &OidSet,
) -> (reused: Result<Option<RepackResult>, GitError>)
    ensures
        !reuse_applies(files@, index, pack, objects@) ==> reused == Ok::<Option<RepackResult>, GitError>(None),
        reuse_applies(files@, index, pack, objects@) ==> {
            let checksum = index->Some_0.pack_checksum;
            let bytes = pack->Some_0@;
            match reused {
                Err(err) => checksum_failure(bytes, format, checksum, "reused repack"@, err),
                Ok(None) => false,
                Ok(Some(result)) => {
                    &&& checksum.spec_format() == format
                    &&& is_checksummed(format, bytes, checksum)
                    &&& presents(
                        result,
                        bytes,
                        index_bytes@,
                        checksum,
                        index->Some_0.entries@,
                        objects@,
                        loose@,
                    )
                    &&& texts(result.obsolete_packs@) == superseded(files@, pack_stem(checksum))
                    &&& result.retained_pack_stems == retained_pack_stems
                    &&& !result.promisor
                    &&& result.loose_prune_outcome == prune_outcome(retained_pack_stems@, promisor@)
                },
            }
        },
{
    if files.len() != 1 {
        return Ok(None);
    }
    let index = match index {
        None => {
            return Ok(None);
        },
        Some(index) => index,
    };
    if !pack_lists_exactly(&index.entries, objects) {
        return Ok(None);
    }
    let pack = match pack {
        None => {
            return Ok(None);
        },
        Some(pack) => pack,
    };
    match validate_pack_checksum(&pack, format, &index.pack_checksum, "reused repack") {
        Err(err) => {
            return Err(err);
        },
        Ok(_) => {},
    }
    let written = PackWrite {
        pack,
        index: index_bytes,
        checksum: index.pack_checksum,
        entries: index.entries,
    };
    Ok(
        Some(
            finish_reachable_repack(written, objects, files, loose, retained_pack_stems, promisor),
        ),
    )
}

/// The objects of `ids`, each read in turn; the first that cannot be read ends
/// it.
pub open spec fn read_all<R: ObjectReader>(reader: &R, ids: Seq<ObjectId>) -> Result<
    Seq<ReachablePackObject>,
    GitError,
>
    decreases ids.len(),
{
    if ids.len() == 0 {
        Ok(Seq::empty())
    } else {
        match read_all(reader, ids.drop_last()) {
            Err(err) => Err(err),
            Ok(objects) => match reader.object_at(ids.last()) {
                Err(err) => Err(err),
                Ok(object) => Ok(objects.push(ReachablePackObject { oid: ids.last(), object })),
            },
        }
    }
}

proof fn lemma_read_all_prefix<R: ObjectReader>(reader: &R, ids: Seq<ObjectId>, n: int)
    requires
        0 <= n <= ids.len(),
        read_all(reader, ids.take(n)) is Err,
    ensures
        read_all(reader, ids) == read_all(reader, ids.take(n)),
    decreases ids.len() - n,
{
    if n < ids.len() {
        assert(ids.take(n + 1).drop_last() =~= ids.take(n));
        lemma_read_all_prefix(reader, ids, n + 1);
    } else {
        assert(ids.take(n) =~= ids);
    }
}

/// Reads the object of each id in turn.
pub fn read_pack_objects<R: ObjectReader>(reader: &R, ids: &[ObjectId]) -> (objects: Result<
    Vec<ReachablePackObject>,
    GitError,
>)
    ensures
        match objects {
            Ok(objects) => read_all(reader, ids@) == Ok::<Seq<ReachablePackObject>, GitError>(objects@),
            Err(err) => read_all(reader, ids@) == Err::<Seq<ReachablePackObject>, GitError>(err),
        },
{
    let mut objects: Vec<ReachablePackObject> = Vec::new();
    let mut i: usize = 0;
    while i < ids.len()
        invariant
            i <= ids@.len(),
            read_all(reader, ids@.take(i as int)) == Ok::<Seq<ReachablePackObject>, GitError>(objects@),
        decreases ids@.len() - i,
    {
        assert(ids@.take(i + 1).drop_last() =~= ids@.take(i as int));
        let oid = ids[i];
        match reader.read_object(&oid) {
            Err(err) => {
                proof {
                    lemma_read_all_prefix(reader, ids@, i + 1);
                }
                return Err(err);
            },
            Ok(object) => {
                objects.push(ReachablePackObject { oid, object });
            },
        }
        i += 1;
    }
    assert(ids@.take(i as int) =~= ids@);
    Ok(objects)
}

/// The ids that promisor packs list, each at its first listing. `packs` pairs
/// every pack of the directory with what its index lists.
pub open spec fn promisor_ids(packs: Seq<(PackFile, Vec<ObjectId>)>) -> Seq<ObjectId>
    decreases packs.len(),
{
    if packs.len() == 0 {
        Seq::empty()
    } else {
        let rest = promisor_ids(packs.drop_last());
        let (file, oids) = packs.last();
        if file.has_promisor && file.has_index {
            append_new(rest, oids@)
        } else {
            rest
        }
    }
}

/// `ids` followed by those of `more` that are new, each once.
pub open spec fn append_new(ids: Seq<ObjectId>, more: Seq<ObjectId>) -> Seq<ObjectId>
    decreases more.len(),
{
    if more.len() == 0 {
        ids
    } else {
        let rest = append_new(ids, more.drop_last());
        if rest.contains(more.last()) {
            rest
        } else {
            rest.push(more.last())
        }
    }
}

pub open spec fn promisor_count(packs: Seq<(PackFile, Vec<ObjectId>)>) -> nat
    decreases packs.len(),
{
    if packs.len() == 0 {
        0
    } else {
        promisor_count(packs.drop_last()) + if packs.last().0.has_promisor {
            1nat
        } else {
            0nat
        }
    }
}

/// The objects that a consolidated promisor pack takes, in the order in which
/// they are to be read; `None` where there is nothing to consolidate. A single
/// promisor pack is left untouched.
pub fn select_promisor_objects(packs: &[(PackFile, Vec<ObjectId>)]) -> (ids: Option<Vec<ObjectId>>)
    ensures
        match ids {
            Some(ids) => ids@ == promisor_ids(packs@) && promisor_count(packs@) > 1 && ids@.len() > 0,
            None => promisor_count(packs@) <= 1 || promisor_ids(packs@).len() == 0,
        },
{
    let mut count: usize = 0;
    let mut set = OidSet::new();
    let mut i: usize = 0;
    assert(packs@.take(0) =~= Seq::empty());
    while i < packs.len()
        invariant
            i <= packs@.len(),
            count <= i,
            count == promisor_count(packs@.take(i as int)),
            set.items() == promisor_ids(packs@.take(i as int)),
        decreases packs@.len() - i,
    {
        assert(packs@.take(i + 1).drop_last() =~= packs@.take(i as int));
        let (file, oids) = &packs[i];
        if file.has_promisor {
            count += 1;
        }
        if file.has_promisor && file.has_index {
            let ghost before = set.items();
            let mut k: usize = 0;
            assert(oids@.take(0) =~= Seq::empty());
            while k < oids.len()
                invariant
                    k <= oids@.len(),
                    set.items() == append_new(before, oids@.take(k as int)),
                decreases oids@.len() - k,
            {
                assert(oids@.take(k + 1).drop_last() =~= oids@.take(k as int));
                assert(set@.contains(oids@[k as int]) == set.items().contains(oids@[k as int]));
                set.insert(oids[k]);
                k += 1;
            }
            assert(oids@.take(k as int) =~= oids@);
        }
        i += 1;
    }
    assert(packs@.take(i as int) =~= packs@);
    if count <= 1 {
        return None;
    }
    let ids = set.to_vec();
    if ids.len() == 0 {
        None
    } else {
        Some(ids)
    }
}

/// The loose ids that an incremental repack packs: those in `wanted` that no
/// pack holds yet.
pub fn select_loose(loose: &[ObjectId], wanted: &OidSet, packed: &OidSet) -> (ids: Vec<ObjectId>)
    ensures
        ids@ == loose@.filter(
            |oid: ObjectId| wanted@.contains(oid) && !packed@.contains(oid),
        ),
{
    let ghost keep = |oid: ObjectId| wanted@.contains(oid) && !packed@.contains(oid);
    let mut ids: Vec<ObjectId> = Vec::new();
    let mut i: usize = 0;
    assert(loose@.take(0).filter(keep) =~= Seq::empty()) by {
        reveal(Seq::filter);
    }
    while i < loose.len()
        invariant
            i <= loose@.len(),
            keep == (|oid: ObjectId| wanted@.contains(oid) && !packed@.contains(oid)),
            ids@ == loose@.take(i as int).filter(keep),
        decreases loose@.len() - i,
    {
        proof {
            reveal(Seq::filter);
            assert(loose@.take(i + 1).drop_last() =~= loose@.take(i as int));
        }
        let oid = loose[i];
        if wanted.contains(&oid) && !packed.contains(&oid) {
            ids.push(oid);
        }
        i += 1;
    }
    assert(loose@.take(i as int) =~= loose@);
    ids
}

/// The roots that an incremental repack starts from: those that a promisor
/// remote holds, and those that are present. Stale roots are ignored.
pub fn select_present_roots(roots: &[ObjectId], present: &OidSet, promisor: &OidSet) -> (kept: Vec<ObjectId>)
    ensures
        kept@ == roots@.filter(|oid: ObjectId| promisor@.contains(oid) || present@.contains(oid)),
{
    let ghost keep = |oid: ObjectId| promisor@.contains(oid) || present@.contains(oid);
    let mut kept: Vec<ObjectId> = Vec::new();
    let mut i: usize = 0;
    assert(roots@.take(0).filter(keep) =~= Seq::empty()) by {
        reveal(Seq::filter);
    }
    while i < roots.len()
        invariant
            i <= roots@.len(),
            keep == (|oid: ObjectId| promisor@.contains(oid) || present@.contains(oid)),
            kept@ == roots@.take(i as int).filter(keep),
        decreases roots@.len() - i,
    {
        proof {
            reveal(Seq::filter);
            assert(roots@.take(i + 1).drop_last() =~= roots@.take(i as int));
        }
        if promisor.contains(&roots[i]) || present.contains(&roots[i]) {
            kept.push(roots[i]);
        }
        i += 1;
    }
    assert(roots@.take(i as int) =~= roots@);
    kept
}

/// Whether options are the default ones.
pub open spec fn is_default(options: RepackOptions) -> bool {
    &&& !options.local
    &&& !options.force_rewrite
    &&& !options.pack_kept_objects
    &&& options.keep_pack_stems@ == Seq::<String>::empty()
}

} // verus!
