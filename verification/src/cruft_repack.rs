//! Repacks that treat what is not reachable apart: what they write, keep and
//! give up.

use crate::cruft::are_sorted_keys;
use crate::cruft::collect_cruft_objects;
use crate::cruft::is_cruft;
use crate::cruft::is_replaced;
use crate::cruft::is_unpacked;
use crate::cruft::keeps_cruft_pack;
use crate::cruft::outlives;
use crate::cruft::read_cruft;
use crate::cruft::rescue_and_expire_cruft_objects;
use crate::cruft::retained_cruft_pack_stems;
use crate::cruft::select_cruft;
use crate::cruft::select_unpacked;
use crate::cruft::superseded_by_cruft_repack;
use crate::cruft::CruftObject;
use crate::cruft::SupersededPacks;
use crate::cruft_split::CruftPack;
use crate::cruft_split::CruftSplit;
use crate::error::GitError;
use crate::filter::lists_text;
use crate::filter::text_set;
use crate::install_plan::CruftRepackResult;
use crate::object::ObjectReader;
use crate::object_id::ObjectFormat;
use crate::object_id::ObjectId;
use crate::oid_map::OidMap;
use crate::oid_map::OidSet;
use crate::order::is_sorted;
use crate::order::oid_less;
use crate::order::sort_oids;
use crate::order::stable_sort;
use crate::order::text_order;
use crate::order::texts;
use crate::pack_file::pack_stem;
use crate::pack_file::PackFile;
use crate::pack_file::PackWrite;
use crate::reachability::collect_reachable_object_ids_excluding_promised_missing;
use crate::reachability::tolerant_walk;
use crate::reachability::MissingPolicy;
use crate::reachable_repack::excluded_oids;
use crate::reachable_repack::pack_oids_for_stems;
use crate::reachable_repack::stem_oids;
use crate::repack::is_default;
use crate::repack::presents;
use crate::repack::promisor_count;
use crate::repack::promisor_ids;
use crate::repack::read_all;
use crate::repack::read_pack_objects;
use crate::repack::repack_result;
use crate::repack::repack_retained_pack_stems;
use crate::repack::retained_stems;
use crate::repack::select_promisor_objects;
use crate::repack::sort_pack_objects;
use crate::repack::superseded;
use crate::repack::superseded_stems;
use crate::repack::LooseObjectPruneOutcome;
use crate::repack::RepackOptions;
use crate::repack::RepackResult;
use crate::transfer::ReachablePackObject;
use vstd::prelude::*;

verus! {

/// What is on disk when a cruft repack begins.
pub struct CruftRepackInputs {
    pub files: Vec<PackFile>,
    /// The ids that the index of each pack lists, as far as it has one.
    pub listings: Vec<Vec<ObjectId>>,
    /// The objects of promisor packs.
    pub promisor: OidSet,
    /// The roots that the object directory itself has.
    pub present_roots: OidSet,
    /// The latest time of each object on disk.
    pub mtimes: OidMap<u32>,
    /// The objects of alternates.
    pub alternates: OidSet,
}

/// What a cruft repack writes and gives up.
pub struct CruftRepackPlan {
    pub retained_pack_stems: Vec<String>,
    pub retained_cruft_pack_stems: Vec<String>,
    /// The objects of the new pack of reachable objects, in index order.
    pub reachable: Vec<ReachablePackObject>,
    /// The objects of the new cruft packs, in index order.
    pub cruft: Vec<CruftObject>,
    /// The objects that have expired, in index order.
    pub expired: Vec<CruftObject>,
    pub superseded: SupersededPacks,
    /// The size that each new cruft pack is to stay below.
    pub max_pack_size: Option<u64>,
}

/// The objects of `ids`, each read in turn; missing ones are passed over, and
/// any other failure ends it.
pub open spec fn read_present<R: ObjectReader>(reader: &R, ids: Seq<ObjectId>) -> Result<
    Seq<ReachablePackObject>,
    GitError,
>
    decreases ids.len(),
{
    if ids.len() == 0 {
        Ok(Seq::empty())
    } else {
        match read_present(reader, ids.drop_last()) {
            Err(err) => Err(err),
            Ok(objects) => match reader.object_at(ids.last()) {
                Err(GitError::NotFound(_)) => Ok(objects),
                Err(err) => Err(err),
                Ok(object) => Ok(objects.push(ReachablePackObject { oid: ids.last(), object })),
            },
        }
    }
}

proof fn lemma_read_present_fails<R: ObjectReader>(reader: &R, ids: Seq<ObjectId>, n: int)
    requires
        0 <= n <= ids.len(),
        read_present(reader, ids.take(n)) is Err,
    ensures
        read_present(reader, ids) == read_present(reader, ids.take(n)),
    decreases ids.len() - n,
{
    if n < ids.len() {
        assert(ids.take(n + 1).drop_last() =~= ids.take(n));
        lemma_read_present_fails(reader, ids, n + 1);
    } else {
        assert(ids.take(n) =~= ids);
    }
}

/// Reads the objects that are there.
pub fn read_present_objects<R: ObjectReader>(reader: &R, ids: &[ObjectId]) -> (objects: Result<
    Vec<ReachablePackObject>,
    GitError,
>)
    ensures
        match objects {
            Ok(objects) => read_present(reader, ids@) == Ok::<Seq<ReachablePackObject>, GitError>(objects@),
            Err(err) => read_present(reader, ids@) == Err::<Seq<ReachablePackObject>, GitError>(err),
        },
{
    let mut objects: Vec<ReachablePackObject> = Vec::new();
    let mut i: usize = 0;
    while i < ids.len()
        invariant
            i <= ids@.len(),
            read_present(reader, ids@.take(i as int)) == Ok::<Seq<ReachablePackObject>, GitError>(objects@),
        decreases ids@.len() - i,
    {
        assert(ids@.take(i + 1).drop_last() =~= ids@.take(i as int));
        let oid = ids[i];
        match reader.read_object(&oid) {
            Ok(object) => {
                objects.push(ReachablePackObject { oid, object });
            },
            Err(GitError::NotFound(_)) => {},
            Err(err) => {
                proof {
                    lemma_read_present_fails(reader, ids@, i + 1);
                }
                return Err(err);
            },
        }
        i += 1;
    }
    assert(ids@.take(i as int) =~= ids@);
    Ok(objects)
}

/// Whether `ids` are the members of a set in index order, each once.
pub open spec fn are_sorted_ids(ids: Seq<ObjectId>, set: Set<ObjectId>) -> bool {
    is_sorted(oid_less(), ids) && ids.no_duplicates() && ids.to_set() == set
}

/// Whether `outcome` is what reading the members of a set in index order comes
/// to.
pub open spec fn reads_set<R: ObjectReader>(
    reader: &R,
    set: Set<ObjectId>,
    outcome: Result<Seq<ReachablePackObject>, GitError>,
) -> bool {
    exists|ids: Seq<ObjectId>| #[trigger] are_sorted_ids(ids, set) && read_present(reader, ids) == outcome
}

/// Whether `outcome` is what reading dated objects in index order comes to.
pub open spec fn reads_dated<R: ObjectReader>(
    reader: &R,
    mtimes: Map<ObjectId, u32>,
    outcome: Result<Seq<CruftObject>, GitError>,
) -> bool {
    exists|ids: Seq<ObjectId>| #[trigger] are_sorted_keys(ids, mtimes) && read_cruft(reader, mtimes, ids) == outcome
}

/// The roots of a repack: a local one does without those that only an alternate
/// has.
pub open spec fn repack_roots(roots: Seq<ObjectId>, local: bool, present: Set<ObjectId>) -> Seq<ObjectId> {
    if local {
        roots.filter(|oid: ObjectId| present.contains(oid))
    } else {
        roots
    }
}

/// The part of a map for which a condition holds.
pub open spec fn restricted(map: Map<ObjectId, u32>, keep: spec_fn(ObjectId) -> bool) -> Map<ObjectId, u32> {
    Map::new(|oid: ObjectId| map.contains_key(oid) && keep(oid), |oid: ObjectId| map[oid])
}

/// The cruft on disk: what is neither reachable nor kept, promised, left in a
/// retained cruft pack nor, in a local repack, in an alternate.
pub open spec fn cruft_on_disk(
    inputs: CruftRepackInputs,
    options: RepackOptions,
    reachable: Set<ObjectId>,
    retained: Set<Seq<char>>,
    retained_cruft: Set<Seq<char>>,
) -> Map<ObjectId, u32> {
    let excluded = excluded_oids(
        inputs.files@,
        inputs.listings@,
        options.pack_kept_objects,
        retained,
    );
    let left = stem_oids(inputs.files@, inputs.listings@, retained_cruft);
    let alternates = if options.local {
        inputs.alternates@
    } else {
        Set::empty()
    };
    restricted(
        inputs.mtimes@,
        |oid: ObjectId| is_cruft(oid, reachable, excluded, inputs.promisor@, left, alternates),
    )
}

/// The stems of the cruft packs that are left as they are.
pub open spec fn left_cruft_stems(
    files: Seq<PackFile>,
    combine_below: Option<u64>,
    expiring: bool,
) -> Seq<Seq<char>> {
    stable_sort(
        text_order(),
        files.filter(|file: PackFile| keeps_cruft_pack(file, combine_below, expiring)).map_values(
            |file: PackFile| file.stem@,
        ),
    )
}

/// What of the cruft on disk is kept: all of it without an expiration, else
/// what outlives the cutoff.
pub open spec fn kept_cruft<R: ObjectReader>(
    reader: &R,
    cruft: Map<ObjectId, u32>,
    expiration: Option<u32>,
    recent: Set<ObjectId>,
) -> Map<ObjectId, u32> {
    match expiration {
        None => cruft,
        Some(cutoff) => restricted(cruft, |oid: ObjectId| outlives(reader, cruft, cutoff, recent, oid)),
    }
}

/// What of the cruft on disk is given up.
pub open spec fn given_up<R: ObjectReader>(
    reader: &R,
    cruft: Map<ObjectId, u32>,
    expiration: Option<u32>,
    recent: Set<ObjectId>,
) -> Map<ObjectId, u32> {
    match expiration {
        None => Map::empty(),
        Some(cutoff) => restricted(cruft, |oid: ObjectId| !outlives(reader, cruft, cutoff, recent, oid)),
    }
}

/// Removes from dated objects those that another map has.
fn dated_without(all: &OidMap<u32>, kept: &OidMap<u32>) -> (out: OidMap<u32>)
    ensures
        out@ == restricted(all@, |oid: ObjectId| !kept@.contains_key(oid)),
{
    let count: usize = all.len();
    let ghost keys = all.keys();
    let mut out: OidMap<u32> = OidMap::new();
    let mut i: usize = 0;
    while i < count
        invariant
            i <= count == keys.len(),
            keys == all.keys(),
            forall|oid: ObjectId| #[trigger]
                out@.contains_key(oid) <==> keys.take(i as int).contains(oid) && !kept@.contains_key(oid),
            forall|oid: ObjectId| #[trigger] out@.contains_key(oid) ==> out@[oid] == all@[oid],
        decreases count - i,
    {
        let oid = all.key_at(i);
        let ghost held = out@;
        if !kept.contains_key(&oid) {
            out.insert(oid, *all.value_at(i));
        }
        proof {
            assert(keys.take(i + 1) =~= keys.take(i as int).push(oid));
            keys.take(i as int).lemma_push_to_set_commute(oid);
            assert forall|o: ObjectId| #[trigger] out@.contains_key(o) <==> keys.take(i + 1).contains(o)
                && !kept@.contains_key(o) by {
                assert(keys.take(i + 1).to_set().contains(o) == keys.take(i + 1).contains(o));
                assert(keys.take(i as int).to_set().contains(o) == keys.take(i as int).contains(o));
                assert(out@.contains_key(o) <==> held.contains_key(o) || (o == oid && !kept@.contains_key(oid)));
            }
        }
        i += 1;
    }
    assert(keys.take(i as int) =~= keys);
    assert(out@ =~= restricted(all@, |oid: ObjectId| !kept@.contains_key(oid)));
    out
}

/// Pack-writing policy for the unreachable side of a cruft repack.
#[derive(Debug, Clone, Copy, PartialEq, Eq, Structural)]
pub struct CruftPackOptions {
    /// Target size for each cruft pack. A single oversized object is allowed.
    pub max_pack_size: Option<u64>,
    /// Repack existing cruft packs strictly smaller than this size, and leave
    /// larger ones as they are. Ignored for expiring repacks.
    pub combine_cruft_below_size: Option<u64>,
}

impl Default for CruftPackOptions {
    fn default() -> (options: CruftPackOptions)
        ensures
            options == (CruftPackOptions { max_pack_size: None, combine_cruft_below_size: None }),
    {
        CruftPackOptions { max_pack_size: None, combine_cruft_below_size: None }
    }
}

/// Whether the objects of a set can be read.
pub open spec fn set_is_read<R: ObjectReader>(reader: &R, set: Set<ObjectId>) -> bool {
    exists|objects: Seq<ReachablePackObject>| #[trigger]
        reads_set(reader, set, Ok::<Seq<ReachablePackObject>, GitError>(objects))
}

/// Whether dated objects can be read.
pub open spec fn dated_is_read<R: ObjectReader>(reader: &R, dated: Map<ObjectId, u32>) -> bool {
    exists|objects: Seq<CruftObject>| #[trigger]
        reads_dated(reader, dated, Ok::<Seq<CruftObject>, GitError>(objects))
}

/// Whether `plan` is the outcome of planning a cruft repack. Of several failures
/// to read an object that of the reachable ones comes first, then that of the
/// expired ones.
pub open spec fn is_cruft_plan<R: ObjectReader>(
    reader: &R,
    inputs: CruftRepackInputs,
    roots: Seq<ObjectId>,
    recent_roots: Seq<ObjectId>,
    cruft_expiration: Option<u32>,
    options: RepackOptions,
    combine_cruft_below_size: Option<u64>,
    plan: Result<CruftRepackPlan, GitError>,
) -> bool {
    let retained = retained_stems(
        inputs.files@,
        options.keep_pack_stems@,
        !options.pack_kept_objects,
    );
    let left = left_cruft_stems(inputs.files@, combine_cruft_below_size, cruft_expiration is Some);
    let starts = repack_roots(roots, options.local, inputs.present_roots@);
    match tolerant_walk(reader, MissingPolicy::Promised, starts, inputs.promisor@) {
        Err(failure) => plan matches Err(err) && err == failure,
        Ok(seen) => {
            let reachable = seen.to_set().difference(excluded_oids(
        inputs.files@,
        inputs.listings@,
        options.pack_kept_objects,
        retained,
    ));
            let cruft = cruft_on_disk(inputs, options, reachable, retained, left.to_set());
            let recent = recent_roots.to_set();
            let kept = kept_cruft(reader, cruft, cruft_expiration, recent);
            let dropped = given_up(reader, cruft, cruft_expiration, recent);
            match plan {
                Ok(plan) => {
                    &&& text_set(plan.retained_pack_stems@) == retained
                    &&& texts(plan.retained_cruft_pack_stems@) == left
                    &&& reads_set(
                        reader,
                        reachable,
                        Ok::<Seq<ReachablePackObject>, GitError>(plan.reachable@),
                    )
                    &&& reads_dated(reader, kept, Ok::<Seq<CruftObject>, GitError>(plan.cruft@))
                    &&& reads_dated(reader, dropped, Ok::<Seq<CruftObject>, GitError>(plan.expired@))
                    &&& texts(plan.superseded.packs@) == inputs.files@.filter(
                        |file: PackFile| is_replaced(file, retained, left.to_set()) && !file.has_mtimes,
                    ).map_values(|file: PackFile| file.stem@)
                    &&& texts(plan.superseded.cruft_packs@) == inputs.files@.filter(
                        |file: PackFile| is_replaced(file, retained, left.to_set()) && file.has_mtimes,
                    ).map_values(|file: PackFile| file.stem@)
                },
                Err(err) => {
                    ||| reads_set(reader, reachable, Err::<Seq<ReachablePackObject>, GitError>(err))
                    ||| set_is_read(reader, reachable) && reads_dated(
                        reader,
                        dropped,
                        Err::<Seq<CruftObject>, GitError>(err),
                    )
                    ||| set_is_read(reader, reachable) && dated_is_read(reader, dropped) && reads_dated(
                        reader,
                        kept,
                        Err::<Seq<CruftObject>, GitError>(err),
                    )
                },
            }
        },
    }
}

/// Plans a cruft repack: which objects its pack of reachable objects takes,
/// which objects its cruft packs take, which have expired, and which packs all
/// of these supersede.
pub fn repack_cruft_with_pack_options_and_recent_roots<R: ObjectReader>(
    reader: &R,
    inputs: &CruftRepackInputs,
    roots: &[ObjectId],
    recent_roots: &[ObjectId],
    cruft_expiration: Option<u32>,
    options: &RepackOptions,
    cruft_options: &CruftPackOptions,
) -> (plan: Result<CruftRepackPlan, GitError>)
    requires
        inputs.listings@.len() == inputs.files@.len(),
    ensures
        is_cruft_plan(
            reader,
            *inputs,
            roots@,
            recent_roots@,
            cruft_expiration,
            *options,
            cruft_options.combine_cruft_below_size,
            plan,
        ),
        plan matches Ok(plan) ==> plan.max_pack_size == cruft_options.max_pack_size,
{
    let retained_pack_stems = repack_retained_pack_stems(
        &inputs.files,
        &options.keep_pack_stems,
        !options.pack_kept_objects,
    );
    let retained_cruft_pack_stems = retained_cruft_pack_stems(
        &inputs.files,
        cruft_options.combine_cruft_below_size,
        cruft_expiration.is_some(),
    );
    let ghost retained = text_set(retained_pack_stems@);
    let ghost left = texts(retained_cruft_pack_stems@);
    assert(text_set(retained_cruft_pack_stems@) =~= left.to_set());
    let left_oids = pack_oids_for_stems(&inputs.files, &inputs.listings, &retained_cruft_pack_stems);
    let excluded = if options.pack_kept_objects {
        OidSet::new()
    } else {
        pack_oids_for_stems(&inputs.files, &inputs.listings, &retained_pack_stems)
    };
    assert(excluded@ =~= excluded_oids(
        inputs.files@,
        inputs.listings@,
        options.pack_kept_objects,
        retained,
    ));
    let starts = if options.local {
        crate::pack_file::retain_in(roots, &inputs.present_roots)
    } else {
        crate::reachability::copy_oids(roots)
    };
    let seen = match collect_reachable_object_ids_excluding_promised_missing(reader, &starts, &inputs.promisor) {
        Err(err) => {
            return Err(err);
        },
        Ok(seen) => seen,
    };
    let all = seen.to_vec();
    let listed = crate::pack_file::retain_outside(&all, &excluded);
    let reachable = OidSet::from_slice(&listed);
    let ghost reachable_set = seen.items().to_set().difference(excluded@);
    proof {
        assert(reachable@ =~= reachable_set) by {
            let keep = |oid: ObjectId| !excluded@.contains(oid);
            assert forall|oid: ObjectId| reachable@.contains(oid) == reachable_set.contains(oid) by {
                crate::order::lemma_filter_contains(all@, keep, oid);
                assert(all@.to_set().contains(oid) == all@.contains(oid));
                assert(listed@.to_set().contains(oid) == listed@.contains(oid));
            }
        }
    }
    let unsorted = reachable.to_vec();
    let ids = sort_oids(&unsorted);
    proof {
        unsorted@.lemma_multiset_has_no_duplicates();
        ids@.lemma_multiset_has_no_duplicates_conv();
        assert(are_sorted_ids(ids@, reachable_set));
    }
    let objects = match read_present_objects(reader, &ids) {
        Err(err) => {
            return Err(err);
        },
        Ok(objects) => objects,
    };
    assert(reads_set(reader, reachable_set, Ok::<Seq<ReachablePackObject>, GitError>(objects@)));
    let none = OidSet::new();
    assert(none@ =~= Set::empty());
    let alternates = if options.local {
        &inputs.alternates
    } else {
        &none
    };
    let survivors = select_cruft(
        &inputs.mtimes,
        &reachable,
        &excluded,
        &inputs.promisor,
        &left_oids,
        alternates,
    );
    let ghost cruft = cruft_on_disk(*inputs, *options, reachable_set, retained, left.to_set());
    assert(survivors@ =~= cruft);
    let ghost recent = recent_roots@.to_set();
    let (kept, dropped) = match cruft_expiration {
        Some(cutoff) => {
            let kept = rescue_and_expire_cruft_objects(reader, &survivors, cutoff, recent_roots);
            let dropped = dated_without(&survivors, &kept);
            proof {
                assert(kept@ =~= kept_cruft(reader, cruft, cruft_expiration, recent));
                assert(dropped@ =~= given_up(reader, cruft, cruft_expiration, recent));
            }
            (kept, dropped)
        },
        None => {
            let dropped: OidMap<u32> = OidMap::new();
            assert(dropped@ =~= given_up(reader, cruft, cruft_expiration, recent));
            (survivors, dropped)
        },
    };
    let expired = match collect_cruft_objects(reader, &dropped) {
        Err(err) => {
            return Err(err);
        },
        Ok(expired) => expired,
    };
    assert(reads_dated(reader, dropped@, Ok::<Seq<CruftObject>, GitError>(expired@)));
    let cruft_objects = match collect_cruft_objects(reader, &kept) {
        Err(err) => {
            return Err(err);
        },
        Ok(objects) => objects,
    };
    let superseded = superseded_by_cruft_repack(
        &inputs.files,
        &retained_pack_stems,
        &retained_cruft_pack_stems,
    );
    Ok(
        CruftRepackPlan {
            retained_pack_stems,
            retained_cruft_pack_stems,
            reachable: objects,
            cruft: cruft_objects,
            expired,
            superseded,
            max_pack_size: cruft_options.max_pack_size,
        },
    )
}

/// Starts the packing of objects with their times into cruft packs: reads those
/// that are there, in index order, and hands them to the splitter.
pub fn build_cruft_packs_from_mtimes<R: ObjectReader>(
    reader: &R,
    format: ObjectFormat,
    object_mtimes: &OidMap<u32>,
    options: &CruftPackOptions,
) -> (split: Result<CruftSplit, GitError>)
    ensures
        exists|ids: Seq<ObjectId>| #[trigger]
            are_sorted_keys(ids, object_mtimes@) && match read_cruft(reader, object_mtimes@, ids) {
                Err(failure) => split matches Err(err) && err == failure,
                Ok(objects) => split matches Ok(split) && is_split_start(split, objects, format, options.max_pack_size),
            },
{
    match collect_cruft_objects(reader, object_mtimes) {
        Err(err) => Err(err),
        Ok(objects) => Ok(CruftSplit::new(objects, format, options.max_pack_size)),
    }
}

/// Whether a splitter stands before the objects, with nothing split yet.
pub open spec fn is_split_start(
    split: CruftSplit,
    objects: Seq<CruftObject>,
    format: ObjectFormat,
    limit: Option<u64>,
) -> bool {
    &&& split.pending_groups() == if objects.len() == 0 {
        Seq::<Seq<CruftObject>>::empty()
    } else {
        seq![objects]
    }
    &&& split.accepted() == Seq::<CruftPack>::empty()
    &&& split.spec_limit() == limit
    &&& split.spec_format() == format
    &&& split.is_whole()
}

/// Plans a cruft repack with an explicit cruft-pack policy and no recent roots.
pub fn repack_cruft_with_pack_options<R: ObjectReader>(
    reader: &R,
    inputs: &CruftRepackInputs,
    roots: &[ObjectId],
    cruft_expiration: Option<u32>,
    options: &RepackOptions,
    cruft_options: &CruftPackOptions,
) -> (plan: Result<CruftRepackPlan, GitError>)
    requires
        inputs.listings@.len() == inputs.files@.len(),
    ensures
        is_cruft_plan(
            reader,
            *inputs,
            roots@,
            Seq::empty(),
            cruft_expiration,
            *options,
            cruft_options.combine_cruft_below_size,
            plan,
        ),
        plan matches Ok(plan) ==> plan.max_pack_size == cruft_options.max_pack_size,
{
    let recent: Vec<ObjectId> = Vec::new();
    repack_cruft_with_pack_options_and_recent_roots(
        reader,
        inputs,
        roots,
        &recent,
        cruft_expiration,
        options,
        cruft_options,
    )
}

/// Plans a cruft repack that leaves no existing cruft pack as it is for its
/// size.
pub fn repack_cruft_with_options<R: ObjectReader>(
    reader: &R,
    inputs: &CruftRepackInputs,
    roots: &[ObjectId],
    cruft_expiration: Option<u32>,
    options: &RepackOptions,
) -> (plan: Result<CruftRepackPlan, GitError>)
    requires
        inputs.listings@.len() == inputs.files@.len(),
    ensures
        is_cruft_plan(
            reader,
            *inputs,
            roots@,
            Seq::empty(),
            cruft_expiration,
            *options,
            None,
            plan,
        ),
        plan matches Ok(plan) ==> plan.max_pack_size is None,
{
    repack_cruft_with_options_and_max_size(reader, inputs, roots, cruft_expiration, options, None)
}

/// Plans a cruft repack that leaves no existing cruft pack as it is for its
/// size, and whose new cruft packs are to stay below a size.
pub fn repack_cruft_with_options_and_max_size<R: ObjectReader>(
    reader: &R,
    inputs: &CruftRepackInputs,
    roots: &[ObjectId],
    cruft_expiration: Option<u32>,
    options: &RepackOptions,
    max_pack_size: Option<u64>,
) -> (plan: Result<CruftRepackPlan, GitError>)
    requires
        inputs.listings@.len() == inputs.files@.len(),
    ensures
        is_cruft_plan(
            reader,
            *inputs,
            roots@,
            Seq::empty(),
            cruft_expiration,
            *options,
            None,
            plan,
        ),
        plan matches Ok(plan) ==> plan.max_pack_size == max_pack_size,
{
    let cruft_options = CruftPackOptions { max_pack_size, combine_cruft_below_size: None };
    repack_cruft_with_pack_options(reader, inputs, roots, cruft_expiration, options, &cruft_options)
}

/// Plans a cruft repack with the default options.
pub fn repack_cruft<R: ObjectReader>(
    reader: &R,
    inputs: &CruftRepackInputs,
    roots: &[ObjectId],
    cruft_expiration: Option<u32>,
) -> (plan: Result<CruftRepackPlan, GitError>)
    requires
        inputs.listings@.len() == inputs.files@.len(),
    ensures
        exists|options: RepackOptions| #[trigger]
            is_default(options) && is_cruft_plan(
                reader,
                *inputs,
                roots@,
                Seq::empty(),
                cruft_expiration,
                options,
                None,
                plan,
            ),
        plan matches Ok(plan) ==> plan.max_pack_size is None,
{
    let options = RepackOptions::default();
    assert(is_default(options));
    repack_cruft_with_options(reader, inputs, roots, cruft_expiration, &options)
}

/// Cruft is kept or given up, never both, and what is given up is old and led to
/// by nothing recent.
pub proof fn law_cruft_is_kept_or_given_up<R: ObjectReader>(
    reader: &R,
    cruft: Map<ObjectId, u32>,
    expiration: Option<u32>,
    recent: Set<ObjectId>,
    oid: ObjectId,
)
    requires
        cruft.contains_key(oid),
    ensures
        kept_cruft(reader, cruft, expiration, recent).contains_key(oid) != given_up(
            reader,
            cruft,
            expiration,
            recent,
        ).contains_key(oid),
        expiration is None ==> kept_cruft(reader, cruft, expiration, recent).contains_key(oid),
        given_up(reader, cruft, expiration, recent).contains_key(oid) ==> expiration is Some && cruft[oid]
            <= expiration->Some_0 && !recent.contains(oid),
{
    if let Some(cutoff) = expiration {
        if recent.contains(oid) {
            let starts = crate::cruft::rescue_starts(cruft, cutoff, recent);
            assert(starts.contains(oid));
            assert forall|set: Set<ObjectId>| crate::walk::is_closed(
                crate::cruft::rescue_schedule(reader),
                Set::empty(),
                starts,
                set,
            ) implies set.contains(oid) by {}
            assert(outlives(reader, cruft, cutoff, recent, oid));
        }
    }
}

/// A cruft repack without an expiration loses nothing: every object on disk is
/// reachable and packed, or goes into a cruft pack, or stays in a pack that is
/// kept, a promisor pack or a cruft pack that is left as it is, or, in a local
/// repack, in an alternate.
pub proof fn law_cruft_repack_loses_nothing<R: ObjectReader>(
    reader: &R,
    inputs: CruftRepackInputs,
    options: RepackOptions,
    reachable: Set<ObjectId>,
    retained: Set<Seq<char>>,
    retained_cruft: Set<Seq<char>>,
    recent: Set<ObjectId>,
    oid: ObjectId,
)
    requires
        inputs.mtimes@.contains_key(oid),
    ensures
        ({
            let cruft = cruft_on_disk(inputs, options, reachable, retained, retained_cruft);
            ||| reachable.contains(oid)
            ||| kept_cruft(reader, cruft, None, recent).contains_key(oid)
            ||| excluded_oids(inputs.files@, inputs.listings@, options.pack_kept_objects, retained).contains(oid)
            ||| inputs.promisor@.contains(oid)
            ||| stem_oids(inputs.files@, inputs.listings@, retained_cruft).contains(oid)
            ||| options.local && inputs.alternates@.contains(oid)
        }),
{
}

/// What a repack that unpacks unreachable objects writes and gives up.
pub struct UnpackUnreachableRepackResult {
    /// The repack of what is reachable, once there is one.
    pub repack: Option<RepackResult>,
    pub retained_pack_stems: Vec<String>,
    /// The packs that it replaces.
    pub obsolete_packs: Vec<String>,
    /// The objects that become loose, in index order, with the times they keep.
    pub unpacked: Vec<CruftObject>,
}

impl UnpackUnreachableRepackResult {
    /// The same with the repack of what is reachable.
    pub fn with_repack(self, repack: Option<RepackResult>) -> (result: UnpackUnreachableRepackResult)
        ensures
            result == (UnpackUnreachableRepackResult { repack, ..self }),
    {
        UnpackUnreachableRepackResult { repack, ..self }
    }

    /// The ids of the objects that become loose.
    pub fn unpacked_oids(&self) -> (oids: Vec<ObjectId>)
        ensures
            oids@ == self.unpacked@.map_values(|entry: CruftObject| entry.oid),
    {
        let mut oids: Vec<ObjectId> = Vec::new();
        let mut i: usize = 0;
        let ghost all = self.unpacked@.map_values(|entry: CruftObject| entry.oid);
        while i < self.unpacked.len()
            invariant
                i <= self.unpacked@.len(),
                all == self.unpacked@.map_values(|entry: CruftObject| entry.oid),
                oids@ == all.take(i as int),
            decreases self.unpacked@.len() - i,
        {
            oids.push(self.unpacked[i].oid);
            assert(all.take(i + 1) =~= all.take(i as int).push(all[i as int]));
            i += 1;
        }
        assert(all.take(i as int) =~= all);
        oids
    }
}

/// Whether a repack that unpacks unreachable objects replaces a pack.
pub open spec fn is_unpacked_pack(file: PackFile, retained: Set<Seq<char>>) -> bool {
    !retained.contains(file.stem@) && !file.has_keep && !file.has_promisor
}

/// The packs that a repack that unpacks unreachable objects replaces.
pub fn unpacked_packs(files: &[PackFile], retained: &[String]) -> (stems: Vec<String>)
    ensures
        texts(stems@) == files@.filter(|file: PackFile| is_unpacked_pack(file, text_set(retained@))).map_values(
            |file: PackFile| file.stem@,
        ),
{
    let ghost keep = |file: PackFile| is_unpacked_pack(file, text_set(retained@));
    let ghost stem_of = |file: PackFile| file.stem@;
    let mut stems: Vec<String> = Vec::new();
    let mut i: usize = 0;
    proof {
        reveal(Seq::filter);
        assert(files@.take(0).filter(keep).map_values(stem_of) =~= texts(stems@));
    }
    while i < files.len()
        invariant
            i <= files@.len(),
            keep == (|file: PackFile| is_unpacked_pack(file, text_set(retained@))),
            stem_of == (|file: PackFile| file.stem@),
            texts(stems@) == files@.take(i as int).filter(keep).map_values(stem_of),
        decreases files@.len() - i,
    {
        let ghost done = files@.take(i as int).filter(keep);
        let ghost before = texts(stems@);
        proof {
            reveal(Seq::filter);
            assert(files@.take(i + 1).drop_last() =~= files@.take(i as int));
        }
        let file = &files[i];
        if !lists_text(retained, file.stem.as_str()) && !file.has_keep && !file.has_promisor {
            stems.push(file.stem.clone());
            proof {
                assert(texts(stems@) =~= before.push(file.stem@));
                assert(done.push(files@[i as int]).map_values(stem_of) =~= done.map_values(stem_of).push(
                    file.stem@,
                ));
            }
        }
        i += 1;
    }
    assert(files@.take(i as int) =~= files@);
    stems
}

/// What recent roots lead to; nothing without any.
pub open spec fn recent_walk<R: ObjectReader>(reader: &R, recent_roots: Seq<ObjectId>) -> Result<
    Seq<ObjectId>,
    GitError,
> {
    if recent_roots.len() == 0 {
        Ok(Seq::empty())
    } else {
        tolerant_walk(reader, MissingPolicy::Promised, recent_roots, Set::empty())
    }
}

/// Plans a repack that unpacks unreachable objects: those of the packs that it
/// replaces that nothing reaches and no loose copy saves, except, with a
/// cutoff, those that are neither newer than it nor recent. `mtimes` gives the
/// latest time of each object of the packs that are replaced.
pub fn repack_reachable_objects_unpack_unreachable<R: ObjectReader>(
    reader: &R,
    files: &[PackFile],
    promisor: &OidSet,
    loose: &OidSet,
    mtimes: &OidMap<u32>,
    roots: &[ObjectId],
    options: &RepackOptions,
    unpack_before: Option<u32>,
    recent_roots: &[ObjectId],
) -> (plan: Result<UnpackUnreachableRepackResult, GitError>)
    ensures
        match tolerant_walk(reader, MissingPolicy::Promised, roots@, promisor@) {
            Err(failure) => plan matches Err(err) && err == failure,
            Ok(reachable) => match recent_walk(reader, recent_roots@) {
                Err(failure) => plan matches Err(err) && err == failure,
                Ok(recent) => {
                    let retained = retained_stems(
                        files@,
                        options.keep_pack_stems@,
                        !options.pack_kept_objects,
                    );
                    let unpacked = restricted(
                        mtimes@,
                        |oid: ObjectId|
                            is_unpacked(
                                mtimes@,
                                oid,
                                reachable.to_set(),
                                loose@,
                                recent.to_set(),
                                unpack_before,
                            ),
                    );
                    match plan {
                        Ok(plan) => {
                            &&& plan.repack is None
                            &&& text_set(plan.retained_pack_stems@) == retained
                            &&& texts(plan.obsolete_packs@) == files@.filter(
                                |file: PackFile| is_unpacked_pack(file, retained),
                            ).map_values(|file: PackFile| file.stem@)
                            &&& reads_dated(
                                reader,
                                unpacked,
                                Ok::<Seq<CruftObject>, GitError>(plan.unpacked@),
                            )
                        },
                        Err(err) => reads_dated(reader, unpacked, Err::<Seq<CruftObject>, GitError>(err)),
                    }
                },
            },
        },
{
    let retained_pack_stems = repack_retained_pack_stems(
        files,
        &options.keep_pack_stems,
        !options.pack_kept_objects,
    );
    let obsolete_packs = unpacked_packs(files, &retained_pack_stems);
    let reachable = match collect_reachable_object_ids_excluding_promised_missing(reader, roots, promisor) {
        Err(err) => {
            return Err(err);
        },
        Ok(ids) => ids,
    };
    let none = OidSet::new();
    assert(none@ =~= Set::empty());
    let recent = if recent_roots.len() == 0 {
        OidSet::new()
    } else {
        match collect_reachable_object_ids_excluding_promised_missing(reader, recent_roots, &none) {
            Err(err) => {
                return Err(err);
            },
            Ok(ids) => ids,
        }
    };
    proof {
        assert(recent@ =~= recent_walk(reader, recent_roots@)->Ok_0.to_set());
    }
    let unpacked = select_unpacked(mtimes, &reachable, loose, &recent, unpack_before);
    let ghost chosen = restricted(
        mtimes@,
        |oid: ObjectId| is_unpacked(mtimes@, oid, reachable@, loose@, recent@, unpack_before),
    );
    assert(unpacked@ =~= chosen);
    assert(reachable@ =~= reachable.items().to_set());
    match collect_cruft_objects(reader, &unpacked) {
        Err(err) => Err(err),
        Ok(objects) => Ok(
            UnpackUnreachableRepackResult {
                repack: None,
                retained_pack_stems,
                obsolete_packs,
                unpacked: objects,
            },
        ),
    }
}

/// A repack that unpacks unreachable objects loses only what is old: every object
/// of the packs that it replaces is reachable, loose already or unpacked, or
/// there is a cutoff and it is neither newer than that nor recent.
pub proof fn law_unpacking_loses_only_old_objects(
    mtimes: Map<ObjectId, u32>,
    oid: ObjectId,
    reachable: Set<ObjectId>,
    loose: Set<ObjectId>,
    recent: Set<ObjectId>,
    unpack_before: Option<u32>,
)
    requires
        mtimes.contains_key(oid),
    ensures
        ({
            ||| reachable.contains(oid)
            ||| loose.contains(oid)
            ||| is_unpacked(mtimes, oid, reachable, loose, recent, unpack_before)
            ||| unpack_before is Some && mtimes[oid] <= unpack_before->Some_0 && !recent.contains(oid)
        }),
{
}

/// What installing a repack that unpacks unreachable objects does, in order.
#[derive(Debug, PartialEq, Eq)]
pub enum UnpackInstallStep {
    /// Write the object at a position loose, and give it its time.
    WriteLoose(usize),
    /// Install the new pack, and prune what it supersedes if that is asked for.
    InstallPack,
    /// Remove the packs that were replaced by nothing.
    PruneObsolete,
    Finished,
}

/// What comes after some steps: every object is loose before any pack goes.
pub fn install_repack_with_unpacked_unreachable(
    result: &UnpackUnreachableRepackResult,
    prune: bool,
    done: usize,
) -> (step: UnpackInstallStep)
    ensures
        step == if done < result.unpacked@.len() {
            UnpackInstallStep::WriteLoose(done)
        } else if done == result.unpacked@.len() && result.repack is Some {
            UnpackInstallStep::InstallPack
        } else if done == result.unpacked@.len() && prune {
            UnpackInstallStep::PruneObsolete
        } else {
            UnpackInstallStep::Finished
        },
{
    let unpacked: usize = result.unpacked.len();
    if done < unpacked {
        UnpackInstallStep::WriteLoose(done)
    } else if done == unpacked && result.repack.is_some() {
        UnpackInstallStep::InstallPack
    } else if done == unpacked && prune {
        UnpackInstallStep::PruneObsolete
    } else {
        UnpackInstallStep::Finished
    }
}

/// Checks that an object that was made loose kept its id.
pub fn check_unpacked_identity(expected: &ObjectId, written: &ObjectId) -> (checked: Result<(), GitError>)
    ensures
        checked is Ok <==> *expected == *written,
        checked matches Err(err) ==> (err matches GitError::InvalidObject(text) && text@
            == "unpacked unreachable object changed identity"@),
{
    if written.same(expected) {
        Ok(())
    } else {
        Err(GitError::InvalidObject(String::from_str("unpacked unreachable object changed identity")))
    }
}

/// The objects of a pack that takes all of some ids, in index order; none where
/// there are no ids.
pub fn repack_all_objects<R: ObjectReader>(reader: &R, ids: &OidSet) -> (objects: Result<
    Option<Vec<ReachablePackObject>>,
    GitError,
>)
    ensures
        exists|sorted: Seq<ObjectId>| #[trigger]
            are_sorted_ids(sorted, ids@) && match read_all(reader, sorted) {
                Err(failure) => objects == Err::<Option<Vec<ReachablePackObject>>, GitError>(failure),
                Ok(all) => if sorted.len() == 0 {
                    objects matches Ok(None)
                } else {
                    objects matches Ok(Some(objects)) && objects@ == all
                },
            },
{
    let unsorted = ids.to_vec();
    let sorted = sort_oids(&unsorted);
    proof {
        unsorted@.lemma_multiset_has_no_duplicates();
        sorted@.lemma_multiset_has_no_duplicates_conv();
        assert(are_sorted_ids(sorted@, ids@));
    }
    if sorted.len() == 0 {
        return Ok(None);
    }
    match read_pack_objects(reader, &sorted) {
        Err(err) => Err(err),
        Ok(objects) => Ok(Some(objects)),
    }
}

/// The objects of a consolidated promisor pack, in index order; none where
/// there is nothing to consolidate.
pub fn repack_promisor_objects<R: ObjectReader>(reader: &R, packs: &[(PackFile, Vec<ObjectId>)]) -> (objects: Result<
    Option<Vec<ReachablePackObject>>,
    GitError,
>)
    ensures
        if promisor_count(packs@) <= 1 || promisor_ids(packs@).len() == 0 {
            objects matches Ok(None)
        } else {
            match read_all(reader, promisor_ids(packs@)) {
                Err(failure) => objects == Err::<Option<Vec<ReachablePackObject>>, GitError>(failure),
                Ok(all) => objects matches Ok(Some(objects)) && objects@ == stable_sort(
                    crate::repack::object_order(),
                    all,
                ),
            }
        },
{
    match select_promisor_objects(packs) {
        None => Ok(None),
        Some(ids) => match read_pack_objects(reader, &ids) {
            Err(err) => Err(err),
            Ok(objects) => Ok(Some(sort_pack_objects(&objects))),
        },
    }
}

/// The stems of the promisor packs, in their order.
pub open spec fn promisor_stems(packs: Seq<(PackFile, Vec<ObjectId>)>) -> Seq<Seq<char>>
    decreases packs.len(),
{
    if packs.len() == 0 {
        Seq::empty()
    } else {
        let rest = promisor_stems(packs.drop_last());
        if packs.last().0.has_promisor {
            rest.push(packs.last().0.stem@)
        } else {
            rest
        }
    }
}

/// The result of a repack that consolidated promisor packs: the new pack is a
/// promisor pack, and supersedes all others.
pub fn finish_promisor_repack(
    written: PackWrite,
    objects: &[ReachablePackObject],
    packs: &[(PackFile, Vec<ObjectId>)],
    loose: &[ObjectId],
) -> (result: RepackResult)
    ensures
        presents(
            result,
            written.pack@,
            written.index@,
            written.checksum,
            written.entries@,
            objects@,
            loose@,
        ),
        texts(result.obsolete_packs@) == promisor_stems(packs@),
        result.retained_pack_stems@.len() == 0,
        result.promisor,
        result.loose_prune_outcome == LooseObjectPruneOutcome::FollowUpRequired,
{
    let mut obsolete: Vec<String> = Vec::new();
    let mut i: usize = 0;
    assert(texts(obsolete@) =~= promisor_stems(packs@.take(0)));
    while i < packs.len()
        invariant
            i <= packs@.len(),
            texts(obsolete@) == promisor_stems(packs@.take(i as int)),
        decreases packs@.len() - i,
    {
        assert(packs@.take(i + 1).drop_last() =~= packs@.take(i as int));
        let (file, _) = &packs[i];
        if file.has_promisor {
            let ghost before = texts(obsolete@);
            obsolete.push(file.stem.clone());
            assert(texts(obsolete@) =~= before.push(file.stem@));
        }
        i += 1;
    }
    assert(packs@.take(i as int) =~= packs@);
    repack_result(
        written,
        objects,
        obsolete,
        loose,
        Vec::new(),
        true,
        LooseObjectPruneOutcome::FollowUpRequired,
    )
}

/// The result of a repack of all objects: every other pack is superseded.
pub fn finish_all_repack(
    written: PackWrite,
    objects: &[ReachablePackObject],
    files: &[PackFile],
    loose: &[ObjectId],
) -> (result: RepackResult)
    ensures
        presents(
            result,
            written.pack@,
            written.index@,
            written.checksum,
            written.entries@,
            objects@,
            loose@,
        ),
        texts(result.obsolete_packs@) == superseded(files@, pack_stem(written.checksum)),
        result.retained_pack_stems@.len() == 0,
        !result.promisor,
        result.loose_prune_outcome == LooseObjectPruneOutcome::FollowUpRequired,
{
    let obsolete = superseded_stems(files, &written.checksum);
    repack_result(
        written,
        objects,
        obsolete,
        loose,
        Vec::new(),
        false,
        LooseObjectPruneOutcome::FollowUpRequired,
    )
}

/// The result of a cruft repack, given what was written for the parts of its
/// plan: the pack of reachable objects, where there are any, the cruft packs and
/// the pack of what has expired.
pub fn finish_cruft_repack(
    plan: CruftRepackPlan,
    written: Option<PackWrite>,
    cruft: Vec<CruftPack>,
    expired: Option<CruftPack>,
    loose: &[ObjectId],
) -> (result: CruftRepackResult)
    ensures
        match (result.reachable, written) {
            (None, None) => true,
            (Some(reachable), Some(written)) => {
                &&& presents(
                    reachable,
                    written.pack@,
                    written.index@,
                    written.checksum,
                    written.entries@,
                    plan.reachable@,
                    loose@,
                )
                &&& reachable.obsolete_packs@.len() == 0
                &&& reachable.retained_pack_stems@.len() == 0
                &&& !reachable.promisor
                &&& reachable.loose_prune_outcome == LooseObjectPruneOutcome::FollowUpRequired
            },
            _ => false,
        },
        result.cruft_packs() == cruft@,
        result.cruft is None ==> cruft@.len() == 0,
        result.expired == expired,
        result.obsolete_packs == plan.superseded.packs,
        result.obsolete_cruft_packs == plan.superseded.cruft_packs,
        result.retained_pack_stems == plan.retained_pack_stems,
{
    let reachable = match written {
        None => None,
        Some(written) => Some(
            repack_result(
                written,
                &plan.reachable,
                Vec::new(),
                loose,
                Vec::new(),
                false,
                LooseObjectPruneOutcome::FollowUpRequired,
            ),
        ),
    };
    let mut additional = cruft;
    let first = if additional.len() == 0 {
        None
    } else {
        Some(additional.remove(0))
    };
    let result = CruftRepackResult {
        reachable,
        cruft: first,
        additional_cruft: additional,
        expired,
        obsolete_packs: plan.superseded.packs,
        obsolete_cruft_packs: plan.superseded.cruft_packs,
        retained_pack_stems: plan.retained_pack_stems,
    };
    assert(result.cruft_packs() =~= cruft@);
    result
}

} // verus!
