//! Rolling small packs up into one, so that the packs that are left form a
//! geometric progression.

use crate::error::GitError;
use crate::filter::text_set;
use crate::geometry::collect_geometry_packs;
use crate::geometry::collect_weights;
use crate::geometry::compute_geometry_split;
use crate::geometry::derefs;
use crate::geometry::geometry_split;
use crate::geometry::goes_into_rollup;
use crate::geometry::ids_in;
use crate::geometry::progression;
use crate::geometry::rolled_up_ids;
use crate::geometry::rollup_fails;
use crate::geometry::select_rollup;
use crate::geometry::weights_of;
use crate::geometry::GeometricRepackOptions;
use crate::geometry::GeometryPack;
use crate::object::ObjectReader;
use crate::object_id::ObjectId;
use crate::order::is_sorted;
use crate::order::oid_less;
use crate::order::texts;
use crate::pack_file::PackWrite;
use crate::repack::presents;
use crate::repack::read_all;
use crate::repack::read_pack_objects;
use crate::repack::repack_result;
use crate::repack::LooseObjectPruneOutcome;
use crate::repack_install::GeometricRepackResult;
use crate::transfer::ReachablePackObject;
use vstd::prelude::*;

verus! {

/// What a geometric repack packs.
pub struct GeometricRollup {
    /// The objects of the new pack, in index order; `None` when nothing needs
    /// packing.
    pub objects: Option<Vec<ReachablePackObject>>,
    /// The stems of the packs that roll up.
    pub rolled_up_packs: Vec<String>,
}

/// The number of packs of the progression that roll up.
pub open spec fn rollup_split(ordered: Seq<GeometryPack>, split_factor: u64) -> int {
    geometry_split(weights_of(ordered), split_factor) as int
}

/// Whether `ids` are what a rollup that meets no failure packs, in index order.
pub open spec fn is_rollup<R: ObjectReader>(
    reader: &R,
    ordered: Seq<GeometryPack>,
    split: int,
    loose: Seq<ObjectId>,
    follow: bool,
    ids: Seq<ObjectId>,
) -> bool {
    &&& is_sorted(oid_less(), ids)
    &&& ids.no_duplicates()
    &&& forall|err: GitError|
        !#[trigger] rollup_fails(
            reader,
            rolled_up_ids(ordered, split, loose),
            ids_in(ordered, split, ordered.len() as int),
            follow,
            err,
        )
    &&& forall|oid: ObjectId|
        #[trigger] ids.contains(oid) <==> goes_into_rollup(
            reader,
            rolled_up_ids(ordered, split, loose),
            ids_in(ordered, split, ordered.len() as int),
            follow,
            oid,
        )
}

/// The stems of packs.
pub open spec fn stems_of(packs: Seq<GeometryPack>) -> Seq<Seq<char>> {
    packs.map_values(|pack: GeometryPack| pack.file.stem@)
}

/// Whether `outcome` is that of a geometric repack.
pub open spec fn is_rollup_outcome<R: ObjectReader>(
    reader: &R,
    ordered: Seq<GeometryPack>,
    split: int,
    loose: Seq<ObjectId>,
    follow: bool,
    outcome: Result<GeometricRollup, GitError>,
) -> bool {
    match outcome {
        Ok(rollup) => exists|ids: Seq<ObjectId>| #[trigger]
            is_rollup(reader, ordered, split, loose, follow, ids) && if ids.len() == 0 {
                rollup.objects is None && rollup.rolled_up_packs@.len() == 0
            } else {
                &&& rollup.objects matches Some(objects) && read_all(reader, ids) == Ok::<
                    Seq<ReachablePackObject>,
                    GitError,
                >(objects@)
                &&& texts(rollup.rolled_up_packs@) == stems_of(ordered.take(split))
            },
        Err(err) => {
            ||| rollup_fails(
                reader,
                rolled_up_ids(ordered, split, loose),
                ids_in(ordered, split, ordered.len() as int),
                follow,
                err,
            )
            ||| exists|ids: Seq<ObjectId>| #[trigger]
                is_rollup(reader, ordered, split, loose, follow, ids) && read_all(reader, ids) == Err::<
                    Seq<ReachablePackObject>,
                    GitError,
                >(err)
        },
    }
}

fn list_stems(packs: &[&GeometryPack], count: usize) -> (stems: Vec<String>)
    requires
        count <= packs@.len(),
    ensures
        texts(stems@) == stems_of(derefs(packs@).take(count as int)),
{
    let ghost all = derefs(packs@);
    let mut stems: Vec<String> = Vec::new();
    let mut i: usize = 0;
    assert(texts(stems@) =~= stems_of(all.take(0)));
    while i < count
        invariant
            i <= count <= packs@.len(),
            all == derefs(packs@),
            texts(stems@) == stems_of(all.take(i as int)),
        decreases count - i,
    {
        let ghost before = texts(stems@);
        stems.push(packs[i].file.stem.clone());
        proof {
            assert(texts(stems@) =~= before.push(all[i as int].file.stem@));
            assert(stems_of(all.take(i + 1)) =~= stems_of(all.take(i as int)).push(all[i as int].file.stem@));
        }
        i += 1;
    }
    stems
}

/// Plans a geometric repack: rolls up the smallest packs and the loose objects
/// so that the surviving packs form a geometric progression by object count.
/// Packs at or above the split are left in place, and the new pack does without
/// objects that one of them serves. `packs` are all packs, in path order.
pub fn repack_geometric_with_options<R: ObjectReader>(
    reader: &R,
    packs: &[GeometryPack],
    split_factor: u64,
    kept_pack_stems: &[String],
    loose: &[ObjectId],
    options: GeometricRepackOptions,
) -> (rollup: Result<GeometricRollup, GitError>)
    ensures
        ({
            let ordered = progression(packs@, text_set(kept_pack_stems@));
            is_rollup_outcome(
                reader,
                ordered,
                rollup_split(ordered, split_factor),
                loose@,
                options.follow_reachable,
                rollup,
            )
        }),
{
    let ordered = collect_geometry_packs(packs, kept_pack_stems);
    let weights = collect_weights(&ordered);
    let split: usize = compute_geometry_split(&weights, split_factor);
    let ghost all = derefs(ordered@);
    assert(split <= ordered.len());
    let ids = match select_rollup(reader, &ordered, split, loose, options) {
        Err(err) => {
            return Err(err);
        },
        Ok(ids) => ids,
    };
    assert(is_rollup(reader, all, split as int, loose@, options.follow_reachable, ids@));
    if ids.len() == 0 {
        return Ok(GeometricRollup { objects: None, rolled_up_packs: Vec::new() });
    }
    match read_pack_objects(reader, &ids) {
        Err(err) => Err(err),
        Ok(objects) => Ok(
            GeometricRollup { objects: Some(objects), rolled_up_packs: list_stems(&ordered, split) },
        ),
    }
}

/// Plans a geometric repack that follows no references.
pub fn repack_geometric<R: ObjectReader>(
    reader: &R,
    packs: &[GeometryPack],
    split_factor: u64,
    kept_pack_stems: &[String],
    loose: &[ObjectId],
) -> (rollup: Result<GeometricRollup, GitError>)
    ensures
        ({
            let ordered = progression(packs@, text_set(kept_pack_stems@));
            is_rollup_outcome(reader, ordered, rollup_split(ordered, split_factor), loose@, false, rollup)
        }),
{
    repack_geometric_with_options(
        reader,
        packs,
        split_factor,
        kept_pack_stems,
        loose,
        GeometricRepackOptions::default(),
    )
}

/// The result of a geometric repack that wrote `written` for `objects`.
pub fn finish_geometric_repack(
    written: PackWrite,
    objects: &[ReachablePackObject],
    rolled_up_packs: Vec<String>,
    loose: &[ObjectId],
) -> (geometric: GeometricRepackResult)
    ensures
        geometric.result matches Some(result) && presents(
            result,
            written.pack@,
            written.index@,
            written.checksum,
            written.entries@,
            objects@,
            loose@,
        ) && texts(result.obsolete_packs@) == texts(rolled_up_packs@) && result.retained_pack_stems@.len() == 0
            && !result.promisor && result.loose_prune_outcome == LooseObjectPruneOutcome::FollowUpRequired,
        geometric.rolled_up_packs == rolled_up_packs,
{
    let obsolete = copy_texts(&rolled_up_packs);
    let result = repack_result(
        written,
        objects,
        obsolete,
        loose,
        Vec::new(),
        false,
        LooseObjectPruneOutcome::FollowUpRequired,
    );
    GeometricRepackResult { result: Some(result), rolled_up_packs }
}

fn copy_texts(list: &[String]) -> (copy: Vec<String>)
    ensures
        texts(copy@) == texts(list@),
{
    let mut copy: Vec<String> = Vec::new();
    let mut i: usize = 0;
    assert(texts(copy@) =~= texts(list@).take(0));
    while i < list.len()
        invariant
            i <= list@.len(),
            texts(copy@) == texts(list@).take(i as int),
        decreases list@.len() - i,
    {
        let ghost before = texts(copy@);
        copy.push(list[i].clone());
        proof {
            assert(texts(copy@) =~= before.push(list@[i as int]@));
            assert(texts(list@).take(i + 1) =~= texts(list@).take(i as int).push(list@[i as int]@));
        }
        i += 1;
    }
    assert(texts(list@).take(i as int) =~= texts(list@));
    copy
}

} // verus!
