//! Repacks of loose objects, and pruning of loose objects that nothing reaches.

use crate::error::GitError;
use crate::object::ObjectReader;
use crate::object_id::ObjectId;
use crate::oid_map::OidSet;
use crate::order::sort_oids;
use crate::order::oid_less;
use crate::order::stable_sort;
use crate::pack_file::retain_outside;
use crate::pack_file::PackWrite;
use crate::reachability::collect_reachable_object_ids;
use crate::reachability::collect_reachable_object_ids_excluding_promised_missing;
use crate::reachability::collect_reachable_object_ids_tolerating_missing;
use crate::reachability::strict_walk;
use crate::reachability::tolerant_walk;
use crate::reachability::MissingPolicy;
use crate::repack::presents;
use crate::repack::read_all;
use crate::repack::read_pack_objects;
use crate::repack::repack_result;
use crate::repack::select_loose;
use crate::repack::select_present_roots;
use crate::repack::LooseObjectPruneOutcome;
use crate::repack::RepackResult;
use crate::transfer::ReachablePackObject;
use vstd::prelude::*;

verus! {

/// Whether `outcome` is what packing the loose objects `ids` comes to: nothing
/// without any, else the objects in their order.
pub open spec fn packs_loose<R: ObjectReader>(
    reader: &R,
    ids: Seq<ObjectId>,
    outcome: Result<Option<Vec<ReachablePackObject>>, GitError>,
) -> bool {
    if ids.len() == 0 {
        outcome matches Ok(None)
    } else {
        match read_all(reader, ids) {
            Err(failure) => outcome matches Err(err) && err == failure,
            Ok(all) => outcome matches Ok(Some(objects)) && objects@ == all,
        }
    }
}

/// The objects of a pack of the given loose ids; `None` without any.
pub fn repack_selected_loose_objects<R: ObjectReader>(reader: &R, loose: &[ObjectId]) -> (objects: Result<
    Option<Vec<ReachablePackObject>>,
    GitError,
>)
    ensures
        packs_loose(reader, loose@, objects),
{
    if loose.len() == 0 {
        return Ok(None);
    }
    match read_pack_objects(reader, loose) {
        Err(err) => Err(err),
        Ok(objects) => Ok(Some(objects)),
    }
}

/// The loose objects that no pack holds yet.
pub open spec fn unpacked_loose(loose: Seq<ObjectId>, packed: Set<ObjectId>) -> Seq<ObjectId> {
    loose.filter(|oid: ObjectId| !packed.contains(oid))
}

/// The objects of a pack of all loose objects that no pack holds yet. Existing
/// packs remain in place. `loose` is in index order.
pub fn repack_loose_objects<R: ObjectReader>(reader: &R, loose: &[ObjectId], packed: &OidSet) -> (objects: Result<
    Option<Vec<ReachablePackObject>>,
    GitError,
>)
    ensures
        packs_loose(reader, unpacked_loose(loose@, packed@), objects),
{
    let ids = retain_outside(loose, packed);
    repack_selected_loose_objects(reader, &ids)
}

/// The roots that an incremental repack starts from.
pub open spec fn live_roots(roots: Seq<ObjectId>, present: Set<ObjectId>, promisor: Set<ObjectId>) -> Seq<ObjectId> {
    roots.filter(|oid: ObjectId| promisor.contains(oid) || present.contains(oid))
}

/// The loose objects among `wanted` that no pack holds yet.
pub open spec fn wanted_loose(loose: Seq<ObjectId>, wanted: Set<ObjectId>, packed: Set<ObjectId>) -> Seq<ObjectId> {
    loose.filter(|oid: ObjectId| wanted.contains(oid) && !packed.contains(oid))
}

/// The objects of a pack of the loose objects that `roots` lead to and no pack
/// holds yet: unreachable ones remain loose. A root that is gone is ignored; a
/// missing object below a root that is there is an error, unless it is promised.
pub fn repack_reachable_loose_objects<R: ObjectReader>(
    reader: &R,
    roots: &[ObjectId],
    present_roots: &OidSet,
    promisor: &OidSet,
    loose: &[ObjectId],
    packed: &OidSet,
) -> (objects: Result<Option<Vec<ReachablePackObject>>, GitError>)
    ensures
        match tolerant_walk(
            reader,
            MissingPolicy::Promised,
            live_roots(roots@, present_roots@, promisor@),
            promisor@,
        ) {
            Err(failure) => objects matches Err(err) && err == failure,
            Ok(seen) => packs_loose(reader, wanted_loose(loose@, seen.to_set(), packed@), objects),
        },
{
    let starts = select_present_roots(roots, present_roots, promisor);
    match collect_reachable_object_ids_excluding_promised_missing(reader, &starts, promisor) {
        Err(err) => Err(err),
        Ok(reachable) => {
            let ids = select_loose(loose, &reachable, packed);
            assert(reachable@ =~= reachable.items().to_set());
            repack_selected_loose_objects(reader, &ids)
        },
    }
}

/// The result of a repack of loose objects that wrote `written` for `objects`:
/// it supersedes no pack.
pub fn finish_loose_repack(
    written: PackWrite,
    objects: &[ReachablePackObject],
    loose: &[ObjectId],
) -> (result: RepackResult)
    ensures
        presents(
            result,
            written.pack@,
            written.index@,
            written.checksum,
            written.entries@,
            objects@,
            loose@,
        ),
        result.obsolete_packs@.len() == 0,
        result.retained_pack_stems@.len() == 0,
        !result.promisor,
        result.loose_prune_outcome == LooseObjectPruneOutcome::FollowUpRequired,
{
    repack_result(
        written,
        objects,
        Vec::new(),
        loose,
        Vec::new(),
        false,
        LooseObjectPruneOutcome::FollowUpRequired,
    )
}

/// The loose objects outside a set, in index order.
pub open spec fn loose_outside(loose: Seq<ObjectId>, reachable: Set<ObjectId>) -> Seq<ObjectId> {
    stable_sort(oid_less(), loose.filter(|oid: ObjectId| !reachable.contains(oid)))
}

fn list_loose_outside(loose: &[ObjectId], reachable: &OidSet) -> (ids: Vec<ObjectId>)
    ensures
        ids@ == loose_outside(loose@, reachable@),
{
    let ids = retain_outside(loose, reachable);
    sort_oids(&ids)
}

/// The loose objects that `roots` do not lead to, in index order. Packed copies
/// are never touched.
pub fn prune_unreachable_loose<R: ObjectReader>(reader: &R, roots: &[ObjectId], loose: &[ObjectId]) -> (pruned: Result<
    Vec<ObjectId>,
    GitError,
>)
    ensures
        match strict_walk(reader, roots@, Set::empty(), Set::empty()) {
            Err(failure) => pruned matches Err(err) && err == failure,
            Ok(seen) => pruned matches Ok(pruned) && pruned@ == loose_outside(loose@, seen.to_set()),
        },
{
    match collect_reachable_object_ids(reader, roots) {
        Err(err) => Err(err),
        Ok(reachable) => {
            assert(reachable@ =~= reachable.items().to_set());
            Ok(list_loose_outside(loose, &reachable))
        },
    }
}

/// [`prune_unreachable_loose`] where missing links below the roots are ignored.
pub fn prune_unreachable_loose_tolerating_missing<R: ObjectReader>(
    reader: &R,
    roots: &[ObjectId],
    loose: &[ObjectId],
) -> (pruned: Result<Vec<ObjectId>, GitError>)
    ensures
        match tolerant_walk(reader, MissingPolicy::Any, roots@, Set::empty()) {
            Err(failure) => pruned matches Err(err) && err == failure,
            Ok(seen) => pruned matches Ok(pruned) && pruned@ == loose_outside(loose@, seen.to_set()),
        },
{
    match collect_reachable_object_ids_tolerating_missing(reader, roots) {
        Err(err) => Err(err),
        Ok(reachable) => {
            assert(reachable@ =~= reachable.items().to_set());
            Ok(list_loose_outside(loose, &reachable))
        },
    }
}

/// Pruning takes loose objects that the walk did not visit, and all of those.
pub proof fn law_pruned_are_unreachable(loose: Seq<ObjectId>, reachable: Set<ObjectId>, oid: ObjectId)
    ensures
        loose_outside(loose, reachable).contains(oid) <==> loose.contains(oid) && !reachable.contains(oid),
{
    let keep = |oid: ObjectId| !reachable.contains(oid);
    let kept = loose.filter(keep);
    crate::order::lemma_filter_contains(loose, keep, oid);
    crate::order::lemma_oid_order();
    crate::order::lemma_sort_contains(oid_less(), kept, oid);
}

} // verus!
