//! What a geometric repack rolls up, in terms of the packs and objects.

use crate::error::GitError;
use crate::geometry::direct_links;
use crate::geometry::follow_starts;
use crate::geometry::geometry_split;
use crate::geometry::goes_into_rollup;
use crate::geometry::ids_in;
use crate::geometry::progression;
use crate::geometry::rolled_up_ids;
use crate::geometry::rollup_fails;
use crate::geometry::takes_part;
use crate::geometry::weight_order;
use crate::geometry::weights_of;
use crate::geometry::GeometryPack;
use crate::geometry_repack::is_rollup;
use crate::geometry_repack::is_rollup_outcome;
use crate::geometry_repack::rollup_split;
use crate::geometry_repack::GeometricRollup;
use crate::link_laws::lemma_stacked_names;
use crate::link_laws::names;
use crate::object::EncodedObject;
use crate::object::ObjectContent;
use crate::object::ObjectReader;
use crate::object::TreeEntryKind;
use crate::object_id::ObjectId;
use crate::order::is_order;
use crate::order::law_stable_sort;
use crate::order::lemma_filter_contains;
use crate::order::lemma_sort_contains;
use crate::reachability::tolerant_schedule;
use crate::reachability::MissingPolicy;
use crate::repack::read_all;
use crate::repack_laws::law_reading_reads_each;
use crate::transfer::ReachablePackObject;
use crate::walk::is_closed;
use crate::walk::reaches;
use crate::walk::successors;
use std::sync::Arc;
use vstd::prelude::*;

verus! {

/// The packs that may roll up are those that have an index and neither hold
/// cruft nor promised objects nor are kept, by a mark or by name. They stand in
/// ascending order of the number of their objects.
pub proof fn law_progression_orders_the_packs(packs: Seq<GeometryPack>, kept_stems: Set<Seq<char>>)
    ensures
        forall|pack: GeometryPack| #[trigger]
            progression(packs, kept_stems).contains(pack) <==> packs.contains(pack) && pack.file.has_index
                && !pack.file.has_mtimes && !pack.file.has_promisor && !pack.file.has_keep && !kept_stems.contains(
                pack.file.stem@,
            ),
        forall|i: int, j: int|
            0 <= i < j < progression(packs, kept_stems).len() ==> (#[trigger] progression(
                packs,
                kept_stems,
            )[i]).oids@.len() as u64 <= (#[trigger] progression(packs, kept_stems)[j]).oids@.len() as u64,
{
    let keep = |pack: GeometryPack| takes_part(pack, kept_stems);
    assert(is_order(weight_order()));
    law_stable_sort(weight_order(), packs.filter(keep));
    assert forall|pack: GeometryPack| #[trigger] progression(packs, kept_stems).contains(pack) <==> packs.contains(pack)
        && takes_part(pack, kept_stems) by {
        lemma_filter_contains(packs, keep, pack);
        lemma_sort_contains(weight_order(), packs.filter(keep), pack);
    }
}

/// The ids of the objects that a rollup packs are those of `ids`.
proof fn lemma_rollup_ids<R: ObjectReader>(
    reader: &R,
    ordered: Seq<GeometryPack>,
    split: int,
    loose: Seq<ObjectId>,
    follow: bool,
    rollup: GeometricRollup,
)
    requires
        is_rollup_outcome(reader, ordered, split, loose, follow, Ok(rollup)),
    ensures
        ({
            let gathered = rolled_up_ids(ordered, split, loose);
            let outside = ids_in(ordered, split, ordered.len() as int);
            &&& forall|entry: ReachablePackObject|
                (rollup.objects is Some && #[trigger] rollup.objects->Some_0@.contains(entry)) <==> goes_into_rollup(
                    reader,
                    gathered,
                    outside,
                    follow,
                    entry.oid,
                ) && reader.object_at(entry.oid) == Ok::<Arc<EncodedObject>, GitError>(entry.object)
            &&& forall|oid: ObjectId| #[trigger]
                goes_into_rollup(reader, gathered, outside, follow, oid) ==> rollup.objects is Some
                    && reader.object_at(oid) is Ok
            &&& forall|err: GitError| !#[trigger] rollup_fails(reader, gathered, outside, follow, err)
        }),
{
    let gathered = rolled_up_ids(ordered, split, loose);
    let outside = ids_in(ordered, split, ordered.len() as int);
    let ids = choose|ids: Seq<ObjectId>| #[trigger]
        is_rollup(reader, ordered, split, loose, follow, ids) && if ids.len() == 0 {
            rollup.objects is None && rollup.rolled_up_packs@.len() == 0
        } else {
            &&& rollup.objects matches Some(objects) && read_all(reader, ids) == Ok::<
                Seq<ReachablePackObject>,
                GitError,
            >(objects@)
            &&& crate::order::texts(rollup.rolled_up_packs@) == crate::geometry_repack::stems_of(ordered.take(split))
        };
    assert(is_rollup(reader, ordered, split, loose, follow, ids));
    law_reading_reads_each(reader, ids);
    if ids.len() > 0 {
        let objects = rollup.objects->Some_0@;
        assert(read_all(reader, ids)->Ok_0 == objects);
        assert forall|entry: ReachablePackObject| #[trigger] objects.contains(entry) <==> ids.contains(entry.oid)
            && reader.object_at(entry.oid) == Ok::<Arc<EncodedObject>, GitError>(entry.object) by {
            if objects.contains(entry) {
                let k = choose|k: int| 0 <= k < objects.len() && objects[k] == entry;
                assert(ids[k] == entry.oid);
            }
            if ids.contains(entry.oid) && reader.object_at(entry.oid) == Ok::<Arc<EncodedObject>, GitError>(
                entry.object,
            ) {
                let k = choose|k: int| 0 <= k < ids.len() && ids[k] == entry.oid;
                assert(objects[k].oid == ids[k]);
                assert(objects[k] == entry);
            }
        }
        assert forall|oid: ObjectId| #[trigger] goes_into_rollup(reader, gathered, outside, follow, oid)
            implies reader.object_at(oid) is Ok by {
            assert(ids.contains(oid));
            let k = choose|k: int| 0 <= k < ids.len() && ids[k] == oid;
            assert(reader.object_at(ids[k]) is Ok);
        }
    } else {
        assert forall|oid: ObjectId| !#[trigger] goes_into_rollup(reader, gathered, outside, follow, oid) by {
            assert(!ids.contains(oid));
        }
    }
}

/// The new pack of a rollup holds every object of the packs below the split and
/// every loose object, and no object of a pack that is left alone. Where no
/// references are followed it holds nothing else.
pub proof fn law_rollup_gathers_packs_and_loose<R: ObjectReader>(
    reader: &R,
    ordered: Seq<GeometryPack>,
    split: int,
    loose: Seq<ObjectId>,
    follow: bool,
    rollup: GeometricRollup,
    entry: ReachablePackObject,
)
    requires
        0 <= split <= ordered.len(),
        is_rollup_outcome(reader, ordered, split, loose, follow, Ok(rollup)),
    ensures
        ({
            let packed = rollup.objects is Some && rollup.objects->Some_0@.contains(entry);
            let left = exists|k: int| split <= k < ordered.len() && (#[trigger] ordered[k]).oids@.contains(entry.oid);
            let gathered = loose.contains(entry.oid) || exists|k: int|
                0 <= k < split && (#[trigger] ordered[k]).oids@.contains(entry.oid);
            &&& packed ==> reader.object_at(entry.oid) == Ok::<Arc<EncodedObject>, GitError>(entry.object)
            &&& packed ==> !left
            &&& packed && !follow ==> gathered
            &&& gathered && !left && reader.object_at(entry.oid) == Ok::<Arc<EncodedObject>, GitError>(entry.object)
                ==> packed
        }),
{
    lemma_rollup_ids(reader, ordered, split, loose, follow, rollup);
    let gathered = rolled_up_ids(ordered, split, loose);
    let outside = ids_in(ordered, split, ordered.len() as int);
    let graph = tolerant_schedule(reader, MissingPolicy::Promised);
    let starts = follow_starts(reader, gathered, outside);
    if rollup.objects is Some {
        assert(rollup.objects->Some_0@.contains(entry) || !rollup.objects->Some_0@.contains(entry));
    }
    assert(goes_into_rollup(reader, gathered, outside, follow, entry.oid) ==> !outside.contains(entry.oid)) by {
        if reaches(graph, outside, starts, entry.oid) {
            let rest = Set::new(|oid: ObjectId| !outside.contains(oid));
            assert(is_closed(graph, outside, starts, rest));
            assert(rest.contains(entry.oid));
        }
    }
    assert(gathered.contains(entry.oid) <==> (loose.contains(entry.oid) || exists|k: int|
        0 <= k < split && (#[trigger] ordered[k]).oids@.contains(entry.oid)) && !outside.contains(entry.oid));
}

/// Where references are followed, the new pack holds, with each object that it
/// holds, everything that the object's fields name but for what a pack that is
/// left alone holds and what a promisor remote holds.
pub proof fn law_followed_rollup_is_closed<R: ObjectReader>(
    reader: &R,
    ordered: Seq<GeometryPack>,
    split: int,
    loose: Seq<ObjectId>,
    rollup: GeometricRollup,
    entry: ReachablePackObject,
    next: ReachablePackObject,
)
    requires
        0 <= split <= ordered.len(),
        is_rollup_outcome(reader, ordered, split, loose, true, Ok(rollup)),
        rollup.objects is Some && rollup.objects->Some_0@.contains(entry),
        reader.object_at(next.oid) == Ok::<Arc<EncodedObject>, GitError>(next.object),
        match entry.object.content {
            ObjectContent::Commit(Ok(commit)) => next.oid == commit.tree || !reader.grafted(entry.oid) && exists|i: int|
                0 <= i < commit.parents@.len() && #[trigger] commit.parents@[i] == next.oid,
            ObjectContent::Tree(entries) => exists|i: int|
                0 <= i < entries@.len() && (#[trigger] entries@[i]) is Ok && entries@[i]->Ok_0.kind
                    != TreeEntryKind::Gitlink && entries@[i]->Ok_0.oid == next.oid,
            ObjectContent::Tag(Ok(target)) => next.oid == target,
            _ => false,
        },
        !exists|k: int| split <= k < ordered.len() && (#[trigger] ordered[k]).oids@.contains(next.oid),
    ensures
        rollup.objects->Some_0@.contains(next),
{
    lemma_rollup_ids(reader, ordered, split, loose, true, rollup);
    let gathered = rolled_up_ids(ordered, split, loose);
    let outside = ids_in(ordered, split, ordered.len() as int);
    let graph = tolerant_schedule(reader, MissingPolicy::Promised);
    let starts = follow_starts(reader, gathered, outside);
    assert(goes_into_rollup(reader, gathered, outside, true, entry.oid));
    assert(!outside.contains(entry.oid)) by {
        if reaches(graph, outside, starts, entry.oid) {
            let rest = Set::new(|oid: ObjectId| !outside.contains(oid));
            assert(is_closed(graph, outside, starts, rest));
            assert(rest.contains(entry.oid));
        }
    }
    assert(reaches(graph, outside, starts, entry.oid)) by {
        if gathered.contains(entry.oid) {
            assert(starts.contains(entry.oid));
        }
    }
    assert(graph(entry.oid) is Ok) by {
        if graph(entry.oid) is Err {
            let err = graph(entry.oid)->Err_0;
            assert(forall|from: ObjectId| #[trigger] outside.contains(from) ==> direct_links(reader, from) is Ok) by {
                assert forall|from: ObjectId| #[trigger] outside.contains(from) implies direct_links(
                    reader,
                    from,
                ) is Ok by {
                    if direct_links(reader, from) is Err {
                        assert(rollup_fails(reader, gathered, outside, true, direct_links(reader, from)->Err_0));
                    }
                }
            }
            assert(rollup_fails(reader, gathered, outside, true, err));
        }
    }
    lemma_stacked_names_of(reader, entry);
    assert(successors(graph, entry.oid).contains(next.oid));
    assert forall|set: Set<ObjectId>| is_closed(graph, outside, starts, set) implies set.contains(next.oid) by {
        assert(set.contains(entry.oid));
    }
    assert(goes_into_rollup(reader, gathered, outside, true, next.oid));
    assert(rollup.objects->Some_0@.contains(next));
}

/// The object of an entry.
spec fn object_of(entry: ReachablePackObject) -> EncodedObject {
    *entry.object
}

proof fn lemma_stacked_names_of<R: ObjectReader>(reader: &R, entry: ReachablePackObject)
    requires
        reader.object_at(entry.oid) == Ok::<Arc<EncodedObject>, GitError>(entry.object),
        tolerant_schedule(reader, MissingPolicy::Promised)(entry.oid) is Ok,
    ensures
        forall|oid: ObjectId| #[trigger]
            successors(tolerant_schedule(reader, MissingPolicy::Promised), entry.oid).contains(oid) <==> names(
                *entry.object,
                reader.grafted(entry.oid),
                oid,
            ),
{
    lemma_stacked_names(object_of(entry), reader.grafted(entry.oid));
}

/// The weight of a pack in the progression is the number of its objects.
pub proof fn law_weights_count_objects(ordered: Seq<GeometryPack>, split_factor: u64)
    ensures
        weights_of(ordered).len() == ordered.len(),
        forall|i: int|
            0 <= i < ordered.len() ==> #[trigger] weights_of(ordered)[i] == ordered[i].oids@.len() as u64,
        rollup_split(ordered, split_factor) == geometry_split(weights_of(ordered), split_factor),
{
}

/// Where references are followed and there is something to roll up, the new
/// pack holds what the objects of packs that are left alone name, but for what
/// such packs hold.
pub proof fn law_followed_rollup_takes_in_what_left_packs_name<R: ObjectReader>(
    reader: &R,
    ordered: Seq<GeometryPack>,
    split: int,
    loose: Seq<ObjectId>,
    rollup: GeometricRollup,
    seed: ObjectId,
    from: ObjectId,
    next: ReachablePackObject,
)
    requires
        0 <= split <= ordered.len(),
        is_rollup_outcome(reader, ordered, split, loose, true, Ok(rollup)),
        loose.contains(seed),
        !exists|k: int| split <= k < ordered.len() && (#[trigger] ordered[k]).oids@.contains(seed),
        exists|k: int| split <= k < ordered.len() && (#[trigger] ordered[k]).oids@.contains(from),
        reader.object_at(from) is Ok,
        reader.object_at(next.oid) == Ok::<Arc<EncodedObject>, GitError>(next.object),
        match reader.object_at(from)->Ok_0.content {
            ObjectContent::Commit(Ok(commit)) => next.oid == commit.tree || exists|i: int|
                0 <= i < commit.parents@.len() && #[trigger] commit.parents@[i] == next.oid,
            ObjectContent::Tree(entries) => exists|i: int|
                0 <= i < entries@.len() && (#[trigger] entries@[i]) is Ok && entries@[i]->Ok_0.kind
                    != TreeEntryKind::Gitlink && entries@[i]->Ok_0.oid == next.oid,
            ObjectContent::Tag(Ok(target)) => next.oid == target,
            _ => false,
        },
        !exists|k: int| split <= k < ordered.len() && (#[trigger] ordered[k]).oids@.contains(next.oid),
    ensures
        rollup.objects matches Some(objects) && objects@.contains(next),
{
    lemma_rollup_ids(reader, ordered, split, loose, true, rollup);
    let gathered = rolled_up_ids(ordered, split, loose);
    let outside = ids_in(ordered, split, ordered.len() as int);
    let graph = tolerant_schedule(reader, MissingPolicy::Promised);
    let starts = follow_starts(reader, gathered, outside);
    assert(gathered.contains(seed));
    assert(outside.contains(from));
    assert(direct_links(reader, from) is Ok) by {
        if direct_links(reader, from) is Err {
            assert(rollup_fails(reader, gathered, outside, true, direct_links(reader, from)->Err_0));
        }
    }
    lemma_stacked_names(read_at(reader, from), false);
    assert(names(read_at(reader, from), false, next.oid));
    assert(direct_links(reader, from)->Ok_0.contains(next.oid));
    assert(starts.contains(next.oid));
    assert(!outside.contains(next.oid));
    assert forall|set: Set<ObjectId>| is_closed(graph, outside, starts, set) implies set.contains(next.oid) by {}
    assert(goes_into_rollup(reader, gathered, outside, true, next.oid));
    if rollup.objects is Some {
        assert(rollup.objects->Some_0@.contains(next));
    }
}

/// The object under `oid`, where it is read.
spec fn read_at<R: ObjectReader>(reader: &R, oid: ObjectId) -> EncodedObject {
    *reader.object_at(oid)->Ok_0
}

} // verus!
