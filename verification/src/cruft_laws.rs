//! What a cruft repack keeps and gives up, object by object.

use crate::cruft::are_sorted_keys;
use crate::cruft::is_replaced;
use crate::cruft::is_unpacked;
use crate::cruft::keeps_cruft_pack;
use crate::cruft::law_rescue_follows_every_link;
use crate::cruft::law_rescue_keeps_nothing_else;
use crate::cruft::read_cruft;
use crate::cruft::CruftObject;
use crate::cruft_repack::are_sorted_ids;
use crate::cruft_repack::cruft_on_disk;
use crate::cruft_repack::given_up;
use crate::cruft_repack::is_cruft_plan;
use crate::cruft_repack::is_unpacked_pack;
use crate::cruft_repack::kept_cruft;
use crate::cruft_repack::left_cruft_stems;
use crate::cruft_repack::read_present;
use crate::cruft_repack::reads_dated;
use crate::cruft_repack::reads_set;
use crate::cruft_repack::recent_walk;
use crate::cruft_repack::restricted;
use crate::cruft_repack::CruftRepackInputs;
use crate::cruft_repack::CruftRepackPlan;
use crate::error::GitError;
use crate::filter_laws::lemma_listed_text;
use crate::object::EncodedObject;
use crate::object::ObjectContent;
use crate::object::ObjectReader;
use crate::object::TreeEntryKind;
use crate::object_id::ObjectId;
use crate::order::lemma_filter_contains;
use crate::order::lemma_sort_contains;
use crate::order::lemma_text_order;
use crate::order::text_order;
use crate::order::texts;
use crate::pack_file::PackFile;
use crate::reachability::tolerant_walk;
use crate::reachability::MissingPolicy;
use crate::reachable_repack::excluded_oids;
use crate::reachable_repack::stem_oids;
use crate::repack::retained_stems;
use crate::repack::RepackOptions;
use crate::transfer::ReachablePackObject;
use std::sync::Arc;
use vstd::prelude::*;

verus! {

/// Reading dated objects hands on each that is there with its time, and fails
/// only where an object fails to read for another reason than that it is
/// missing.
pub proof fn law_dated_reading_reads_each<R: ObjectReader>(
    reader: &R,
    mtimes: Map<ObjectId, u32>,
    ids: Seq<ObjectId>,
)
    ensures
        match read_cruft(reader, mtimes, ids) {
            Ok(objects) => forall|object: CruftObject| #[trigger]
                objects.contains(object) <==> ids.contains(object.oid) && object.mtime == mtimes[object.oid]
                    && reader.object_at(object.oid) == Ok::<Arc<EncodedObject>, GitError>(object.object),
            Err(err) => !(err is NotFound) && exists|i: int|
                0 <= i < ids.len() && reader.object_at(#[trigger] ids[i]) == Err::<Arc<EncodedObject>, GitError>(err),
        },
    decreases ids.len(),
{
    if ids.len() > 0 {
        let rest = ids.drop_last();
        law_dated_reading_reads_each(reader, mtimes, rest);
        assert(ids[ids.len() - 1] == ids.last());
        assert forall|oid: ObjectId| ids.contains(oid) == (rest.contains(oid) || oid == ids.last()) by {
            lemma_last(ids, oid);
        }
        match read_cruft(reader, mtimes, rest) {
            Err(err) => {
                let i = choose|i: int|
                    0 <= i < rest.len() && reader.object_at(#[trigger] rest[i]) == Err::<
                        Arc<EncodedObject>,
                        GitError,
                    >(err);
                assert(ids[i] == rest[i]);
            },
            Ok(before) => {
                if let Ok(objects) = read_cruft(reader, mtimes, ids) {
                    assert forall|object: CruftObject| #[trigger] objects.contains(object) <==> ids.contains(
                        object.oid,
                    ) && object.mtime == mtimes[object.oid] && reader.object_at(object.oid) == Ok::<
                        Arc<EncodedObject>,
                        GitError,
                    >(object.object) by {
                        if objects.len() > before.len() {
                            assert(objects.drop_last() =~= before);
                            lemma_last(objects, object);
                        }
                    }
                }
            },
        }
    }
}

/// Reading objects of which some may be missing hands on each that is there.
pub proof fn law_lenient_reading_reads_each<R: ObjectReader>(reader: &R, ids: Seq<ObjectId>)
    ensures
        match read_present(reader, ids) {
            Ok(objects) => forall|object: ReachablePackObject| #[trigger]
                objects.contains(object) <==> ids.contains(object.oid) && reader.object_at(object.oid) == Ok::<
                    Arc<EncodedObject>,
                    GitError,
                >(object.object),
            Err(err) => !(err is NotFound) && exists|i: int|
                0 <= i < ids.len() && reader.object_at(#[trigger] ids[i]) == Err::<Arc<EncodedObject>, GitError>(err),
        },
    decreases ids.len(),
{
    if ids.len() > 0 {
        let rest = ids.drop_last();
        law_lenient_reading_reads_each(reader, rest);
        assert(ids[ids.len() - 1] == ids.last());
        assert forall|oid: ObjectId| ids.contains(oid) == (rest.contains(oid) || oid == ids.last()) by {
            lemma_last(ids, oid);
        }
        match read_present(reader, rest) {
            Err(err) => {
                let i = choose|i: int|
                    0 <= i < rest.len() && reader.object_at(#[trigger] rest[i]) == Err::<
                        Arc<EncodedObject>,
                        GitError,
                    >(err);
                assert(ids[i] == rest[i]);
            },
            Ok(before) => {
                if let Ok(objects) = read_present(reader, ids) {
                    assert forall|object: ReachablePackObject| #[trigger] objects.contains(object) <==> ids.contains(
                        object.oid,
                    ) && reader.object_at(object.oid) == Ok::<Arc<EncodedObject>, GitError>(object.object) by {
                        if objects.len() > before.len() {
                            assert(objects.drop_last() =~= before);
                            lemma_last(objects, object);
                        }
                    }
                }
            },
        }
    }
}

proof fn lemma_reads_set<R: ObjectReader>(reader: &R, set: Set<ObjectId>, objects: Seq<ReachablePackObject>)
    requires
        reads_set(reader, set, Ok::<Seq<ReachablePackObject>, GitError>(objects)),
    ensures
        forall|object: ReachablePackObject| #[trigger]
            objects.contains(object) <==> set.contains(object.oid) && reader.object_at(object.oid) == Ok::<
                Arc<EncodedObject>,
                GitError,
            >(object.object),
{
    let outcome = Ok::<Seq<ReachablePackObject>, GitError>(objects);
    let ids = choose|ids: Seq<ObjectId>| #[trigger]
        are_sorted_ids(ids, set) && read_present(reader, ids) == outcome;
    assert(read_present(reader, ids) == outcome);
    law_lenient_reading_reads_each(reader, ids);
    assert(read_present(reader, ids)->Ok_0 == objects);
    assert forall|oid: ObjectId| set.contains(oid) == #[trigger] ids.contains(oid) by {
        assert(ids.to_set().contains(oid) == set.contains(oid));
    }
}

proof fn lemma_reads_dated<R: ObjectReader>(reader: &R, mtimes: Map<ObjectId, u32>, objects: Seq<CruftObject>)
    requires
        reads_dated(reader, mtimes, Ok::<Seq<CruftObject>, GitError>(objects)),
    ensures
        forall|object: CruftObject| #[trigger]
            objects.contains(object) <==> mtimes.contains_key(object.oid) && object.mtime == mtimes[object.oid]
                && reader.object_at(object.oid) == Ok::<Arc<EncodedObject>, GitError>(object.object),
{
    let outcome = Ok::<Seq<CruftObject>, GitError>(objects);
    let ids = choose|ids: Seq<ObjectId>| #[trigger]
        are_sorted_keys(ids, mtimes) && read_cruft(reader, mtimes, ids) == outcome;
    assert(read_cruft(reader, mtimes, ids) == outcome);
    law_dated_reading_reads_each(reader, mtimes, ids);
    assert(read_cruft(reader, mtimes, ids)->Ok_0 == objects);
    assert forall|oid: ObjectId| mtimes.contains_key(oid) == #[trigger] ids.contains(oid) by {
        assert(ids.to_set().contains(oid) == mtimes.dom().contains(oid));
    }
}

proof fn lemma_last<T>(items: Seq<T>, item: T)
    requires
        items.len() > 0,
    ensures
        items.contains(item) == (items.drop_last().contains(item) || item == items.last()),
{
    let rest = items.drop_last();
    assert(items[items.len() - 1] == items.last());
    if rest.contains(item) {
        let i = choose|i: int| 0 <= i < rest.len() && rest[i] == item;
        assert(items[i] == item);
    }
    if items.contains(item) {
        let i = choose|i: int| 0 <= i < items.len() && items[i] == item;
        if i < rest.len() {
            assert(rest[i] == item);
        }
    }
}

proof fn lemma_kept(inputs: CruftRepackInputs, options: RepackOptions, oid: ObjectId)
    ensures
        excluded_oids(
            inputs.files@,
            inputs.listings@,
            options.pack_kept_objects,
            retained_stems(inputs.files@, options.keep_pack_stems@, !options.pack_kept_objects),
        ).contains(oid) <==> (!options.pack_kept_objects && exists|i: int, j: int|
            0 <= i < inputs.files@.len() && 0 <= j < inputs.files@.len() && (#[trigger] inputs.files@[i]).has_index
                && inputs.listings@[i]@.contains(oid) && inputs.files@[i].stem@ == (
            #[trigger] inputs.files@[j]).stem@ && (inputs.files@[j].has_keep || exists|k: int|
                0 <= k < options.keep_pack_stems@.len() && (#[trigger] options.keep_pack_stems@[k])@
                    == inputs.files@[j].stem@)),
{
    let files = inputs.files@;
    let stems = retained_stems(files, options.keep_pack_stems@, !options.pack_kept_objects);
    assert forall|i: int|
        #![trigger files[i]]
        0 <= i < files.len() && !options.pack_kept_objects implies (stems.contains(files[i].stem@) <==> exists|j: int|
        0 <= j < files.len() && files[i].stem@ == (#[trigger] files[j]).stem@ && (files[j].has_keep || exists|k: int|
            0 <= k < options.keep_pack_stems@.len() && (#[trigger] options.keep_pack_stems@[k])@ == files[j].stem@)) by {
        lemma_listed_text(options.keep_pack_stems@, files[i].stem@);
        if exists|k: int|
            0 <= k < options.keep_pack_stems@.len() && (#[trigger] options.keep_pack_stems@[k])@ == files[i].stem@ {
            assert(files[i].stem@ == files[i].stem@);
        }
    }
}

proof fn lemma_left(
    inputs: CruftRepackInputs,
    combine_below: Option<u64>,
    cruft_expiration: Option<u32>,
    oid: ObjectId,
)
    ensures
        stem_oids(
            inputs.files@,
            inputs.listings@,
            left_cruft_stems(inputs.files@, combine_below, cruft_expiration is Some).to_set(),
        ).contains(oid) <==> (cruft_expiration is None && combine_below is Some && combine_below->Some_0 > 0 && exists|i: int, j: int|
            0 <= i < inputs.files@.len() && 0 <= j < inputs.files@.len() && (#[trigger] inputs.files@[i]).has_index
                && inputs.listings@[i]@.contains(oid) && inputs.files@[i].stem@ == (
            #[trigger] inputs.files@[j]).stem@ && inputs.files@[j].has_mtimes && inputs.files@[j].size
                >= combine_below->Some_0),
{
    let files = inputs.files@;
    let keep = |file: PackFile| keeps_cruft_pack(file, combine_below, cruft_expiration is Some);
    let stem_of = |file: PackFile| file.stem@;
    let names = files.filter(keep).map_values(stem_of);
    let left = left_cruft_stems(files, combine_below, cruft_expiration is Some);
    lemma_text_order();
    assert forall|i: int|
        #![trigger files[i]]
        0 <= i < files.len() implies (left.to_set().contains(files[i].stem@) <==> exists|j: int|
        0 <= j < files.len() && files[i].stem@ == (#[trigger] files[j]).stem@ && keep(files[j])) by {
        let stem = files[i].stem@;
        lemma_sort_contains(text_order(), names, stem);
        if names.contains(stem) {
            let m = choose|m: int| 0 <= m < names.len() && names[m] == stem;
            let file = files.filter(keep)[m];
            assert(files.filter(keep).contains(file));
            lemma_filter_contains(files, keep, file);
            let j = choose|j: int| 0 <= j < files.len() && files[j] == file;
            assert(files[i].stem@ == files[j].stem@ && keep(files[j]));
        }
        if exists|j: int| 0 <= j < files.len() && files[i].stem@ == (#[trigger] files[j]).stem@ && keep(files[j]) {
            let j = choose|j: int|
                0 <= j < files.len() && files[i].stem@ == (#[trigger] files[j]).stem@ && keep(files[j]);
            lemma_filter_contains(files, keep, files[j]);
            let m = choose|m: int| 0 <= m < files.filter(keep).len() && files.filter(keep)[m] == files[j];
            assert(names[m] == stem);
        }
    }
}

/// The new pack of a cruft repack holds what the roots lead to, as far as it is
/// there and no kept pack holds it.
pub proof fn law_cruft_plan_packs_the_reachable<R: ObjectReader>(
    reader: &R,
    inputs: CruftRepackInputs,
    roots: Seq<ObjectId>,
    recent_roots: Seq<ObjectId>,
    cruft_expiration: Option<u32>,
    options: RepackOptions,
    combine_below: Option<u64>,
    plan: CruftRepackPlan,
)
    requires
        is_cruft_plan(reader, inputs, roots, recent_roots, cruft_expiration, options, combine_below, Ok(plan)),
    ensures
        ({
            let starts = if options.local {
                roots.filter(|oid: ObjectId| inputs.present_roots@.contains(oid))
            } else {
                roots
            };
            let walked = tolerant_walk(reader, MissingPolicy::Promised, starts, inputs.promisor@);
            &&& walked is Ok
            &&& forall|entry: ReachablePackObject| #[trigger]
                plan.reachable@.contains(entry) <==> walked->Ok_0.contains(entry.oid) && reader.object_at(
                    entry.oid,
                ) == Ok::<Arc<EncodedObject>, GitError>(entry.object) && !(!options.pack_kept_objects && exists|i: int, j: int|
            0 <= i < inputs.files@.len() && 0 <= j < inputs.files@.len() && (#[trigger] inputs.files@[i]).has_index
                && inputs.listings@[i]@.contains(entry.oid) && inputs.files@[i].stem@ == (
            #[trigger] inputs.files@[j]).stem@ && (inputs.files@[j].has_keep || exists|k: int|
                0 <= k < options.keep_pack_stems@.len() && (#[trigger] options.keep_pack_stems@[k])@
                    == inputs.files@[j].stem@))
        }),
{
    let starts = crate::cruft_repack::repack_roots(roots, options.local, inputs.present_roots@);
    let seen = tolerant_walk(reader, MissingPolicy::Promised, starts, inputs.promisor@)->Ok_0;
    let retained = retained_stems(inputs.files@, options.keep_pack_stems@, !options.pack_kept_objects);
    let excluded = excluded_oids(inputs.files@, inputs.listings@, options.pack_kept_objects, retained);
    let reachable = seen.to_set().difference(excluded);
    assert(reads_set(reader, reachable, Ok::<Seq<ReachablePackObject>, GitError>(plan.reachable@)));
    lemma_reads_set(reader, reachable, plan.reachable@);
    assert forall|entry: ReachablePackObject| #[trigger] plan.reachable@.contains(entry) <==> seen.contains(entry.oid)
        && reader.object_at(entry.oid) == Ok::<Arc<EncodedObject>, GitError>(entry.object) && !excluded.contains(
        entry.oid,
    ) by {
    }
    assert forall|entry: ReachablePackObject| #[trigger] plan.reachable@.contains(entry) || true implies (
    excluded.contains(entry.oid) <==> (!options.pack_kept_objects && exists|i: int, j: int|
            0 <= i < inputs.files@.len() && 0 <= j < inputs.files@.len() && (#[trigger] inputs.files@[i]).has_index
                && inputs.listings@[i]@.contains(entry.oid) && inputs.files@[i].stem@ == (
            #[trigger] inputs.files@[j]).stem@ && (inputs.files@[j].has_keep || exists|k: int|
                0 <= k < options.keep_pack_stems@.len() && (#[trigger] options.keep_pack_stems@[k])@
                    == inputs.files@[j].stem@))) by {
        lemma_kept(inputs, options, entry.oid);
    }
}

/// Every object on disk that is there and that the roots do not lead to is
/// either kept as cruft or has expired, with the time it had, unless a kept
/// pack, a promisor pack or a cruft pack that is left as it is holds it or, in a
/// local repack, an alternate does. Without a cutoff nothing expires. With one,
/// just those are kept that `led` holds: it holds all cruft strictly newer than
/// the cutoff and the recent roots and, with each object that it holds, all that
/// the object's fields name.
pub proof fn law_cruft_plan_keeps_or_expires<R: ObjectReader>(
    reader: &R,
    inputs: CruftRepackInputs,
    roots: Seq<ObjectId>,
    recent_roots: Seq<ObjectId>,
    cruft_expiration: Option<u32>,
    options: RepackOptions,
    combine_below: Option<u64>,
    plan: CruftRepackPlan,
) -> (led: Set<ObjectId>)
    requires
        is_cruft_plan(reader, inputs, roots, recent_roots, cruft_expiration, options, combine_below, Ok(plan)),
    ensures
        forall|object: CruftObject| #[trigger]
            plan.cruft@.contains(object) ==> !plan.expired@.contains(object) && (cruft_expiration is Some
                ==> led.contains(object.oid)),
        forall|object: CruftObject| #[trigger]
            plan.expired@.contains(object) ==> cruft_expiration is Some && !led.contains(object.oid),
        ({
            let starts = if options.local {
                roots.filter(|oid: ObjectId| inputs.present_roots@.contains(oid))
            } else {
                roots
            };
            let walked = tolerant_walk(reader, MissingPolicy::Promised, starts, inputs.promisor@);
            &&& walked is Ok
            &&& forall|object: CruftObject|
                #![trigger plan.cruft@.contains(object)]
                #![trigger plan.expired@.contains(object)]
                (plan.cruft@.contains(object) || plan.expired@.contains(object)) <==> {
                    &&& inputs.mtimes@.contains_key(object.oid)
                    &&& object.mtime == inputs.mtimes@[object.oid]
                    &&& reader.object_at(object.oid) == Ok::<Arc<EncodedObject>, GitError>(object.object)
                    &&& !walked->Ok_0.contains(object.oid)
                    &&& !inputs.promisor@.contains(object.oid)
                    &&& !(options.local && inputs.alternates@.contains(object.oid))
                    &&& !(!options.pack_kept_objects && exists|i: int, j: int|
            0 <= i < inputs.files@.len() && 0 <= j < inputs.files@.len() && (#[trigger] inputs.files@[i]).has_index
                && inputs.listings@[i]@.contains(object.oid) && inputs.files@[i].stem@ == (
            #[trigger] inputs.files@[j]).stem@ && (inputs.files@[j].has_keep || exists|k: int|
                0 <= k < options.keep_pack_stems@.len() && (#[trigger] options.keep_pack_stems@[k])@
                    == inputs.files@[j].stem@))
                    &&& !(cruft_expiration is None && combine_below is Some && combine_below->Some_0 > 0 && exists|i: int, j: int|
            0 <= i < inputs.files@.len() && 0 <= j < inputs.files@.len() && (#[trigger] inputs.files@[i]).has_index
                && inputs.listings@[i]@.contains(object.oid) && inputs.files@[i].stem@ == (
            #[trigger] inputs.files@[j]).stem@ && inputs.files@[j].has_mtimes && inputs.files@[j].size
                >= combine_below->Some_0)
                }
            &&& cruft_expiration is Some ==> forall|oid: ObjectId| #[trigger]
                inputs.mtimes@.contains_key(oid) && inputs.mtimes@[oid] > cruft_expiration->Some_0
                    && !walked->Ok_0.contains(oid) && !inputs.promisor@.contains(oid) && !(options.local
                    && inputs.alternates@.contains(oid)) && !(!options.pack_kept_objects && exists|i: int, j: int|
            0 <= i < inputs.files@.len() && 0 <= j < inputs.files@.len() && (#[trigger] inputs.files@[i]).has_index
                && inputs.listings@[i]@.contains(oid) && inputs.files@[i].stem@ == (
            #[trigger] inputs.files@[j]).stem@ && (inputs.files@[j].has_keep || exists|k: int|
                0 <= k < options.keep_pack_stems@.len() && (#[trigger] options.keep_pack_stems@[k])@
                    == inputs.files@[j].stem@)) ==> led.contains(oid)
        }),
        forall|i: int| 0 <= i < recent_roots.len() ==> led.contains(#[trigger] recent_roots[i]),
        forall|oid: ObjectId| #[trigger]
            led.contains(oid) && reader.object_at(oid) is Ok ==> match reader.object_at(oid)->Ok_0.content {
                ObjectContent::Commit(Ok(commit)) => {
                    &&& led.contains(commit.tree)
                    &&& forall|i: int| 0 <= i < commit.parents@.len() ==> led.contains(#[trigger] commit.parents@[i])
                },
                ObjectContent::Tree(entries) => forall|i: int|
                    0 <= i < entries@.len() && (#[trigger] entries@[i]) is Ok && entries@[i]->Ok_0.kind
                        != TreeEntryKind::Gitlink ==> led.contains(entries@[i]->Ok_0.oid),
                ObjectContent::Tag(Ok(target)) => led.contains(target),
                _ => true,
            },
{
    let starts = crate::cruft_repack::repack_roots(roots, options.local, inputs.present_roots@);
    let seen = tolerant_walk(reader, MissingPolicy::Promised, starts, inputs.promisor@)->Ok_0;
    let retained = retained_stems(inputs.files@, options.keep_pack_stems@, !options.pack_kept_objects);
    let excluded = excluded_oids(inputs.files@, inputs.listings@, options.pack_kept_objects, retained);
    let left = left_cruft_stems(inputs.files@, combine_below, cruft_expiration is Some);
    let in_left = stem_oids(inputs.files@, inputs.listings@, left.to_set());
    let reachable = seen.to_set().difference(excluded);
    let cruft = cruft_on_disk(inputs, options, reachable, retained, left.to_set());
    let recent = recent_roots.to_set();
    let kept = kept_cruft(reader, cruft, cruft_expiration, recent);
    let dropped = given_up(reader, cruft, cruft_expiration, recent);
    let cutoff: u32 = match cruft_expiration {
        Some(cutoff) => cutoff,
        None => 0,
    };
    let led = law_rescue_follows_every_link(reader, cruft, cutoff, recent);
    assert(reads_dated(reader, kept, Ok::<Seq<CruftObject>, GitError>(plan.cruft@)));
    assert(reads_dated(reader, dropped, Ok::<Seq<CruftObject>, GitError>(plan.expired@)));
    lemma_reads_dated(reader, kept, plan.cruft@);
    lemma_reads_dated(reader, dropped, plan.expired@);
    assert forall|oid: ObjectId| #[trigger] cruft.contains_key(oid) <==> {
        &&& inputs.mtimes@.contains_key(oid)
        &&& !seen.contains(oid)
        &&& !excluded.contains(oid)
        &&& !inputs.promisor@.contains(oid)
        &&& !(options.local && inputs.alternates@.contains(oid))
        &&& !in_left.contains(oid)
    } by {}
    assert forall|object: CruftObject| #[trigger] plan.cruft@.contains(object) <==> cruft.contains_key(object.oid)
        && object.mtime == inputs.mtimes@[object.oid] && reader.object_at(object.oid) == Ok::<
        Arc<EncodedObject>,
        GitError,
    >(object.object) && (cruft_expiration is Some ==> led.contains(object.oid)) by {
    }
    assert forall|object: CruftObject| #[trigger] plan.expired@.contains(object) <==> cruft.contains_key(object.oid)
        && object.mtime == inputs.mtimes@[object.oid] && reader.object_at(object.oid) == Ok::<
        Arc<EncodedObject>,
        GitError,
    >(object.object) && cruft_expiration is Some && !led.contains(object.oid) by {
    }
    assert forall|object: CruftObject|
        #![trigger plan.cruft@.contains(object)]
        #![trigger plan.expired@.contains(object)]
        (plan.cruft@.contains(object) || plan.expired@.contains(object)) <==> {
            &&& inputs.mtimes@.contains_key(object.oid)
            &&& object.mtime == inputs.mtimes@[object.oid]
            &&& reader.object_at(object.oid) == Ok::<Arc<EncodedObject>, GitError>(object.object)
            &&& !seen.contains(object.oid)
            &&& !inputs.promisor@.contains(object.oid)
            &&& !(options.local && inputs.alternates@.contains(object.oid))
            &&& !(!options.pack_kept_objects && exists|i: int, j: int|
            0 <= i < inputs.files@.len() && 0 <= j < inputs.files@.len() && (#[trigger] inputs.files@[i]).has_index
                && inputs.listings@[i]@.contains(object.oid) && inputs.files@[i].stem@ == (
            #[trigger] inputs.files@[j]).stem@ && (inputs.files@[j].has_keep || exists|k: int|
                0 <= k < options.keep_pack_stems@.len() && (#[trigger] options.keep_pack_stems@[k])@
                    == inputs.files@[j].stem@))
            &&& !(cruft_expiration is None && combine_below is Some && combine_below->Some_0 > 0 && exists|i: int, j: int|
            0 <= i < inputs.files@.len() && 0 <= j < inputs.files@.len() && (#[trigger] inputs.files@[i]).has_index
                && inputs.listings@[i]@.contains(object.oid) && inputs.files@[i].stem@ == (
            #[trigger] inputs.files@[j]).stem@ && inputs.files@[j].has_mtimes && inputs.files@[j].size
                >= combine_below->Some_0)
        } by {
        lemma_kept(inputs, options, object.oid);
        lemma_left(inputs, combine_below, cruft_expiration, object.oid);
    }
    if cruft_expiration is Some {
        assert forall|oid: ObjectId| #[trigger]
            inputs.mtimes@.contains_key(oid) && inputs.mtimes@[oid] > cruft_expiration->Some_0 && !seen.contains(oid)
                && !inputs.promisor@.contains(oid) && !(options.local && inputs.alternates@.contains(oid))
                && !(!options.pack_kept_objects && exists|i: int, j: int|
            0 <= i < inputs.files@.len() && 0 <= j < inputs.files@.len() && (#[trigger] inputs.files@[i]).has_index
                && inputs.listings@[i]@.contains(oid) && inputs.files@[i].stem@ == (
            #[trigger] inputs.files@[j]).stem@ && (inputs.files@[j].has_keep || exists|k: int|
                0 <= k < options.keep_pack_stems@.len() && (#[trigger] options.keep_pack_stems@[k])@
                    == inputs.files@[j].stem@)) implies led.contains(oid) by {
            lemma_kept(inputs, options, oid);
            lemma_left(inputs, combine_below, cruft_expiration, oid);
            assert(cruft.contains_key(oid));
        }
    }
    assert forall|i: int| 0 <= i < recent_roots.len() implies led.contains(#[trigger] recent_roots[i]) by {
        assert(recent.contains(recent_roots[i]));
    }
    led
}

/// With a cutoff nothing is kept but for that: whatever `set` holds the cruft
/// strictly newer than the cutoff and the recent roots and, with each object
/// that it holds, all that the object's fields name, holds all cruft kept.
pub proof fn law_cruft_plan_keeps_nothing_else<R: ObjectReader>(
    reader: &R,
    inputs: CruftRepackInputs,
    roots: Seq<ObjectId>,
    recent_roots: Seq<ObjectId>,
    cutoff: u32,
    options: RepackOptions,
    combine_below: Option<u64>,
    plan: CruftRepackPlan,
    set: Set<ObjectId>,
)
    requires
        is_cruft_plan(reader, inputs, roots, recent_roots, Some(cutoff), options, combine_below, Ok(plan)),
        ({
            let starts = if options.local {
                roots.filter(|oid: ObjectId| inputs.present_roots@.contains(oid))
            } else {
                roots
            };
            let walked = tolerant_walk(reader, MissingPolicy::Promised, starts, inputs.promisor@);
            forall|oid: ObjectId| #[trigger]
                inputs.mtimes@.contains_key(oid) && inputs.mtimes@[oid] > cutoff && !walked->Ok_0.contains(oid)
                    && !inputs.promisor@.contains(oid) && !(options.local && inputs.alternates@.contains(oid))
                    && !(!options.pack_kept_objects && exists|i: int, j: int|
            0 <= i < inputs.files@.len() && 0 <= j < inputs.files@.len() && (#[trigger] inputs.files@[i]).has_index
                && inputs.listings@[i]@.contains(oid) && inputs.files@[i].stem@ == (
            #[trigger] inputs.files@[j]).stem@ && (inputs.files@[j].has_keep || exists|k: int|
                0 <= k < options.keep_pack_stems@.len() && (#[trigger] options.keep_pack_stems@[k])@
                    == inputs.files@[j].stem@)) ==> set.contains(oid)
        }),
        forall|i: int| 0 <= i < recent_roots.len() ==> set.contains(#[trigger] recent_roots[i]),
        forall|oid: ObjectId| #[trigger]
            set.contains(oid) && reader.object_at(oid) is Ok ==> match reader.object_at(oid)->Ok_0.content {
                ObjectContent::Commit(Ok(commit)) => {
                    &&& set.contains(commit.tree)
                    &&& forall|i: int| 0 <= i < commit.parents@.len() ==> set.contains(#[trigger] commit.parents@[i])
                },
                ObjectContent::Tree(entries) => forall|i: int|
                    0 <= i < entries@.len() && (#[trigger] entries@[i]) is Ok && entries@[i]->Ok_0.kind
                        != TreeEntryKind::Gitlink ==> set.contains(entries@[i]->Ok_0.oid),
                ObjectContent::Tag(Ok(target)) => set.contains(target),
                _ => true,
            },
    ensures
        forall|object: CruftObject| #[trigger] plan.cruft@.contains(object) ==> set.contains(object.oid),
{
    let starts = crate::cruft_repack::repack_roots(roots, options.local, inputs.present_roots@);
    let seen = tolerant_walk(reader, MissingPolicy::Promised, starts, inputs.promisor@)->Ok_0;
    let retained = retained_stems(inputs.files@, options.keep_pack_stems@, !options.pack_kept_objects);
    let excluded = excluded_oids(inputs.files@, inputs.listings@, options.pack_kept_objects, retained);
    let left = left_cruft_stems(inputs.files@, combine_below, true);
    let reachable = seen.to_set().difference(excluded);
    let cruft = cruft_on_disk(inputs, options, reachable, retained, left.to_set());
    let recent = recent_roots.to_set();
    let kept = kept_cruft(reader, cruft, Some(cutoff), recent);
    assert(reads_dated(reader, kept, Ok::<Seq<CruftObject>, GitError>(plan.cruft@)));
    lemma_reads_dated(reader, kept, plan.cruft@);
    assert forall|oid: ObjectId| #[trigger] cruft.contains_key(oid) && cruft[oid] > cutoff implies set.contains(oid) by {
        lemma_kept(inputs, options, oid);
        assert(inputs.mtimes@.contains_key(oid));
    }
    assert forall|oid: ObjectId| #[trigger] recent.contains(oid) implies set.contains(oid) by {
        let i = choose|i: int| 0 <= i < recent_roots.len() && recent_roots[i] == oid;
        assert(set.contains(recent_roots[i]));
    }
    law_rescue_keeps_nothing_else(reader, cruft, cutoff, recent, set);
    assert forall|object: CruftObject| #[trigger] plan.cruft@.contains(object) implies set.contains(object.oid) by {
        assert(kept.contains_key(object.oid));
        assert(cruft.contains_key(object.oid));
    }
}

/// The packs that a cruft repack supersedes are those that there are but for
/// packs with a keep mark, packs kept by name and cruft packs left as they are;
/// cruft packs are listed apart.
pub proof fn law_cruft_plan_supersedes_the_rest<R: ObjectReader>(
    reader: &R,
    inputs: CruftRepackInputs,
    roots: Seq<ObjectId>,
    recent_roots: Seq<ObjectId>,
    cruft_expiration: Option<u32>,
    options: RepackOptions,
    combine_below: Option<u64>,
    plan: CruftRepackPlan,
    file: PackFile,
)
    requires
        is_cruft_plan(reader, inputs, roots, recent_roots, cruft_expiration, options, combine_below, Ok(plan)),
        inputs.files@.contains(file),
        forall|i: int| 0 <= i < inputs.files@.len() && (#[trigger] inputs.files@[i]).stem@ == file.stem@
            ==> inputs.files@[i] == file,
    ensures
        ({
            let named = exists|k: int|
                0 <= k < options.keep_pack_stems@.len() && (#[trigger] options.keep_pack_stems@[k])@ == file.stem@;
            let left = cruft_expiration is None && combine_below is Some && combine_below->Some_0 > 0
                && file.has_mtimes && file.size >= combine_below->Some_0;
            &&& texts(plan.superseded.packs@).contains(file.stem@) <==> !file.has_keep && !named && !file.has_mtimes
            &&& texts(plan.superseded.cruft_packs@).contains(file.stem@) <==> !file.has_keep && !named
                && file.has_mtimes && !left
        }),
{
    let files = inputs.files@;
    let retained = retained_stems(files, options.keep_pack_stems@, !options.pack_kept_objects);
    let left = left_cruft_stems(files, combine_below, cruft_expiration is Some);
    let keep = |file: PackFile| keeps_cruft_pack(file, combine_below, cruft_expiration is Some);
    let stem_of = |file: PackFile| file.stem@;
    lemma_listed_text(options.keep_pack_stems@, file.stem@);
    lemma_text_order();
    lemma_sort_contains(text_order(), files.filter(keep).map_values(stem_of), file.stem@);
    lemma_stem_listed(files, keep, file);
    lemma_stem_listed(
        files,
        |file: PackFile| is_replaced(file, retained, left.to_set()) && !file.has_mtimes,
        file,
    );
    lemma_stem_listed(
        files,
        |file: PackFile| is_replaced(file, retained, left.to_set()) && file.has_mtimes,
        file,
    );
    assert(left.to_set().contains(file.stem@) <==> keep(file));
}

/// The stem of a pack that no other pack shares is listed where the pack is.
proof fn lemma_stem_listed(files: Seq<PackFile>, keep: spec_fn(PackFile) -> bool, file: PackFile)
    requires
        files.contains(file),
        forall|i: int| 0 <= i < files.len() && (#[trigger] files[i]).stem@ == file.stem@ ==> files[i] == file,
    ensures
        files.filter(keep).map_values(|file: PackFile| file.stem@).contains(file.stem@) <==> keep(file),
{
    let kept = files.filter(keep);
    let stems = kept.map_values(|file: PackFile| file.stem@);
    lemma_filter_contains(files, keep, file);
    if kept.contains(file) {
        let k = choose|k: int| 0 <= k < kept.len() && kept[k] == file;
        assert(stems[k] == file.stem@);
    }
    if stems.contains(file.stem@) {
        let k = choose|k: int| 0 <= k < stems.len() && stems[k] == file.stem@;
        assert(kept.contains(kept[k]));
        lemma_filter_contains(files, keep, kept[k]);
        let i = choose|i: int| 0 <= i < files.len() && files[i] == kept[k];
        assert(files[i] == file);
    }
}

/// A `repack -A` writes loose just the objects of the packs it replaces that
/// neither the roots lead to nor are loose already and, with a cutoff, that are
/// strictly newer than it or recent.
pub proof fn law_unpacking_writes_recent_unreachable(
    mtimes: Map<ObjectId, u32>,
    oid: ObjectId,
    reachable: Set<ObjectId>,
    loose: Set<ObjectId>,
    recent: Set<ObjectId>,
    unpack_before: Option<u32>,
)
    requires
        is_unpacked(mtimes, oid, reachable, loose, recent, unpack_before),
    ensures
        mtimes.contains_key(oid),
        !reachable.contains(oid),
        !loose.contains(oid),
        unpack_before is Some && !recent.contains(oid) ==> mtimes[oid] > unpack_before->Some_0,
{
}

/// What counts as recent is all that the recent roots lead to.
pub proof fn law_recent_is_what_recent_roots_lead_to<R: ObjectReader>(reader: &R, recent_roots: Seq<ObjectId>)
    ensures
        recent_walk(reader, recent_roots) == tolerant_walk(
            reader,
            MissingPolicy::Promised,
            recent_roots,
            Set::empty(),
        ),
{
    if recent_roots.len() == 0 {
        assert(recent_roots =~= Seq::empty());
    }
}

/// A `repack -A` replaces every pack but for packs kept by a mark or by name and
/// promisor packs, and what it writes loose has the time it had.
pub proof fn law_unpacking_replaces_ordinary_packs(
    file: PackFile,
    retained: Set<Seq<char>>,
    map: Map<ObjectId, u32>,
    keep: spec_fn(ObjectId) -> bool,
    oid: ObjectId,
)
    ensures
        is_unpacked_pack(file, retained) <==> !file.has_keep && !file.has_promisor && !retained.contains(file.stem@),
        restricted(map, keep).contains_key(oid) <==> map.contains_key(oid) && keep(oid),
        restricted(map, keep).contains_key(oid) ==> restricted(map, keep)[oid] == map[oid],
{
}

} // verus!
