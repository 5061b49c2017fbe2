//! What a repack of the reachable objects packs, in terms of the objects and
//! packs that it meets.

use crate::error::GitError;
use crate::filter_laws::lemma_listed_text;
use crate::link_laws::decodes;
use crate::link_laws::lemma_stacked_names;
use crate::link_laws::names;
use crate::object::EncodedObject;
use crate::object::ObjectContent;
use crate::object::ObjectReader;
use crate::object::TreeEntryKind;
use crate::object_id::ObjectId;
use crate::oid_map::OidSet;
use crate::order::lemma_filter_contains;
use crate::pack_file::entry_ids;
use crate::pack_file::PackFile;
use crate::pack_file::PackIndexEntry;
use crate::reachable_repack::excluded_oids;
use crate::reachable_repack::is_reachable_plan;
use crate::reachable_repack::ReachableRepackInputs;
use crate::reachable_repack::ReachableRepackPlan;
use crate::repack::append_new;
use crate::repack::cached_graph;
use crate::repack::cached_types;
use crate::repack::lender_count;
use crate::repack::lent;
use crate::repack::over_limit;
use crate::repack::packable;
use crate::repack::packed_of;
use crate::repack::promisor_ids;
use crate::repack::read_all;
use crate::repack::repack_closure;
use crate::repack::repack_object;
use crate::repack::repack_schedule;
use crate::repack::repack_walk;
use crate::repack::retained_stems;
use crate::repack::served_loose;
use crate::repack::superseded;
use crate::repack::RepackBitmapObject;
use crate::repack::RepackOptions;
use crate::transfer::pack_objects;
use crate::transfer::ReachablePackObject;
use crate::walk::is_closed;
use crate::walk::law_walk_visits_closure;
use crate::walk::reaches;
use crate::walk::successors;
use crate::walk_laws::lemma_push_contains;
use std::sync::Arc;
use vstd::prelude::*;

verus! {

/// An object that the repository lacks is borrowed from the first alternate
/// that has it in a pack and reads it. One that has it in a pack and fails to
/// read it for another reason than that it is missing ends the search with its
/// error.
pub proof fn law_borrowing_takes_the_first<A: ObjectReader>(
    alternates: Seq<A>,
    packed: Seq<OidSet>,
    n: nat,
    oid: ObjectId,
)
    requires
        n <= alternates.len(),
        n <= packed.len(),
    ensures
        match lent(alternates, packed, n, oid) {
            Ok(None) => forall|k: int|
                #![trigger packed[k]]
                0 <= k < n ==> !packed[k]@.contains(oid) || (alternates[k].object_at(oid) matches Err(
                    GitError::NotFound(_),
                )),
            Ok(Some(object)) => exists|k: int|
                #![trigger packed[k]]
                0 <= k < n && packed[k]@.contains(oid) && alternates[k].object_at(oid) == Ok::<
                    Arc<EncodedObject>,
                    GitError,
                >(object) && forall|j: int|
                    #![trigger packed[j]]
                    0 <= j < k ==> !packed[j]@.contains(oid) || (alternates[j].object_at(oid) matches Err(
                        GitError::NotFound(_),
                    )),
            Err(err) => exists|k: int|
                #![trigger packed[k]]
                0 <= k < n && packed[k]@.contains(oid) && alternates[k].object_at(oid) == Err::<
                    Arc<EncodedObject>,
                    GitError,
                >(err) && !(err is NotFound) && forall|j: int|
                    #![trigger packed[j]]
                    0 <= j < k ==> !packed[j]@.contains(oid) || (alternates[j].object_at(oid) matches Err(
                        GitError::NotFound(_),
                    )),
        },
    decreases n,
{
    if n > 0 {
        law_borrowing_takes_the_first(alternates, packed, (n - 1) as nat, oid);
        let last = packed[n - 1];
    }
}

proof fn lemma_packed_of<R: ObjectReader, A: ObjectReader>(
    reader: &R,
    alternates: Seq<A>,
    packed: Seq<OidSet>,
    lenders: nat,
    promisor: Set<ObjectId>,
    excluded: Set<ObjectId>,
    ids: Seq<ObjectId>,
)
    requires
        ids.no_duplicates(),
    ensures
        ({
            let objects = packed_of(reader, alternates, packed, lenders, promisor, excluded, ids);
            &&& forall|entry: ReachablePackObject| #[trigger]
                objects.contains(entry) <==> ids.contains(entry.oid) && !excluded.contains(entry.oid) && packable(
                    reader,
                    alternates,
                    packed,
                    lenders,
                    promisor,
                    entry.oid,
                ) == Some(entry.object)
            &&& forall|i: int, j: int|
                0 <= i < j < objects.len() ==> (#[trigger] objects[i]).oid != (#[trigger] objects[j]).oid
        }),
    decreases ids.len(),
{
    let objects = packed_of(reader, alternates, packed, lenders, promisor, excluded, ids);
    if ids.len() > 0 {
        let rest = ids.drop_last();
        let last = ids.last();
        let before = packed_of(reader, alternates, packed, lenders, promisor, excluded, rest);
        assert(ids[ids.len() - 1] == last);
        assert forall|i: int, j: int| 0 <= i < rest.len() && 0 <= j < rest.len() && i != j implies rest[i]
            != rest[j] by {
            assert(ids[i] == rest[i] && ids[j] == rest[j]);
        }
        lemma_packed_of(reader, alternates, packed, lenders, promisor, excluded, rest);
        assert forall|oid: ObjectId| ids.contains(oid) == (rest.contains(oid) || oid == last) by {
            if rest.contains(oid) {
                let i = choose|i: int| 0 <= i < rest.len() && rest[i] == oid;
                assert(ids[i] == oid);
            }
            if ids.contains(oid) {
                let i = choose|i: int| 0 <= i < ids.len() && ids[i] == oid;
                if i < rest.len() {
                    assert(rest[i] == oid);
                }
            }
        }
        assert(!rest.contains(last)) by {
            if rest.contains(last) {
                let i = choose|i: int| 0 <= i < rest.len() && rest[i] == last;
                assert(ids[i] == ids[ids.len() - 1]);
            }
        }
        assert forall|k: int| 0 <= k < before.len() implies (#[trigger] before[k]).oid != last by {
            assert(before.contains(before[k]));
        }
        assert forall|entry: ReachablePackObject| #[trigger] objects.contains(entry) <==> ids.contains(entry.oid)
            && !excluded.contains(entry.oid) && packable(
            reader,
            alternates,
            packed,
            lenders,
            promisor,
            entry.oid,
        ) == Some(entry.object) by {
            if before.contains(entry) {
                let k = choose|k: int| 0 <= k < before.len() && before[k] == entry;
                assert(objects[k] == entry);
            }
            if objects.contains(entry) {
                let k = choose|k: int| 0 <= k < objects.len() && objects[k] == entry;
                if k < before.len() {
                    assert(before[k] == entry);
                }
            }
            if objects.len() > before.len() {
                assert(objects[before.len() as int].oid == last);
            }
        }
    }
}

/// An all-into-one repack packs what the roots lead to. The ids that it visits
/// hold every root and, with each object that is in no promisor pack and that
/// the repository or a lending alternate reads, everything that the object's
/// fields name. It packs each such object once, unless it is excluded, and
/// nothing else.
pub proof fn law_repack_packs_what_roots_lead_to<R: ObjectReader, A: ObjectReader>(
    reader: &R,
    alternates: Seq<A>,
    packed: Seq<OidSet>,
    lenders: nat,
    roots: Seq<ObjectId>,
    promisor: Set<ObjectId>,
    excluded: Set<ObjectId>,
)
    requires
        repack_closure(reader, alternates, packed, lenders, roots, promisor, excluded) is Ok,
    ensures
        repack_walk(reader, alternates, packed, lenders, promisor, roots) is Ok,
        ({
            let visited = repack_walk(reader, alternates, packed, lenders, promisor, roots)->Ok_0;
            let objects = repack_closure(reader, alternates, packed, lenders, roots, promisor, excluded)->Ok_0;
            &&& forall|i: int| 0 <= i < roots.len() ==> visited.contains(#[trigger] roots[i])
            &&& forall|oid: ObjectId| #[trigger]
                visited.contains(oid) && !promisor.contains(oid) && reader.object_at(oid) is Ok
                    ==> match reader.object_at(oid)->Ok_0.content {
                    ObjectContent::Commit(Ok(commit)) => {
                        &&& visited.contains(commit.tree)
                        &&& reader.grafted(oid) || forall|i: int|
                            0 <= i < commit.parents@.len() ==> visited.contains(#[trigger] commit.parents@[i])
                    },
                    ObjectContent::Tree(entries) => forall|i: int|
                        0 <= i < entries@.len() ==> (#[trigger] entries@[i]) is Ok && (entries@[i]->Ok_0.kind
                            == TreeEntryKind::Gitlink || visited.contains(entries@[i]->Ok_0.oid)),
                    ObjectContent::Tag(Ok(target)) => visited.contains(target),
                    ObjectContent::Blob => true,
                    _ => false,
                }
            &&& forall|oid: ObjectId| #[trigger]
                visited.contains(oid) && !promisor.contains(oid) && (reader.object_at(oid) matches Err(
                    GitError::NotFound(_),
                )) && (lent(alternates, packed, lenders, oid) matches Ok(Some(_))) ==> match lent(
                    alternates,
                    packed,
                    lenders,
                    oid,
                )->Ok_0->Some_0.content {
                    ObjectContent::Commit(Ok(commit)) => {
                        &&& visited.contains(commit.tree)
                        &&& reader.grafted(oid) || forall|i: int|
                            0 <= i < commit.parents@.len() ==> visited.contains(#[trigger] commit.parents@[i])
                    },
                    ObjectContent::Tree(entries) => forall|i: int|
                        0 <= i < entries@.len() ==> (#[trigger] entries@[i]) is Ok && (entries@[i]->Ok_0.kind
                            == TreeEntryKind::Gitlink || visited.contains(entries@[i]->Ok_0.oid)),
                    ObjectContent::Tag(Ok(target)) => visited.contains(target),
                    ObjectContent::Blob => true,
                    _ => false,
                }
            &&& forall|entry: ReachablePackObject| #[trigger]
                objects.contains(entry) <==> visited.contains(entry.oid) && !promisor.contains(entry.oid)
                    && !excluded.contains(entry.oid) && match reader.object_at(entry.oid) {
                    Ok(object) => object == entry.object,
                    Err(GitError::NotFound(_)) => lent(alternates, packed, lenders, entry.oid) == Ok::<
                        Option<Arc<EncodedObject>>,
                        GitError,
                    >(Some(entry.object)),
                    Err(_) => false,
                }
            &&& forall|i: int, j: int|
                0 <= i < j < objects.len() ==> (#[trigger] objects[i]).oid != (#[trigger] objects[j]).oid
        }),
{
    let graph = repack_schedule(reader, alternates, packed, lenders, promisor);
    law_walk_visits_closure(graph, Set::empty(), roots);
    let visited = repack_walk(reader, alternates, packed, lenders, promisor, roots)->Ok_0;
    let set = visited.to_set();
    lemma_packed_of(reader, alternates, packed, lenders, promisor, excluded, visited);
    assert forall|i: int| 0 <= i < roots.len() implies visited.contains(#[trigger] roots[i]) by {
        assert(roots.to_set().contains(roots[i]));
        assert(set.contains(roots[i]));
    }
    assert forall|oid: ObjectId, next: ObjectId| #![trigger visited.contains(oid), visited.contains(next)]
        visited.contains(oid) && found_names(reader, alternates, packed, lenders, promisor, oid, next)
        implies visited.contains(next) by {
        assert(graph(oid) is Ok);
        lemma_found_names(reader, alternates, packed, lenders, promisor, oid);
        assert(set.contains(oid));
        assert(successors(graph, oid).contains(next));
        assert(set.contains(next));
    }
    assert forall|oid: ObjectId| #[trigger] visited.contains(oid) implies (repack_object(
        reader,
        alternates,
        packed,
        lenders,
        promisor,
        oid,
    ) matches Ok(Some(object)) ==> decodes(*object)) by {
        assert(graph(oid) is Ok);
        lemma_found_names(reader, alternates, packed, lenders, promisor, oid);
    }
}

/// Whether the object that a repack finds under `oid` names `next`.
spec fn found_names<R: ObjectReader, A: ObjectReader>(
    reader: &R,
    alternates: Seq<A>,
    packed: Seq<OidSet>,
    lenders: nat,
    promisor: Set<ObjectId>,
    oid: ObjectId,
    next: ObjectId,
) -> bool {
    repack_object(reader, alternates, packed, lenders, promisor, oid) matches Ok(Some(object)) && names(
        *object,
        reader.grafted(oid),
        next,
    )
}

/// The object that a repack finds under `oid`, where it finds one.
spec fn found_object<R: ObjectReader, A: ObjectReader>(
    reader: &R,
    alternates: Seq<A>,
    packed: Seq<OidSet>,
    lenders: nat,
    promisor: Set<ObjectId>,
    oid: ObjectId,
) -> EncodedObject {
    *repack_object(reader, alternates, packed, lenders, promisor, oid)->Ok_0->Some_0
}

proof fn lemma_found_names<R: ObjectReader, A: ObjectReader>(
    reader: &R,
    alternates: Seq<A>,
    packed: Seq<OidSet>,
    lenders: nat,
    promisor: Set<ObjectId>,
    oid: ObjectId,
)
    ensures
        ({
            let graph = repack_schedule(reader, alternates, packed, lenders, promisor);
            &&& forall|next: ObjectId| #[trigger]
                successors(graph, oid).contains(next) ==> found_names(
                    reader,
                    alternates,
                    packed,
                    lenders,
                    promisor,
                    oid,
                    next,
                )
            &&& graph(oid) is Ok ==> forall|next: ObjectId|
                found_names(reader, alternates, packed, lenders, promisor, oid, next) ==> #[trigger] successors(
                    graph,
                    oid,
                ).contains(next)
            &&& repack_object(reader, alternates, packed, lenders, promisor, oid) matches Ok(Some(object)) ==> (graph(
                oid,
            ) is Ok <==> decodes(*object))
        }),
{
    lemma_stacked_names(found_object(reader, alternates, packed, lenders, promisor, oid), reader.grafted(oid));
}

/// An all-into-one repack packs nothing but what the roots lead to: whatever
/// `set` holds the roots and, with each object that it holds and that is found,
/// everything that the object's fields name, holds all that is packed.
pub proof fn law_repack_packs_nothing_else<R: ObjectReader, A: ObjectReader>(
    reader: &R,
    alternates: Seq<A>,
    packed: Seq<OidSet>,
    lenders: nat,
    roots: Seq<ObjectId>,
    promisor: Set<ObjectId>,
    excluded: Set<ObjectId>,
    set: Set<ObjectId>,
)
    requires
        repack_closure(reader, alternates, packed, lenders, roots, promisor, excluded) is Ok,
        forall|i: int| 0 <= i < roots.len() ==> set.contains(#[trigger] roots[i]),
        forall|oid: ObjectId| #[trigger]
            set.contains(oid) && !promisor.contains(oid) && reader.object_at(oid) is Ok
                ==> match reader.object_at(oid)->Ok_0.content {
                ObjectContent::Commit(Ok(commit)) => {
                    &&& set.contains(commit.tree)
                    &&& reader.grafted(oid) || forall|i: int|
                        0 <= i < commit.parents@.len() ==> set.contains(#[trigger] commit.parents@[i])
                },
                ObjectContent::Tree(entries) => forall|i: int|
                    0 <= i < entries@.len() && (#[trigger] entries@[i]) is Ok ==> entries@[i]->Ok_0.kind
                        == TreeEntryKind::Gitlink || set.contains(entries@[i]->Ok_0.oid),
                ObjectContent::Tag(Ok(target)) => set.contains(target),
                _ => true,
            },
        forall|oid: ObjectId| #[trigger]
            set.contains(oid) && !promisor.contains(oid) && (reader.object_at(oid) matches Err(
                GitError::NotFound(_),
            )) && (lent(alternates, packed, lenders, oid) matches Ok(Some(_))) ==> match lent(
                alternates,
                packed,
                lenders,
                oid,
            )->Ok_0->Some_0.content {
                ObjectContent::Commit(Ok(commit)) => {
                    &&& set.contains(commit.tree)
                    &&& reader.grafted(oid) || forall|i: int|
                        0 <= i < commit.parents@.len() ==> set.contains(#[trigger] commit.parents@[i])
                },
                ObjectContent::Tree(entries) => forall|i: int|
                    0 <= i < entries@.len() && (#[trigger] entries@[i]) is Ok ==> entries@[i]->Ok_0.kind
                        == TreeEntryKind::Gitlink || set.contains(entries@[i]->Ok_0.oid),
                ObjectContent::Tag(Ok(target)) => set.contains(target),
                _ => true,
            },
    ensures
        forall|entry: ReachablePackObject| #[trigger]
            repack_closure(reader, alternates, packed, lenders, roots, promisor, excluded)->Ok_0.contains(entry)
                ==> set.contains(entry.oid),
{
    let graph = repack_schedule(reader, alternates, packed, lenders, promisor);
    law_walk_visits_closure(graph, Set::empty(), roots);
    let visited = repack_walk(reader, alternates, packed, lenders, promisor, roots)->Ok_0;
    lemma_packed_of(reader, alternates, packed, lenders, promisor, excluded, visited);
    let begin = roots.to_set();
    assert forall|oid: ObjectId| begin.contains(oid) implies set.contains(oid) by {
        let i = choose|i: int| 0 <= i < roots.len() && roots[i] == oid;
        assert(set.contains(roots[i]));
    }
    assert forall|oid: ObjectId, next: ObjectId|
        #![trigger set.contains(oid), successors(graph, oid).contains(next)]
        set.contains(oid) && successors(graph, oid).contains(next) implies set.contains(next) by {
        lemma_found_names(reader, alternates, packed, lenders, promisor, oid);
        assert(found_names(reader, alternates, packed, lenders, promisor, oid, next));
    }
    assert(is_closed(graph, Set::empty(), begin, set));
    assert forall|entry: ReachablePackObject| #[trigger]
        repack_closure(reader, alternates, packed, lenders, roots, promisor, excluded)->Ok_0.contains(entry)
        implies set.contains(entry.oid) by {
        assert(visited.contains(entry.oid));
        assert(reaches(graph, Set::empty(), begin, entry.oid));
    }
}

/// What a plan packs and sets apart, of what the roots lead to: objects of packs
/// that are kept, by a mark or by name, are left where they are unless they are
/// to be packed too; of the others, blobs that are no roots and hold at least as
/// many bytes as the limit are set apart, and all else is packed. In a local
/// repack no alternate lends. A pack that there is may stand in for the new one
/// where nothing is set apart and no rewrite is forced.
pub proof fn law_plan_packs_or_sets_apart<R: ObjectReader, A: ObjectReader>(
    reader: &R,
    inputs: ReachableRepackInputs<A>,
    roots: Seq<ObjectId>,
    options: RepackOptions,
    blob_limit: Option<u64>,
    plan: ReachableRepackPlan,
    lenders: nat,
)
    requires
        inputs.is_wf(),
        is_reachable_plan(reader, inputs, roots, options, blob_limit, Ok(plan)),
        options.local ==> lenders == 0,
        !options.local ==> lenders == inputs.alternates@.len(),
    ensures
        ({
            let found = repack_closure(
                reader,
                inputs.alternates@,
                inputs.alternate_packed@,
                lenders,
                roots,
                inputs.promisor@,
                Set::empty(),
            );
            &&& found is Ok
            &&& forall|entry: ReachablePackObject| #[trigger]
                found->Ok_0.contains(entry) ==> {
                    let kept = !options.pack_kept_objects && exists|i: int, j: int|
                        0 <= i < inputs.files@.len() && 0 <= j < inputs.files@.len() && (
                        #[trigger] inputs.files@[i]).has_index && inputs.listings@[i]@.contains(entry.oid)
                            && inputs.files@[i].stem@ == (#[trigger] inputs.files@[j]).stem@ && (inputs.files@[j].has_keep
                            || exists|k: int|
                            0 <= k < options.keep_pack_stems@.len() && (#[trigger] options.keep_pack_stems@[k])@
                                == inputs.files@[j].stem@);
                    let apart = blob_limit is Some && entry.object.content is Blob && !roots.contains(entry.oid)
                        && entry.object.body@.len() >= blob_limit->Some_0;
                    &&& (plan.objects is Some && plan.objects->Some_0@.contains(entry)) == (!kept && !apart)
                    &&& plan.filtered_out@.contains(entry) == (!kept && apart)
                }
            &&& forall|entry: ReachablePackObject| #[trigger]
                plan.filtered_out@.contains(entry) ==> found->Ok_0.contains(entry)
            &&& plan.objects matches Some(objects) ==> objects@.len() > 0 && forall|entry: ReachablePackObject|
                #[trigger] objects@.contains(entry) ==> found->Ok_0.contains(entry)
            &&& plan.may_reuse == (blob_limit is None && !options.force_rewrite)
        }),
{
    assert(lenders == lender_count(options.local, inputs.alternates@.len()));
    let retained = retained_stems(inputs.files@, options.keep_pack_stems@, !options.pack_kept_objects);
    let excluded = excluded_oids(inputs.files@, inputs.listings@, options.pack_kept_objects, retained);
    let closure = repack_closure(
        reader,
        inputs.alternates@,
        inputs.alternate_packed@,
        lenders,
        roots,
        inputs.promisor@,
        excluded,
    )->Ok_0;
    let found = repack_closure(
        reader,
        inputs.alternates@,
        inputs.alternate_packed@,
        lenders,
        roots,
        inputs.promisor@,
        Set::empty(),
    )->Ok_0;
    law_repack_packs_what_roots_lead_to(
        reader,
        inputs.alternates@,
        inputs.alternate_packed@,
        lenders,
        roots,
        inputs.promisor@,
        excluded,
    );
    law_repack_packs_what_roots_lead_to(
        reader,
        inputs.alternates@,
        inputs.alternate_packed@,
        lenders,
        roots,
        inputs.promisor@,
        Set::empty(),
    );
    assert forall|entry: ReachablePackObject| #[trigger] closure.contains(entry) <==> found.contains(entry)
        && !excluded.contains(entry.oid) by {}
    assert forall|entry: ReachablePackObject| #[trigger] found.contains(entry) implies (excluded.contains(entry.oid)
        <==> !options.pack_kept_objects && exists|i: int, j: int|
        0 <= i < inputs.files@.len() && 0 <= j < inputs.files@.len() && (#[trigger] inputs.files@[i]).has_index
            && inputs.listings@[i]@.contains(entry.oid) && inputs.files@[i].stem@ == (
        #[trigger] inputs.files@[j]).stem@ && (inputs.files@[j].has_keep || exists|k: int|
            0 <= k < options.keep_pack_stems@.len() && (#[trigger] options.keep_pack_stems@[k])@
                == inputs.files@[j].stem@)) by {
        lemma_kept(inputs, options, entry.oid);
    }
    let over = |entry: ReachablePackObject| over_limit(entry, blob_limit->Some_0, roots.to_set());
    let under = |entry: ReachablePackObject| !over_limit(entry, blob_limit->Some_0, roots.to_set());
    assert forall|entry: ReachablePackObject|
        #![trigger found.contains(entry)]
        #![trigger closure.contains(entry)]
        (closure.filter(over).contains(entry) <==> closure.contains(entry) && over_limit(
            entry,
            blob_limit->Some_0,
            roots.to_set(),
        )) && (closure.filter(under).contains(entry) <==> closure.contains(entry) && !over_limit(
            entry,
            blob_limit->Some_0,
            roots.to_set(),
        )) by {
        lemma_filter_contains(closure, over, entry);
        lemma_filter_contains(closure, under, entry);
    }
    match blob_limit {
        Some(limit) => {
            assert(plan.filtered_out@ =~= closure.filter(over));
            assert forall|entry: ReachablePackObject| #[trigger] plan.filtered_out@.contains(entry)
                implies found.contains(entry) by {
                lemma_filter_contains(closure, over, entry);
            }
            if plan.objects is Some {
                assert(plan.objects->Some_0@ =~= closure.filter(under));
                assert forall|entry: ReachablePackObject| #[trigger] plan.objects->Some_0@.contains(entry)
                    implies found.contains(entry) by {
                    lemma_filter_contains(closure, under, entry);
                }
            } else {
                assert(closure.filter(under).len() == 0);
            }
        },
        None => {},
    }
}

proof fn lemma_kept<A>(inputs: ReachableRepackInputs<A>, options: RepackOptions, oid: ObjectId)
    ensures
        excluded_oids(
            inputs.files@,
            inputs.listings@,
            options.pack_kept_objects,
            retained_stems(inputs.files@, options.keep_pack_stems@, !options.pack_kept_objects),
        ).contains(oid) <==> !options.pack_kept_objects && exists|i: int, j: int|
            0 <= i < inputs.files@.len() && 0 <= j < inputs.files@.len() && (#[trigger] inputs.files@[i]).has_index
                && inputs.listings@[i]@.contains(oid) && inputs.files@[i].stem@ == (
            #[trigger] inputs.files@[j]).stem@ && (inputs.files@[j].has_keep || exists|k: int|
                0 <= k < options.keep_pack_stems@.len() && (#[trigger] options.keep_pack_stems@[k])@
                    == inputs.files@[j].stem@),
{
    let files = inputs.files@;
    let stems = retained_stems(files, options.keep_pack_stems@, !options.pack_kept_objects);
    assert forall|i: int|
        #![trigger files[i]]
        0 <= i < files.len() && !options.pack_kept_objects implies (stems.contains(files[i].stem@) <==> exists|j: int|
        0 <= j < files.len() && files[i].stem@ == (#[trigger] files[j]).stem@ && (files[j].has_keep || exists|k: int|
            0 <= k < options.keep_pack_stems@.len() && (#[trigger] options.keep_pack_stems@[k])@ == files[j].stem@)) by {
        lemma_listed_text(options.keep_pack_stems@, files[i].stem@);
        if exists|k: int|
            0 <= k < options.keep_pack_stems@.len() && (#[trigger] options.keep_pack_stems@[k])@ == files[i].stem@ {
            assert(files[i].stem@ == files[i].stem@);
        }
    }
}

/// Reading a list of objects reads each, in order.
pub proof fn law_reading_reads_each<R: ObjectReader>(reader: &R, ids: Seq<ObjectId>)
    ensures
        match read_all(reader, ids) {
            Ok(objects) => objects.len() == ids.len() && forall|i: int|
                #![trigger objects[i]]
                #![trigger ids[i]]
                0 <= i < ids.len() ==> objects[i].oid == ids[i] && reader.object_at(ids[i]) == Ok::<
                    Arc<EncodedObject>,
                    GitError,
                >(objects[i].object),
            Err(err) => exists|i: int|
                0 <= i < ids.len() && reader.object_at(#[trigger] ids[i]) == Err::<Arc<EncodedObject>, GitError>(err)
                    && forall|j: int| 0 <= j < i ==> reader.object_at(#[trigger] ids[j]) is Ok,
        },
    decreases ids.len(),
{
    if ids.len() > 0 {
        let rest = ids.drop_last();
        law_reading_reads_each(reader, rest);
        assert(ids[ids.len() - 1] == ids.last());
        match read_all(reader, rest) {
            Err(err) => {
                let i = choose|i: int|
                    0 <= i < rest.len() && reader.object_at(#[trigger] rest[i]) == Err::<
                        Arc<EncodedObject>,
                        GitError,
                    >(err) && forall|j: int| 0 <= j < i ==> reader.object_at(#[trigger] rest[j]) is Ok;
                assert(ids[i] == rest[i]);
                assert forall|j: int| 0 <= j < i implies reader.object_at(#[trigger] ids[j]) is Ok by {
                    assert(ids[j] == rest[j]);
                }
            },
            Ok(before) => {
                assert forall|j: int| 0 <= j < rest.len() implies ids[j] == rest[j] && reader.object_at(
                    #[trigger] ids[j],
                ) is Ok by {
                    assert(reader.object_at(rest[j]) is Ok);
                }
                if let Ok(objects) = read_all(reader, ids) {
                    assert forall|i: int|
                        #![trigger objects[i]]
                        #![trigger ids[i]]
                        0 <= i < ids.len() implies objects[i].oid == ids[i] && reader.object_at(ids[i]) == Ok::<
                        Arc<EncodedObject>,
                        GitError,
                    >(objects[i].object) by {
                        if i < rest.len() {
                            assert(rest[i] == ids[i]);
                            assert(objects[i] == before[i]);
                        }
                    }
                }
            },
        }
    }
}

/// All packs that there are are superseded by a new one, but for the new one.
pub proof fn law_all_but_the_new_pack_are_superseded(files: Seq<PackFile>, new_stem: Seq<char>, stem: Seq<char>)
    ensures
        superseded(files, new_stem).contains(stem) <==> stem != new_stem && exists|i: int|
            0 <= i < files.len() && (#[trigger] files[i]).stem@ == stem,
    decreases files.len(),
{
    if files.len() > 0 {
        let rest = files.drop_last();
        let last = files.len() - 1;
        law_all_but_the_new_pack_are_superseded(rest, new_stem, stem);
        let before = superseded(rest, new_stem);
        let after = superseded(files, new_stem);
        assert(files[last] == files.last());
        if before.contains(stem) {
            let k = choose|k: int| 0 <= k < before.len() && before[k] == stem;
            assert(after[k] == stem);
        }
        if after.contains(stem) {
            let k = choose|k: int| 0 <= k < after.len() && after[k] == stem;
            if k < before.len() {
                assert(before[k] == stem);
            }
        }
        if exists|i: int| 0 <= i < rest.len() && (#[trigger] rest[i]).stem@ == stem {
            let i = choose|i: int| 0 <= i < rest.len() && (#[trigger] rest[i]).stem@ == stem;
            assert(files[i] == rest[i]);
        }
        if exists|i: int| 0 <= i < files.len() && (#[trigger] files[i]).stem@ == stem {
            let i = choose|i: int| 0 <= i < files.len() && (#[trigger] files[i]).stem@ == stem;
            if i < last {
                assert(rest[i] == files[i]);
            } else if stem != new_stem {
                assert(after[before.len() as int] == stem);
            }
        }
    }
}

/// The loose objects that a new pack makes superfluous are those that it holds.
pub proof fn law_packed_loose_objects_are_listed(loose: Seq<ObjectId>, entries: Seq<PackIndexEntry>, oid: ObjectId)
    ensures
        served_loose(loose, entries).contains(oid) <==> loose.contains(oid) && exists|i: int|
            0 <= i < entries.len() && (#[trigger] entries[i]).oid == oid,
{
    let keep = |oid: ObjectId| entry_ids(entries).to_set().contains(oid);
    lemma_filter_contains(loose, keep, oid);
    crate::order::lemma_oid_order();
    crate::order::lemma_sort_contains(crate::order::oid_less(), loose.filter(keep), oid);
    let ids = entry_ids(entries);
    if ids.contains(oid) {
        let i = choose|i: int| 0 <= i < ids.len() && ids[i] == oid;
        assert(entries[i].oid == oid);
    }
    if exists|i: int| 0 <= i < entries.len() && (#[trigger] entries[i]).oid == oid {
        let i = choose|i: int| 0 <= i < entries.len() && (#[trigger] entries[i]).oid == oid;
        assert(ids[i] == oid);
    }
}

proof fn lemma_append_new(ids: Seq<ObjectId>, more: Seq<ObjectId>, oid: ObjectId)
    ensures
        append_new(ids, more).contains(oid) <==> ids.contains(oid) || more.contains(oid),
        ids.no_duplicates() ==> append_new(ids, more).no_duplicates(),
    decreases more.len(),
{
    if more.len() > 0 {
        let rest = more.drop_last();
        lemma_append_new(ids, rest, oid);
        let before = append_new(ids, rest);
        lemma_push_contains(before, more.last(), oid);
        assert(rest.push(more.last()) =~= more);
        lemma_push_contains(rest, more.last(), oid);
        if ids.no_duplicates() && !before.contains(more.last()) {
            let after = before.push(more.last());
            assert forall|i: int, j: int| 0 <= i < after.len() && 0 <= j < after.len() && i != j implies after[i]
                != after[j] by {
                if i < before.len() && j == before.len() {
                    assert(before.contains(before[i]));
                }
                if j < before.len() && i == before.len() {
                    assert(before.contains(before[j]));
                }
            }
        }
    }
}

/// A repack of promised objects takes each object of an indexed promisor pack
/// once, and no other.
pub proof fn law_promised_objects_are_selected_once(packs: Seq<(PackFile, Vec<ObjectId>)>, oid: ObjectId)
    ensures
        promisor_ids(packs).no_duplicates(),
        promisor_ids(packs).contains(oid) <==> exists|i: int|
            0 <= i < packs.len() && (#[trigger] packs[i]).0.has_promisor && packs[i].0.has_index && packs[i].1@.contains(
                oid,
            ),
    decreases packs.len(),
{
    if packs.len() > 0 {
        let rest = packs.drop_last();
        let last = packs.len() - 1;
        law_promised_objects_are_selected_once(rest, oid);
        assert(packs[last] == packs.last());
        lemma_append_new(promisor_ids(rest), packs.last().1@, oid);
        if exists|i: int|
            0 <= i < rest.len() && (#[trigger] rest[i]).0.has_promisor && rest[i].0.has_index && rest[i].1@.contains(
                oid,
            ) {
            let i = choose|i: int|
                0 <= i < rest.len() && (#[trigger] rest[i]).0.has_promisor && rest[i].0.has_index
                    && rest[i].1@.contains(oid);
            assert(packs[i] == rest[i]);
        }
        if exists|i: int|
            0 <= i < packs.len() && (#[trigger] packs[i]).0.has_promisor && packs[i].0.has_index
                && packs[i].1@.contains(oid) {
            let i = choose|i: int|
                0 <= i < packs.len() && (#[trigger] packs[i]).0.has_promisor && packs[i].0.has_index
                    && packs[i].1@.contains(oid);
            if i < last {
                assert(rest[i] == packs[i]);
            }
        }
    }
}

/// The objects of a transfer are those that were visited, each under its id, in
/// their order.
pub proof fn law_visited_objects_are_packed<R: ObjectReader>(reader: &R, ids: Seq<ObjectId>, i: int)
    requires
        0 <= i < ids.len(),
        reader.object_at(ids[i]) is Ok,
    ensures
        pack_objects(reader, ids).len() == ids.len(),
        pack_objects(reader, ids)[i].oid == ids[i],
        reader.object_at(ids[i]) == Ok::<Arc<EncodedObject>, GitError>(pack_objects(reader, ids)[i].object),
{
}

/// The packs that a repack retains are those named and, unless their objects are
/// packed too, those with a keep mark.
pub proof fn law_retained_packs_are_named_or_marked(
    files: Seq<PackFile>,
    explicit: Seq<String>,
    keep_dot_keep: bool,
    stem: Seq<char>,
)
    ensures
        retained_stems(files, explicit, keep_dot_keep).contains(stem) <==> (exists|k: int|
            0 <= k < explicit.len() && (#[trigger] explicit[k])@ == stem) || keep_dot_keep && exists|i: int|
            0 <= i < files.len() && (#[trigger] files[i]).has_keep && files[i].stem@ == stem,
{
    lemma_listed_text(explicit, stem);
}

/// A transfer is streamed from four thousand and ninety-six objects on.
pub proof fn law_large_transfers_are_streamed()
    ensures
        crate::transfer::REACHABLE_PACK_STREAMING_MIN_OBJECTS == 4096,
{
}

/// A cache of repacked objects gives each object its type and, for commits and
/// trees, the object.
pub proof fn law_cache_gives_types_and_graph(cache: Seq<RepackBitmapObject>, i: int)
    requires
        0 <= i < cache.len(),
        forall|j: int, k: int|
            0 <= j < k < cache.len() ==> (#[trigger] cache[j]).oid != (#[trigger] cache[k]).oid,
    ensures
        cached_types(cache).contains_key(cache[i].oid),
        cached_types(cache)[cache[i].oid] == cache[i].object_type,
        cached_graph(cache).contains_key(cache[i].oid) <==> cache[i].graph_object is Some,
        cache[i].graph_object matches Some(object) ==> cached_graph(cache)[cache[i].oid] == object,
    decreases cache.len(),
{
    let rest = cache.drop_last();
    let last = cache.len() - 1;
    assert forall|j: int, k: int| 0 <= j < k < rest.len() implies (#[trigger] rest[j]).oid != (#[trigger] rest[k]).oid by {
        assert(cache[j].oid != cache[k].oid);
    }
    if i < last {
        assert(cache[i].oid != cache[last].oid);
        law_cache_gives_types_and_graph(rest, i);
        assert(rest[i] == cache[i]);
    } else {
        assert(!cached_graph(rest).contains_key(cache[last].oid)) by {
            assert forall|k: int| 0 <= k < rest.len() implies (#[trigger] rest[k]).oid != cache[last].oid by {
                assert(cache[k].oid != cache[last].oid);
            }
            lemma_graph_keys(rest, cache[last].oid);
        }
    }
}

proof fn lemma_graph_keys(cache: Seq<RepackBitmapObject>, oid: ObjectId)
    requires
        forall|k: int| 0 <= k < cache.len() ==> (#[trigger] cache[k]).oid != oid,
    ensures
        !cached_graph(cache).contains_key(oid),
    decreases cache.len(),
{
    if cache.len() > 0 {
        let rest = cache.drop_last();
        assert(cache[cache.len() - 1].oid != oid);
        assert forall|k: int| 0 <= k < rest.len() implies (#[trigger] rest[k]).oid != oid by {
            assert(cache[k].oid != oid);
        }
        lemma_graph_keys(rest, oid);
    }
}

} // verus!
