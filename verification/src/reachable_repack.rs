//! All-into-one repacks of what is reachable.

use crate::error::GitError;
use crate::filter::lists_text;
use crate::filter::text_set;
use crate::object::EncodedObject;
use crate::object::ObjectReader;
use crate::object_id::ObjectId;
use crate::oid_map::OidSet;
use crate::order::lemma_filter_contains;
use crate::pack_file::PackFile;
use crate::repack::gather_reachable_repack;
use crate::repack::is_default;
use crate::repack::lender_count;
use crate::repack::over_limit;
use crate::repack::packable;
use crate::repack::packed_of;
use crate::repack::repack_closure;
use crate::repack::repack_object;
use crate::repack::repack_retained_pack_stems;
use crate::repack::repack_schedule;
use crate::repack::retained_stems;
use crate::repack::RepackOptions;
use crate::repack::RepackSelection;
use crate::transfer::ReachablePackObject;
use crate::walk::walk_from;
use crate::walk::Schedule;
use std::sync::Arc;
use vstd::prelude::*;

verus! {

/// The objects that the indexes of packs with the given stems list.
pub open spec fn stem_oids(files: Seq<PackFile>, listings: Seq<Vec<ObjectId>>, stems: Set<Seq<char>>) -> Set<
    ObjectId,
> {
    Set::new(
        |oid: ObjectId|
            exists|i: int|
                0 <= i < files.len() && stems.contains((#[trigger] files[i]).stem@) && files[i].has_index
                    && listings[i]@.contains(oid),
    )
}

/// The objects that the indexes of packs with the given stems list. `listings`
/// goes with `files`.
pub fn pack_oids_for_stems(files: &[PackFile], listings: &Vec<Vec<ObjectId>>, stems: &[String]) -> (oids: OidSet)
    requires
        listings@.len() == files@.len(),
    ensures
        oids@ == stem_oids(files@, listings@, text_set(stems@)),
{
    let mut oids = OidSet::new();
    let ghost wanted = text_set(stems@);
    let mut i: usize = 0;
    while i < files.len()
        invariant
            i <= files@.len() == listings@.len(),
            wanted == text_set(stems@),
            forall|oid: ObjectId| #[trigger]
                oids@.contains(oid) <==> exists|k: int|
                    0 <= k < i && wanted.contains((#[trigger] files@[k]).stem@) && files@[k].has_index
                        && listings@[k]@.contains(oid),
        decreases files@.len() - i,
    {
        let ghost held = oids@;
        let taken = files[i].has_index && lists_text(stems, files[i].stem.as_str());
        let listing = &listings[i];
        if taken {
            let mut k: usize = 0;
            while k < listing.len()
                invariant
                    k <= listing@.len(),
                    forall|oid: ObjectId| #[trigger]
                        oids@.contains(oid) <==> held.contains(oid) || listing@.take(k as int).contains(oid),
                decreases listing@.len() - k,
            {
                let ghost before = oids@;
                oids.insert(listing[k]);
                proof {
                    let next = listing@[k as int];
                    assert(listing@.take(k + 1) =~= listing@.take(k as int).push(next));
                    listing@.take(k as int).lemma_push_to_set_commute(next);
                    assert forall|oid: ObjectId| #[trigger] oids@.contains(oid) <==> held.contains(oid)
                        || listing@.take(k + 1).contains(oid) by {
                        assert(listing@.take(k + 1).to_set().contains(oid) == listing@.take(k + 1).contains(oid));
                        assert(listing@.take(k as int).to_set().contains(oid) == listing@.take(k as int).contains(
                            oid,
                        ));
                    }
                }
                k += 1;
            }
            assert(listing@.take(k as int) =~= listing@);
        }
        proof {
            assert forall|oid: ObjectId| #[trigger] oids@.contains(oid) <==> exists|k: int|
                0 <= k < i + 1 && wanted.contains((#[trigger] files@[k]).stem@) && files@[k].has_index
                    && listings@[k]@.contains(oid) by {
                if held.contains(oid) {
                    let k = choose|k: int|
                        0 <= k < i && wanted.contains((#[trigger] files@[k]).stem@) && files@[k].has_index
                            && listings@[k]@.contains(oid);
                    assert(files@[k].has_index);
                }
                if taken && listings@[i as int]@.contains(oid) {
                    assert(wanted.contains(files@[i as int].stem@));
                }
            }
        }
        i += 1;
    }
    assert(oids@ =~= stem_oids(files@, listings@, wanted));
    oids
}

/// The objects of packs that a repack must not touch.
pub open spec fn excluded_oids(
    files: Seq<PackFile>,
    listings: Seq<Vec<ObjectId>>,
    pack_kept_objects: bool,
    retained: Set<Seq<char>>,
) -> Set<ObjectId> {
    if pack_kept_objects {
        Set::empty()
    } else {
        stem_oids(files, listings, retained)
    }
}

/// What is on disk when an all-into-one repack begins.
pub struct ReachableRepackInputs<A> {
    pub files: Vec<PackFile>,
    /// The ids that the index of each pack lists, as far as it has one.
    pub listings: Vec<Vec<ObjectId>>,
    /// The objects of promisor packs.
    pub promisor: OidSet,
    /// The alternates, in path order.
    pub alternates: Vec<A>,
    /// The ids that the packs of each alternate hold.
    pub alternate_packed: Vec<OidSet>,
}

impl<A> ReachableRepackInputs<A> {
    /// Whether there is one listing for each pack and for each alternate.
    pub open spec fn is_wf(self) -> bool {
        &&& self.listings@.len() == self.files@.len()
        &&& self.alternate_packed@.len() == self.alternates@.len()
    }
}

/// The objects that an all-into-one repack packs or sets apart.
pub struct ReachableRepackPlan {
    pub retained_pack_stems: Vec<String>,
    /// `None` where nothing is to be packed.
    pub objects: Option<Vec<ReachablePackObject>>,
    /// What a blob-size filter sets apart.
    pub filtered_out: Vec<ReachablePackObject>,
    /// Whether an existing pack that holds exactly the objects may stand in for
    /// a new one.
    pub may_reuse: bool,
}

/// Whether `plan` is the outcome of planning an all-into-one repack.
pub open spec fn is_reachable_plan<R: ObjectReader, A: ObjectReader>(
    reader: &R,
    inputs: ReachableRepackInputs<A>,
    roots: Seq<ObjectId>,
    options: RepackOptions,
    blob_limit: Option<u64>,
    plan: Result<ReachableRepackPlan, GitError>,
) -> bool {
    let retained = retained_stems(inputs.files@, options.keep_pack_stems@, !options.pack_kept_objects);
    let excluded = excluded_oids(inputs.files@, inputs.listings@, options.pack_kept_objects, retained);
    match repack_closure(
        reader,
        inputs.alternates@,
        inputs.alternate_packed@,
        lender_count(options.local, inputs.alternates@.len()),
        roots,
        inputs.promisor@,
        excluded,
    ) {
        Err(failure) => plan matches Err(err) && err == failure,
        Ok(closure) => {
            let kept = match blob_limit {
                None => closure,
                Some(limit) => closure.filter(
                    |entry: ReachablePackObject| !over_limit(entry, limit, roots.to_set()),
                ),
            };
            let apart = match blob_limit {
                None => Seq::empty(),
                Some(limit) => closure.filter(
                    |entry: ReachablePackObject| over_limit(entry, limit, roots.to_set()),
                ),
            };
            plan matches Ok(plan) && {
                &&& text_set(plan.retained_pack_stems@) == retained
                &&& plan.filtered_out@ == apart
                &&& plan.may_reuse == (blob_limit is None && !options.force_rewrite)
                &&& if kept.len() == 0 {
                    plan.objects is None
                } else {
                    plan.objects matches Some(objects) && objects@ == kept
                }
            }
        },
    }
}

/// Plans `git repack -a`: packs the reachability closure of `roots`, as far as
/// the repository holds it or, unless the repack is local, packs of alternates
/// do; but nothing that a retained pack or a promisor pack has. Missing objects
/// are passed over. With `blob_limit`, blobs of at least that many bytes that
/// are not roots are set apart.
pub fn repack_reachable_objects_with_filter_to<R: ObjectReader, A: ObjectReader>(
    reader: &R,
    inputs: &ReachableRepackInputs<A>,
    roots: &[ObjectId],
    options: &RepackOptions,
    blob_limit: Option<u64>,
) -> (plan: Result<ReachableRepackPlan, GitError>)
    requires
        inputs.is_wf(),
    ensures
        is_reachable_plan(reader, *inputs, roots@, *options, blob_limit, plan),
{
    let retained_pack_stems = repack_retained_pack_stems(
        &inputs.files,
        &options.keep_pack_stems,
        !options.pack_kept_objects,
    );
    let ghost retained = text_set(retained_pack_stems@);
    let excluded = if options.pack_kept_objects {
        OidSet::new()
    } else {
        pack_oids_for_stems(&inputs.files, &inputs.listings, &retained_pack_stems)
    };
    assert(excluded@ =~= excluded_oids(inputs.files@, inputs.listings@, options.pack_kept_objects, retained));
    match gather_reachable_repack(
        reader,
        &inputs.alternates,
        &inputs.alternate_packed,
        roots,
        options,
        &inputs.promisor,
        &excluded,
        blob_limit,
    ) {
        Err(err) => Err(err),
        Ok(selection) => {
            let RepackSelection { objects, filtered_out, may_reuse } = selection;
            assert(blob_limit is None ==> filtered_out@ =~= Seq::empty());
            let objects = if objects.len() == 0 {
                None
            } else {
                Some(objects)
            };
            Ok(ReachableRepackPlan { retained_pack_stems, objects, filtered_out, may_reuse })
        },
    }
}

/// Plans an all-into-one repack with the default options.
pub fn repack_reachable_objects<R: ObjectReader, A: ObjectReader>(
    reader: &R,
    inputs: &ReachableRepackInputs<A>,
    roots: &[ObjectId],
) -> (plan: Result<ReachableRepackPlan, GitError>)
    requires
        inputs.is_wf(),
    ensures
        exists|options: RepackOptions| #[trigger]
            is_default(options) && is_reachable_plan(reader, *inputs, roots@, options, None, plan),
{
    let options = RepackOptions::default();
    assert(is_default(options));
    repack_reachable_objects_with_options(reader, inputs, roots, &options)
}

/// Plans an all-into-one repack without a filter.
pub fn repack_reachable_objects_with_options<R: ObjectReader, A: ObjectReader>(
    reader: &R,
    inputs: &ReachableRepackInputs<A>,
    roots: &[ObjectId],
    options: &RepackOptions,
) -> (plan: Result<ReachableRepackPlan, GitError>)
    requires
        inputs.is_wf(),
    ensures
        is_reachable_plan(reader, *inputs, roots@, *options, None, plan),
{
    repack_reachable_objects_with_filter_to(reader, inputs, roots, options, None)
}

/// Plans an all-into-one repack that sets blobs of at least `limit` bytes apart.
pub fn repack_reachable_objects_with_blob_limit_to<R: ObjectReader, A: ObjectReader>(
    reader: &R,
    inputs: &ReachableRepackInputs<A>,
    roots: &[ObjectId],
    options: &RepackOptions,
    limit: u64,
) -> (plan: Result<ReachableRepackPlan, GitError>)
    requires
        inputs.is_wf(),
    ensures
        is_reachable_plan(reader, *inputs, roots@, *options, Some(limit), plan),
{
    repack_reachable_objects_with_filter_to(reader, inputs, roots, options, Some(limit))
}

/// A blob-size filter loses nothing: each object of the closure is packed or set
/// apart, and never both; and no root is set apart.
pub proof fn law_blob_limit_parts_the_objects(
    closure: Seq<ReachablePackObject>,
    limit: u64,
    roots: Set<ObjectId>,
    entry: ReachablePackObject,
)
    requires
        closure.contains(entry),
    ensures
        ({
            let kept = closure.filter(|entry: ReachablePackObject| !over_limit(entry, limit, roots));
            let apart = closure.filter(|entry: ReachablePackObject| over_limit(entry, limit, roots));
            &&& kept.contains(entry) != apart.contains(entry)
            &&& roots.contains(entry.oid) ==> kept.contains(entry)
        }),
{
    lemma_filter_contains(closure, |entry: ReachablePackObject| !over_limit(entry, limit, roots), entry);
    lemma_filter_contains(closure, |entry: ReachablePackObject| over_limit(entry, limit, roots), entry);
}

/// A walk from ids that lead nowhere visits only those.
proof fn lemma_walk_of_leaves(graph: Schedule, stack: Seq<ObjectId>, seen: Seq<ObjectId>, among: Set<ObjectId>)
    requires
        forall|i: int| 0 <= i < stack.len() ==> among.contains(#[trigger] stack[i]),
        forall|i: int| 0 <= i < seen.len() ==> among.contains(#[trigger] seen[i]),
        forall|oid: ObjectId| #[trigger]
            among.contains(oid) ==> graph(oid) == Ok::<Seq<ObjectId>, GitError>(Seq::empty()),
    ensures
        walk_from(graph, Set::empty(), stack, seen) matches Ok(ids) && forall|i: int|
            0 <= i < ids.len() ==> among.contains(#[trigger] ids[i]),
    decreases stack.len(),
{
    if stack.len() > 0 {
        let rest = stack.drop_last();
        let oid = stack.last();
        assert(among.contains(stack[stack.len() - 1]));
        assert forall|i: int| 0 <= i < rest.len() implies among.contains(#[trigger] rest[i]) by {
            assert(rest[i] == stack[i]);
        }
        if seen.contains(oid) {
            lemma_walk_of_leaves(graph, rest, seen, among);
        } else {
            assert(rest + Seq::<ObjectId>::empty() =~= rest);
            lemma_walk_of_leaves(graph, rest, seen.push(oid), among);
        }
    }
}

proof fn lemma_nothing_packed<R: ObjectReader, A: ObjectReader>(
    reader: &R,
    inputs: ReachableRepackInputs<A>,
    lenders: nat,
    excluded: Set<ObjectId>,
    ids: Seq<ObjectId>,
)
    requires
        forall|i: int|
            0 <= i < ids.len() ==> packable(
                reader,
                inputs.alternates@,
                inputs.alternate_packed@,
                lenders,
                inputs.promisor@,
                #[trigger] ids[i],
            ) is None,
    ensures
        packed_of(
            reader,
            inputs.alternates@,
            inputs.alternate_packed@,
            lenders,
            inputs.promisor@,
            excluded,
            ids,
        ).len() == 0,
    decreases ids.len(),
{
    if ids.len() > 0 {
        assert(packable(
            reader,
            inputs.alternates@,
            inputs.alternate_packed@,
            lenders,
            inputs.promisor@,
            ids[ids.len() - 1],
        ) is None);
        assert forall|i: int| 0 <= i < ids.drop_last().len() implies packable(
            reader,
            inputs.alternates@,
            inputs.alternate_packed@,
            lenders,
            inputs.promisor@,
            #[trigger] ids.drop_last()[i],
        ) is None by {
            assert(ids.drop_last()[i] == ids[i]);
        }
        lemma_nothing_packed(reader, inputs, lenders, excluded, ids.drop_last());
    }
}

/// Where no root resolves to an object, a repack packs nothing, whatever else
/// the repository and its alternates hold.
pub proof fn law_unresolved_roots_pack_nothing<R: ObjectReader, A: ObjectReader>(
    reader: &R,
    inputs: ReachableRepackInputs<A>,
    roots: Seq<ObjectId>,
    options: RepackOptions,
    blob_limit: Option<u64>,
    plan: Result<ReachableRepackPlan, GitError>,
)
    requires
        is_reachable_plan(reader, inputs, roots, options, blob_limit, plan),
        forall|i: int|
            0 <= i < roots.len() ==> repack_object(
                reader,
                inputs.alternates@,
                inputs.alternate_packed@,
                lender_count(options.local, inputs.alternates@.len()),
                inputs.promisor@,
                #[trigger] roots[i],
            ) == Ok::<Option<Arc<EncodedObject>>, GitError>(None),
    ensures
        plan matches Ok(plan) && plan.objects is None && plan.filtered_out@.len() == 0,
{
    let lenders = lender_count(options.local, inputs.alternates@.len());
    let graph = repack_schedule(
        reader,
        inputs.alternates@,
        inputs.alternate_packed@,
        lenders,
        inputs.promisor@,
    );
    let among = roots.to_set();
    assert forall|oid: ObjectId| #[trigger] among.contains(oid) implies graph(oid) == Ok::<Seq<ObjectId>, GitError>(
        Seq::empty(),
    ) by {
        let i = choose|i: int| 0 <= i < roots.len() && roots[i] == oid;
        assert(repack_object(
            reader,
            inputs.alternates@,
            inputs.alternate_packed@,
            lenders,
            inputs.promisor@,
            roots[i],
        ) is Ok);
    }
    lemma_walk_of_leaves(graph, roots, Seq::empty(), among);
    let ids = walk_from(graph, Set::empty(), roots, Seq::empty())->Ok_0;
    assert forall|i: int| 0 <= i < ids.len() implies packable(
        reader,
        inputs.alternates@,
        inputs.alternate_packed@,
        lenders,
        inputs.promisor@,
        #[trigger] ids[i],
    ) is None by {
        assert(among.contains(ids[i]));
        let k = choose|k: int| 0 <= k < roots.len() && roots[k] == ids[i];
        assert(repack_object(
            reader,
            inputs.alternates@,
            inputs.alternate_packed@,
            lenders,
            inputs.promisor@,
            roots[k],
        ) is Ok);
    }
    let retained = retained_stems(inputs.files@, options.keep_pack_stems@, !options.pack_kept_objects);
    let excluded = excluded_oids(inputs.files@, inputs.listings@, options.pack_kept_objects, retained);
    lemma_nothing_packed(reader, inputs, lenders, excluded, ids);
    let closure = packed_of(
        reader,
        inputs.alternates@,
        inputs.alternate_packed@,
        lenders,
        inputs.promisor@,
        excluded,
        ids,
    );
    assert(closure =~= Seq::empty());
    reveal(Seq::filter);
}

} // verus!
