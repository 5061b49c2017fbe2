//! Which objects a set of starting points leads to.

use crate::error::GitError;
use crate::error::MissingObjectContext;
use crate::error::NotFoundKind;
use crate::object::CommitLinks;
use crate::object::EncodedObject;
use crate::object::ObjectContent;
use crate::object::ObjectReader;
use crate::object::TreeEntry;
use crate::object::TreeEntryKind;
use crate::object_id::ObjectId;
use crate::oid_map::OidSet;
use crate::walk::walk;
use crate::walk::walk_from;
use crate::walk::Expand;
use crate::walk::Schedule;
use crate::walk::Visit;
use crate::walk::Walk;
use std::sync::Arc;
use vstd::prelude::*;

verus! {

/// `err`, and where it says that an object is missing, that a walk wanted `oid`.
pub open spec fn in_traversal(err: GitError, oid: ObjectId) -> GitError {
    match err {
        GitError::NotFound(NotFoundKind::Object { .. }) => GitError::NotFound(
            NotFoundKind::Object { oid, context: Some(MissingObjectContext::Traversal) },
        ),
        _ => err,
    }
}

/// Replaces the object and the context of a missing-object error; any other
/// error is handed back as it is.
pub fn with_missing_object_context(
    err: GitError,
    oid: ObjectId,
    context: MissingObjectContext,
) -> (out: GitError)
    ensures
        out == match err {
            GitError::NotFound(NotFoundKind::Object { .. }) => GitError::NotFound(
                NotFoundKind::Object { oid, context: Some(context) },
            ),
            _ => err,
        },
{
    match err {
        GitError::NotFound(NotFoundKind::Object { .. }) => GitError::object_not_found_in(oid, context),
        _ => err,
    }
}

/// The ids a tree leads to: those of its entries other than gitlinks, in
/// order, or the error of its first malformed entry.
pub open spec fn tree_links(entries: Seq<Result<TreeEntry, GitError>>) -> Result<
    Seq<ObjectId>,
    GitError,
>
    decreases entries.len(),
{
    if entries.len() == 0 {
        Ok(Seq::empty())
    } else {
        match tree_links(entries.drop_last()) {
            Err(err) => Err(err),
            Ok(links) => match entries.last() {
                Err(err) => Err(err),
                Ok(entry) => if entry.kind == TreeEntryKind::Gitlink {
                    Ok(links)
                } else {
                    Ok(links.push(entry.oid))
                },
            },
        }
    }
}

/// Entries behind the first malformed one do not change a tree's error.
proof fn lemma_tree_links_prefix(entries: Seq<Result<TreeEntry, GitError>>, n: int)
    requires
        0 <= n <= entries.len(),
        tree_links(entries.take(n)) is Err,
    ensures
        tree_links(entries) == tree_links(entries.take(n)),
    decreases entries.len() - n,
{
    if n < entries.len() {
        assert(entries.take(n + 1).drop_last() =~= entries.take(n));
        lemma_tree_links_prefix(entries, n + 1);
    } else {
        assert(entries.take(n) =~= entries);
    }
}

/// The ids a tree leads to.
pub fn collect_tree_links(entries: &Vec<Result<TreeEntry, GitError>>) -> (links: Result<
    Vec<ObjectId>,
    GitError,
>)
    ensures
        match links {
            Ok(links) => tree_links(entries@) == Ok::<Seq<ObjectId>, GitError>(links@),
            Err(err) => tree_links(entries@) == Err::<Seq<ObjectId>, GitError>(err),
        },
{
    let mut links: Vec<ObjectId> = Vec::new();
    let mut i: usize = 0;
    while i < entries.len()
        invariant
            i <= entries@.len(),
            tree_links(entries@.take(i as int)) == Ok::<Seq<ObjectId>, GitError>(links@),
        decreases entries@.len() - i,
    {
        assert(entries@.take(i + 1).drop_last() =~= entries@.take(i as int));
        match &entries[i] {
            Err(err) => {
                let err = err.copy();
                proof {
                    lemma_tree_links_prefix(entries@, i + 1);
                }
                return Err(err);
            },
            Ok(entry) => {
                if entry.kind != TreeEntryKind::Gitlink {
                    links.push(entry.oid);
                }
            },
        }
        i += 1;
    }
    assert(entries@.take(i as int) =~= entries@);
    Ok(links)
}

/// The parents that a walk follows from a commit: none where history is cut.
pub open spec fn followed_parents(commit: CommitLinks, cut: bool) -> Seq<ObjectId> {
    if cut {
        Seq::empty()
    } else {
        commit.parents@
    }
}

/// Parents of a decoded commit with the graft seam applied: empty when the
/// reader cuts history at `oid`, the decoded parents otherwise.
pub fn grafted_parents<R: ObjectReader>(
    reader: &R,
    oid: &ObjectId,
    parents: Vec<ObjectId>,
) -> (followed: Vec<ObjectId>)
    ensures
        followed@ == if reader.grafted(*oid) {
            Seq::<ObjectId>::empty()
        } else {
            parents@
        },
{
    if reader.is_shallow_graft(oid) {
        Vec::new()
    } else {
        parents
    }
}

/// What a visit of an object schedules when links are taken in their order:
/// a commit's tree before its parents, a tree's entries first to last.
pub open spec fn preorder_schedule(object: EncodedObject, cut: bool) -> Result<
    Seq<ObjectId>,
    GitError,
> {
    match object.content {
        ObjectContent::Commit(Err(err)) => Err(err),
        ObjectContent::Commit(Ok(commit)) => Ok(
            followed_parents(commit, cut).reverse().push(commit.tree),
        ),
        ObjectContent::Tree(entries) => match tree_links(entries@) {
            Err(err) => Err(err),
            Ok(links) => Ok(links.reverse()),
        },
        ObjectContent::Tag(Err(err)) => Err(err),
        ObjectContent::Tag(Ok(target)) => Ok(seq![target]),
        ObjectContent::Blob => Ok(Seq::empty()),
    }
}

/// What a visit of an object schedules when links are stacked as they are
/// read, so that the last of them is taken first.
pub open spec fn stacked_schedule(object: EncodedObject, cut: bool) -> Result<
    Seq<ObjectId>,
    GitError,
> {
    match object.content {
        ObjectContent::Commit(Err(err)) => Err(err),
        ObjectContent::Commit(Ok(commit)) => Ok(followed_parents(commit, cut).push(commit.tree)),
        ObjectContent::Tree(entries) => tree_links(entries@),
        ObjectContent::Tag(Err(err)) => Err(err),
        ObjectContent::Tag(Ok(target)) => Ok(seq![target]),
        ObjectContent::Blob => Ok(Seq::empty()),
    }
}

fn reversed(oids: &Vec<ObjectId>) -> (out: Vec<ObjectId>)
    ensures
        out@ == oids@.reverse(),
{
    let mut out: Vec<ObjectId> = Vec::with_capacity(oids.len());
    let mut i: usize = oids.len();
    while i > 0
        invariant
            i <= oids@.len(),
            out@.len() == oids@.len() - i,
            forall|k: int| 0 <= k < out@.len() ==> out@[k] == oids@[oids@.len() - 1 - k],
        decreases i,
    {
        i -= 1;
        out.push(oids[i]);
    }
    assert(out@ =~= oids@.reverse());
    out
}

/// A fresh vector with the ids of `oids`.
pub fn copy_oids(oids: &[ObjectId]) -> (out: Vec<ObjectId>)
    ensures
        out@ == oids@,
{
    let mut out: Vec<ObjectId> = Vec::with_capacity(oids.len());
    let mut k: usize = 0;
    while k < oids.len()
        invariant
            k <= oids@.len(),
            out@ == oids@.take(k as int),
        decreases oids@.len() - k,
    {
        out.push(oids[k]);
        assert(oids@.take(k + 1) =~= oids@.take(k as int).push(oids@[k as int]));
        k += 1;
    }
    assert(oids@.take(k as int) =~= oids@);
    out
}

fn schedule_in_preorder(object: &EncodedObject, cut: bool) -> (scheduled: Result<Vec<ObjectId>, GitError>)
    ensures
        match scheduled {
            Ok(scheduled) => preorder_schedule(*object, cut) == Ok::<Seq<ObjectId>, GitError>(scheduled@),
            Err(err) => preorder_schedule(*object, cut) == Err::<Seq<ObjectId>, GitError>(err),
        },
{
    match &object.content {
        ObjectContent::Commit(Err(err)) => Err(err.copy()),
        ObjectContent::Commit(Ok(commit)) => {
            let mut scheduled = if cut {
                Vec::new()
            } else {
                reversed(&commit.parents)
            };
            assert(scheduled@ =~= followed_parents(*commit, cut).reverse());
            scheduled.push(commit.tree);
            Ok(scheduled)
        },
        ObjectContent::Tree(entries) => match collect_tree_links(entries) {
            Err(err) => Err(err),
            Ok(links) => Ok(reversed(&links)),
        },
        ObjectContent::Tag(Err(err)) => Err(err.copy()),
        ObjectContent::Tag(Ok(target)) => {
            let mut scheduled: Vec<ObjectId> = Vec::new();
            scheduled.push(*target);
            assert(scheduled@ =~= seq![*target]);
            Ok(scheduled)
        },
        ObjectContent::Blob => Ok(Vec::new()),
    }
}

/// What a visit of `object` schedules when links are stacked as they are read.
pub fn schedule_stacked(object: &EncodedObject, cut: bool) -> (scheduled: Result<Vec<ObjectId>, GitError>)
    ensures
        match scheduled {
            Ok(scheduled) => stacked_schedule(*object, cut) == Ok::<Seq<ObjectId>, GitError>(scheduled@),
            Err(err) => stacked_schedule(*object, cut) == Err::<Seq<ObjectId>, GitError>(err),
        },
{
    match &object.content {
        ObjectContent::Commit(Err(err)) => Err(err.copy()),
        ObjectContent::Commit(Ok(commit)) => {
            let mut scheduled = if cut {
                Vec::new()
            } else {
                copy_oids(&commit.parents)
            };
            assert(scheduled@ =~= followed_parents(*commit, cut));
            scheduled.push(commit.tree);
            Ok(scheduled)
        },
        ObjectContent::Tree(entries) => collect_tree_links(entries),
        ObjectContent::Tag(Err(err)) => Err(err.copy()),
        ObjectContent::Tag(Ok(target)) => {
            let mut scheduled: Vec<ObjectId> = Vec::new();
            scheduled.push(*target);
            assert(scheduled@ =~= seq![*target]);
            Ok(scheduled)
        },
        ObjectContent::Blob => Ok(Vec::new()),
    }
}

/// The walk that needs every object it meets: a missing one is an error.
/// Commits in `cut` are visited, but their parents are not followed.
pub open spec fn strict_schedule<R: ObjectReader>(reader: &R, cut: Set<ObjectId>) -> Schedule {
    |oid: ObjectId|
        match reader.object_at(oid) {
            Err(err) => Err(in_traversal(err, oid)),
            Ok(object) => preorder_schedule(*object, cut.contains(oid) || reader.grafted(oid)),
        }
}

/// The object a reader holds under an id, where it holds one.
pub open spec fn stored<R: ObjectReader>(reader: &R, oid: ObjectId) -> Option<Arc<EncodedObject>> {
    match reader.object_at(oid) {
        Ok(object) => Some(object),
        Err(_) => None,
    }
}

struct StrictGraph<'a, R> {
    reader: &'a R,
    cut: &'a OidSet,
}

impl<'a, R: ObjectReader> Expand for StrictGraph<'a, R> {
    closed spec fn object_of(&self, oid: ObjectId) -> Option<Arc<EncodedObject>> {
        stored(self.reader, oid)
    }

    closed spec fn schedule(&self) -> Schedule {
        strict_schedule(self.reader, self.cut@)
    }

    fn expand(&self, oid: &ObjectId) -> (visit: Result<Visit, GitError>) {
        let object = match self.reader.read_object(oid) {
            Err(err) => {
                return Err(with_missing_object_context(err, *oid, MissingObjectContext::Traversal));
            },
            Ok(object) => object,
        };
        let cut = self.cut.contains(oid) || self.reader.is_shallow_graft(oid);
        match schedule_in_preorder(&object, cut) {
            Err(err) => Err(err),
            Ok(scheduled) => Ok(Visit { object: Some(object), scheduled }),
        }
    }
}

/// Whether a walk may pass over an object that it does not find.
#[derive(Debug, Clone, Copy, PartialEq, Eq, Structural)]
pub enum MissingPolicy {
    /// Any object may be missing.
    Any,
    /// Only objects that a promisor remote holds may be missing.
    Promised,
}

/// The walk that passes over missing objects as `policy` allows. An object that
/// it passes over counts as visited.
pub open spec fn tolerant_schedule<R: ObjectReader>(reader: &R, policy: MissingPolicy) -> Schedule {
    |oid: ObjectId|
        match reader.object_at(oid) {
            Err(GitError::NotFound(kind)) => if policy == MissingPolicy::Any || reader.promised(oid) {
                Ok(Seq::<ObjectId>::empty())
            } else {
                Err(in_traversal(GitError::NotFound(kind), oid))
            },
            Err(err) => Err(err),
            Ok(object) => stacked_schedule(*object, reader.grafted(oid)),
        }
}

struct TolerantGraph<'a, R> {
    reader: &'a R,
    policy: MissingPolicy,
}

impl<'a, R: ObjectReader> Expand for TolerantGraph<'a, R> {
    closed spec fn object_of(&self, oid: ObjectId) -> Option<Arc<EncodedObject>> {
        stored(self.reader, oid)
    }

    closed spec fn schedule(&self) -> Schedule {
        tolerant_schedule(self.reader, self.policy)
    }

    fn expand(&self, oid: &ObjectId) -> (visit: Result<Visit, GitError>) {
        match self.reader.read_object(oid) {
            Err(GitError::NotFound(kind)) => {
                if self.policy == MissingPolicy::Any || self.reader.is_promised_object(oid) {
                    Ok(Visit { object: None, scheduled: Vec::new() })
                } else {
                    Err(
                        with_missing_object_context(
                            GitError::NotFound(kind),
                            *oid,
                            MissingObjectContext::Traversal,
                        ),
                    )
                }
            },
            Err(err) => Err(err),
            Ok(object) => {
                let cut = self.reader.is_shallow_graft(oid);
                match schedule_stacked(&object, cut) {
                    Err(err) => Err(err),
                    Ok(scheduled) => Ok(Visit { object: Some(object), scheduled }),
                }
            },
        }
    }
}

/// What a strict walk from `starts` visits, in order.
pub open spec fn strict_walk<R: ObjectReader>(
    reader: &R,
    starts: Seq<ObjectId>,
    excluded: Set<ObjectId>,
    cut: Set<ObjectId>,
) -> Result<Seq<ObjectId>, GitError> {
    walk_from(strict_schedule(reader, cut), excluded, starts.reverse(), Seq::empty())
}

/// What a walk that tolerates missing objects visits, in order.
pub open spec fn tolerant_walk<R: ObjectReader>(
    reader: &R,
    policy: MissingPolicy,
    starts: Seq<ObjectId>,
    excluded: Set<ObjectId>,
) -> Result<Seq<ObjectId>, GitError> {
    walk_from(tolerant_schedule(reader, policy), excluded, starts, Seq::empty())
}

/// Walks from each start in turn, depth-first. Excluded ids are neither visited
/// nor expanded. Commits in `cut` are visited, their trees and blobs too, but
/// their parents are not followed.
pub fn walk_reachable_objects_with_cut<R: ObjectReader>(
    reader: &R,
    starts: &[ObjectId],
    excluded: &OidSet,
    cut: &OidSet,
) -> (walked: Result<Walk, GitError>)
    ensures
        match walked {
            Ok(walked) => {
                &&& strict_walk(reader, starts@, excluded@, cut@)
                    == Ok::<Seq<ObjectId>, GitError>(walked.seen.items())
                &&& walked.objects@ == walked.seen.items().map_values(
                    |oid: ObjectId| stored(reader, oid),
                )
            },
            Err(err) => strict_walk(reader, starts@, excluded@, cut@)
                == Err::<Seq<ObjectId>, GitError>(err),
        },
{
    let graph = StrictGraph { reader, cut };
    let stack = reversed(&copy_oids(starts));
    let walked = walk(&graph, stack, excluded);
    proof {
        if let Ok(walked) = &walked {
            assert(walked.seen.items().map_values(|oid: ObjectId| graph.object_of(oid))
                =~= walked.seen.items().map_values(|oid: ObjectId| stored(reader, oid)));
        }
    }
    walked
}

/// Every id that `starts` lead to.
pub fn collect_reachable_object_ids<R: ObjectReader>(reader: &R, starts: &[ObjectId]) -> (ids: Result<
    OidSet,
    GitError,
>)
    ensures
        match ids {
            Ok(ids) => strict_walk(reader, starts@, Set::empty(), Set::empty())
                == Ok::<Seq<ObjectId>, GitError>(ids.items()),
            Err(err) => strict_walk(reader, starts@, Set::empty(), Set::empty())
                == Err::<Seq<ObjectId>, GitError>(err),
        },
{
    collect_reachable_object_ids_excluding(reader, starts, &OidSet::new())
}

/// Every id that `starts` lead to, where objects that a promisor remote holds
/// may be missing.
pub fn collect_reachable_object_ids_tolerating_promised_missing<R: ObjectReader>(
    reader: &R,
    starts: &[ObjectId],
) -> (ids: Result<OidSet, GitError>)
    ensures
        match ids {
            Ok(ids) => tolerant_walk(reader, MissingPolicy::Promised, starts@, Set::empty())
                == Ok::<Seq<ObjectId>, GitError>(ids.items()),
            Err(err) => tolerant_walk(reader, MissingPolicy::Promised, starts@, Set::empty())
                == Err::<Seq<ObjectId>, GitError>(err),
        },
{
    collect_reachable_object_ids_excluding_promised_missing(reader, starts, &OidSet::new())
}

/// Every id that `starts` lead to, where any object may be missing.
pub fn collect_reachable_object_ids_tolerating_missing<R: ObjectReader>(
    reader: &R,
    starts: &[ObjectId],
) -> (ids: Result<OidSet, GitError>)
    ensures
        match ids {
            Ok(ids) => tolerant_walk(reader, MissingPolicy::Any, starts@, Set::empty())
                == Ok::<Seq<ObjectId>, GitError>(ids.items()),
            Err(err) => tolerant_walk(reader, MissingPolicy::Any, starts@, Set::empty())
                == Err::<Seq<ObjectId>, GitError>(err),
        },
{
    let graph = TolerantGraph { reader, policy: MissingPolicy::Any };
    match walk(&graph, copy_oids(starts), &OidSet::new()) {
        Err(err) => Err(err),
        Ok(walked) => Ok(walked.seen),
    }
}

/// [`collect_reachable_object_ids`] with a cut set: commits in `cut` are
/// collected, but the walk does not continue to their parents.
pub fn collect_reachable_object_ids_with_cut<R: ObjectReader>(
    reader: &R,
    starts: &[ObjectId],
    cut: &OidSet,
) -> (ids: Result<OidSet, GitError>)
    ensures
        match ids {
            Ok(ids) => strict_walk(reader, starts@, Set::empty(), cut@)
                == Ok::<Seq<ObjectId>, GitError>(ids.items()),
            Err(err) => strict_walk(reader, starts@, Set::empty(), cut@)
                == Err::<Seq<ObjectId>, GitError>(err),
        },
{
    match walk_reachable_objects_with_cut(reader, starts, &OidSet::new(), cut) {
        Err(err) => Err(err),
        Ok(walked) => Ok(walked.seen),
    }
}

/// [`collect_reachable_object_ids`] with a stop set: objects in `excluded` are
/// not visited and not expanded, so the walk never sees anything reachable only
/// through them.
pub fn collect_reachable_object_ids_excluding<R: ObjectReader>(
    reader: &R,
    starts: &[ObjectId],
    excluded: &OidSet,
) -> (ids: Result<OidSet, GitError>)
    ensures
        match ids {
            Ok(ids) => strict_walk(reader, starts@, excluded@, Set::empty())
                == Ok::<Seq<ObjectId>, GitError>(ids.items()),
            Err(err) => strict_walk(reader, starts@, excluded@, Set::empty())
                == Err::<Seq<ObjectId>, GitError>(err),
        },
{
    match walk_reachable_objects_with_cut(reader, starts, excluded, &OidSet::new()) {
        Err(err) => Err(err),
        Ok(walked) => Ok(walked.seen),
    }
}

/// Every id that `starts` lead to without entering `excluded`, where objects
/// that a promisor remote holds may be missing.
pub fn collect_reachable_object_ids_excluding_promised_missing<R: ObjectReader>(
    reader: &R,
    starts: &[ObjectId],
    excluded: &OidSet,
) -> (ids: Result<OidSet, GitError>)
    ensures
        match ids {
            Ok(ids) => tolerant_walk(reader, MissingPolicy::Promised, starts@, excluded@)
                == Ok::<Seq<ObjectId>, GitError>(ids.items()),
            Err(err) => tolerant_walk(reader, MissingPolicy::Promised, starts@, excluded@)
                == Err::<Seq<ObjectId>, GitError>(err),
        },
{
    let graph = TolerantGraph { reader, policy: MissingPolicy::Promised };
    match walk(&graph, copy_oids(starts), excluded) {
        Err(err) => Err(err),
        Ok(walked) => Ok(walked.seen),
    }
}

} // verus!
