//! What walks follow, in terms of the fields of the objects that they meet.

use crate::bitmap_walk::leads_to;
use crate::error::GitError;
use crate::error::MissingObjectContext;
use crate::error::NotFoundKind;
use crate::object::EncodedObject;
use crate::object::ObjectContent;
use crate::object::ObjectReader;
use crate::object::TreeEntry;
use crate::object::TreeEntryKind;
use crate::object_id::ObjectId;
use crate::reachability::followed_parents;
use crate::reachability::preorder_schedule;
use crate::reachability::stacked_schedule;
use crate::reachability::strict_schedule;
use crate::reachability::strict_walk;
use crate::reachability::tolerant_schedule;
use crate::reachability::tolerant_walk;
use crate::reachability::tree_links;
use crate::reachability::MissingPolicy;
use crate::walk::is_closed;
use crate::walk::law_walk_visits_closure;
use crate::walk::reaches;
use crate::walk::successors;
use crate::walk_laws::lemma_push_contains;
use crate::walk_laws::lemma_reverse_contains;
use vstd::prelude::*;

verus! {

/// Whether `object` names `oid`, where `cut` says that history stops at it.
pub open spec fn names(object: EncodedObject, cut: bool, oid: ObjectId) -> bool {
    match object.content {
        ObjectContent::Commit(Ok(commit)) => commit.tree == oid || !cut && exists|i: int|
            0 <= i < commit.parents@.len() && #[trigger] commit.parents@[i] == oid,
        ObjectContent::Tree(entries) => exists|i: int|
            0 <= i < entries@.len() && (#[trigger] entries@[i]) is Ok && entries@[i]->Ok_0.kind
                != TreeEntryKind::Gitlink && entries@[i]->Ok_0.oid == oid,
        ObjectContent::Tag(Ok(target)) => target == oid,
        _ => false,
    }
}

/// Whether `object` decodes as a whole.
pub open spec fn decodes(object: EncodedObject) -> bool {
    match object.content {
        ObjectContent::Commit(commit) => commit is Ok,
        ObjectContent::Tree(entries) => forall|i: int|
            0 <= i < entries@.len() ==> (#[trigger] entries@[i]) is Ok,
        ObjectContent::Tag(target) => target is Ok,
        ObjectContent::Blob => true,
    }
}

/// Whether `err` is what the first part of `object` that does not decode gives.
pub open spec fn decode_error(object: EncodedObject, err: GitError) -> bool {
    match object.content {
        ObjectContent::Commit(commit) => commit matches Err(e) && e == err,
        ObjectContent::Tree(entries) => exists|i: int|
            0 <= i < entries@.len() && #[trigger] entries@[i] == Err::<TreeEntry, GitError>(err) && forall|j: int|
                0 <= j < i ==> (#[trigger] entries@[j]) is Ok,
        ObjectContent::Tag(target) => target matches Err(e) && e == err,
        ObjectContent::Blob => false,
    }
}

/// A tree leads to what its entries other than gitlinks name, where all of them
/// are well-formed, and else gives the error of the first that is not.
pub proof fn law_tree_leads_to_its_entries(entries: Seq<Result<TreeEntry, GitError>>)
    ensures
        match tree_links(entries) {
            Ok(links) => {
                &&& forall|i: int| 0 <= i < entries.len() ==> (#[trigger] entries[i]) is Ok
                &&& forall|oid: ObjectId| #[trigger]
                    links.contains(oid) <==> exists|i: int|
                        0 <= i < entries.len() && (#[trigger] entries[i]) is Ok && entries[i]->Ok_0.kind
                            != TreeEntryKind::Gitlink && entries[i]->Ok_0.oid == oid
            },
            Err(err) => exists|i: int|
                0 <= i < entries.len() && #[trigger] entries[i] == Err::<TreeEntry, GitError>(err) && forall|
                    j: int,
                |
                    0 <= j < i ==> (#[trigger] entries[j]) is Ok,
        },
    decreases entries.len(),
{
    if entries.len() > 0 {
        let rest = entries.drop_last();
        let last = entries.len() - 1;
        law_tree_leads_to_its_entries(rest);
        match tree_links(rest) {
            Err(err) => {
                let i = choose|i: int|
                    0 <= i < rest.len() && #[trigger] rest[i] == Err::<TreeEntry, GitError>(err) && forall|j: int|
                        0 <= j < i ==> (#[trigger] rest[j]) is Ok;
                assert(entries[i] == Err::<TreeEntry, GitError>(err));
                assert forall|j: int| 0 <= j < i implies (#[trigger] entries[j]) is Ok by {
                    assert(rest[j] is Ok);
                }
            },
            Ok(before) => {
                assert forall|j: int| 0 <= j < last implies (#[trigger] entries[j]) is Ok by {
                    assert(rest[j] is Ok);
                }
                assert(entries[last] == entries.last());
                if let Ok(links) = tree_links(entries) {
                    assert forall|oid: ObjectId| #[trigger] links.contains(oid) <==> exists|i: int|
                        0 <= i < entries.len() && (#[trigger] entries[i]) is Ok && entries[i]->Ok_0.kind
                            != TreeEntryKind::Gitlink && entries[i]->Ok_0.oid == oid by {
                        lemma_push_contains(before, entries.last()->Ok_0.oid, oid);
                        if before.contains(oid) {
                            let i = choose|i: int|
                                0 <= i < rest.len() && (#[trigger] rest[i]) is Ok && rest[i]->Ok_0.kind
                                    != TreeEntryKind::Gitlink && rest[i]->Ok_0.oid == oid;
                            assert(entries[i] == rest[i]);
                        }
                        if exists|i: int|
                            0 <= i < entries.len() && (#[trigger] entries[i]) is Ok && entries[i]->Ok_0.kind
                                != TreeEntryKind::Gitlink && entries[i]->Ok_0.oid == oid {
                            let i = choose|i: int|
                                0 <= i < entries.len() && (#[trigger] entries[i]) is Ok && entries[i]->Ok_0.kind
                                    != TreeEntryKind::Gitlink && entries[i]->Ok_0.oid == oid;
                            if i < last {
                                assert(rest[i] == entries[i]);
                                assert(before.contains(oid));
                            }
                        }
                    }
                }
            },
        }
    }
}

pub proof fn lemma_stacked_names(object: EncodedObject, cut: bool)
    ensures
        match stacked_schedule(object, cut) {
            Ok(scheduled) => decodes(object) && forall|oid: ObjectId| #[trigger]
                scheduled.contains(oid) <==> names(object, cut, oid),
            Err(err) => !decodes(object) && decode_error(object, err),
        },
{
    match object.content {
        ObjectContent::Commit(Ok(commit)) => {
            let parents = followed_parents(commit, cut);
            assert forall|oid: ObjectId| #[trigger] parents.push(commit.tree).contains(oid) <==> names(
                object,
                cut,
                oid,
            ) by {
                lemma_push_contains(parents, commit.tree, oid);
            }
        },
        ObjectContent::Tree(entries) => {
            law_tree_leads_to_its_entries(entries@);
        },
        ObjectContent::Tag(Ok(target)) => {
            assert forall|oid: ObjectId| #[trigger] seq![target].contains(oid) <==> target == oid by {
                assert(seq![target][0] == target);
            }
        },
        _ => {},
    }
}

pub proof fn lemma_preorder_names(object: EncodedObject, cut: bool)
    ensures
        match preorder_schedule(object, cut) {
            Ok(scheduled) => decodes(object) && forall|oid: ObjectId| #[trigger]
                scheduled.contains(oid) <==> names(object, cut, oid),
            Err(err) => !decodes(object) && decode_error(object, err),
        },
{
    lemma_stacked_names(object, cut);
    match object.content {
        ObjectContent::Commit(Ok(commit)) => {
            let parents = followed_parents(commit, cut);
            assert forall|oid: ObjectId| #[trigger] parents.reverse().push(commit.tree).contains(oid) <==> names(
                object,
                cut,
                oid,
            ) by {
                lemma_push_contains(parents.reverse(), commit.tree, oid);
                lemma_push_contains(parents, commit.tree, oid);
                lemma_reverse_contains(parents, oid);
                assert(parents.push(commit.tree).contains(oid) <==> names(object, cut, oid));
            }
        },
        ObjectContent::Tree(entries) => {
            if let Ok(links) = tree_links(entries@) {
                assert forall|oid: ObjectId| #[trigger] links.reverse().contains(oid) <==> names(
                    object,
                    cut,
                    oid,
                ) by {
                    lemma_reverse_contains(links, oid);
                    assert(links.contains(oid) <==> names(object, cut, oid));
                }
            }
        },
        _ => {},
    }
}

/// The object under `oid`, where it is read.
spec fn read_at<R: ObjectReader>(reader: &R, oid: ObjectId) -> EncodedObject {
    *reader.object_at(oid)->Ok_0
}

proof fn lemma_preorder_names_at<R: ObjectReader>(reader: &R, oid: ObjectId, cut: bool)
    requires
        reader.object_at(oid) is Ok,
    ensures
        match preorder_schedule(*reader.object_at(oid)->Ok_0, cut) {
            Ok(scheduled) => decodes(*reader.object_at(oid)->Ok_0) && forall|next: ObjectId| #[trigger]
                scheduled.contains(next) <==> names(*reader.object_at(oid)->Ok_0, cut, next),
            Err(err) => !decodes(*reader.object_at(oid)->Ok_0) && decode_error(
                *reader.object_at(oid)->Ok_0,
                err,
            ),
        },
{
    lemma_preorder_names(read_at(reader, oid), cut);
}

proof fn lemma_stacked_names_at<R: ObjectReader>(reader: &R, oid: ObjectId, cut: bool)
    requires
        reader.object_at(oid) is Ok,
    ensures
        match stacked_schedule(*reader.object_at(oid)->Ok_0, cut) {
            Ok(scheduled) => decodes(*reader.object_at(oid)->Ok_0) && forall|next: ObjectId| #[trigger]
                scheduled.contains(next) <==> names(*reader.object_at(oid)->Ok_0, cut, next),
            Err(err) => !decodes(*reader.object_at(oid)->Ok_0) && decode_error(
                *reader.object_at(oid)->Ok_0,
                err,
            ),
        },
{
    lemma_stacked_names(read_at(reader, oid), cut);
}

/// A strict walk that succeeds visits every start and, with each object that it
/// visits, everything that the object's fields name: the tree and, unless
/// history is cut there, each parent of a commit, what every entry of a tree
/// other than a gitlink names, and the target of a tag; all of it but the
/// excluded ids, which it never visits. Every object it visits is read and
/// decodes.
pub proof fn law_strict_walk_follows_every_link<R: ObjectReader>(
    reader: &R,
    starts: Seq<ObjectId>,
    excluded: Set<ObjectId>,
    cut: Set<ObjectId>,
)
    ensures
        strict_walk(reader, starts, excluded, cut) matches Ok(all) ==> {
            &&& all.no_duplicates()
            &&& forall|i: int|
                0 <= i < starts.len() ==> all.contains(#[trigger] starts[i]) || excluded.contains(starts[i])
            &&& forall|oid: ObjectId| #[trigger]
                all.contains(oid) ==> !excluded.contains(oid) && reader.object_at(oid) is Ok && match reader.object_at(
                    oid,
                )->Ok_0.content {
                    ObjectContent::Commit(Ok(commit)) => {
                        &&& all.contains(commit.tree) || excluded.contains(commit.tree)
                        &&& cut.contains(oid) || reader.grafted(oid) || forall|i: int|
                            0 <= i < commit.parents@.len() ==> all.contains(#[trigger] commit.parents@[i])
                                || excluded.contains(commit.parents@[i])
                    },
                    ObjectContent::Tree(entries) => forall|i: int|
                        0 <= i < entries@.len() ==> (#[trigger] entries@[i]) is Ok && (entries@[i]->Ok_0.kind
                            == TreeEntryKind::Gitlink || all.contains(entries@[i]->Ok_0.oid)
                            || excluded.contains(entries@[i]->Ok_0.oid)),
                    ObjectContent::Tag(Ok(target)) => all.contains(target) || excluded.contains(target),
                    ObjectContent::Blob => true,
                    _ => false,
                }
        },
{
    let graph = strict_schedule(reader, cut);
    law_walk_visits_closure(graph, excluded, starts.reverse());
    if let Ok(all) = strict_walk(reader, starts, excluded, cut) {
        let set = all.to_set();
        assert forall|i: int| 0 <= i < starts.len() implies all.contains(#[trigger] starts[i])
            || excluded.contains(starts[i]) by {
            lemma_reverse_contains(starts, starts[i]);
            assert(starts.reverse().to_set().contains(starts[i]));
            assert(set.contains(starts[i]) || excluded.contains(starts[i]));
        }
        assert forall|oid: ObjectId, next: ObjectId| #![trigger all.contains(oid), all.contains(next)]
            all.contains(oid) && names(
                *reader.object_at(oid)->Ok_0,
                cut.contains(oid) || reader.grafted(oid),
                next,
            ) implies all.contains(next) || excluded.contains(next) by {
            assert(graph(oid) is Ok);
            lemma_preorder_names_at(reader, oid, cut.contains(oid) || reader.grafted(oid));
            assert(set.contains(oid));
            assert(successors(graph, oid).contains(next));
        }
        assert forall|oid: ObjectId| #[trigger] all.contains(oid) implies !excluded.contains(oid)
            && reader.object_at(oid) is Ok && decodes(*reader.object_at(oid)->Ok_0) by {
            assert(graph(oid) is Ok);
            lemma_preorder_names_at(reader, oid, cut.contains(oid) || reader.grafted(oid));
        }
    }
}

/// A strict walk visits nothing but what the starts lead to: whatever `set`
/// holds the starts and, with each object that it holds and that is read, all
/// that the object's fields name, excluded ids aside, holds all that the walk
/// visits. Where each object of such a set is read and decodes, the walk
/// succeeds.
pub proof fn law_strict_walk_visits_nothing_else<R: ObjectReader>(
    reader: &R,
    starts: Seq<ObjectId>,
    excluded: Set<ObjectId>,
    cut: Set<ObjectId>,
    set: Set<ObjectId>,
)
    requires
        forall|i: int|
            0 <= i < starts.len() ==> set.contains(#[trigger] starts[i]) || excluded.contains(starts[i]),
        forall|oid: ObjectId| #[trigger]
            set.contains(oid) && reader.object_at(oid) is Ok ==> match reader.object_at(oid)->Ok_0.content {
                ObjectContent::Commit(Ok(commit)) => {
                    &&& set.contains(commit.tree) || excluded.contains(commit.tree)
                    &&& cut.contains(oid) || reader.grafted(oid) || forall|i: int|
                        0 <= i < commit.parents@.len() ==> set.contains(#[trigger] commit.parents@[i])
                            || excluded.contains(commit.parents@[i])
                },
                ObjectContent::Tree(entries) => forall|i: int|
                    0 <= i < entries@.len() && (#[trigger] entries@[i]) is Ok ==> entries@[i]->Ok_0.kind
                        == TreeEntryKind::Gitlink || set.contains(entries@[i]->Ok_0.oid) || excluded.contains(
                        entries@[i]->Ok_0.oid,
                    ),
                ObjectContent::Tag(Ok(target)) => set.contains(target) || excluded.contains(target),
                _ => true,
            },
    ensures
        strict_walk(reader, starts, excluded, cut) matches Ok(all) ==> forall|oid: ObjectId| #[trigger]
            all.contains(oid) ==> set.contains(oid),
        (forall|oid: ObjectId| #[trigger]
            set.contains(oid) && !excluded.contains(oid) ==> reader.object_at(oid) is Ok
                && match reader.object_at(oid)->Ok_0.content {
                ObjectContent::Commit(commit) => commit is Ok,
                ObjectContent::Tree(entries) => forall|i: int|
                    0 <= i < entries@.len() ==> (#[trigger] entries@[i]) is Ok,
                ObjectContent::Tag(target) => target is Ok,
                ObjectContent::Blob => true,
            }) ==> strict_walk(reader, starts, excluded, cut) is Ok,
{
    let graph = strict_schedule(reader, cut);
    let begin = starts.reverse().to_set();
    law_walk_visits_closure(graph, excluded, starts.reverse());
    assert forall|oid: ObjectId| begin.contains(oid) && !excluded.contains(oid) implies set.contains(oid) by {
        lemma_reverse_contains(starts, oid);
        let i = choose|i: int| 0 <= i < starts.len() && starts[i] == oid;
        assert(set.contains(starts[i]) || excluded.contains(starts[i]));
    }
    assert forall|oid: ObjectId, next: ObjectId|
        #![trigger set.contains(oid), successors(graph, oid).contains(next)]
        set.contains(oid) && successors(graph, oid).contains(next) && !excluded.contains(next)
        implies set.contains(next) by {
        let object = *reader.object_at(oid)->Ok_0;
        let ends = cut.contains(oid) || reader.grafted(oid);
        assert(reader.object_at(oid) is Ok);
        lemma_preorder_names_at(reader, oid, ends);
        assert(names(object, ends, next));
    }
    assert(is_closed(graph, excluded, begin, set));
    match strict_walk(reader, starts, excluded, cut) {
        Ok(all) => {
            assert forall|oid: ObjectId| #[trigger] all.contains(oid) implies set.contains(oid) by {
                assert(reaches(graph, excluded, begin, oid));
            }
        },
        Err(err) => {
            let oid = choose|oid: ObjectId|
                #[trigger] reaches(graph, excluded, begin, oid) && !excluded.contains(oid) && graph(oid)
                    == Err::<Seq<ObjectId>, GitError>(err);
            assert(set.contains(oid));
            if reader.object_at(oid) is Ok {
                lemma_preorder_names_at(reader, oid, cut.contains(oid) || reader.grafted(oid));
            }
        },
    }
}

/// A strict walk that fails has met an object that cannot be read, and reports
/// a missing one under its id as wanted by a walk and any other failure as it
/// came, or an object that does not decode, and reports what is wrong with it.
pub proof fn law_strict_walk_fails_for_a_reason<R: ObjectReader>(
    reader: &R,
    starts: Seq<ObjectId>,
    excluded: Set<ObjectId>,
    cut: Set<ObjectId>,
)
    ensures
        strict_walk(reader, starts, excluded, cut) matches Err(err) ==> exists|oid: ObjectId|
            !excluded.contains(oid) && match #[trigger] reader.object_at(oid) {
                Err(GitError::NotFound(NotFoundKind::Object { .. })) => err == GitError::NotFound(
                    NotFoundKind::Object { oid, context: Some(MissingObjectContext::Traversal) },
                ),
                Err(failure) => err == failure,
                Ok(object) => match object.content {
                    ObjectContent::Commit(commit) => commit matches Err(e) && e == err,
                    ObjectContent::Tree(entries) => exists|i: int|
                        0 <= i < entries@.len() && #[trigger] entries@[i] == Err::<TreeEntry, GitError>(err)
                            && forall|j: int| 0 <= j < i ==> (#[trigger] entries@[j]) is Ok,
                    ObjectContent::Tag(target) => target matches Err(e) && e == err,
                    ObjectContent::Blob => false,
                },
            },
{
    let graph = strict_schedule(reader, cut);
    let begin = starts.reverse().to_set();
    law_walk_visits_closure(graph, excluded, starts.reverse());
    if let Err(err) = strict_walk(reader, starts, excluded, cut) {
        let oid = choose|oid: ObjectId|
            #[trigger] reaches(graph, excluded, begin, oid) && !excluded.contains(oid) && graph(oid)
                == Err::<Seq<ObjectId>, GitError>(err);
        if let Ok(object) = reader.object_at(oid) {
            lemma_preorder_names_at(reader, oid, cut.contains(oid) || reader.grafted(oid));
        }
    }
}

/// A tolerant walk that succeeds visits every start and, with each object that
/// it visits and reads, everything that the object's fields name, excluded ids
/// aside. What it visits is read and decodes, or is missing where `policy`
/// allows that.
pub proof fn law_tolerant_walk_follows_every_link<R: ObjectReader>(
    reader: &R,
    policy: MissingPolicy,
    starts: Seq<ObjectId>,
    excluded: Set<ObjectId>,
)
    ensures
        tolerant_walk(reader, policy, starts, excluded) matches Ok(all) ==> {
            &&& all.no_duplicates()
            &&& forall|i: int|
                0 <= i < starts.len() ==> all.contains(#[trigger] starts[i]) || excluded.contains(starts[i])
            &&& forall|oid: ObjectId| #[trigger]
                all.contains(oid) ==> !excluded.contains(oid) && match reader.object_at(oid) {
                    Err(err) => err is NotFound && (policy == MissingPolicy::Any || reader.promised(oid)),
                    Ok(object) => match object.content {
                        ObjectContent::Commit(Ok(commit)) => {
                            &&& all.contains(commit.tree) || excluded.contains(commit.tree)
                            &&& reader.grafted(oid) || forall|i: int|
                                0 <= i < commit.parents@.len() ==> all.contains(#[trigger] commit.parents@[i])
                                    || excluded.contains(commit.parents@[i])
                        },
                        ObjectContent::Tree(entries) => forall|i: int|
                            0 <= i < entries@.len() ==> (#[trigger] entries@[i]) is Ok && (entries@[i]->Ok_0.kind
                                == TreeEntryKind::Gitlink || all.contains(entries@[i]->Ok_0.oid)
                                || excluded.contains(entries@[i]->Ok_0.oid)),
                        ObjectContent::Tag(Ok(target)) => all.contains(target) || excluded.contains(target),
                        ObjectContent::Blob => true,
                        _ => false,
                    },
                }
        },
{
    let graph = tolerant_schedule(reader, policy);
    law_walk_visits_closure(graph, excluded, starts);
    if let Ok(all) = tolerant_walk(reader, policy, starts, excluded) {
        let set = all.to_set();
        assert forall|i: int| 0 <= i < starts.len() implies all.contains(#[trigger] starts[i])
            || excluded.contains(starts[i]) by {
            assert(starts.to_set().contains(starts[i]));
            assert(set.contains(starts[i]) || excluded.contains(starts[i]));
        }
        assert forall|oid: ObjectId, next: ObjectId| #![trigger all.contains(oid), all.contains(next)]
            all.contains(oid) && reader.object_at(oid) is Ok && names(
                *reader.object_at(oid)->Ok_0,
                reader.grafted(oid),
                next,
            ) implies all.contains(next) || excluded.contains(next) by {
            assert(graph(oid) is Ok);
            lemma_stacked_names_at(reader, oid, reader.grafted(oid));
            assert(set.contains(oid));
            assert(successors(graph, oid).contains(next));
        }
        assert forall|oid: ObjectId| #[trigger] all.contains(oid) implies !excluded.contains(oid) && (
        reader.object_at(oid) is Ok ==> decodes(*reader.object_at(oid)->Ok_0)) && (reader.object_at(oid) is Err
            ==> reader.object_at(oid)->Err_0 is NotFound && (policy == MissingPolicy::Any || reader.promised(
            oid,
        ))) by {
            assert(graph(oid) is Ok);
            if reader.object_at(oid) is Ok {
                lemma_stacked_names_at(reader, oid, reader.grafted(oid));
            }
        }
    }
}

/// A tolerant walk visits nothing but what the starts lead to, as a strict one
/// does. Where each object of a set that the starts do not lead out of is read
/// and decodes, or is missing as `policy` allows, the walk succeeds.
pub proof fn law_tolerant_walk_visits_nothing_else<R: ObjectReader>(
    reader: &R,
    policy: MissingPolicy,
    starts: Seq<ObjectId>,
    excluded: Set<ObjectId>,
    set: Set<ObjectId>,
)
    requires
        forall|i: int|
            0 <= i < starts.len() ==> set.contains(#[trigger] starts[i]) || excluded.contains(starts[i]),
        forall|oid: ObjectId| #[trigger]
            set.contains(oid) && reader.object_at(oid) is Ok ==> match reader.object_at(oid)->Ok_0.content {
                ObjectContent::Commit(Ok(commit)) => {
                    &&& set.contains(commit.tree) || excluded.contains(commit.tree)
                    &&& reader.grafted(oid) || forall|i: int|
                        0 <= i < commit.parents@.len() ==> set.contains(#[trigger] commit.parents@[i])
                            || excluded.contains(commit.parents@[i])
                },
                ObjectContent::Tree(entries) => forall|i: int|
                    0 <= i < entries@.len() && (#[trigger] entries@[i]) is Ok ==> entries@[i]->Ok_0.kind
                        == TreeEntryKind::Gitlink || set.contains(entries@[i]->Ok_0.oid) || excluded.contains(
                        entries@[i]->Ok_0.oid,
                    ),
                ObjectContent::Tag(Ok(target)) => set.contains(target) || excluded.contains(target),
                _ => true,
            },
    ensures
        tolerant_walk(reader, policy, starts, excluded) matches Ok(all) ==> forall|oid: ObjectId| #[trigger]
            all.contains(oid) ==> set.contains(oid),
        (forall|oid: ObjectId| #[trigger]
            set.contains(oid) && !excluded.contains(oid) ==> match reader.object_at(oid) {
                Err(err) => err is NotFound && (policy == MissingPolicy::Any || reader.promised(oid)),
                Ok(object) => match object.content {
                    ObjectContent::Commit(commit) => commit is Ok,
                    ObjectContent::Tree(entries) => forall|i: int|
                        0 <= i < entries@.len() ==> (#[trigger] entries@[i]) is Ok,
                    ObjectContent::Tag(target) => target is Ok,
                    ObjectContent::Blob => true,
                },
            }) ==> tolerant_walk(reader, policy, starts, excluded) is Ok,
{
    let graph = tolerant_schedule(reader, policy);
    let begin = starts.to_set();
    law_walk_visits_closure(graph, excluded, starts);
    assert forall|oid: ObjectId| begin.contains(oid) && !excluded.contains(oid) implies set.contains(oid) by {
        let i = choose|i: int| 0 <= i < starts.len() && starts[i] == oid;
        assert(set.contains(starts[i]) || excluded.contains(starts[i]));
    }
    assert forall|oid: ObjectId, next: ObjectId|
        #![trigger set.contains(oid), successors(graph, oid).contains(next)]
        set.contains(oid) && successors(graph, oid).contains(next) && !excluded.contains(next)
        implies set.contains(next) by {
        assert(reader.object_at(oid) is Ok);
        let object = *reader.object_at(oid)->Ok_0;
        lemma_stacked_names_at(reader, oid, reader.grafted(oid));
        assert(names(object, reader.grafted(oid), next));
    }
    assert(is_closed(graph, excluded, begin, set));
    match tolerant_walk(reader, policy, starts, excluded) {
        Ok(all) => {
            assert forall|oid: ObjectId| #[trigger] all.contains(oid) implies set.contains(oid) by {
                assert(reaches(graph, excluded, begin, oid));
            }
        },
        Err(err) => {
            let oid = choose|oid: ObjectId|
                #[trigger] reaches(graph, excluded, begin, oid) && !excluded.contains(oid) && graph(oid)
                    == Err::<Seq<ObjectId>, GitError>(err);
            assert(set.contains(oid));
            if reader.object_at(oid) is Ok {
                lemma_stacked_names_at(reader, oid, reader.grafted(oid));
            }
        },
    }
}

/// What bitmaps count as led to is what the fields of objects name: with each
/// object that is read and decodes, everything that its fields name is led to.
pub proof fn law_leading_follows_every_link<R: ObjectReader>(
    reader: &R,
    starts: Set<ObjectId>,
    from: ObjectId,
    to: ObjectId,
)
    requires
        starts.contains(from) || leads_to(reader, starts, from),
        reader.object_at(from) is Ok,
        match reader.object_at(from)->Ok_0.content {
            ObjectContent::Commit(Ok(commit)) => commit.tree == to || !reader.grafted(from) && exists|i: int|
                0 <= i < commit.parents@.len() && #[trigger] commit.parents@[i] == to,
            ObjectContent::Tree(entries) => (forall|i: int| 0 <= i < entries@.len() ==> (#[trigger] entries@[i]) is Ok)
                && exists|i: int|
                0 <= i < entries@.len() && (#[trigger] entries@[i])->Ok_0.kind != TreeEntryKind::Gitlink
                    && entries@[i]->Ok_0.oid == to,
            ObjectContent::Tag(Ok(target)) => target == to,
            _ => false,
        },
    ensures
        leads_to(reader, starts, from),
        leads_to(reader, starts, to),
{
    let graph = strict_schedule(reader, Set::empty());
    lemma_preorder_names_at(reader, from, reader.grafted(from));
    assert(names(*reader.object_at(from)->Ok_0, reader.grafted(from), to));
    assert(decodes(*reader.object_at(from)->Ok_0));
    assert(graph(from) is Ok);
    assert(successors(graph, from).contains(to));
    assert forall|set: Set<ObjectId>| is_closed(graph, Set::empty(), starts, set) implies set.contains(from)
        && set.contains(to) by {
        assert(set.contains(from));
    }
}

/// Nothing else is led to: whatever `set` holds the starts and, with each object
/// that it holds and that is read, all that its fields name, holds all of it.
pub proof fn law_nothing_else_is_led_to<R: ObjectReader>(
    reader: &R,
    starts: Set<ObjectId>,
    set: Set<ObjectId>,
    oid: ObjectId,
)
    requires
        starts.subset_of(set),
        forall|oid: ObjectId| #[trigger]
            set.contains(oid) && reader.object_at(oid) is Ok ==> match reader.object_at(oid)->Ok_0.content {
                ObjectContent::Commit(Ok(commit)) => {
                    &&& set.contains(commit.tree)
                    &&& reader.grafted(oid) || forall|i: int|
                        0 <= i < commit.parents@.len() ==> set.contains(#[trigger] commit.parents@[i])
                },
                ObjectContent::Tree(entries) => forall|i: int|
                    0 <= i < entries@.len() && (#[trigger] entries@[i]) is Ok ==> entries@[i]->Ok_0.kind
                        == TreeEntryKind::Gitlink || set.contains(entries@[i]->Ok_0.oid),
                ObjectContent::Tag(Ok(target)) => set.contains(target),
                _ => true,
            },
        leads_to(reader, starts, oid),
    ensures
        set.contains(oid),
{
    let graph = strict_schedule(reader, Set::empty());
    assert forall|from: ObjectId, next: ObjectId|
        #![trigger set.contains(from), successors(graph, from).contains(next)]
        set.contains(from) && successors(graph, from).contains(next) implies set.contains(next) by {
        assert(reader.object_at(from) is Ok);
        lemma_preorder_names_at(reader, from, reader.grafted(from));
        assert(names(*reader.object_at(from)->Ok_0, reader.grafted(from), next));
    }
    assert(is_closed(graph, Set::empty(), starts, set));
}

/// A tolerant walk that fails has met an object that is missing where that is
/// not allowed, and reports it under its id as wanted by a walk, or one that
/// cannot be read or does not decode, and reports what is wrong with it.
pub proof fn law_tolerant_walk_fails_for_a_reason<R: ObjectReader>(
    reader: &R,
    policy: MissingPolicy,
    starts: Seq<ObjectId>,
    excluded: Set<ObjectId>,
)
    ensures
        tolerant_walk(reader, policy, starts, excluded) matches Err(err) ==> exists|oid: ObjectId|
            !excluded.contains(oid) && match #[trigger] reader.object_at(oid) {
                Err(GitError::NotFound(kind)) => policy != MissingPolicy::Any && !reader.promised(oid) && err
                    == match kind {
                    NotFoundKind::Object { .. } => GitError::NotFound(
                        NotFoundKind::Object { oid, context: Some(MissingObjectContext::Traversal) },
                    ),
                    _ => GitError::NotFound(kind),
                },
                Err(failure) => err == failure,
                Ok(object) => match object.content {
                    ObjectContent::Commit(commit) => commit matches Err(e) && e == err,
                    ObjectContent::Tree(entries) => exists|i: int|
                        0 <= i < entries@.len() && #[trigger] entries@[i] == Err::<TreeEntry, GitError>(err)
                            && forall|j: int| 0 <= j < i ==> (#[trigger] entries@[j]) is Ok,
                    ObjectContent::Tag(target) => target matches Err(e) && e == err,
                    ObjectContent::Blob => false,
                },
            },
{
    let graph = tolerant_schedule(reader, policy);
    let begin = starts.to_set();
    law_walk_visits_closure(graph, excluded, starts);
    if let Err(err) = tolerant_walk(reader, policy, starts, excluded) {
        let oid = choose|oid: ObjectId|
            #[trigger] reaches(graph, excluded, begin, oid) && !excluded.contains(oid) && graph(oid)
                == Err::<Seq<ObjectId>, GitError>(err);
        if let Ok(object) = reader.object_at(oid) {
            lemma_stacked_names_at(reader, oid, reader.grafted(oid));
        }
    }
}

} // verus!
