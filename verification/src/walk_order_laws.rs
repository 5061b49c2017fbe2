//! In which order walks visit objects.

use crate::error::GitError;
use crate::object::ObjectContent;
use crate::object::ObjectReader;
use crate::object::TreeEntry;
use crate::object::TreeEntryKind;
use crate::object_id::ObjectId;
use crate::reachability::followed_parents;
use crate::reachability::strict_schedule;
use crate::reachability::strict_walk;
use crate::reachability::tree_links;
use crate::walk::lemma_unseen_shrinks;
use crate::walk::unseen;
use crate::walk::walk_from;
use crate::walk::Schedule;
use vstd::prelude::*;

verus! {

/// What `first` visits, and then what `second` visits.
pub open spec fn followed_by(first: Seq<ObjectId>, second: Result<Seq<ObjectId>, GitError>) -> Result<
    Seq<ObjectId>,
    GitError,
> {
    match second {
        Ok(more) => Ok(first + more),
        Err(err) => Err(err),
    }
}

/// What was visited before is passed over as excluded ids are.
proof fn lemma_seen_is_excluded(
    graph: Schedule,
    excluded: Set<ObjectId>,
    stack: Seq<ObjectId>,
    before: Seq<ObjectId>,
    seen: Seq<ObjectId>,
)
    ensures
        walk_from(graph, excluded, stack, before + seen) == followed_by(
            before,
            walk_from(graph, excluded.union(before.to_set()), stack, seen),
        ),
    decreases unseen(before + seen).len(), stack.len(),
{
    if stack.len() > 0 {
        let oid = stack.last();
        let rest = stack.drop_last();
        let all = before + seen;
        assert(all.contains(oid) == (before.contains(oid) || seen.contains(oid))) by {
            if before.contains(oid) {
                let i = choose|i: int| 0 <= i < before.len() && before[i] == oid;
                assert(all[i] == oid);
            }
            if seen.contains(oid) {
                let i = choose|i: int| 0 <= i < seen.len() && seen[i] == oid;
                assert(all[before.len() + i] == oid);
            }
            if all.contains(oid) {
                let i = choose|i: int| 0 <= i < all.len() && all[i] == oid;
                if i < before.len() {
                    assert(before[i] == oid);
                } else {
                    assert(seen[i - before.len()] == oid);
                }
            }
        }
        if excluded.contains(oid) || all.contains(oid) {
            lemma_seen_is_excluded(graph, excluded, rest, before, seen);
        } else {
            match graph(oid) {
                Err(err) => {},
                Ok(scheduled) => {
                    lemma_unseen_shrinks(all, oid);
                    assert(all.push(oid) =~= before + seen.push(oid));
                    lemma_seen_is_excluded(graph, excluded, rest + scheduled, before, seen.push(oid));
                },
            }
        }
    }
}

/// A walk is done with all that the top of its stack leads to before it takes
/// what is below.
proof fn lemma_top_is_walked_first(
    graph: Schedule,
    excluded: Set<ObjectId>,
    below: Seq<ObjectId>,
    top: Seq<ObjectId>,
    seen: Seq<ObjectId>,
)
    ensures
        walk_from(graph, excluded, below + top, seen) == match walk_from(graph, excluded, top, seen) {
            Ok(more) => walk_from(graph, excluded, below, more),
            Err(err) => Err(err),
        },
    decreases unseen(seen).len(), top.len(),
{
    if top.len() == 0 {
        assert(below + top =~= below);
    } else {
        let oid = top.last();
        let rest = top.drop_last();
        assert((below + top).last() == oid);
        assert((below + top).drop_last() =~= below + rest);
        if excluded.contains(oid) || seen.contains(oid) {
            lemma_top_is_walked_first(graph, excluded, below, rest, seen);
        } else {
            match graph(oid) {
                Err(err) => {},
                Ok(scheduled) => {
                    lemma_unseen_shrinks(seen, oid);
                    assert(below + rest + scheduled =~= below + (rest + scheduled));
                    lemma_top_is_walked_first(graph, excluded, below, rest + scheduled, seen.push(oid));
                },
            }
        }
    }
}

/// A strict walk is done with all that its first starts lead to before it goes
/// on to the others, and passes over what it has visited.
pub proof fn law_walk_takes_its_starts_in_turn<R: ObjectReader>(
    reader: &R,
    first: Seq<ObjectId>,
    then: Seq<ObjectId>,
    excluded: Set<ObjectId>,
    cut: Set<ObjectId>,
)
    ensures
        strict_walk(reader, first + then, excluded, cut) == match strict_walk(reader, first, excluded, cut) {
            Err(err) => Err(err),
            Ok(visited) => followed_by(
                visited,
                strict_walk(reader, then, excluded.union(visited.to_set()), cut),
            ),
        },
{
    let graph = strict_schedule(reader, cut);
    assert((first + then).reverse() =~= then.reverse() + first.reverse());
    lemma_top_is_walked_first(graph, excluded, then.reverse(), first.reverse(), Seq::empty());
    if let Ok(visited) = strict_walk(reader, first, excluded, cut) {
        lemma_seen_is_excluded(graph, excluded, then.reverse(), visited, Seq::empty());
        assert(visited + Seq::<ObjectId>::empty() =~= visited);
    }
}

/// Where nothing is left to visit, nothing is visited: no starts, and only
/// excluded ones.
pub proof fn law_walk_passes_over_excluded_ids<R: ObjectReader>(
    reader: &R,
    oid: ObjectId,
    excluded: Set<ObjectId>,
    cut: Set<ObjectId>,
)
    ensures
        strict_walk(reader, Seq::empty(), excluded, cut) == Ok::<Seq<ObjectId>, GitError>(Seq::empty()),
        excluded.contains(oid) ==> strict_walk(reader, seq![oid], excluded, cut) == Ok::<Seq<ObjectId>, GitError>(
            Seq::empty(),
        ),
{
    let graph = strict_schedule(reader, cut);
    assert(Seq::<ObjectId>::empty().reverse() =~= Seq::empty());
    assert(seq![oid].reverse() =~= seq![oid]);
    assert(seq![oid].drop_last() =~= Seq::empty());
    reveal_with_fuel(walk_from, 2);
}

proof fn lemma_walk_from_one<R: ObjectReader>(
    reader: &R,
    oid: ObjectId,
    excluded: Set<ObjectId>,
    cut: Set<ObjectId>,
    links: Seq<ObjectId>,
)
    requires
        !excluded.contains(oid),
        strict_schedule(reader, cut)(oid) == Ok::<Seq<ObjectId>, GitError>(links.reverse()),
    ensures
        strict_walk(reader, seq![oid], excluded, cut) == followed_by(
            seq![oid],
            strict_walk(reader, links, excluded.insert(oid), cut),
        ),
{
    let graph = strict_schedule(reader, cut);
    let one = seq![oid];
    let none = Seq::<ObjectId>::empty();
    assert(one.reverse() =~= one);
    assert(one.drop_last() =~= none);
    assert(!none.contains(oid));
    lemma_unseen_shrinks(none, oid);
    assert(none + links.reverse() =~= links.reverse());
    assert(none.push(oid) =~= one);
    assert(walk_from(graph, excluded, one, none) == walk_from(graph, excluded, links.reverse(), one));
    lemma_seen_is_excluded(graph, excluded, links.reverse(), one, none);
    assert(one + none =~= one);
    assert(excluded.union(one.to_set()) =~= excluded.insert(oid)) by {
        assert forall|o: ObjectId| excluded.union(one.to_set()).contains(o) == excluded.insert(oid).contains(o) by {
            assert(one[0] == oid);
        }
    }
}

/// A strict walk from a commit visits the commit, then all that its tree leads
/// to and, unless history is cut there, all that each of its parents leads to, in
/// their order.
pub proof fn law_commit_is_walked_tree_first<R: ObjectReader>(
    reader: &R,
    oid: ObjectId,
    excluded: Set<ObjectId>,
    cut: Set<ObjectId>,
)
    requires
        !excluded.contains(oid),
        reader.object_at(oid) is Ok,
        reader.object_at(oid)->Ok_0.content matches ObjectContent::Commit(Ok(_)),
    ensures
        reader.object_at(oid)->Ok_0.content matches ObjectContent::Commit(Ok(commit)) && {
            &&& cut.contains(oid) || reader.grafted(oid) ==> strict_walk(reader, seq![oid], excluded, cut)
                == followed_by(seq![oid], strict_walk(reader, seq![commit.tree], excluded.insert(oid), cut))
            &&& !cut.contains(oid) && !reader.grafted(oid) ==> strict_walk(reader, seq![oid], excluded, cut)
                == followed_by(
                seq![oid],
                strict_walk(reader, seq![commit.tree] + commit.parents@, excluded.insert(oid), cut),
            )
        },
{
    match reader.object_at(oid)->Ok_0.content {
        ObjectContent::Commit(Ok(commit)) => {
            let ends = cut.contains(oid) || reader.grafted(oid);
            let parents = followed_parents(commit, ends);
            let links = seq![commit.tree] + parents;
            assert(parents.reverse().push(commit.tree) =~= links.reverse());
            lemma_walk_from_one(reader, oid, excluded, cut, links);
            assert(seq![commit.tree] + Seq::<ObjectId>::empty() =~= seq![commit.tree]);
        },
        _ => {},
    }
}

proof fn lemma_tree_links_in_order(entries: Seq<Result<TreeEntry, GitError>>) -> (at: Seq<int>)
    requires
        tree_links(entries) is Ok,
    ensures
        at.len() == tree_links(entries)->Ok_0.len(),
        forall|k: int|
            0 <= k < at.len() ==> 0 <= #[trigger] at[k] < entries.len() && entries[at[k]] is Ok && entries[at[k]]->Ok_0.kind
                != TreeEntryKind::Gitlink && tree_links(entries)->Ok_0[k] == entries[at[k]]->Ok_0.oid,
        forall|j: int, k: int| 0 <= j < k < at.len() ==> #[trigger] at[j] < #[trigger] at[k],
        forall|i: int|
            0 <= i < entries.len() ==> (#[trigger] entries[i]) is Ok && (entries[i]->Ok_0.kind != TreeEntryKind::Gitlink
                ==> at.contains(i)),
    decreases entries.len(),
{
    if entries.len() == 0 {
        Seq::empty()
    } else {
        let rest = entries.drop_last();
        let last = entries.len() - 1;
        let before = lemma_tree_links_in_order(rest);
        assert(entries[last] == entries.last());
        let at = if entries.last()->Ok_0.kind == TreeEntryKind::Gitlink {
            before
        } else {
            before.push(last)
        };
        assert forall|i: int| 0 <= i < entries.len() implies (#[trigger] entries[i]) is Ok && (entries[i]->Ok_0.kind
            != TreeEntryKind::Gitlink ==> at.contains(i)) by {
            if i < last {
                assert(rest[i] == entries[i]);
                if before.contains(i) {
                    let k = choose|k: int| 0 <= k < before.len() && before[k] == i;
                    assert(at[k] == i);
                }
            } else if entries.last()->Ok_0.kind != TreeEntryKind::Gitlink {
                assert(at[before.len() as int] == i);
            }
        }
        assert forall|k: int| 0 <= k < at.len() implies 0 <= #[trigger] at[k] < entries.len() && entries[at[k]] is Ok
            && entries[at[k]]->Ok_0.kind != TreeEntryKind::Gitlink && tree_links(entries)->Ok_0[k]
            == entries[at[k]]->Ok_0.oid by {
            if k < before.len() {
                assert(at[k] == before[k]);
                assert(rest[before[k]] == entries[at[k]]);
            }
        }
        at
    }
}

/// A strict walk from a tree whose entries are all well-formed visits the tree
/// and then what each entry other than a gitlink leads to, in their order: `at`
/// gives their places.
pub proof fn law_tree_is_walked_in_order<R: ObjectReader>(
    reader: &R,
    oid: ObjectId,
    excluded: Set<ObjectId>,
    cut: Set<ObjectId>,
) -> (at: Seq<int>)
    requires
        !excluded.contains(oid),
        reader.object_at(oid) is Ok,
        reader.object_at(oid)->Ok_0.content matches ObjectContent::Tree(entries) && forall|i: int|
            0 <= i < entries@.len() ==> (#[trigger] entries@[i]) is Ok,
    ensures
        reader.object_at(oid)->Ok_0.content matches ObjectContent::Tree(entries) && {
            &&& forall|k: int|
                0 <= k < at.len() ==> 0 <= #[trigger] at[k] < entries@.len() && entries@[at[k]]->Ok_0.kind
                    != TreeEntryKind::Gitlink
            &&& forall|j: int, k: int| 0 <= j < k < at.len() ==> #[trigger] at[j] < #[trigger] at[k]
            &&& forall|i: int|
                0 <= i < entries@.len() && (#[trigger] entries@[i])->Ok_0.kind != TreeEntryKind::Gitlink
                    ==> at.contains(i)
            &&& strict_walk(reader, seq![oid], excluded, cut) == followed_by(
                seq![oid],
                strict_walk(
                    reader,
                    at.map_values(|i: int| entries@[i]->Ok_0.oid),
                    excluded.insert(oid),
                    cut,
                ),
            )
        },
{
    let entries = match reader.object_at(oid)->Ok_0.content {
        ObjectContent::Tree(entries) => entries@,
        _ => Seq::empty(),
    };
    crate::link_laws::law_tree_leads_to_its_entries(entries);
    assert(tree_links(entries) is Ok) by {
        if let Err(err) = tree_links(entries) {
            let i = choose|i: int|
                0 <= i < entries.len() && #[trigger] entries[i] == Err::<TreeEntry, GitError>(err) && forall|j: int|
                    0 <= j < i ==> (#[trigger] entries[j]) is Ok;
            assert(entries[i] is Ok);
        }
    }
    let at = lemma_tree_links_in_order(entries);
    let links = tree_links(entries)->Ok_0;
    assert(at.map_values(|i: int| entries[i]->Ok_0.oid) =~= links);
    lemma_walk_from_one(reader, oid, excluded, cut, links);
    at
}

} // verus!
