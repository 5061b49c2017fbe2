//! What holds of walks over objects whatever a store holds.

use crate::error::GitError;
use crate::object::EncodedObject;
use crate::object::ObjectContent;
use crate::object::ObjectReader;
use crate::object_id::ObjectId;
use crate::reachability::preorder_schedule;
use crate::reachability::stacked_schedule;
use crate::reachability::strict_schedule;
use crate::reachability::strict_walk;
use crate::reachability::tolerant_schedule;
use crate::reachability::tolerant_walk;
use crate::reachability::MissingPolicy;
use crate::walk::is_closed;
use crate::walk::law_walk_visits_closure;
use crate::walk::reaches;
use crate::walk::successors;
use vstd::prelude::*;

verus! {

/// A sequence and its reverse hold the same ids.
pub proof fn lemma_reverse_contains(ids: Seq<ObjectId>, oid: ObjectId)
    ensures
        ids.reverse().contains(oid) == ids.contains(oid),
{
    if ids.contains(oid) {
        let i = choose|i: int| 0 <= i < ids.len() && ids[i] == oid;
        assert(ids.reverse()[ids.len() - 1 - i] == oid);
    }
    if ids.reverse().contains(oid) {
        let i = choose|i: int| 0 <= i < ids.len() && ids.reverse()[i] == oid;
        assert(ids[ids.len() - 1 - i] == oid);
    }
}

/// Both ways to schedule an object's links schedule the same links.
proof fn lemma_schedules_agree(object: EncodedObject, cut: bool, oid: ObjectId)
    ensures
        match (preorder_schedule(object, cut), stacked_schedule(object, cut)) {
            (Ok(pre), Ok(stacked)) => pre.contains(oid) == stacked.contains(oid),
            (Err(left), Err(right)) => left == right,
            _ => false,
        },
{
    match object.content {
        ObjectContent::Commit(Ok(commit)) => {
            let parents = crate::reachability::followed_parents(commit, cut);
            lemma_reverse_contains(parents, oid);
            lemma_push_contains(parents, commit.tree, oid);
            lemma_push_contains(parents.reverse(), commit.tree, oid);
        },
        ObjectContent::Tree(entries) => {
            if let Ok(links) = crate::reachability::tree_links(entries@) {
                lemma_reverse_contains(links, oid);
            }
        },
        _ => {},
    }
}

pub proof fn lemma_push_contains(ids: Seq<ObjectId>, last: ObjectId, oid: ObjectId)
    ensures
        ids.push(last).contains(oid) == (ids.contains(oid) || oid == last),
{
    if ids.contains(oid) {
        let i = choose|i: int| 0 <= i < ids.len() && ids[i] == oid;
        assert(ids.push(last)[i] == oid);
    }
    assert(ids.push(last)[ids.len() as int] == last);
}

/// With each object that a transfer sends, it sends every object that it refers
/// to, except those that the receiver is known to have.
pub proof fn law_transfer_is_closed<R: ObjectReader>(
    reader: &R,
    starts: Seq<ObjectId>,
    excluded: Set<ObjectId>,
    from: ObjectId,
    to: ObjectId,
)
    requires
        strict_walk(reader, starts, excluded, Set::empty()) is Ok,
        strict_walk(reader, starts, excluded, Set::empty())->Ok_0.contains(from),
        successors(strict_schedule(reader, Set::empty()), from).contains(to),
    ensures
        strict_walk(reader, starts, excluded, Set::empty())->Ok_0.contains(to) != excluded.contains(to),
{
    let graph = strict_schedule(reader, Set::empty());
    law_walk_visits_closure(graph, excluded, starts.reverse());
    let all = strict_walk(reader, starts, excluded, Set::empty())->Ok_0;
    assert(all.to_set().contains(from));
    if !excluded.contains(to) {
        assert(all.to_set().contains(to));
    }
}

/// Where a strict walk finds every object, a walk that tolerates missing ones
/// visits the same objects.
pub proof fn law_tolerance_changes_nothing_when_complete<R: ObjectReader>(
    reader: &R,
    policy: MissingPolicy,
    starts: Seq<ObjectId>,
    excluded: Set<ObjectId>,
)
    requires
        strict_walk(reader, starts, excluded, Set::empty()) is Ok,
    ensures
        tolerant_walk(reader, policy, starts, excluded) is Ok,
        tolerant_walk(reader, policy, starts, excluded)->Ok_0.to_set() == strict_walk(
            reader,
            starts,
            excluded,
            Set::empty(),
        )->Ok_0.to_set(),
{
    let strict = strict_schedule(reader, Set::empty());
    let tolerant = tolerant_schedule(reader, policy);
    let all = strict_walk(reader, starts, excluded, Set::empty())->Ok_0;
    let begin = starts.to_set();
    law_walk_visits_closure(strict, excluded, starts.reverse());
    law_walk_visits_closure(tolerant, excluded, starts);
    assert(starts.reverse().to_set() =~= begin) by {
        assert forall|oid: ObjectId| starts.reverse().to_set().contains(oid) == begin.contains(oid) by {
            lemma_reverse_contains(starts, oid);
        }
    }
    assert forall|oid: ObjectId, next: ObjectId| #![trigger strict(oid), successors(tolerant, oid).contains(next)]
        strict(oid) is Ok implies successors(strict, oid).contains(next) == successors(tolerant, oid).contains(
        next,
    ) by {
        lemma_schedules_agree(*reader.object_at(oid)->Ok_0, reader.grafted(oid), next);
    }
    assert forall|oid: ObjectId| #![trigger strict(oid)] strict(oid) is Ok implies tolerant(oid) is Ok by {
        lemma_schedules_agree(*reader.object_at(oid)->Ok_0, reader.grafted(oid), oid);
    }
    let set = all.to_set();
    assert forall|oid: ObjectId, next: ObjectId|
        #![trigger set.contains(oid), successors(tolerant, oid).contains(next)]
        set.contains(oid) && successors(tolerant, oid).contains(next) && !excluded.contains(next)
        implies set.contains(next) by {
        assert(all.contains(oid));
        assert(strict(oid) is Ok);
        assert(successors(strict, oid).contains(next));
    }
    assert(is_closed(tolerant, excluded, begin, set));
    match tolerant_walk(reader, policy, starts, excluded) {
        Err(err) => {
            let oid = choose|oid: ObjectId|
                #[trigger] reaches(tolerant, excluded, begin, oid) && !excluded.contains(oid) && tolerant(oid)
                    == Err::<Seq<ObjectId>, GitError>(err);
            assert(set.contains(oid));
            assert(all.contains(oid));
            assert(strict(oid) is Ok);
        },
        Ok(seen) => {
            let other = seen.to_set();
            assert forall|oid: ObjectId| other.contains(oid) implies set.contains(oid) by {
                assert(seen.contains(oid));
                assert(reaches(tolerant, excluded, begin, oid));
            }
            assert forall|oid: ObjectId, next: ObjectId|
                #![trigger other.contains(oid), successors(strict, oid).contains(next)]
                other.contains(oid) && successors(strict, oid).contains(next) && !excluded.contains(next)
                implies other.contains(next) by {
                assert(set.contains(oid));
                assert(all.contains(oid));
                assert(strict(oid) is Ok);
                assert(successors(tolerant, oid).contains(next));
            }
            assert(is_closed(strict, excluded, begin, other));
            assert forall|oid: ObjectId| set.contains(oid) implies other.contains(oid) by {
                assert(all.contains(oid));
                assert(reaches(strict, excluded, begin, oid));
            }
            assert(other =~= set);
        },
    }
}

} // verus!
