//! The depth-first walk that every traversal of the object graph shares.

use crate::error::GitError;
use crate::object::EncodedObject;
use crate::object_id::all_ids;
use crate::object_id::lemma_all_ids_finite;
use crate::object_id::ObjectId;
use crate::oid_map::OidSet;
use std::sync::Arc;
use vstd::prelude::*;

verus! {

/// What a walk learns at one id: the object, unless the walk passes over it,
/// and the ids that it schedules next, the last of them to be taken first.
pub struct Visit {
    pub object: Option<Arc<EncodedObject>>,
    pub scheduled: Vec<ObjectId>,
}

/// The ids that a visit of an id schedules, or the error that ends the walk.
pub type Schedule = spec_fn(ObjectId) -> Result<Seq<ObjectId>, GitError>;

/// How a walk expands an id.
pub trait Expand {
    /// The object that a visit of `oid` hands on.
    spec fn object_of(&self, oid: ObjectId) -> Option<Arc<EncodedObject>>;

    spec fn schedule(&self) -> Schedule;

    fn expand(&self, oid: &ObjectId) -> (visit: Result<Visit, GitError>)
        ensures
            match visit {
                Ok(visit) => (self.schedule())(*oid) == Ok::<Seq<ObjectId>, GitError>(visit.scheduled@)
                    && visit.object == self.object_of(*oid),
                Err(err) => (self.schedule())(*oid) == Err::<Seq<ObjectId>, GitError>(err),
            },
    ;
}

/// The ids not yet in `seen`.
pub open spec fn unseen(seen: Seq<ObjectId>) -> Set<ObjectId> {
    all_ids().difference(seen.to_set())
}

pub proof fn lemma_unseen_shrinks(seen: Seq<ObjectId>, oid: ObjectId)
    requires
        !seen.contains(oid),
    ensures
        unseen(seen.push(oid)).len() < unseen(seen).len(),
{
    lemma_all_ids_finite();
    seen.lemma_push_to_set_commute(oid);
    assert(unseen(seen.push(oid)) =~= unseen(seen).remove(oid));
    assert(unseen(seen).contains(oid));
    vstd::set_lib::lemma_len_subset(unseen(seen), all_ids());
}

/// The ids that a depth-first walk visits, in order, given the stack of ids
/// still to take and the ids already visited: the top of the stack is taken
/// next, passed over when it is excluded or was visited before, and otherwise
/// visited and replaced on the stack by what it schedules.
pub open spec fn walk_from(
    graph: Schedule,
    excluded: Set<ObjectId>,
    stack: Seq<ObjectId>,
    seen: Seq<ObjectId>,
) -> Result<Seq<ObjectId>, GitError>
    decreases unseen(seen).len(), stack.len(),
{
    if stack.len() == 0 {
        Ok(seen)
    } else {
        let oid = stack.last();
        let rest = stack.drop_last();
        if excluded.contains(oid) || seen.contains(oid) {
            walk_from(graph, excluded, rest, seen)
        } else {
            match graph(oid) {
                Err(err) => Err(err),
                Ok(scheduled) => {
                    proof {
                        lemma_unseen_shrinks(seen, oid);
                    }
                    walk_from(graph, excluded, rest + scheduled, seen.push(oid))
                },
            }
        }
    }
}

/// The ids that an id leads to; none where expanding it fails.
pub open spec fn successors(graph: Schedule, oid: ObjectId) -> Seq<ObjectId> {
    match graph(oid) {
        Ok(scheduled) => scheduled,
        Err(_) => Seq::empty(),
    }
}

/// Whether `set` holds every start that is not excluded and, with each id that
/// it holds, every successor of it that is not excluded.
pub open spec fn is_closed(
    graph: Schedule,
    excluded: Set<ObjectId>,
    starts: Set<ObjectId>,
    set: Set<ObjectId>,
) -> bool {
    &&& forall|oid: ObjectId| starts.contains(oid) && !excluded.contains(oid) ==> set.contains(oid)
    &&& forall|oid: ObjectId, next: ObjectId|
        #![trigger set.contains(oid), successors(graph, oid).contains(next)]
        set.contains(oid) && successors(graph, oid).contains(next) && !excluded.contains(next)
            ==> set.contains(next)
}

/// Whether `oid` can be reached from `starts` without entering `excluded`:
/// every closed set holds it.
pub open spec fn reaches(
    graph: Schedule,
    excluded: Set<ObjectId>,
    starts: Set<ObjectId>,
    oid: ObjectId,
) -> bool {
    forall|set: Set<ObjectId>| is_closed(graph, excluded, starts, set) ==> set.contains(oid)
}

/// What holds of a walk in progress: `seen` is free of excluded ids and of
/// repetitions, all that it leads to is seen or on the stack, and every closed
/// set holds what is seen and what on the stack is not excluded.
spec fn in_progress(
    graph: Schedule,
    excluded: Set<ObjectId>,
    starts: Set<ObjectId>,
    stack: Seq<ObjectId>,
    seen: Seq<ObjectId>,
) -> bool {
    &&& seen.no_duplicates()
    &&& forall|i: int| 0 <= i < seen.len() ==> !excluded.contains(#[trigger] seen[i])
    &&& forall|i: int| 0 <= i < seen.len() ==> graph(#[trigger] seen[i]) is Ok
    &&& forall|oid: ObjectId|
        #![trigger starts.contains(oid)]
        starts.contains(oid) && !excluded.contains(oid) ==> seen.contains(oid) || stack.contains(oid)
    &&& forall|oid: ObjectId, next: ObjectId|
        #![trigger seen.contains(oid), successors(graph, oid).contains(next)]
        seen.contains(oid) && successors(graph, oid).contains(next) && !excluded.contains(next)
            ==> seen.contains(next) || stack.contains(next)
    &&& forall|set: Set<ObjectId>|
        #![trigger is_closed(graph, excluded, starts, set)]
        is_closed(graph, excluded, starts, set) ==> {
            &&& forall|i: int| 0 <= i < seen.len() ==> set.contains(#[trigger] seen[i])
            &&& forall|i: int|
                0 <= i < stack.len() && !excluded.contains(stack[i]) ==> set.contains(#[trigger] stack[i])
        }
}

proof fn lemma_stack_contains(stack: Seq<ObjectId>, oid: ObjectId)
    requires
        stack.len() > 0,
        stack.contains(oid),
    ensures
        oid == stack.last() || stack.drop_last().contains(oid),
{
    let i = choose|i: int| 0 <= i < stack.len() && stack[i] == oid;
    if i < stack.len() - 1 {
        assert(stack.drop_last()[i] == oid);
    }
}

proof fn lemma_walk_keeps_progress(
    graph: Schedule,
    excluded: Set<ObjectId>,
    starts: Set<ObjectId>,
    stack: Seq<ObjectId>,
    seen: Seq<ObjectId>,
)
    requires
        in_progress(graph, excluded, starts, stack, seen),
    ensures
        match walk_from(graph, excluded, stack, seen) {
            Ok(all) => in_progress(graph, excluded, starts, Seq::empty(), all),
            Err(err) => exists|oid: ObjectId|
                #[trigger] reaches(graph, excluded, starts, oid) && !excluded.contains(oid)
                    && graph(oid) == Err::<Seq<ObjectId>, GitError>(err),
        },
    decreases unseen(seen).len(), stack.len(),
{
    if stack.len() == 0 {
        assert(stack =~= Seq::<ObjectId>::empty());
    } else {
        let oid = stack.last();
        let rest = stack.drop_last();
        assert(stack[stack.len() - 1] == oid);
        if excluded.contains(oid) || seen.contains(oid) {
            assert forall|o: ObjectId|
                #![trigger starts.contains(o)]
                starts.contains(o) && !excluded.contains(o) implies seen.contains(o) || rest.contains(o) by {
                if stack.contains(o) {
                    lemma_stack_contains(stack, o);
                }
            }
            assert forall|o: ObjectId, next: ObjectId|
                #![trigger seen.contains(o), successors(graph, o).contains(next)]
                seen.contains(o) && successors(graph, o).contains(next) && !excluded.contains(next)
                implies seen.contains(next) || rest.contains(next) by {
                if stack.contains(next) {
                    lemma_stack_contains(stack, next);
                }
            }
            assert forall|set: Set<ObjectId>|
                #![trigger is_closed(graph, excluded, starts, set)]
                is_closed(graph, excluded, starts, set) implies {
                &&& forall|i: int| 0 <= i < seen.len() ==> set.contains(#[trigger] seen[i])
                &&& forall|i: int|
                    0 <= i < rest.len() && !excluded.contains(rest[i]) ==> set.contains(#[trigger] rest[i])
            } by {
                assert forall|i: int| 0 <= i < rest.len() && !excluded.contains(rest[i])
                    implies set.contains(#[trigger] rest[i]) by {
                    assert(rest[i] == stack[i]);
                }
            }
            lemma_walk_keeps_progress(graph, excluded, starts, rest, seen);
        } else {
            assert forall|set: Set<ObjectId>| is_closed(graph, excluded, starts, set)
                implies set.contains(oid) by {
                assert(set.contains(stack[stack.len() - 1]));
            }
            assert(reaches(graph, excluded, starts, oid));
            match graph(oid) {
                Err(err) => {},
                Ok(scheduled) => {
                    let seen2 = seen.push(oid);
                    let stack2 = rest + scheduled;
                    lemma_unseen_shrinks(seen, oid);
                    assert(seen2.no_duplicates());
                    assert(seen2[seen.len() as int] == oid);
                    assert forall|o: ObjectId| seen.contains(o) implies seen2.contains(o) by {
                        let i = choose|i: int| 0 <= i < seen.len() && seen[i] == o;
                        assert(seen2[i] == o);
                    }
                    assert forall|o: ObjectId| rest.contains(o) implies stack2.contains(o) by {
                        let i = choose|i: int| 0 <= i < rest.len() && rest[i] == o;
                        assert(stack2[i] == o);
                    }
                    assert forall|o: ObjectId| scheduled.contains(o) implies stack2.contains(o) by {
                        let i = choose|i: int| 0 <= i < scheduled.len() && scheduled[i] == o;
                        assert(stack2[rest.len() + i] == o);
                    }
                    assert forall|o: ObjectId|
                        #![trigger starts.contains(o)]
                        starts.contains(o) && !excluded.contains(o)
                        implies seen2.contains(o) || stack2.contains(o) by {
                        if stack.contains(o) {
                            lemma_stack_contains(stack, o);
                        }
                    }
                    assert forall|o: ObjectId, next: ObjectId|
                        #![trigger seen2.contains(o), successors(graph, o).contains(next)]
                        seen2.contains(o) && successors(graph, o).contains(next) && !excluded.contains(next)
                        implies seen2.contains(next) || stack2.contains(next) by {
                        if o != oid {
                            let i = choose|i: int| 0 <= i < seen2.len() && seen2[i] == o;
                            assert(seen[i] == o);
                            assert(seen.contains(o));
                            if stack.contains(next) {
                                lemma_stack_contains(stack, next);
                            }
                        }
                    }
                    assert forall|set: Set<ObjectId>|
                        #![trigger is_closed(graph, excluded, starts, set)]
                        is_closed(graph, excluded, starts, set) implies {
                        &&& forall|i: int| 0 <= i < seen2.len() ==> set.contains(#[trigger] seen2[i])
                        &&& forall|i: int|
                            0 <= i < stack2.len() && !excluded.contains(stack2[i])
                                ==> set.contains(#[trigger] stack2[i])
                    } by {
                        assert(set.contains(oid));
                        assert forall|i: int| 0 <= i < stack2.len() && !excluded.contains(stack2[i])
                            implies set.contains(#[trigger] stack2[i]) by {
                            if i < rest.len() {
                                assert(stack2[i] == stack[i]);
                            } else {
                                assert(stack2[i] == scheduled[i - rest.len()]);
                                assert(successors(graph, oid).contains(stack2[i]));
                            }
                        }
                    }
                    lemma_walk_keeps_progress(graph, excluded, starts, stack2, seen2);
                },
            }
        }
    }
}

/// A walk that succeeds visits each id once, visits exactly the ids that can be
/// reached from the starts without entering the excluded set, and its visited
/// ids form the least closed set. A walk that fails does so with the error of
/// an id that can be reached.
pub proof fn law_walk_visits_closure(graph: Schedule, excluded: Set<ObjectId>, stack: Seq<ObjectId>)
    ensures
        match walk_from(graph, excluded, stack, Seq::empty()) {
            Ok(all) => {
                &&& all.no_duplicates()
                &&& is_closed(graph, excluded, stack.to_set(), all.to_set())
                &&& forall|oid: ObjectId|
                    #[trigger] all.contains(oid) <==> reaches(graph, excluded, stack.to_set(), oid)
                &&& forall|oid: ObjectId| #[trigger] all.contains(oid) ==> !excluded.contains(oid)
                &&& forall|oid: ObjectId| #[trigger] all.contains(oid) ==> graph(oid) is Ok
            },
            Err(err) => exists|oid: ObjectId|
                #[trigger] reaches(graph, excluded, stack.to_set(), oid) && !excluded.contains(oid)
                    && graph(oid) == Err::<Seq<ObjectId>, GitError>(err),
        },
{
    let starts = stack.to_set();
    let empty = Seq::<ObjectId>::empty();
    assert forall|set: Set<ObjectId>|
        #![trigger is_closed(graph, excluded, starts, set)]
        is_closed(graph, excluded, starts, set) implies {
        &&& forall|i: int| 0 <= i < empty.len() ==> set.contains(#[trigger] empty[i])
        &&& forall|i: int|
            0 <= i < stack.len() && !excluded.contains(stack[i]) ==> set.contains(#[trigger] stack[i])
    } by {
        assert forall|i: int| 0 <= i < stack.len() && !excluded.contains(stack[i])
            implies set.contains(#[trigger] stack[i]) by {
            assert(starts.contains(stack[i]));
        }
    }
    lemma_walk_keeps_progress(graph, excluded, starts, stack, empty);
    if let Ok(all) = walk_from(graph, excluded, stack, empty) {
        let set = all.to_set();
        assert forall|oid: ObjectId, next: ObjectId|
            #![trigger set.contains(oid), successors(graph, oid).contains(next)]
            set.contains(oid) && successors(graph, oid).contains(next) && !excluded.contains(next)
            implies set.contains(next) by {
            assert(all.contains(oid));
        }
        assert(is_closed(graph, excluded, starts, set));
        assert forall|oid: ObjectId| #[trigger] all.contains(oid) implies reaches(graph, excluded, starts, oid) by {
            let i = choose|i: int| 0 <= i < all.len() && all[i] == oid;
            assert forall|other: Set<ObjectId>| is_closed(graph, excluded, starts, other)
                implies other.contains(oid) by {
                assert(other.contains(all[i]));
            }
        }
        assert forall|oid: ObjectId| reaches(graph, excluded, starts, oid) implies #[trigger] all.contains(oid) by {
            assert(set.contains(oid));
        }
    }
}

/// An id whose expansion fails, and that can be reached without entering the
/// excluded set, makes the walk fail.
pub proof fn law_walk_fails_on_reached_failure(
    graph: Schedule,
    excluded: Set<ObjectId>,
    stack: Seq<ObjectId>,
    oid: ObjectId,
)
    requires
        reaches(graph, excluded, stack.to_set(), oid),
        graph(oid) is Err,
    ensures
        walk_from(graph, excluded, stack, Seq::empty()) is Err,
{
    law_walk_visits_closure(graph, excluded, stack);
    if let Ok(all) = walk_from(graph, excluded, stack, Seq::empty()) {
        assert(all.contains(oid));
    }
}

/// Excluding more never adds an id to a walk that succeeds both times.
pub proof fn law_walk_antitone_in_excluded(
    graph: Schedule,
    less: Set<ObjectId>,
    more: Set<ObjectId>,
    stack: Seq<ObjectId>,
    oid: ObjectId,
)
    requires
        less.subset_of(more),
        walk_from(graph, less, stack, Seq::empty()) is Ok,
        walk_from(graph, more, stack, Seq::empty()) is Ok,
        walk_from(graph, more, stack, Seq::empty())->Ok_0.contains(oid),
    ensures
        walk_from(graph, less, stack, Seq::empty())->Ok_0.contains(oid),
{
    law_walk_visits_closure(graph, less, stack);
    law_walk_visits_closure(graph, more, stack);
    let big = walk_from(graph, less, stack, Seq::empty())->Ok_0.to_set();
    let starts = stack.to_set();
    assert forall|o: ObjectId, next: ObjectId|
        #![trigger big.contains(o), successors(graph, o).contains(next)]
        big.contains(o) && successors(graph, o).contains(next) && !more.contains(next)
        implies big.contains(next) by {}
    assert(is_closed(graph, more, starts, big));
}

/// What a walk collected.
pub struct Walk {
    /// The ids visited, in order.
    pub seen: OidSet,
    /// The object that each visit handed on, in the same order.
    pub objects: Vec<Option<Arc<EncodedObject>>>,
}

/// Walks depth-first from the ids of `starts`, its last one first.
pub fn walk<E: Expand>(graph: &E, starts: Vec<ObjectId>, excluded: &OidSet) -> (walked: Result<Walk, GitError>)
    ensures
        match walked {
            Ok(walked) => {
                &&& walk_from(graph.schedule(), excluded@, starts@, Seq::empty())
                    == Ok::<Seq<ObjectId>, GitError>(walked.seen.items())
                &&& walked.objects@ == walked.seen.items().map_values(|oid: ObjectId| graph.object_of(oid))
            },
            Err(err) => walk_from(graph.schedule(), excluded@, starts@, Seq::empty())
                == Err::<Seq<ObjectId>, GitError>(err),
        },
{
    let ghost start = starts@;
    let mut stack = starts;
    let mut seen = OidSet::new();
    let mut objects: Vec<Option<Arc<EncodedObject>>> = Vec::new();
    while stack.len() > 0
        invariant
            start == starts@,
            walk_from(graph.schedule(), excluded@, start, Seq::empty())
                == walk_from(graph.schedule(), excluded@, stack@, seen.items()),
            objects@ == seen.items().map_values(|oid: ObjectId| graph.object_of(oid)),
        decreases unseen(seen.items()).len(), stack@.len(),
    {
        let ghost before = stack@;
        let ghost seen_before = seen.items();
        match stack.pop() {
            None => {},
            Some(oid) => {
                assert(oid == before.last() && stack@ == before.drop_last());
                let passed = excluded.contains(&oid) || seen.contains(&oid);
                assert(seen@.contains(oid) == seen.items().contains(oid));
                if !passed {
                    match graph.expand(&oid) {
                        Err(err) => {
                            assert(walk_from(graph.schedule(), excluded@, before, seen.items())
                                == Err::<Seq<ObjectId>, GitError>(err));
                            return Err(err);
                        },
                        Ok(visit) => {
                            let Visit { object, scheduled } = visit;
                            let mut scheduled = scheduled;
                            proof {
                                lemma_unseen_shrinks(seen.items(), oid);
                            }
                            seen.insert(oid);
                            objects.push(object);
                            stack.append(&mut scheduled);
                            assert(objects@ =~= seen.items().map_values(|oid: ObjectId| graph.object_of(oid)));
                        },
                    }
                }
            },
        }
    }
    Ok(Walk { seen, objects })
}

} // verus!
