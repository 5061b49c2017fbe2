//! What replacements, promised objects and new blobs come to, in terms of the
//! objects.

use crate::database::entry_ids;
use crate::database::promisor_graph;
use crate::database::promisor_links;
use crate::database::replacement_map;
use crate::database::resolved;
use crate::error::GitError;
use crate::install::fresh_blobs;
use crate::install::is_absent;
use crate::install::is_met;
use crate::install::NamedBlob;
use crate::object::digest;
use crate::object::framed;
use crate::object::EncodedObject;
use crate::object::ObjectContent;
use crate::object::ObjectReader;
use crate::object::TreeEntry;
use crate::object_id::bytes_less;
use crate::object_id::ObjectFormat;
use crate::object_id::ObjectId;
use crate::walk::is_closed;
use crate::walk::reaches;
use crate::walk::successors;
use crate::walk_laws::lemma_push_contains;
use vstd::prelude::*;

verus! {

/// The replacement of an object is the last that was given for it.
pub proof fn law_last_replacement_counts(pairs: Seq<(ObjectId, ObjectId)>, i: int)
    requires
        0 <= i < pairs.len(),
        forall|j: int| i < j < pairs.len() ==> (#[trigger] pairs[j]).0 != pairs[i].0,
    ensures
        replacement_map(pairs).contains_key(pairs[i].0),
        replacement_map(pairs)[pairs[i].0] == pairs[i].1,
    decreases pairs.len(),
{
    let rest = pairs.drop_last();
    let last = pairs.len() - 1;
    if i < last {
        assert(pairs[last].0 != pairs[i].0);
        assert forall|j: int| i < j < rest.len() implies (#[trigger] rest[j]).0 != rest[i].0 by {
            assert(pairs[j].0 != pairs[i].0);
        }
        law_last_replacement_counts(rest, i);
    }
}

/// An object for which none was given is not replaced.
pub proof fn law_other_objects_are_not_replaced(pairs: Seq<(ObjectId, ObjectId)>, oid: ObjectId)
    requires
        forall|i: int| 0 <= i < pairs.len() ==> (#[trigger] pairs[i]).0 != oid,
    ensures
        !replacement_map(pairs).contains_key(oid),
    decreases pairs.len(),
{
    if pairs.len() > 0 {
        let rest = pairs.drop_last();
        assert forall|i: int| 0 <= i < rest.len() implies (#[trigger] rest[i]).0 != oid by {
            assert(pairs[i].0 != oid);
        }
        law_other_objects_are_not_replaced(rest, oid);
        assert(pairs[pairs.len() - 1].0 != oid);
    }
}

proof fn lemma_resolved_along(map: Map<ObjectId, ObjectId>, chain: Seq<ObjectId>, passed: Set<ObjectId>, left: nat)
    requires
        chain.len() > 0,
        forall|i: int|
            #![trigger chain[i]]
            0 <= i < chain.len() - 1 ==> map.contains_key(chain[i]) && map[chain[i]] == chain[i + 1],
        chain.no_duplicates(),
        forall|i: int| 0 <= i < chain.len() ==> !passed.contains(#[trigger] chain[i]),
        !map.contains_key(chain.last()),
    ensures
        resolved(map, chain[0], passed, left) == if chain.len() - 1 <= left {
            Some(chain.last())
        } else {
            None
        },
    decreases chain.len(),
{
    if chain.len() > 1 {
        assert(map.contains_key(chain[0]) && map[chain[0]] == chain[1]);
        assert(chain[0] != chain[1]);
        if left > 0 {
            let rest = chain.drop_first();
            assert forall|i: int|
                #![trigger rest[i]]
                0 <= i < rest.len() - 1 implies map.contains_key(rest[i]) && map[rest[i]] == rest[i + 1] by {
                assert(rest[i] == chain[i + 1]);
                assert(rest[i + 1] == chain[i + 1 + 1]);
            }
            assert forall|i: int, j: int| 0 <= i < rest.len() && 0 <= j < rest.len() && i != j implies rest[i]
                != rest[j] by {
                assert(rest[i] == chain[i + 1] && rest[j] == chain[j + 1]);
            }
            assert forall|i: int| 0 <= i < rest.len() implies !passed.insert(chain[0]).contains(#[trigger] rest[i]) by {
                assert(rest[i] == chain[i + 1]);
                assert(chain[i + 1] != chain[0]);
            }
            assert(rest.last() == chain.last());
            lemma_resolved_along(map, rest, passed.insert(chain[0]), (left - 1) as nat);
        }
    } else {
        assert(chain[0] == chain.last());
    }
}

/// Replacements are followed from one to the next, as far as to an object that
/// has none, over at most five of them; more are refused.
pub proof fn law_replacements_are_followed(map: Map<ObjectId, ObjectId>, chain: Seq<ObjectId>)
    requires
        chain.len() > 0,
        forall|i: int|
            #![trigger chain[i]]
            0 <= i < chain.len() - 1 ==> map.contains_key(chain[i]) && map[chain[i]] == chain[i + 1],
        chain.no_duplicates(),
        !map.contains_key(chain.last()),
    ensures
        resolved(map, chain[0], Set::empty(), 5) == if chain.len() <= 6 {
            Some(chain.last())
        } else {
            None
        },
{
    lemma_resolved_along(map, chain, Set::empty(), 5);
}

proof fn lemma_entry_ids(entries: Seq<Result<TreeEntry, GitError>>, oid: ObjectId)
    ensures
        entry_ids(entries).contains(oid) <==> exists|i: int|
            0 <= i < entries.len() && (#[trigger] entries[i]) is Ok && entries[i]->Ok_0.oid == oid,
    decreases entries.len(),
{
    if entries.len() > 0 {
        let rest = entries.drop_last();
        let last = entries.len() - 1;
        lemma_entry_ids(rest, oid);
        assert(entries[last] == entries.last());
        if entries.last() is Ok {
            lemma_push_contains(entry_ids(rest), entries.last()->Ok_0.oid, oid);
        }
        if exists|i: int| 0 <= i < rest.len() && (#[trigger] rest[i]) is Ok && rest[i]->Ok_0.oid == oid {
            let i = choose|i: int| 0 <= i < rest.len() && (#[trigger] rest[i]) is Ok && rest[i]->Ok_0.oid == oid;
            assert(entries[i] == rest[i]);
        }
        if exists|i: int| 0 <= i < entries.len() && (#[trigger] entries[i]) is Ok && entries[i]->Ok_0.oid == oid {
            let i = choose|i: int|
                0 <= i < entries.len() && (#[trigger] entries[i]) is Ok && entries[i]->Ok_0.oid == oid;
            if i < last {
                assert(rest[i] == entries[i]);
            }
        }
    }
}

/// What an object of a promisor pack names: the tree and every parent of a
/// commit, what every well-formed entry of a tree names, and the target of a
/// tag.
pub proof fn law_promised_links_are_the_fields(object: EncodedObject, oid: ObjectId)
    ensures
        promisor_links(object).contains(oid) <==> match object.content {
            ObjectContent::Commit(Ok(commit)) => commit.tree == oid || exists|i: int|
                0 <= i < commit.parents@.len() && #[trigger] commit.parents@[i] == oid,
            ObjectContent::Tree(entries) => exists|i: int|
                0 <= i < entries@.len() && (#[trigger] entries@[i]) is Ok && entries@[i]->Ok_0.oid == oid,
            ObjectContent::Tag(Ok(target)) => target == oid,
            _ => false,
        },
{
    match object.content {
        ObjectContent::Commit(Ok(commit)) => {
            let links = seq![commit.tree] + commit.parents@;
            assert(links[0] == commit.tree);
            if commit.parents@.contains(oid) {
                let i = choose|i: int| 0 <= i < commit.parents@.len() && commit.parents@[i] == oid;
                assert(links[i + 1] == oid);
            }
            if links.contains(oid) {
                let i = choose|i: int| 0 <= i < links.len() && links[i] == oid;
                if i > 0 {
                    assert(commit.parents@[i - 1] == oid);
                }
            }
        },
        ObjectContent::Tree(entries) => {
            lemma_entry_ids(entries@, oid);
        },
        ObjectContent::Tag(Ok(target)) => {
            assert(seq![target][0] == target);
        },
        _ => {},
    }
}

/// The object under `oid`, where it is read.
spec fn read_at<R: ObjectReader>(reader: &R, oid: ObjectId) -> EncodedObject {
    *reader.object_at(oid)->Ok_0
}

/// The promised objects hold the objects of promisor packs and, with each object
/// that they hold, all that it names.
pub proof fn law_promised_objects_are_closed<R: ObjectReader>(
    reader: &R,
    seeds: Set<ObjectId>,
    from: ObjectId,
    to: ObjectId,
)
    requires
        seeds.contains(from) || reaches(promisor_graph(reader), Set::empty(), seeds, from),
        reader.object_at(from) is Ok,
        match reader.object_at(from)->Ok_0.content {
            ObjectContent::Commit(Ok(commit)) => commit.tree == to || exists|i: int|
                0 <= i < commit.parents@.len() && #[trigger] commit.parents@[i] == to,
            ObjectContent::Tree(entries) => exists|i: int|
                0 <= i < entries@.len() && (#[trigger] entries@[i]) is Ok && entries@[i]->Ok_0.oid == to,
            ObjectContent::Tag(Ok(target)) => target == to,
            _ => false,
        },
    ensures
        reaches(promisor_graph(reader), Set::empty(), seeds, from),
        reaches(promisor_graph(reader), Set::empty(), seeds, to),
{
    let graph = promisor_graph(reader);
    law_promised_links_are_the_fields(read_at(reader, from), to);
    assert(successors(graph, from).contains(to));
    assert forall|set: Set<ObjectId>| is_closed(graph, Set::empty(), seeds, set) implies set.contains(from)
        && set.contains(to) by {
        assert(set.contains(from));
    }
}

/// Nothing else is promised: whatever `set` holds the objects of promisor packs
/// and, with each object that it holds, all that it names, holds all of them.
pub proof fn law_nothing_else_is_promised<R: ObjectReader>(
    reader: &R,
    seeds: Set<ObjectId>,
    set: Set<ObjectId>,
    oid: ObjectId,
)
    requires
        seeds.subset_of(set),
        forall|oid: ObjectId| #[trigger]
            set.contains(oid) && reader.object_at(oid) is Ok ==> match reader.object_at(oid)->Ok_0.content {
                ObjectContent::Commit(Ok(commit)) => {
                    &&& set.contains(commit.tree)
                    &&& forall|i: int| 0 <= i < commit.parents@.len() ==> set.contains(#[trigger] commit.parents@[i])
                },
                ObjectContent::Tree(entries) => forall|i: int|
                    0 <= i < entries@.len() && (#[trigger] entries@[i]) is Ok ==> set.contains(
                        entries@[i]->Ok_0.oid,
                    ),
                ObjectContent::Tag(Ok(target)) => set.contains(target),
                _ => true,
            },
        reaches(promisor_graph(reader), Set::empty(), seeds, oid),
    ensures
        set.contains(oid),
{
    let graph = promisor_graph(reader);
    assert forall|from: ObjectId, next: ObjectId|
        #![trigger set.contains(from), successors(graph, from).contains(next)]
        set.contains(from) && successors(graph, from).contains(next) implies set.contains(next) by {
        assert(reader.object_at(from) is Ok);
        law_promised_links_are_the_fields(read_at(reader, from), next);
    }
    assert(is_closed(graph, Set::empty(), seeds, set));
}

/// A pack of new blobs takes, in their order, the first of each id that the
/// store does not have.
pub proof fn law_fresh_blobs_are_taken_once(blobs: Seq<NamedBlob>, present: Set<ObjectId>)
    requires
        blobs.len() <= usize::MAX,
    ensures
        forall|i: usize| #[trigger]
            fresh_blobs(blobs, present).contains(i) <==> i < blobs.len() && !present.contains(blobs[i as int].oid)
                && forall|j: int| 0 <= j < i ==> (#[trigger] blobs[j]).oid != blobs[i as int].oid,
        forall|a: int, b: int|
            0 <= a < b < fresh_blobs(blobs, present).len() ==> #[trigger] fresh_blobs(blobs, present)[a]
                < #[trigger] fresh_blobs(blobs, present)[b],
    decreases blobs.len(),
{
    if blobs.len() > 0 {
        let rest = blobs.drop_last();
        let last = blobs.len() - 1;
        law_fresh_blobs_are_taken_once(rest, present);
        let before = fresh_blobs(rest, present);
        let after = fresh_blobs(blobs, present);
        assert(blobs[last] == blobs.last());
        assert forall|a: int| 0 <= a < before.len() implies #[trigger] before[a] < rest.len() by {
            assert(before.contains(before[a]));
        }
        assert forall|i: usize| #[trigger] after.contains(i) <==> i < blobs.len() && !present.contains(
            blobs[i as int].oid,
        ) && forall|j: int| 0 <= j < i ==> (#[trigger] blobs[j]).oid != blobs[i as int].oid by {
            if i < last {
                assert(rest[i as int] == blobs[i as int]);
                assert(before.contains(i) <==> !present.contains(rest[i as int].oid) && forall|j: int|
                    0 <= j < i ==> (#[trigger] rest[j]).oid != rest[i as int].oid);
                if before.contains(i) {
                    let k = choose|k: int| 0 <= k < before.len() && before[k] == i;
                    assert(after[k] == i);
                    assert forall|j: int| 0 <= j < i implies (#[trigger] blobs[j]).oid != blobs[i as int].oid by {
                        assert(rest[j].oid != rest[i as int].oid);
                    }
                }
                if after.contains(i) {
                    let k = choose|k: int| 0 <= k < after.len() && after[k] == i;
                    assert(k < before.len());
                    assert(before[k] == i);
                }
                if forall|j: int| 0 <= j < i ==> (#[trigger] blobs[j]).oid != blobs[i as int].oid {
                    assert forall|j: int| 0 <= j < i implies (#[trigger] rest[j]).oid != rest[i as int].oid by {
                        assert(blobs[j].oid != blobs[i as int].oid);
                    }
                }
            } else if i == last {
                if after.len() > before.len() {
                    assert(after[before.len() as int] == i);
                }
                if after.contains(i) {
                    let k = choose|k: int| 0 <= k < after.len() && after[k] == i;
                    if k < before.len() {
                        assert(before[k] < rest.len());
                    }
                }
            } else {
                if after.contains(i) {
                    let k = choose|k: int| 0 <= k < after.len() && after[k] == i;
                    if k < before.len() {
                        assert(before[k] < rest.len());
                    }
                }
            }
        }
    }
}

/// Ids sort as their bytes do: by the first byte in which they differ, and where
/// there is none the shorter first.
pub proof fn law_bytes_sort_by_the_first_difference(a: Seq<u8>, b: Seq<u8>)
    ensures
        forall|i: int|
            0 <= i < a.len() && i < b.len() && #[trigger] a[i] != b[i] && a.take(i) == b.take(i) ==> bytes_less(a, b)
                == (a[i] < b[i]),
        a.len() <= b.len() && a == b.take(a.len() as int) ==> bytes_less(a, b) == (a.len() < b.len()),
        b.len() <= a.len() && b == a.take(b.len() as int) ==> !bytes_less(a, b),
    decreases a.len(),
{
    if a.len() > 0 && b.len() > 0 && a[0] == b[0] {
        let x = a.drop_first();
        let y = b.drop_first();
        law_bytes_sort_by_the_first_difference(x, y);
        assert forall|i: int|
            0 <= i < a.len() && i < b.len() && #[trigger] a[i] != b[i] && a.take(i) == b.take(i) implies bytes_less(a, b)
            == (a[i] < b[i]) by {
            assert(x[i - 1] == a[i] && y[i - 1] == b[i]);
            assert(x.take(i - 1) =~= a.take(i).drop_first());
            assert(y.take(i - 1) =~= b.take(i).drop_first());
        }
        if a.len() <= b.len() && a == b.take(a.len() as int) {
            assert(x =~= y.take(x.len() as int)) by {
                assert forall|i: int| 0 <= i < x.len() implies x[i] == y[i] by {
                    assert(a[i + 1] == b.take(a.len() as int)[i + 1]);
                }
            }
        }
        if b.len() <= a.len() && b == a.take(b.len() as int) {
            assert(y =~= x.take(y.len() as int)) by {
                assert forall|i: int| 0 <= i < y.len() implies y[i] == x[i] by {
                    assert(b[i + 1] == a.take(b.len() as int)[i + 1]);
                }
            }
        }
    } else if a.len() > 0 && b.len() > 0 {
        assert forall|i: int|
            0 <= i < a.len() && i < b.len() && #[trigger] a[i] != b[i] && a.take(i) == b.take(i) implies bytes_less(a, b)
            == (a[i] < b[i]) by {
            if i > 0 {
                assert(a.take(i)[0] == b.take(i)[0]);
            }
        }
        if a.len() <= b.len() && a == b.take(a.len() as int) {
            assert(a[0] == b.take(a.len() as int)[0]);
        }
        if b.len() <= a.len() && b == a.take(b.len() as int) {
            assert(b[0] == a.take(b.len() as int)[0]);
        }
    }
}

/// A prerequisite of a bundle is met where the object is there and is the one
/// that its id names.
pub proof fn law_prerequisite_is_met_by_its_object<R: ObjectReader>(
    reader: &R,
    format: ObjectFormat,
    oid: ObjectId,
)
    ensures
        is_met(reader, format, oid) <==> oid.spec_format() == format && (reader.object_at(oid) matches Ok(object)
            && oid.raw() == digest(format, framed(object.spec_type(), object.body@))),
        is_absent(reader, format, oid) <==> (reader.object_at(oid) matches Err(GitError::NotFound(_))),
{
}

} // verus!
