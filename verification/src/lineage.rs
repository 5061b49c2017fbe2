//! How many commits are maximal for a selection: the first-parent lineages of
//! the selected commits, and where they come together.

use crate::bitmap_build::ends_in;
use crate::bitmap_walk::misuse;
use crate::bitmap_walk::FillEnd;
use crate::bitset::bit;
use crate::bitset::bits;
use crate::bitset::bitset_get;
use crate::bitset::bitset_is_subset;
use crate::bitset::bitset_set;
use crate::bitset::empty_bitset;
use crate::bitset::word_count_for;
use crate::bitset::words_for;
use crate::error::GitError;
use crate::object::ObjectContent;
use crate::object::ObjectReader;
use crate::object_id::ObjectId;
use crate::oid_map::OidSet;
use crate::reachability::copy_oids;
use crate::reachability::followed_parents;
use crate::walk::is_closed;
use crate::walk::lemma_unseen_shrinks;
use crate::walk::reaches;
use crate::walk::successors;
use crate::walk::unseen;
use crate::walk::Schedule;
use vstd::prelude::*;

verus! {

/// The first parent that walks follow from a commit, or how reading it fails.
pub open spec fn first_parent<R: ObjectReader>(reader: &R, oid: ObjectId) -> Result<Option<ObjectId>, FillEnd> {
    match reader.object_at(oid) {
        Err(err) => Err(FillEnd::Failed(err)),
        Ok(object) => match object.content {
            ObjectContent::Commit(Err(err)) => Err(FillEnd::Failed(err)),
            ObjectContent::Commit(Ok(commit)) => {
                let parents = followed_parents(commit, reader.grafted(oid));
                if parents.len() > 0 {
                    Ok(Some(parents[0]))
                } else {
                    Ok(None)
                }
            },
            _ => Err(FillEnd::Misused(oid)),
        },
    }
}

/// The commits on the first-parent lineages of those on the stack, in the order
/// in which they are met.
pub open spec fn lineages<R: ObjectReader>(
    reader: &R,
    stack: Seq<ObjectId>,
    seen: Seq<ObjectId>,
) -> Result<Seq<ObjectId>, FillEnd>
    decreases unseen(seen).len(), stack.len(),
{
    if stack.len() == 0 {
        Ok(seen)
    } else {
        let oid = stack.last();
        let rest = stack.drop_last();
        if seen.contains(oid) {
            lineages(reader, rest, seen)
        } else {
            proof {
                lemma_unseen_shrinks(seen, oid);
            }
            match first_parent(reader, oid) {
                Err(end) => Err(end),
                Ok(None) => lineages(reader, rest, seen.push(oid)),
                Ok(Some(parent)) => lineages(reader, rest.push(parent), seen.push(oid)),
            }
        }
    }
}

/// The links from commits to their first parents.
pub open spec fn lineage_graph<R: ObjectReader>(reader: &R) -> Schedule {
    |oid: ObjectId|
        match first_parent(reader, oid) {
            Ok(Some(parent)) => Ok(seq![parent]),
            _ => Ok(Seq::<ObjectId>::empty()),
        }
}

/// Whether `oid` is on the first-parent lineage of `from`.
pub open spec fn descends_to<R: ObjectReader>(reader: &R, from: ObjectId, oid: ObjectId) -> bool {
    reaches(lineage_graph(reader), Set::empty(), set![from], oid)
}

/// Which of the selected commits have `oid` on their lineage.
pub open spec fn lineage_mask<R: ObjectReader>(reader: &R, selected: Seq<ObjectId>, oid: ObjectId) -> Set<int> {
    Set::new(|i: int| 0 <= i < selected.len() && descends_to(reader, selected[i], oid))
}

/// Whether a commit on one of the lineages is on more of them than any of its
/// children is.
pub open spec fn is_maximal<R: ObjectReader>(
    reader: &R,
    selected: Seq<ObjectId>,
    nodes: Seq<ObjectId>,
    oid: ObjectId,
) -> bool {
    &&& nodes.contains(oid)
    &&& forall|child: ObjectId| #[trigger]
        nodes.contains(child) && first_parent(reader, child) == Ok::<Option<ObjectId>, FillEnd>(Some(oid))
            ==> lineage_mask(reader, selected, child) != lineage_mask(reader, selected, oid)
}

/// The commits on the lineages that are maximal.
pub open spec fn maximal_commits<R: ObjectReader>(
    reader: &R,
    selected: Seq<ObjectId>,
    nodes: Seq<ObjectId>,
) -> Set<ObjectId> {
    Set::new(|oid: ObjectId| is_maximal(reader, selected, nodes, oid))
}

/// The lineages of selected commits, with the first parent of each commit.
struct Lineage {
    nodes: OidSet,
    parents: Vec<Option<ObjectId>>,
}

impl Lineage {
    spec fn wf<R: ObjectReader>(self, reader: &R) -> bool {
        &&& self.parents@.len() == self.nodes.items().len()
        &&& self.nodes.items().no_duplicates()
        &&& forall|i: int|
            0 <= i < self.parents@.len() ==> first_parent(reader, self.nodes.items()[i]) == Ok::<
                Option<ObjectId>,
                FillEnd,
            >(#[trigger] self.parents@[i])
        &&& forall|i: int|
            0 <= i < self.parents@.len() && (#[trigger] self.parents@[i]) is Some ==> self.nodes.items().contains(
                self.parents@[i]->Some_0,
            )
    }
}

fn walk_lineages<R: ObjectReader>(reader: &R, selected: &[ObjectId]) -> (lineage: Result<Lineage, GitError>)
    ensures
        match lineages(reader, selected@, Seq::empty()) {
            Ok(nodes) => lineage is Ok && lineage->Ok_0.wf(reader) && lineage->Ok_0.nodes.items() == nodes
                && forall|i: int| 0 <= i < selected@.len() ==> nodes.contains(#[trigger] selected@[i]),
            Err(end) => lineage matches Err(err) && ends_in(end, err),
        },
{
    let mut nodes = OidSet::new();
    let mut parents: Vec<Option<ObjectId>> = Vec::new();
    let mut stack = copy_oids(selected);
    while stack.len() > 0
        invariant
            lineages(reader, selected@, Seq::empty()) == lineages(reader, stack@, nodes.items()),
            parents@.len() == nodes.items().len(),
            nodes.items().no_duplicates(),
            forall|i: int|
                0 <= i < parents@.len() ==> first_parent(reader, nodes.items()[i]) == Ok::<
                    Option<ObjectId>,
                    FillEnd,
                >(#[trigger] parents@[i]),
            forall|i: int|
                0 <= i < parents@.len() && (#[trigger] parents@[i]) is Some ==> nodes.items().contains(
                    parents@[i]->Some_0,
                ) || stack@.contains(parents@[i]->Some_0),
            forall|i: int|
                0 <= i < selected@.len() ==> nodes.items().contains(#[trigger] selected@[i]) || stack@.contains(
                    selected@[i],
                ),
        decreases unseen(nodes.items()).len(), stack@.len(),
    {
        let ghost held = stack@;
        let ghost seen = nodes.items();
        match stack.pop() {
            None => {},
            Some(oid) => {
                assert(oid == held.last() && stack@ == held.drop_last());
                assert forall|o: ObjectId| held.contains(o) implies o == oid || #[trigger] stack@.contains(o) by {
                    let k = choose|k: int| 0 <= k < held.len() && held[k] == o;
                    if k < stack@.len() {
                        assert(stack@[k] == o);
                    }
                }
                assert(nodes@.contains(oid) == nodes.items().contains(oid));
                if !nodes.contains(&oid) {
                    proof {
                        lemma_unseen_shrinks(seen, oid);
                    }
                    let parent = match reader.read_object(&oid) {
                        Err(err) => {
                            return Err(err);
                        },
                        Ok(object) => match &object.content {
                            ObjectContent::Commit(Err(err)) => {
                                return Err(err.copy());
                            },
                            ObjectContent::Commit(Ok(commit)) => {
                                if reader.is_shallow_graft(&oid) || commit.parents.len() == 0 {
                                    None
                                } else {
                                    Some(commit.parents[0])
                                }
                            },
                            _ => {
                                return Err(misuse(&oid));
                            },
                        },
                    };
                    assert(first_parent(reader, oid) == Ok::<Option<ObjectId>, FillEnd>(parent));
                    nodes.insert(oid);
                    parents.push(parent);
                    assert(nodes.items() == seen.push(oid));
                    let ghost rest = stack@;
                    match parent {
                        Some(parent) => {
                            stack.push(parent);
                        },
                        None => {},
                    }
                    proof {
                        let all = nodes.items();
                        assert(all[seen.len() as int] == oid);
                        assert forall|o: ObjectId| seen.contains(o) implies #[trigger] all.contains(o) by {
                            let k = choose|k: int| 0 <= k < seen.len() && seen[k] == o;
                            assert(all[k] == o);
                        }
                        assert forall|o: ObjectId| rest.contains(o) implies #[trigger] stack@.contains(o) by {
                            let k = choose|k: int| 0 <= k < rest.len() && rest[k] == o;
                            assert(stack@[k] == o);
                        }
                        if parent is Some {
                            assert(stack@[stack@.len() - 1] == parent->Some_0);
                        }
                        assert forall|i: int| 0 <= i < parents@.len() implies first_parent(reader, all[i]) == Ok::<
                            Option<ObjectId>,
                            FillEnd,
                        >(#[trigger] parents@[i]) by {
                            if i < seen.len() {
                                assert(all[i] == seen[i]);
                            }
                        }
                    }
                }
            },
        }
    }
    Ok(Lineage { nodes, parents })
}

/// For each commit of a lineage, the position of its first parent.
fn parent_positions<R: ObjectReader>(reader: &R, lineage: &Lineage) -> (positions: Vec<Option<usize>>)
    requires
        lineage.wf(reader),
    ensures
        positions@.len() == lineage.parents@.len(),
        forall|i: int|
            0 <= i < positions@.len() ==> match #[trigger] positions@[i] {
                Some(p) => p < positions@.len() && lineage.parents@[i] == Some(lineage.nodes.items()[p as int]),
                None => lineage.parents@[i] is None,
            },
{
    let mut positions: Vec<Option<usize>> = Vec::with_capacity(lineage.parents.len());
    let mut i: usize = 0;
    while i < lineage.parents.len()
        invariant
            i <= lineage.parents@.len(),
            lineage.wf(reader),
            positions@.len() == i,
            forall|k: int|
                0 <= k < i ==> match #[trigger] positions@[k] {
                    Some(p) => p < lineage.parents@.len() && lineage.parents@[k] == Some(
                        lineage.nodes.items()[p as int],
                    ),
                    None => lineage.parents@[k] is None,
                },
        decreases lineage.parents@.len() - i,
    {
        match lineage.parents[i] {
            None => {
                positions.push(None);
            },
            Some(parent) => {
                assert(lineage.parents@[i as int] is Some);
                assert(lineage.nodes.items().contains(parent));
                positions.push(lineage.nodes.position(&parent));
            },
        }
        i += 1;
    }
    positions
}

/// A set of positions that holds a start, with each position that of the first
/// parent, and only positions on the lineage, is the lineage.
proof fn lemma_lineage_is_chain<R: ObjectReader>(
    reader: &R,
    nodes: Seq<ObjectId>,
    positions: Seq<Option<usize>>,
    start: int,
    visited: Seq<int>,
    k: int,
)
    requires
        positions.len() == nodes.len(),
        nodes.no_duplicates(),
        0 <= start < nodes.len(),
        forall|i: int|
            0 <= i < nodes.len() ==> match #[trigger] positions[i] {
                Some(p) => p < nodes.len() && first_parent(reader, nodes[i]) == Ok::<Option<ObjectId>, FillEnd>(
                    Some(nodes[p as int]),
                ),
                None => first_parent(reader, nodes[i]) == Ok::<Option<ObjectId>, FillEnd>(None),
            },
        visited.contains(start),
        forall|i: int| 0 <= i < visited.len() ==> 0 <= #[trigger] visited[i] < nodes.len(),
        forall|i: int|
            0 <= i < visited.len() ==> descends_to(reader, nodes[start], nodes[#[trigger] visited[i]]),
        forall|i: int|
            0 <= i < visited.len() ==> match #[trigger] positions[visited[i]] {
                Some(p) => visited.contains(p as int),
                None => true,
            },
        0 <= k < nodes.len(),
    ensures
        visited.contains(k) <==> descends_to(reader, nodes[start], nodes[k]),
{
    let graph = lineage_graph(reader);
    let set = Set::new(|o: ObjectId| exists|i: int| 0 <= i < visited.len() && nodes[#[trigger] visited[i]] == o);
    assert(is_closed(graph, Set::empty(), set![nodes[start]], set)) by {
        let at = choose|at: int| 0 <= at < visited.len() && visited[at] == start;
        assert(nodes[visited[at]] == nodes[start]);
        assert forall|o: ObjectId, nxt: ObjectId|
            #![trigger set.contains(o), successors(graph, o).contains(nxt)]
            set.contains(o) && successors(graph, o).contains(nxt) && !Set::<ObjectId>::empty().contains(nxt)
            implies set.contains(nxt) by {
            let i = choose|i: int| 0 <= i < visited.len() && nodes[#[trigger] visited[i]] == o;
            let v = visited[i];
            match positions[v] {
                Some(p) => {
                    assert(successors(graph, o) == seq![nodes[p as int]]);
                    assert(visited.contains(p as int));
                    let j = choose|j: int| 0 <= j < visited.len() && visited[j] == p;
                    assert(nodes[visited[j]] == nxt);
                },
                None => {
                    assert(successors(graph, o) =~= Seq::empty());
                },
            }
        }
    }
    if visited.contains(k) {
        let i = choose|i: int| 0 <= i < visited.len() && visited[i] == k;
        assert(descends_to(reader, nodes[start], nodes[visited[i]]));
    }
    if descends_to(reader, nodes[start], nodes[k]) {
        assert(set.contains(nodes[k]));
        let i = choose|i: int| 0 <= i < visited.len() && nodes[#[trigger] visited[i]] == nodes[k];
        assert(visited[i] == k);
    }
}

proof fn lemma_positions_bounded(visited: Seq<int>, n: nat)
    requires
        visited.no_duplicates(),
        forall|i: int| 0 <= i < visited.len() ==> 0 <= #[trigger] visited[i] < n,
    ensures
        visited.len() <= n,
{
    visited.unique_seq_to_set();
    vstd::set_lib::lemma_int_range(0, n as int);
    assert(visited.to_set().subset_of(vstd::set_lib::set_int_range(0, n as int)));
    vstd::set_lib::lemma_len_subset(visited.to_set(), vstd::set_lib::set_int_range(0, n as int));
}

/// Marks the lineage of one selected commit in the masks.
fn mark_lineage<R: ObjectReader>(
    reader: &R,
    nodes: &OidSet,
    positions: &Vec<Option<usize>>,
    start: usize,
    selected_bit: u32,
    masks: &mut Vec<Vec<u64>>,
)
    requires
        nodes.items().no_duplicates(),
        positions@.len() == nodes.items().len(),
        forall|i: int|
            0 <= i < positions@.len() ==> match #[trigger] positions@[i] {
                Some(p) => p < positions@.len() && first_parent(reader, nodes.items()[i]) == Ok::<
                    Option<ObjectId>,
                    FillEnd,
                >(Some(nodes.items()[p as int])),
                None => first_parent(reader, nodes.items()[i]) == Ok::<Option<ObjectId>, FillEnd>(None),
            },
        start < positions@.len(),
        old(masks)@.len() == positions@.len(),
        forall|i: int|
            0 <= i < old(masks)@.len() ==> selected_bit < 64 * (#[trigger] old(masks)@[i])@.len() && !bit(
                old(masks)@[i]@,
                selected_bit as int,
            ),
    ensures
        final(masks)@.len() == old(masks)@.len(),
        forall|i: int|
            0 <= i < final(masks)@.len() ==> {
                &&& (#[trigger] final(masks)@[i])@.len() == old(masks)@[i]@.len()
                &&& bits(final(masks)@[i]@) == if descends_to(
                    reader,
                    nodes.items()[start as int],
                    nodes.items()[i],
                ) {
                    bits(old(masks)@[i]@).insert(selected_bit as int)
                } else {
                    bits(old(masks)@[i]@)
                }
            },
{
    let ghost items = nodes.items();
    let ghost before = masks@;
    let ghost mut visited = Seq::<int>::empty();
    let mut cursor = Some(start);
    proof {
        assert forall|set: Set<ObjectId>| is_closed(
            lineage_graph(reader),
            Set::empty(),
            set![items[start as int]],
            set,
        ) implies set.contains(items[start as int]) by {
            assert(set![items[start as int]].contains(items[start as int]));
        }
        assert(descends_to(reader, items[start as int], items[start as int]));
    }
    while cursor.is_some()
        invariant
            items == nodes.items(),
            positions@.len() == items.len(),
            start < positions@.len(),
            forall|i: int|
                0 <= i < positions@.len() ==> match #[trigger] positions@[i] {
                    Some(p) => p < positions@.len() && first_parent(reader, items[i]) == Ok::<
                        Option<ObjectId>,
                        FillEnd,
                    >(Some(items[p as int])),
                    None => first_parent(reader, items[i]) == Ok::<Option<ObjectId>, FillEnd>(None),
                },
            masks@.len() == before.len(),
            before.len() == positions@.len(),
            visited.no_duplicates(),
            forall|i: int| 0 <= i < visited.len() ==> 0 <= #[trigger] visited[i] < items.len(),
            forall|i: int|
                0 <= i < visited.len() ==> descends_to(
                    reader,
                    items[start as int],
                    items[#[trigger] visited[i]],
                ),
            forall|i: int|
                0 <= i < visited.len() ==> match #[trigger] positions@[visited[i]] {
                    Some(p) => visited.contains(p as int) || cursor == Some(p),
                    None => true,
                },
            visited.contains(start as int) || cursor == Some(start),
            cursor matches Some(at) ==> at < items.len() && descends_to(
                reader,
                items[start as int],
                items[at as int],
            ),
            forall|i: int|
                0 <= i < before.len() ==> selected_bit < 64 * (#[trigger] before[i])@.len() && !bit(
                    before[i]@,
                    selected_bit as int,
                ),
            forall|i: int|
                0 <= i < masks@.len() ==> {
                    &&& (#[trigger] masks@[i])@.len() == before[i]@.len()
                    &&& bits(masks@[i]@) == if visited.contains(i) {
                        bits(before[i]@).insert(selected_bit as int)
                    } else {
                        bits(before[i]@)
                    }
                },
        decreases items.len() - visited.len() + if cursor is Some {
                1int
            } else {
                0
            },
    {
        let at: usize = cursor.unwrap();
        proof {
            lemma_positions_bounded(visited, items.len());
        }
        let ghost seen = visited;
        assert(selected_bit < 64 * before[at as int]@.len());
        assert(bits(masks@[at as int]@).contains(selected_bit as int) == visited.contains(at as int));
        if bitset_get(masks[at].as_slice(), selected_bit) {
            cursor = None;
        } else {
            let mut mask: Vec<u64> = Vec::new();
            std::mem::swap(&mut masks[at], &mut mask);
            bitset_set(&mut mask, selected_bit);
            masks.set(at, mask);
            proof {
                visited = visited.push(at as int);
                assert(visited[seen.len() as int] == at);
                assert forall|o: int| seen.contains(o) implies #[trigger] visited.contains(o) by {
                    let i = choose|i: int| 0 <= i < seen.len() && seen[i] == o;
                    assert(visited[i] == o);
                }
                assert forall|o: int| #[trigger] visited.contains(o) implies seen.contains(o) || o == at by {
                    let i = choose|i: int| 0 <= i < visited.len() && visited[i] == o;
                    if i < seen.len() {
                        assert(seen[i] == o);
                    }
                }
                lemma_positions_bounded(visited, items.len());
            }
            cursor = positions[at];
            proof {
                if let Some(p) = cursor {
                    let graph = lineage_graph(reader);
                    let from = items[start as int];
                    assert(successors(graph, items[at as int]) == seq![items[p as int]]);
                    assert(successors(graph, items[at as int])[0] == items[p as int]);
                    assert forall|set: Set<ObjectId>| is_closed(graph, Set::empty(), set![from], set)
                        implies set.contains(items[p as int]) by {
                        assert(set.contains(items[at as int]));
                        assert(successors(graph, items[at as int]).contains(items[p as int]));
                    }
                    assert(descends_to(reader, from, items[p as int]));
                }
                assert forall|i: int| 0 <= i < visited.len() implies match #[trigger] positions@[visited[i]] {
                    Some(p) => visited.contains(p as int) || cursor == Some(p),
                    None => true,
                } by {
                    if i < seen.len() {
                        assert(visited[i] == seen[i]);
                    }
                }
            }
        }
    }
    proof {
        assert forall|i: int| 0 <= i < masks@.len() implies bits((#[trigger] masks@[i])@) == if descends_to(
            reader,
            items[start as int],
            items[i],
        ) {
            bits(before[i]@).insert(selected_bit as int)
        } else {
            bits(before[i]@)
        } by {
            lemma_lineage_is_chain(reader, items, positions@, start as int, visited, i);
        }
    }
}

/// The maximal commits among the first `n` nodes.
spec fn maximal_below<R: ObjectReader>(
    reader: &R,
    selected: Seq<ObjectId>,
    nodes: Seq<ObjectId>,
    n: int,
) -> Set<ObjectId> {
    Set::new(|oid: ObjectId| nodes.take(n).contains(oid) && is_maximal(reader, selected, nodes, oid))
}

/// Counts the maximal commits of a selection: walking the first-parent
/// lineages of the selected commits, a commit is maximal when it is selected
/// or when lineages come together on it, so that none of its children is on as
/// many of them.
pub fn bitmap_num_maximal_commits<R: ObjectReader>(reader: &R, selected: &[ObjectId]) -> (count: Result<
    usize,
    GitError,
>)
    requires
        selected@.len() <= u32::MAX,
    ensures
        match lineages(reader, selected@, Seq::empty()) {
            Ok(nodes) => count is Ok && count->Ok_0 == maximal_commits(reader, selected@, nodes).len()
                && maximal_commits(reader, selected@, nodes).finite(),
            Err(end) => count matches Err(err) && ends_in(end, err),
        },
{
    let lineage = match walk_lineages(reader, selected) {
        Err(err) => {
            return Err(err);
        },
        Ok(lineage) => lineage,
    };
    let ghost nodes = lineage.nodes.items();
    let positions = parent_positions(reader, &lineage);
    proof {
        assert forall|i: int| 0 <= i < positions@.len() implies match #[trigger] positions@[i] {
            Some(p) => p < positions@.len() && first_parent(reader, nodes[i]) == Ok::<Option<ObjectId>, FillEnd>(
                Some(nodes[p as int]),
            ),
            None => first_parent(reader, nodes[i]) == Ok::<Option<ObjectId>, FillEnd>(None),
        } by {
            assert(first_parent(reader, nodes[i]) == Ok::<Option<ObjectId>, FillEnd>(lineage.parents@[i]));
        }
    }
    let total: usize = positions.len();
    let words: usize = word_count_for(selected.len());
    let mut masks: Vec<Vec<u64>> = Vec::with_capacity(total);
    let mut k: usize = 0;
    while k < total
        invariant
            k <= total,
            masks@.len() == k,
            forall|i: int|
                0 <= i < k ==> (#[trigger] masks@[i])@.len() == words && bits(masks@[i]@) == Set::<int>::empty(),
        decreases total - k,
    {
        masks.push(empty_bitset(words));
        k += 1;
    }
    let mut s: usize = 0;
    proof {
        assert forall|i: int| 0 <= i < total implies bits((#[trigger] masks@[i])@) == lineage_mask(
            reader,
            selected@,
            nodes[i],
        ).filter(|b: int| b < 0) by {
            assert(lineage_mask(reader, selected@, nodes[i]).filter(|b: int| b < 0) =~= Set::empty());
        }
    }
    while s < selected.len()
        invariant
            s <= selected@.len() <= u32::MAX,
            nodes == lineage.nodes.items(),
            nodes.no_duplicates(),
            total == nodes.len(),
            positions@.len() == total,
            masks@.len() == total,
            words == words_for(selected@.len()),
            forall|i: int| 0 <= i < selected@.len() ==> nodes.contains(#[trigger] selected@[i]),
            forall|i: int|
                0 <= i < positions@.len() ==> match #[trigger] positions@[i] {
                    Some(p) => p < positions@.len() && first_parent(reader, nodes[i]) == Ok::<
                        Option<ObjectId>,
                        FillEnd,
                    >(Some(nodes[p as int])),
                    None => first_parent(reader, nodes[i]) == Ok::<Option<ObjectId>, FillEnd>(None),
                },
            forall|i: int|
                0 <= i < total ==> (#[trigger] masks@[i])@.len() == words && bits(masks@[i]@) == lineage_mask(
                    reader,
                    selected@,
                    nodes[i],
                ).filter(|b: int| b < s),
        decreases selected@.len() - s,
    {
        let oid = selected[s];
        assert(nodes.contains(selected@[s as int]));
        match lineage.nodes.position(&oid) {
            None => {
                assert(false);
            },
            Some(start) => {
                let ghost before = masks@;
                proof {
                    assert forall|i: int| 0 <= i < masks@.len() implies s < 64 * (#[trigger] masks@[i])@.len()
                        && !bit(masks@[i]@, s as int) by {
                        assert(!bits(masks@[i]@).contains(s as int));
                    }
                }
                mark_lineage(reader, &lineage.nodes, &positions, start, s as u32, &mut masks);
                proof {
                    assert forall|i: int| 0 <= i < total implies bits((#[trigger] masks@[i])@) == lineage_mask(
                        reader,
                        selected@,
                        nodes[i],
                    ).filter(|b: int| b < s + 1) by {
                        let all = lineage_mask(reader, selected@, nodes[i]);
                        assert(bits(before[i]@) == all.filter(|b: int| b < s));
                        assert(all.contains(s as int) == descends_to(reader, nodes[start as int], nodes[i]));
                        assert(bits(masks@[i]@) =~= all.filter(|b: int| b < s + 1));
                    }
                }
            },
        }
        s += 1;
    }
    proof {
        assert forall|i: int| 0 <= i < total implies bits((#[trigger] masks@[i])@) == lineage_mask(
            reader,
            selected@,
            nodes[i],
        ) by {
            let all = lineage_mask(reader, selected@, nodes[i]);
            assert(all.filter(|b: int| b < s) =~= all);
        }
    }
    let mut maximal: Vec<bool> = Vec::with_capacity(total);
    let mut m: usize = 0;
    while m < total
        invariant
            m <= total,
            maximal@.len() == m,
            forall|i: int| 0 <= i < m ==> #[trigger] maximal@[i],
        decreases total - m,
    {
        maximal.push(true);
        m += 1;
    }
    let mut c: usize = 0;
    while c < total
        invariant
            c <= total,
            total == nodes.len(),
            positions@.len() == total,
            masks@.len() == total,
            maximal@.len() == total,
            forall|i: int|
                0 <= i < positions@.len() ==> match #[trigger] positions@[i] {
                    Some(p) => p < positions@.len() && first_parent(reader, nodes[i]) == Ok::<
                        Option<ObjectId>,
                        FillEnd,
                    >(Some(nodes[p as int])),
                    None => first_parent(reader, nodes[i]) == Ok::<Option<ObjectId>, FillEnd>(None),
                },
            forall|i: int|
                0 <= i < total ==> (#[trigger] masks@[i])@.len() == words && bits(masks@[i]@) == lineage_mask(
                    reader,
                    selected@,
                    nodes[i],
                ),
            forall|p: int|
                0 <= p < total ==> (#[trigger] maximal@[p] <==> forall|i: int|
                    0 <= i < c && #[trigger] positions@[i] == Some(p as usize) ==> lineage_mask(
                        reader,
                        selected@,
                        nodes[i],
                    ) != lineage_mask(reader, selected@, nodes[p])),
        decreases total - c,
    {
        let ghost held = maximal@;
        match positions[c] {
            None => {},
            Some(parent) => {
                assert(positions@[c as int] == Some(parent));
                let child = masks[c].as_slice();
                let above = masks[parent].as_slice();
                let same = bitset_is_subset(child, above) && bitset_is_subset(above, child);
                proof {
                    let (x, y) = (bits(child@), bits(above@));
                    assert(x == lineage_mask(reader, selected@, nodes[c as int]));
                    assert(y == lineage_mask(reader, selected@, nodes[parent as int]));
                    if same {
                        assert forall|p: int| x.contains(p) == y.contains(p) by {
                            if x.contains(p) {
                                assert(bit(child@, p));
                            }
                            if y.contains(p) {
                                assert(bit(above@, p));
                            }
                        }
                        assert(x =~= y);
                    } else {
                        if x == y {
                            assert forall|p: int| 0 <= p < 64 * above@.len() && #[trigger] bit(child@, p)
                                implies bit(above@, p) by {
                                assert(x.contains(p));
                                assert(y.contains(p));
                            }
                            assert forall|p: int| 0 <= p < 64 * child@.len() && #[trigger] bit(above@, p)
                                implies bit(child@, p) by {
                                assert(y.contains(p));
                                assert(x.contains(p));
                            }
                        }
                    }
                }
                if same {
                    maximal.set(parent, false);
                }
            },
        }
        proof {
            assert forall|p: int| 0 <= p < total implies (#[trigger] maximal@[p] <==> forall|i: int|
                0 <= i < c + 1 && #[trigger] positions@[i] == Some(p as usize) ==> lineage_mask(
                    reader,
                    selected@,
                    nodes[i],
                ) != lineage_mask(reader, selected@, nodes[p])) by {
                assert(held[p] <==> forall|i: int|
                    0 <= i < c && #[trigger] positions@[i] == Some(p as usize) ==> lineage_mask(
                        reader,
                        selected@,
                        nodes[i],
                    ) != lineage_mask(reader, selected@, nodes[p]));
                if positions@[c as int] == Some(p as usize) {
                } else {
                    assert(maximal@[p] == held[p]);
                }
            }
        }
        c += 1;
    }
    proof {
        assert forall|p: int| 0 <= p < total implies (#[trigger] maximal@[p] <==> is_maximal(
            reader,
            selected@,
            nodes,
            nodes[p],
        )) by {
            assert(nodes.contains(nodes[p]));
            if maximal@[p] {
                assert forall|child: ObjectId| #[trigger]
                    nodes.contains(child) && first_parent(reader, child) == Ok::<Option<ObjectId>, FillEnd>(
                        Some(nodes[p]),
                    ) implies lineage_mask(reader, selected@, child) != lineage_mask(
                    reader,
                    selected@,
                    nodes[p],
                ) by {
                    let i = choose|i: int| 0 <= i < nodes.len() && nodes[i] == child;
                    assert(positions@[i] is Some);
                    assert(nodes[positions@[i]->Some_0 as int] == nodes[p]);
                    assert(positions@[i] == Some(p as usize));
                }
            }
            if is_maximal(reader, selected@, nodes, nodes[p]) {
                assert forall|i: int| 0 <= i < total && #[trigger] positions@[i] == Some(p as usize)
                    implies lineage_mask(reader, selected@, nodes[i]) != lineage_mask(
                    reader,
                    selected@,
                    nodes[p],
                ) by {
                    assert(nodes.contains(nodes[i]));
                }
            }
        }
    }
    let mut count: usize = 0;
    let mut n: usize = 0;
    assert(maximal_below(reader, selected@, nodes, 0) =~= Set::empty());
    while n < total
        invariant
            n <= total,
            total == nodes.len(),
            nodes.no_duplicates(),
            maximal@.len() == total,
            count <= n,
            forall|p: int|
                0 <= p < total ==> (#[trigger] maximal@[p] <==> is_maximal(reader, selected@, nodes, nodes[p])),
            maximal_below(reader, selected@, nodes, n as int).finite(),
            count == maximal_below(reader, selected@, nodes, n as int).len(),
        decreases total - n,
    {
        let ghost below = maximal_below(reader, selected@, nodes, n as int);
        let ghost next = maximal_below(reader, selected@, nodes, n + 1);
        proof {
            let oid = nodes[n as int];
            assert(nodes.take(n + 1) =~= nodes.take(n as int).push(oid));
            assert forall|o: ObjectId| nodes.take(n + 1).contains(o) == (nodes.take(n as int).contains(o) || o
                == oid) by {
                nodes.take(n as int).lemma_push_to_set_commute(oid);
                assert(nodes.take(n + 1).to_set().contains(o) == nodes.take(n + 1).contains(o));
                assert(nodes.take(n as int).to_set().contains(o) == nodes.take(n as int).contains(o));
            }
            assert(!nodes.take(n as int).contains(oid)) by {
                if nodes.take(n as int).contains(oid) {
                    let i = choose|i: int| 0 <= i < n && nodes.take(n as int)[i] == oid;
                    assert(nodes[i] == oid);
                }
            }
            if maximal@[n as int] {
                assert(next =~= below.insert(oid));
            } else {
                assert(next =~= below);
            }
        }
        if maximal[n] {
            count += 1;
        }
        n += 1;
    }
    proof {
        assert(nodes.take(n as int) =~= nodes);
        assert(maximal_below(reader, selected@, nodes, n as int) =~= maximal_commits(reader, selected@, nodes));
    }
    Ok(count)
}

} // verus!
