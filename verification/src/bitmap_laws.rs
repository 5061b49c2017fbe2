//! What walks with bitmaps find, and what a bitmap that cannot be planned says
//! of its pack.

use crate::bitmap::is_bitmap_walk;
use crate::bitmap::law_cascade_is_least;
use crate::bitmap::lemma_position_map;
use crate::bitmap::position_map;
use crate::bitmap::reachable_end;
use crate::bitmap::BitmapWalkResult;
use crate::bitmap::LoadedPackBitmap;
use crate::bitmap_build::all_merges;
use crate::bitmap_build::build_end;
use crate::bitmap_build::chosen_commit;
use crate::bitmap_build::closure_memo;
use crate::bitmap_build::commit_ids;
use crate::bitmap_build::commit_spacing;
use crate::bitmap_build::first_preferred;
use crate::bitmap_build::group_merges;
use crate::bitmap_build::indexed;
use crate::bitmap_build::indexed_commit;
use crate::bitmap_build::last_merge;
use crate::bitmap_build::merge_candidates;
use crate::bitmap_build::merge_end;
use crate::bitmap_build::merge_roots;
use crate::bitmap_build::merges_end;
use crate::bitmap_build::newest_first;
use crate::bitmap_build::partitioned;
use crate::bitmap_build::sampled;
use crate::bitmap_build::selected_commits;
use crate::bitmap_build::spaced_commits;
use crate::bitmap_build::BitmapPseudoMergeGroup;
use crate::bitmap_build::BitmapPseudoMergePartition;
use crate::bitmap_build::BuildEnd;
use crate::bitmap_build::IndexedCommit;
use crate::bitmap_walk::blobs_are_leaves;
use crate::bitmap_walk::commit_closure;
use crate::bitmap_walk::commit_roots;
use crate::bitmap_walk::entry_task;
use crate::bitmap_walk::fill;
use crate::bitmap_walk::has_mark;
use crate::bitmap_walk::is_closure;
use crate::bitmap_walk::is_sound;
use crate::bitmap_walk::law_root_walk_is_reachability;
use crate::bitmap_walk::leads_to;
use crate::bitmap_walk::lemma_mark;
use crate::bitmap_walk::lemma_marked_bits_have_objects;
use crate::bitmap_walk::lemma_unmarked_shrinks;
use crate::bitmap_walk::next_tasks;
use crate::bitmap_walk::no_marks;
use crate::bitmap_walk::object_graph;
use crate::bitmap_walk::outside;
use crate::bitmap_walk::reader_tasks;
use crate::bitmap_walk::root_tasks;
use crate::bitmap_walk::task_oid;
use crate::bitmap_walk::tree_tasks;
use crate::bitmap_walk::unmarked;
use crate::bitmap_walk::with_mark;
use crate::bitmap_walk::with_stored;
use crate::bitmap_walk::BitmapTask;
use crate::bitmap_walk::Coverage;
use crate::bitmap_walk::FillEnd;
use crate::bitmap_walk::Marks;
use crate::bitmap_walk::NextTasks;
use crate::bitset::bits;
use crate::error::GitError;
use crate::object::ObjectContent;
use crate::object::ObjectReader;
use crate::object::ObjectType;
use crate::object::TreeEntry;
use crate::object::TreeEntryKind;
use crate::object_id::ObjectId;
use crate::order::lemma_sort_contains;
use crate::order::stable_sort;
use crate::reachability::followed_parents;
use crate::reachability::strict_walk;
use crate::walk::is_closed;
use crate::walk::law_walk_visits_closure;
use crate::walk::reaches;
use crate::walk::successors;
use crate::walk::Schedule;
use vstd::prelude::*;

verus! {

/// The ids that entries name, as far as they decode; gitlinks name none.
pub open spec fn named_entries(entries: Seq<Result<TreeEntry, GitError>>) -> Seq<ObjectId>
    decreases entries.len(),
{
    if entries.len() == 0 {
        Seq::empty()
    } else {
        let rest = named_entries(entries.drop_first());
        match entries[0] {
            Ok(entry) => if entry.kind == TreeEntryKind::Gitlink {
                rest
            } else {
                rest.push(entry.oid)
            },
            Err(_) => rest,
        }
    }
}

/// The ids that an object names, as far as it reads and decodes: a commit its
/// tree and the parents that are followed, a tree its entries.
pub open spec fn named_by<R: ObjectReader>(reader: &R) -> Schedule {
    |oid: ObjectId|
        match reader.object_at(oid) {
            Ok(object) => match object.content {
                ObjectContent::Commit(Ok(commit)) => Ok::<Seq<ObjectId>, GitError>(
                    followed_parents(commit, reader.grafted(oid)).push(commit.tree),
                ),
                ObjectContent::Tree(entries) => Ok(named_entries(entries@)),
                _ => Ok(Seq::empty()),
            },
            Err(_) => Ok(Seq::empty()),
        }
}

/// Whether an object under one of `oids` is a commit.
pub open spec fn is_covered_commit<R: ObjectReader>(reader: &R, oids: Seq<ObjectId>, oid: ObjectId) -> bool {
    &&& oids.contains(oid)
    &&& reader.object_at(oid) matches Ok(object) && object.content matches ObjectContent::Commit(Ok(_))
}

/// Whether `root`, a commit that is covered, leads to an id.
pub open spec fn leads_from<R: ObjectReader>(
    reader: &R,
    oids: Seq<ObjectId>,
    root: ObjectId,
    oid: ObjectId,
) -> bool {
    is_covered_commit(reader, oids, root) && reaches(named_by(reader), Set::empty(), set![root], oid)
}

/// Whether a covered commit leads to an id.
pub open spec fn is_led_to<R: ObjectReader>(reader: &R, oids: Seq<ObjectId>, oid: ObjectId) -> bool {
    exists|root: ObjectId| #[trigger] leads_from(reader, oids, root, oid)
}

proof fn lemma_root_is_led_to<R: ObjectReader>(reader: &R, oids: Seq<ObjectId>, root: ObjectId)
    requires
        is_covered_commit(reader, oids, root),
    ensures
        is_led_to(reader, oids, root),
{
    assert(set![root].contains(root));
    assert(reaches(named_by(reader), Set::empty(), set![root], root));
    assert(leads_from(reader, oids, root, root));
}

proof fn lemma_named_is_led_to<R: ObjectReader>(reader: &R, oids: Seq<ObjectId>, oid: ObjectId, next: ObjectId)
    requires
        is_led_to(reader, oids, oid),
        successors(named_by(reader), oid).contains(next),
    ensures
        is_led_to(reader, oids, next),
{
    let graph = named_by(reader);
    let root = choose|root: ObjectId| #[trigger] leads_from(reader, oids, root, oid);
    assert forall|all: Set<ObjectId>| is_closed(graph, Set::empty(), set![root], all) implies all.contains(next) by {
        assert(all.contains(oid));
        assert(successors(graph, oid).contains(next));
    }
    assert(leads_from(reader, oids, root, next));
}

proof fn lemma_tree_tasks_are_named(entries: Seq<Result<TreeEntry, GitError>>, k: int)
    requires
        0 <= k < tree_tasks(entries).len(),
    ensures
        task_oid(tree_tasks(entries)[k]) matches Some(oid) ==> named_entries(entries).contains(oid),
    decreases entries.len(),
{
    if entries.len() > 0 {
        let below = tree_tasks(entries.drop_first());
        let rest = named_entries(entries.drop_first());
        let named = named_entries(entries);
        if k < below.len() {
            lemma_tree_tasks_are_named(entries.drop_first(), k);
            assert(tree_tasks(entries)[k] == below[k]);
            if let Some(oid) = task_oid(below[k]) {
                let i = choose|i: int| 0 <= i < rest.len() && rest[i] == oid;
                assert(named[i] == oid);
            }
        } else {
            assert(entry_task(entries[0]) is Some);
            if let Ok(entry) = entries[0] {
                assert(named[rest.len() as int] == entry.oid);
            }
        }
    }
}

/// What a newly marked object leads a walk to is named by it.
proof fn lemma_tasks_are_named<R: ObjectReader>(reader: &R, oid: ObjectId, as_commit: bool, k: int)
    requires
        0 <= k < next_tasks(reader, true, oid, as_commit).len(),
    ensures
        task_oid(next_tasks(reader, true, oid, as_commit)[k]) matches Some(next) ==> successors(
            named_by(reader),
            oid,
        ).contains(next),
{
    let tasks = next_tasks(reader, true, oid, as_commit);
    if let Ok(object) = reader.object_at(oid) {
        match object.content {
            ObjectContent::Commit(Ok(commit)) => {
                if as_commit {
                    let parents = followed_parents(commit, reader.grafted(oid));
                    let named = successors(named_by(reader), oid);
                    assert(named == parents.push(commit.tree));
                    assert(task_oid(tasks[k]) == Some(named[k]));
                }
            },
            ObjectContent::Tree(entries) => {
                if !as_commit {
                    lemma_tree_tasks_are_named(entries@, k);
                }
            },
            _ => {},
        }
    }
}

/// Whether covered commits lead to all that a stack of tasks is about.
spec fn are_led_to<R: ObjectReader>(reader: &R, oids: Seq<ObjectId>, stack: Seq<BitmapTask>) -> bool {
    forall|k: int|
        0 <= k < stack.len() ==> (task_oid(#[trigger] stack[k]) matches Some(oid) ==> is_led_to(reader, oids, oid))
}

proof fn lemma_next_are_led_to<R: ObjectReader>(
    reader: &R,
    oids: Seq<ObjectId>,
    rest: Seq<BitmapTask>,
    oid: ObjectId,
    as_commit: bool,
)
    requires
        are_led_to(reader, oids, rest),
        is_led_to(reader, oids, oid),
    ensures
        are_led_to(reader, oids, rest + next_tasks(reader, true, oid, as_commit)),
{
    let more = next_tasks(reader, true, oid, as_commit);
    let all = rest + more;
    assert forall|k: int| 0 <= k < all.len() implies (task_oid(#[trigger] all[k]) matches Some(next) ==> is_led_to(
        reader,
        oids,
        next,
    )) by {
        if k < rest.len() {
            assert(all[k] == rest[k]);
        } else {
            assert(all[k] == more[k - rest.len()]);
            lemma_tasks_are_named(reader, oid, as_commit, k - rest.len());
            if let Some(next) = task_oid(all[k]) {
                lemma_named_is_led_to(reader, oids, oid, next);
            }
        }
    }
}

/// What a closed walk misses is not covered, and covered commits lead to it.
proof fn lemma_missing_is_led_to<R: ObjectReader>(
    reader: &R,
    oids: Seq<ObjectId>,
    cover: Coverage,
    stack: Seq<BitmapTask>,
    marks: Marks,
)
    requires
        are_led_to(reader, oids, stack),
    ensures
        fill(reader_tasks(reader, true), cover, stack, marks) matches FillEnd::Missing(oid)
            ==> !cover.positions.contains_key(oid) && is_led_to(reader, oids, oid),
    decreases unmarked(cover, marks).len(), stack.len(),
{
    if stack.len() > 0 {
        let rest = stack.drop_last();
        let task = stack.last();
        assert(stack[stack.len() - 1] == task);
        assert(are_led_to(reader, oids, rest)) by {
            assert forall|k: int| 0 <= k < rest.len() implies (task_oid(#[trigger] rest[k]) matches Some(oid)
                ==> is_led_to(reader, oids, oid)) by {
                assert(rest[k] == stack[k]);
            }
        }
        match task {
            BitmapTask::Tag(oid) => {
                lemma_mark(cover, marks, oid, ObjectType::Tag);
                lemma_missing_is_led_to(reader, oids, cover, rest, with_mark(cover, marks, oid, ObjectType::Tag));
            },
            BitmapTask::Blob(oid) => {
                lemma_mark(cover, marks, oid, ObjectType::Blob);
                lemma_missing_is_led_to(reader, oids, cover, rest, with_mark(cover, marks, oid, ObjectType::Blob));
            },
            BitmapTask::Tree(oid) => {
                if has_mark(cover, marks, oid) {
                    lemma_missing_is_led_to(reader, oids, cover, rest, marks);
                } else {
                    lemma_mark(cover, marks, oid, ObjectType::Tree);
                    lemma_next_are_led_to(reader, oids, rest, oid, false);
                    lemma_missing_is_led_to(
                        reader,
                        oids,
                        cover,
                        rest + next_tasks(reader, true, oid, false),
                        with_mark(cover, marks, oid, ObjectType::Tree),
                    );
                }
            },
            BitmapTask::Commit(oid) => {
                if has_mark(cover, marks, oid) {
                    lemma_missing_is_led_to(reader, oids, cover, rest, marks);
                } else if cover.positions.contains_key(oid) && cover.stored.contains_key(oid) {
                    lemma_unmarked_shrinks(cover, marks, with_stored(cover, marks, oid));
                    lemma_missing_is_led_to(reader, oids, cover, rest, with_stored(cover, marks, oid));
                } else {
                    lemma_mark(cover, marks, oid, ObjectType::Commit);
                    lemma_next_are_led_to(reader, oids, rest, oid, true);
                    lemma_missing_is_led_to(
                        reader,
                        oids,
                        cover,
                        rest + next_tasks(reader, true, oid, true),
                        with_mark(cover, marks, oid, ObjectType::Commit),
                    );
                }
            },
            BitmapTask::Misused(_) => {},
            BitmapTask::Fail(_) => {},
        }
    }
}

proof fn lemma_closure_misses<R: ObjectReader>(
    reader: &R,
    oids: Seq<ObjectId>,
    positions: Map<ObjectId, u32>,
    stored: Map<ObjectId, Set<int>>,
    roots: Seq<ObjectId>,
)
    requires
        forall|i: int| 0 <= i < roots.len() ==> is_covered_commit(reader, oids, #[trigger] roots[i]),
    ensures
        commit_closure(reader, positions, stored, roots) matches FillEnd::Missing(oid) ==> !positions.contains_key(oid)
            && is_led_to(reader, oids, oid),
{
    let tasks = commit_roots(roots);
    assert forall|k: int| 0 <= k < tasks.len() implies (task_oid(#[trigger] tasks[k]) matches Some(oid) ==> is_led_to(
        reader,
        oids,
        oid,
    )) by {
        assert(tasks[k] == BitmapTask::Commit(roots[k]));
        lemma_root_is_led_to(reader, oids, roots[k]);
    }
    lemma_missing_is_led_to(reader, oids, Coverage { positions, stored, open: false }, tasks, no_marks());
}

/// Whether commits are covered.
spec fn are_covered<R: ObjectReader>(reader: &R, oids: Seq<ObjectId>, commits: Seq<IndexedCommit>) -> bool {
    forall|i: int| 0 <= i < commits.len() ==> is_covered_commit(reader, oids, (#[trigger] commits[i]).oid)
}

proof fn lemma_indexed_are_covered<R: ObjectReader>(
    reader: &R,
    oids: Seq<ObjectId>,
    headers: Seq<Result<Option<ObjectType>, GitError>>,
    n: nat,
)
    requires
        n <= oids.len(),
    ensures
        indexed(reader, oids, headers, n) matches Ok((types, commits)) ==> types.len() == n && are_covered(
            reader,
            oids,
            commits,
        ) && forall|i: int|
            0 <= i < n && #[trigger] types[i] == ObjectType::Commit ==> is_covered_commit(reader, oids, oids[i]),
        indexed(reader, oids, headers, n) matches Err(end) ==> !(end is Missing),
    decreases n,
{
    if n > 0 {
        lemma_indexed_are_covered(reader, oids, headers, (n - 1) as nat);
        if let Ok((types, commits)) = indexed(reader, oids, headers, n) {
            let (shorter, fewer) = indexed(reader, oids, headers, (n - 1) as nat)->Ok_0;
            assert(oids.contains(oids[n - 1]));
            if types[n - 1] == ObjectType::Commit {
                assert(indexed_commit(reader, oids, n - 1) is Ok);
                assert(is_covered_commit(reader, oids, oids[n - 1]));
            }
            assert forall|i: int| 0 <= i < n && #[trigger] types[i] == ObjectType::Commit implies is_covered_commit(
                reader,
                oids,
                oids[i],
            ) by {
                if i < n - 1 {
                    assert(shorter[i] == types[i]);
                }
            }
            assert forall|i: int| 0 <= i < commits.len() implies is_covered_commit(
                reader,
                oids,
                (#[trigger] commits[i]).oid,
            ) by {
                if i < fewer.len() {
                    assert(commits[i] == fewer[i]);
                }
            }
        }
    }
}

proof fn lemma_preferred_is_between(commits: Seq<IndexedCommit>, preferred: Set<ObjectId>, from: int, to: int)
    ensures
        first_preferred(commits, preferred, from, to) matches Some(i) ==> from <= i <= to,
    decreases to - from + 1,
{
    if from <= to && !preferred.contains(commits[from].oid) {
        lemma_preferred_is_between(commits, preferred, from + 1, to);
    }
}

proof fn lemma_merge_is_between(commits: Seq<IndexedCommit>, from: int, to: int)
    ensures
        last_merge(commits, from, to) matches Some(i) ==> from <= i <= to,
    decreases to - from + 1,
{
    if from <= to && commits[to].parent_count < 2 {
        lemma_merge_is_between(commits, from, to - 1);
    }
}

proof fn lemma_spaced_are_covered<R: ObjectReader>(
    reader: &R,
    oids: Seq<ObjectId>,
    commits: Seq<IndexedCommit>,
    preferred: Set<ObjectId>,
    i: int,
)
    requires
        0 <= i,
        are_covered(reader, oids, commits),
    ensures
        are_covered(reader, oids, spaced_commits(commits, preferred, i)),
    decreases commits.len() - i,
{
    let next = commit_spacing(i);
    if i + next < commits.len() && next >= 0 {
        lemma_spaced_are_covered(reader, oids, commits, preferred, i + next + 1);
        lemma_preferred_is_between(commits, preferred, i, i + next);
        lemma_merge_is_between(commits, i, i + next);
        let chosen = chosen_commit(commits, preferred, i, i + next);
        assert(is_covered_commit(reader, oids, chosen.oid)) by {
            assert(is_covered_commit(reader, oids, commits[i + next].oid));
        }
        let rest = spaced_commits(commits, preferred, i + next + 1);
        let all = spaced_commits(commits, preferred, i);
        assert forall|k: int| 0 <= k < all.len() implies is_covered_commit(reader, oids, (#[trigger] all[k]).oid) by {
            if k > 0 {
                assert(all[k] == rest[k - 1]);
            }
        }
    }
}

proof fn lemma_memo_misses<R: ObjectReader>(
    reader: &R,
    oids: Seq<ObjectId>,
    positions: Map<ObjectId, u32>,
    selected: Seq<IndexedCommit>,
)
    requires
        are_covered(reader, oids, selected),
    ensures
        closure_memo(reader, positions, selected) matches Err(FillEnd::Missing(oid)) ==> !positions.contains_key(oid)
            && is_led_to(reader, oids, oid),
    decreases selected.len(),
{
    if selected.len() > 0 {
        let rest = selected.drop_first();
        assert forall|i: int| 0 <= i < rest.len() implies is_covered_commit(
            reader,
            oids,
            (#[trigger] rest[i]).oid,
        ) by {
            assert(rest[i] == selected[i + 1]);
        }
        lemma_memo_misses(reader, oids, positions, rest);
        if let Ok(memo) = closure_memo(reader, positions, rest) {
            assert(is_covered_commit(reader, oids, selected[0].oid));
            lemma_closure_misses(reader, oids, positions, memo, seq![selected[0].oid]);
        }
    }
}

/// Whether the commits of merges are covered.
spec fn merge_is_covered<R: ObjectReader>(reader: &R, oids: Seq<ObjectId>, merge: Seq<(ObjectId, u32)>) -> bool {
    forall|i: int| 0 <= i < merge.len() ==> is_covered_commit(reader, oids, (#[trigger] merge[i]).0)
}

spec fn merges_are_covered<R: ObjectReader>(
    reader: &R,
    oids: Seq<ObjectId>,
    merges: Seq<Seq<(ObjectId, u32)>>,
) -> bool {
    forall|m: int| 0 <= m < merges.len() ==> merge_is_covered(reader, oids, #[trigger] merges[m])
}

proof fn lemma_candidates_are_covered<R: ObjectReader>(
    reader: &R,
    oids: Seq<ObjectId>,
    commits: Seq<ObjectId>,
    exclude_selected: bool,
    selected: Set<ObjectId>,
    types: Seq<ObjectType>,
)
    requires
        oids.len() <= u32::MAX,
        types.len() == oids.len(),
        forall|i: int|
            0 <= i < oids.len() && #[trigger] types[i] == ObjectType::Commit ==> is_covered_commit(
                reader,
                oids,
                oids[i],
            ),
    ensures
        merge_is_covered(
            reader,
            oids,
            merge_candidates(commits, exclude_selected, selected, position_map(oids), types),
        ),
    decreases commits.len(),
{
    if commits.len() > 0 {
        lemma_candidates_are_covered(reader, oids, commits.drop_last(), exclude_selected, selected, types);
        lemma_position_map(oids);
        let positions = position_map(oids);
        let rest = merge_candidates(commits.drop_last(), exclude_selected, selected, positions, types);
        let all = merge_candidates(commits, exclude_selected, selected, positions, types);
        assert forall|i: int| 0 <= i < all.len() implies is_covered_commit(reader, oids, (#[trigger] all[i]).0) by {
            if i < rest.len() {
                assert(all[i] == rest[i]);
            } else {
                let oid = commits.last();
                assert(positions.contains_key(oid));
                assert(types[positions[oid] as int] == ObjectType::Commit);
            }
        }
    }
}

proof fn lemma_sampled_are_covered<R: ObjectReader>(
    reader: &R,
    oids: Seq<ObjectId>,
    candidates: Seq<(ObjectId, u32)>,
    from: int,
    to: int,
    stride: int,
)
    requires
        0 <= from,
        to <= candidates.len(),
        merge_is_covered(reader, oids, candidates),
    ensures
        merge_is_covered(reader, oids, sampled(candidates, from, to, stride)),
    decreases
            if from < to {
                to - from
            } else {
                0
            },
{
    if from < to && stride > 0 {
        lemma_sampled_are_covered(reader, oids, candidates, from + stride, to, stride);
        let rest = sampled(candidates, from + stride, to, stride);
        let all = sampled(candidates, from, to, stride);
        assert forall|i: int| 0 <= i < all.len() implies is_covered_commit(reader, oids, (#[trigger] all[i]).0) by {
            if i > 0 {
                assert(all[i] == rest[i - 1]);
            } else {
                assert(all[i] == candidates[from]);
            }
        }
    }
}

proof fn lemma_partitioned_are_covered<R: ObjectReader>(
    reader: &R,
    oids: Seq<ObjectId>,
    candidates: Seq<(ObjectId, u32)>,
    partition: BitmapPseudoMergePartition,
    index: int,
    start: int,
)
    requires
        0 <= index,
        0 <= start,
        merge_is_covered(reader, oids, candidates),
    ensures
        merges_are_covered(reader, oids, partitioned(candidates, partition, index, start)),
    decreases partition.sizes@.len() - index,
{
    if index < partition.sizes@.len() && start < candidates.len() {
        let end = merge_end(start, partition.sizes@[index] as int, candidates.len() as int);
        lemma_sampled_are_covered(reader, oids, candidates, start, end, partition.sample_stride as int);
        lemma_partitioned_are_covered(reader, oids, candidates, partition, index + 1, end);
        let rest = partitioned(candidates, partition, index + 1, end);
        let all = partitioned(candidates, partition, index, start);
        assert forall|m: int| 0 <= m < all.len() implies merge_is_covered(reader, oids, #[trigger] all[m]) by {
            if m > 0 {
                assert(all[m] == rest[m - 1]);
            }
        }
    }
}

proof fn lemma_all_merges_are_covered<R: ObjectReader>(
    reader: &R,
    oids: Seq<ObjectId>,
    groups: Seq<BitmapPseudoMergeGroup>,
    selected: Set<ObjectId>,
    types: Seq<ObjectType>,
)
    requires
        oids.len() <= u32::MAX,
        types.len() == oids.len(),
        forall|i: int|
            0 <= i < oids.len() && #[trigger] types[i] == ObjectType::Commit ==> is_covered_commit(
                reader,
                oids,
                oids[i],
            ),
    ensures
        merges_are_covered(reader, oids, all_merges(groups, selected, position_map(oids), types)),
    decreases groups.len(),
{
    if groups.len() > 0 {
        lemma_all_merges_are_covered(reader, oids, groups.drop_last(), selected, types);
        let positions = position_map(oids);
        let group = groups.last();
        lemma_candidates_are_covered(reader, oids, group.commits@, group.exclude_selected, selected, types);
        let candidates = merge_candidates(group.commits@, group.exclude_selected, selected, positions, types);
        if let Some(partition) = group.partition {
            lemma_partitioned_are_covered(reader, oids, candidates, partition, 0, 0);
        }
        let before = all_merges(groups.drop_last(), selected, positions, types);
        let own = group_merges(group, selected, positions, types);
        let all = all_merges(groups, selected, positions, types);
        assert forall|m: int| 0 <= m < all.len() implies merge_is_covered(reader, oids, #[trigger] all[m]) by {
            if m < before.len() {
                assert(all[m] == before[m]);
            } else {
                assert(all[m] == own[m - before.len()]);
            }
        }
    }
}

proof fn lemma_merges_miss<R: ObjectReader>(
    reader: &R,
    oids: Seq<ObjectId>,
    positions: Map<ObjectId, u32>,
    memo: Map<ObjectId, Set<int>>,
    merges: Seq<Seq<(ObjectId, u32)>>,
)
    requires
        merges_are_covered(reader, oids, merges),
    ensures
        merges_end(reader, positions, memo, merges) matches Some(FillEnd::Missing(oid)) ==> !positions.contains_key(oid)
            && is_led_to(reader, oids, oid),
    decreases merges.len(),
{
    if merges.len() > 0 {
        let fewer = merges.drop_last();
        assert forall|m: int| 0 <= m < fewer.len() implies merge_is_covered(reader, oids, #[trigger] fewer[m]) by {
            assert(fewer[m] == merges[m]);
        }
        lemma_merges_miss(reader, oids, positions, memo, fewer);
        let last = merges.last();
        assert(merge_is_covered(reader, oids, merges[merges.len() - 1]));
        let roots = merge_roots(last);
        assert forall|i: int| 0 <= i < roots.len() implies is_covered_commit(reader, oids, #[trigger] roots[i]) by {
            assert(roots[i] == last[i].0);
        }
        lemma_closure_misses(reader, oids, positions, memo, roots);
    }
}

/// An object that a bitmap is refused for is none of its own, and one of its own
/// commits leads to it.
pub proof fn law_missing_object_is_led_to<R: ObjectReader>(
    reader: &R,
    oids: Seq<ObjectId>,
    headers: Seq<Result<Option<ObjectType>, GitError>>,
    preferred: Set<ObjectId>,
    groups: Seq<BitmapPseudoMergeGroup>,
    missing: ObjectId,
)
    requires
        oids.len() <= u32::MAX,
        build_end(reader, oids, headers, preferred, groups) == BuildEnd::Stopped(FillEnd::Missing(missing)),
    ensures
        !oids.contains(missing),
        is_led_to(reader, oids, missing),
{
    lemma_position_map(oids);
    lemma_indexed_are_covered(reader, oids, headers, oids.len());
    let (types, commits) = indexed(reader, oids, headers, oids.len())->Ok_0;
    let sorted = stable_sort(newest_first(), commits);
    assert(are_covered(reader, oids, sorted)) by {
        assert forall|i: int| 0 <= i < sorted.len() implies is_covered_commit(
            reader,
            oids,
            (#[trigger] sorted[i]).oid,
        ) by {
            lemma_sort_contains(newest_first(), commits, sorted[i]);
            assert(sorted.contains(sorted[i]));
            let k = choose|k: int| 0 <= k < commits.len() && commits[k] == sorted[i];
            assert(is_covered_commit(reader, oids, commits[k].oid));
        }
    }
    lemma_spaced_are_covered(reader, oids, sorted, preferred, 0);
    let selected = selected_commits(sorted, preferred);
    let positions = position_map(oids);
    lemma_memo_misses(reader, oids, positions, selected);
    if let Ok(memo) = closure_memo(reader, positions, selected) {
        lemma_all_merges_are_covered(reader, oids, groups, commit_ids(selected), types);
        lemma_merges_miss(
            reader,
            oids,
            positions,
            memo,
            all_merges(groups, commit_ids(selected), positions, types),
        );
    }
}

/// The ids whose bits are in a set.
pub open spec fn ids_at(positions: Map<ObjectId, u32>, marked: Set<int>) -> Set<ObjectId> {
    Set::new(|oid: ObjectId| positions.contains_key(oid) && marked.contains(positions[oid] as int))
}

/// Whether all that a bitmap has stored is right: the closure of each commit is
/// that of the commit, and the bitmap of each pseudo-merge is the closure of its
/// commits.
pub open spec fn is_exact<R: ObjectReader>(reader: &R, bitmap: LoadedPackBitmap) -> bool {
    let positions = bitmap.oid_to_pack@;
    &&& forall|c: ObjectId| #[trigger]
        bitmap.commit_words@.contains_key(c) ==> is_closure(
            reader,
            positions,
            set![c],
            bits(bitmap.commit_words@[c]@),
        )
    &&& forall|m: int|
        0 <= m < bitmap.pseudo_merges@.len() ==> is_closure(
            reader,
            positions,
            ids_at(positions, bits((#[trigger] bitmap.pseudo_merges@[m]).commits@)),
            bits(bitmap.pseudo_merges@[m].bitmap@),
        )
}

/// The objects that a bitmap walk found: those at the bits that it set, and
/// those that the bitmap does not cover.
pub open spec fn found_by(bitmap: LoadedPackBitmap, result: BitmapWalkResult) -> Set<ObjectId> {
    Set::new(
        |oid: ObjectId|
            outside(result.extended@).contains(oid) || exists|p: int|
                0 <= p < bitmap.pack_to_oid@.len() && bits(result.words@).contains(p)
                    && #[trigger] bitmap.pack_to_oid@[p] == oid,
    )
}

/// Whether the objects outside are listed once each, and none is covered.
spec fn are_outside(cover: Coverage, extended: Seq<(ObjectId, ObjectType)>) -> bool {
    &&& outside(extended).no_duplicates()
    &&& forall|i: int| 0 <= i < extended.len() ==> !cover.positions.contains_key((#[trigger] extended[i]).0)
}

proof fn lemma_mark_stays_outside(cover: Coverage, marks: Marks, oid: ObjectId, object_type: ObjectType)
    requires
        are_outside(cover, marks.extended),
    ensures
        are_outside(cover, with_mark(cover, marks, oid, object_type).extended),
{
    let next = with_mark(cover, marks, oid, object_type);
    if !has_mark(cover, marks, oid) && !cover.positions.contains_key(oid) {
        let before = outside(marks.extended);
        assert(!before.contains(oid));
        assert(outside(next.extended) =~= before.push(oid));
        assert forall|i: int| 0 <= i < next.extended.len() implies !cover.positions.contains_key(
            (#[trigger] next.extended[i]).0,
        ) by {
            if i < marks.extended.len() {
                assert(next.extended[i] == marks.extended[i]);
            }
        }
    }
}

proof fn lemma_walk_stays_outside(next: NextTasks, cover: Coverage, stack: Seq<BitmapTask>, marks: Marks)
    requires
        are_outside(cover, marks.extended),
    ensures
        fill(next, cover, stack, marks) matches FillEnd::Done(all) ==> are_outside(cover, all.extended),
    decreases unmarked(cover, marks).len(), stack.len(),
{
    if stack.len() > 0 {
        let rest = stack.drop_last();
        match stack.last() {
            BitmapTask::Tag(oid) => {
                lemma_mark(cover, marks, oid, ObjectType::Tag);
                lemma_mark_stays_outside(cover, marks, oid, ObjectType::Tag);
                lemma_walk_stays_outside(next, cover, rest, with_mark(cover, marks, oid, ObjectType::Tag));
            },
            BitmapTask::Blob(oid) => {
                lemma_mark(cover, marks, oid, ObjectType::Blob);
                lemma_mark_stays_outside(cover, marks, oid, ObjectType::Blob);
                lemma_walk_stays_outside(next, cover, rest, with_mark(cover, marks, oid, ObjectType::Blob));
            },
            BitmapTask::Tree(oid) => {
                if has_mark(cover, marks, oid) {
                    lemma_walk_stays_outside(next, cover, rest, marks);
                } else {
                    lemma_mark(cover, marks, oid, ObjectType::Tree);
                    lemma_mark_stays_outside(cover, marks, oid, ObjectType::Tree);
                    lemma_walk_stays_outside(
                        next,
                        cover,
                        rest + next(oid, false),
                        with_mark(cover, marks, oid, ObjectType::Tree),
                    );
                }
            },
            BitmapTask::Commit(oid) => {
                if has_mark(cover, marks, oid) {
                    lemma_walk_stays_outside(next, cover, rest, marks);
                } else if cover.positions.contains_key(oid) && cover.stored.contains_key(oid) {
                    lemma_unmarked_shrinks(cover, marks, with_stored(cover, marks, oid));
                    lemma_walk_stays_outside(next, cover, rest, with_stored(cover, marks, oid));
                } else {
                    lemma_mark(cover, marks, oid, ObjectType::Commit);
                    lemma_mark_stays_outside(cover, marks, oid, ObjectType::Commit);
                    lemma_walk_stays_outside(
                        next,
                        cover,
                        rest + next(oid, true),
                        with_mark(cover, marks, oid, ObjectType::Commit),
                    );
                }
            },
            BitmapTask::Misused(_) => {},
            BitmapTask::Fail(_) => {},
        }
    }
}

/// A merge whose commits a walk has marked adds nothing that the walk has not.
proof fn lemma_merge_adds_nothing<R: ObjectReader>(
    reader: &R,
    bitmap: LoadedPackBitmap,
    starts: Set<ObjectId>,
    marks: Marks,
    m: int,
)
    requires
        bitmap.wf(),
        is_exact(reader, bitmap),
        forall|o: ObjectId| #[trigger] leads_to(reader, starts, o) <==> has_mark(bitmap.coverage(), marks, o),
        0 <= m < bitmap.pseudo_merges@.len(),
        bits(bitmap.pseudo_merges@[m].commits@).subset_of(marks.bits),
    ensures
        bits(bitmap.pseudo_merges@[m].bitmap@).subset_of(marks.bits),
{
    let cover = bitmap.coverage();
    let positions = bitmap.oid_to_pack@;
    let merge = bitmap.pseudo_merges@[m];
    let commits = ids_at(positions, bits(merge.commits@));
    let graph = object_graph(reader);
    assert(is_closure(reader, positions, commits, bits(merge.bitmap@)));
    assert forall|p: int| bits(merge.bitmap@).contains(p) implies marks.bits.contains(p) by {
        let o = choose|o: ObjectId| #[trigger] positions.contains_key(o) && positions[o] == p;
        assert(leads_to(reader, commits, o));
        assert(leads_to(reader, starts, o)) by {
            assert forall|set: Set<ObjectId>| is_closed(graph, Set::empty(), starts, set) implies set.contains(o) by {
                assert forall|c: ObjectId| commits.contains(c) implies #[trigger] set.contains(c) by {
                    assert(bits(merge.commits@).contains(positions[c] as int));
                    assert(has_mark(cover, marks, c));
                    assert(leads_to(reader, starts, c));
                }
                assert(is_closed(graph, Set::empty(), commits, set));
            }
        }
        assert(has_mark(cover, marks, o));
    }
}

/// A walk with a bitmap finds exactly what a plain walk finds: where all that is
/// stored in the bitmap is right, the objects at the bits set and those listed
/// outside are together what the roots lead to. Each object outside is listed
/// once, and the bitmap covers none of them. So a plain walk that succeeds
/// collects the same objects; and it succeeds where every object that the roots
/// lead to reads and decodes. (What a tree lists as a blob is taken to link to
/// nothing.)
pub proof fn law_bitmap_walk_is_reachability<R: ObjectReader>(
    reader: &R,
    bitmap: LoadedPackBitmap,
    roots: Seq<ObjectId>,
    result: BitmapWalkResult,
)
    requires
        bitmap.wf(),
        is_exact(reader, bitmap),
        blobs_are_leaves(reader, roots.to_set()),
        is_bitmap_walk(bitmap, reader, roots, true, Ok(result)),
    ensures
        forall|oid: ObjectId| #[trigger]
            found_by(bitmap, result).contains(oid) <==> leads_to(reader, roots.to_set(), oid),
        outside(result.extended@).no_duplicates(),
        forall|i: int|
            0 <= i < result.extended@.len() ==> !bitmap.pack_to_oid@.contains((#[trigger] result.extended@[i]).0),
        strict_walk(reader, roots, Set::empty(), Set::empty()) matches Ok(ids) ==> ids.to_set() == found_by(
            bitmap,
            result,
        ),
        (forall|oid: ObjectId| #[trigger]
            leads_to(reader, roots.to_set(), oid) ==> object_graph(reader)(oid) is Ok) ==> strict_walk(
            reader,
            roots,
            Set::empty(),
            Set::empty(),
        ) is Ok,
{
    let cover = bitmap.coverage();
    let positions = bitmap.oid_to_pack@;
    let starts = roots.to_set();
    let graph = object_graph(reader);
    let oids = bitmap.pack_to_oid@;
    lemma_position_map(oids);
    assert(is_sound(reader, cover)) by {
        assert forall|c: ObjectId| #[trigger] cover.stored.contains_key(c) && cover.positions.contains_key(c) implies
            is_closure(reader, cover.positions, set![c], cover.stored[c]) by {
            assert(bitmap.commit_words@.contains_key(c));
        }
    }
    law_root_walk_is_reachability(reader, cover, roots);
    lemma_marked_bits_have_objects(reader, cover, roots);
    lemma_walk_stays_outside(reader_tasks(reader, true), cover, root_tasks(reader, roots), no_marks());
    let marks = reachable_end(bitmap, reader, roots, true)->Done_0;
    let merges = bitmap.pseudo_merges@;
    assert forall|m: int| 0 <= m < merges.len() && bits((#[trigger] merges[m]).commits@).subset_of(marks.bits)
        implies bits(merges[m].bitmap@).subset_of(marks.bits) by {
        lemma_merge_adds_nothing(reader, bitmap, starts, marks, m);
    }
    law_cascade_is_least(merges, marks.bits, marks.bits);
    assert(bits(result.words@) =~= marks.bits);
    let found = found_by(bitmap, result);
    assert forall|oid: ObjectId| #[trigger] found.contains(oid) <==> leads_to(reader, starts, oid) by {
        assert(leads_to(reader, starts, oid) <==> has_mark(cover, marks, oid));
        if has_mark(cover, marks, oid) && positions.contains_key(oid) {
            let p = positions[oid] as int;
            assert(oids[p] == oid);
        }
        if found.contains(oid) && !outside(result.extended@).contains(oid) {
            let p = choose|p: int|
                0 <= p < oids.len() && bits(result.words@).contains(p) && #[trigger] oids[p] == oid;
            assert(marks.bits.contains(p));
            let o = choose|o: ObjectId| #[trigger] positions.contains_key(o) && positions[o] == p;
            assert(oids[positions[o] as int] == o);
        }
        if outside(result.extended@).contains(oid) {
            let i = choose|i: int| 0 <= i < result.extended@.len() && outside(result.extended@)[i] == oid;
            assert(!positions.contains_key(result.extended@[i].0));
        }
    }
    let stack = roots.reverse();
    assert(stack.to_set() =~= starts) by {
        assert forall|o: ObjectId| stack.contains(o) == roots.contains(o) by {
            if stack.contains(o) {
                let i = choose|i: int| 0 <= i < stack.len() && stack[i] == o;
                assert(roots[roots.len() - 1 - i] == o);
            }
            if roots.contains(o) {
                let i = choose|i: int| 0 <= i < roots.len() && roots[i] == o;
                assert(stack[roots.len() - 1 - i] == o);
            }
        }
    }
    law_walk_visits_closure(graph, Set::empty(), stack);
    match strict_walk(reader, roots, Set::empty(), Set::empty()) {
        Ok(ids) => {
            assert forall|o: ObjectId| ids.to_set().contains(o) == found.contains(o) by {
                assert(ids.contains(o) <==> reaches(graph, Set::empty(), starts, o));
                assert(leads_to(reader, starts, o) == reaches(graph, Set::empty(), starts, o));
            }
            assert(ids.to_set() =~= found);
        },
        Err(err) => {
            let o = choose|o: ObjectId|
                #[trigger] reaches(graph, Set::empty(), stack.to_set(), o) && !Set::<ObjectId>::empty().contains(o)
                    && graph(o) == Err::<Seq<ObjectId>, GitError>(err);
            assert(leads_to(reader, starts, o));
        },
    }
}

} // verus!
