//! Which commits of a pack get bitmaps, in terms of the commits themselves.

use crate::bitmap::lemma_position_map;
use crate::bitmap::position_map;
use crate::bitmap_build::ascending;
use crate::bitmap_build::build_end;
use crate::bitmap_build::chosen_commit;
use crate::bitmap_build::commit_ids;
use crate::bitmap_build::commit_spacing;
use crate::bitmap_build::first_preferred;
use crate::bitmap_build::identity_seconds;
use crate::bitmap_build::index_rank;
use crate::bitmap_build::indexed;
use crate::bitmap_build::is_plan;
use crate::bitmap_build::last_merge;
use crate::bitmap_build::last_space;
use crate::bitmap_build::law_memo_is_sound;
use crate::bitmap_build::lemma_ascending_lists;
use crate::bitmap_build::merge_bits;
use crate::bitmap_build::merge_candidates;
use crate::bitmap_build::merge_end;
use crate::bitmap_build::merge_roots;
use crate::bitmap_build::newest_first;
use crate::bitmap_build::partitioned;
use crate::bitmap_build::sampled;
use crate::bitmap_build::selected_commits;
use crate::bitmap_build::spaced_commits;
use crate::bitmap_build::takes_part;
use crate::bitmap_build::timestamp_field;
use crate::bitmap_build::BitmapPlan;
use crate::bitmap_build::BitmapPseudoMergeGroup;
use crate::bitmap_build::BitmapPseudoMergePartition;
use crate::bitmap_build::BuildEnd;
use crate::bitmap_build::IndexedCommit;
use crate::bitmap_walk::blobs_are_leaves;
use crate::bitmap_walk::commit_closure;
use crate::bitmap_walk::is_closure;
use crate::bitmap_walk::law_closure_is_reachability;
use crate::bitmap_walk::leads_to;
use crate::bitset::words_for;
use crate::error::GitError;
use crate::object::ObjectContent;
use crate::object::ObjectReader;
use crate::object::ObjectType;
use crate::object_id::ObjectId;
use crate::order::is_order;
use crate::order::stable_sort;
use crate::text::all_digits;
use crate::text::decimal_value;
use vstd::prelude::*;

verus! {

/// Whether `chosen` is the commit of the window from `from` up to `to`: the
/// first preferred one, else the last merge, else the last.
pub open spec fn stands_for_window(
    commits: Seq<IndexedCommit>,
    preferred: Set<ObjectId>,
    from: int,
    to: int,
    chosen: IndexedCommit,
) -> bool {
    exists|j: int|
        from <= j < to && chosen == #[trigger] commits[j] && {
            ||| preferred.contains(commits[j].oid) && forall|m: int|
                from <= m < j ==> !preferred.contains((#[trigger] commits[m]).oid)
            ||| (forall|m: int| from <= m < to ==> !preferred.contains((#[trigger] commits[m]).oid))
                && commits[j].parent_count >= 2 && forall|m: int|
                j < m < to ==> (#[trigger] commits[m]).parent_count < 2
            ||| (forall|m: int|
                from <= m < to ==> !preferred.contains((#[trigger] commits[m]).oid)
                    && commits[m].parent_count < 2) && j == to - 1
        }
}

proof fn lemma_first_preferred(commits: Seq<IndexedCommit>, preferred: Set<ObjectId>, from: int, to: int)
    ensures
        match first_preferred(commits, preferred, from, to) {
            Some(j) => from <= j <= to && preferred.contains(commits[j].oid) && forall|m: int|
                from <= m < j ==> !preferred.contains((#[trigger] commits[m]).oid),
            None => forall|m: int| from <= m <= to ==> !preferred.contains((#[trigger] commits[m]).oid),
        },
    decreases to - from + 1,
{
    if from <= to && !preferred.contains(commits[from].oid) {
        lemma_first_preferred(commits, preferred, from + 1, to);
    }
}

proof fn lemma_last_merge(commits: Seq<IndexedCommit>, from: int, to: int)
    ensures
        match last_merge(commits, from, to) {
            Some(j) => from <= j <= to && commits[j].parent_count >= 2 && forall|m: int|
                j < m <= to ==> (#[trigger] commits[m]).parent_count < 2,
            None => forall|m: int| from <= m <= to ==> (#[trigger] commits[m]).parent_count < 2,
        },
    decreases to - from + 1,
{
    if from <= to && commits[to].parent_count < 2 {
        lemma_last_merge(commits, from, to - 1);
    }
}

proof fn lemma_chosen_stands_for_window(
    commits: Seq<IndexedCommit>,
    preferred: Set<ObjectId>,
    from: int,
    to: int,
)
    requires
        from <= to,
    ensures
        stands_for_window(commits, preferred, from, to + 1, chosen_commit(commits, preferred, from, to)),
{
    lemma_first_preferred(commits, preferred, from, to);
    lemma_last_merge(commits, from, to);
    let j = match first_preferred(commits, preferred, from, to) {
        Some(i) => i,
        None => match last_merge(commits, from, to) {
            Some(i) => i,
            None => to,
        },
    };
    assert(chosen_commit(commits, preferred, from, to) == commits[j]);
}

/// Whether `chosen` is that of the window from `from` to `to`, which is as long
/// as the schedule says.
spec fn is_window(
    commits: Seq<IndexedCommit>,
    preferred: Set<ObjectId>,
    from: int,
    to: int,
    chosen: IndexedCommit,
) -> bool {
    &&& 0 <= from < to <= commits.len()
    &&& to == from + 1 + commit_spacing(from)
    &&& stands_for_window(commits, preferred, from, to, chosen)
}

/// Where the windows begin and end that the schedule takes from position `i` on.
proof fn lemma_windows(commits: Seq<IndexedCommit>, preferred: Set<ObjectId>, i: int) -> (windows: (
    Seq<int>,
    Seq<int>,
))
    requires
        0 <= i <= commits.len(),
    ensures
        ({
            let chosen = spaced_commits(commits, preferred, i);
            let (starts, ends) = windows;
            let rest = if ends.len() == 0 {
                i
            } else {
                ends.last()
            };
            &&& starts.len() == chosen.len()
            &&& ends.len() == chosen.len()
            &&& chosen.len() > 0 ==> starts[0] == i
            &&& forall|k: int|
                #![trigger starts[k]]
                0 <= k < starts.len() ==> is_window(commits, preferred, starts[k], ends[k], chosen[k])
            &&& forall|k: int| 0 < k < starts.len() ==> #[trigger] starts[k] == ends[k - 1]
            &&& 0 <= rest <= commits.len()
            &&& rest + commit_spacing(rest) >= commits.len()
        }),
    decreases commits.len() - i,
{
    let next = commit_spacing(i);
    if i + next >= commits.len() || next < 0 {
        (Seq::empty(), Seq::empty())
    } else {
        let (starts_behind, ends_behind) = lemma_windows(commits, preferred, i + next + 1);
        let starts = seq![i] + starts_behind;
        let ends = seq![i + next + 1] + ends_behind;
        let chosen = spaced_commits(commits, preferred, i);
        let behind = spaced_commits(commits, preferred, i + next + 1);
        lemma_chosen_stands_for_window(commits, preferred, i, i + next);
        assert forall|k: int| #![trigger starts[k]] 0 <= k < starts.len() implies is_window(
            commits,
            preferred,
            starts[k],
            ends[k],
            chosen[k],
        ) by {
            if k > 0 {
                assert(starts[k] == starts_behind[k - 1] && ends[k] == ends_behind[k - 1] && chosen[k] == behind[k
                    - 1]);
            } else {
                assert(chosen[0] == chosen_commit(commits, preferred, i, i + next));
            }
        }
        assert forall|k: int| 0 < k < starts.len() implies #[trigger] starts[k] == ends[k - 1] by {
            assert(starts[k] == starts_behind[k - 1]);
            if k > 1 {
                assert(ends[k - 1] == ends_behind[k - 2]);
                assert(starts_behind[k - 1] == ends_behind[k - 1 - 1]);
            }
        }
        if ends_behind.len() > 0 {
            assert(ends.last() == ends_behind.last());
        }
        (starts, ends)
    }
}

/// Of commits listed newest first, all of fewer than a hundred get a bitmap.
/// Otherwise the list falls into windows, one behind the other, which begin and
/// end at the positions that are handed back: of a single commit up to the
/// hundred and first, then of as many more as the window begins behind the
/// hundredth, a hundred more at most, and from the twenty-thousandth on of as
/// many more as it begins behind that, no fewer than a hundred more and no more
/// than five thousand. Each window that the list fills gets one bitmap: for the
/// first preferred commit in it, else for its last merge, else for its last
/// commit.
pub proof fn law_selection_takes_one_of_each_window(
    commits: Seq<IndexedCommit>,
    preferred: Set<ObjectId>,
) -> (windows: (Seq<int>, Seq<int>))
    ensures
        commits.len() < 100 ==> selected_commits(commits, preferred) == commits,
        commits.len() >= 100 ==> {
            let selected = selected_commits(commits, preferred);
            let (starts, ends) = windows;
            &&& selected.len() > 0
            &&& starts.len() == selected.len()
            &&& ends.len() == selected.len()
            &&& starts[0] == 0
            &&& forall|k: int|
                0 < k < starts.len() ==> #[trigger] starts[k] == ends[k - 1]
            &&& forall|k: int|
                #![trigger starts[k]]
                0 <= k < starts.len() ==> {
                    &&& 0 <= starts[k] < ends[k] <= commits.len()
                    &&& ends[k] - starts[k] == 1 + if starts[k] <= 100 {
                        0
                    } else if starts[k] <= 200 {
                        starts[k] - 100
                    } else if starts[k] <= 20100 {
                        100
                    } else if starts[k] <= 25000 {
                        starts[k] - 20000
                    } else {
                        5000
                    }
                    &&& stands_for_window(commits, preferred, starts[k], ends[k], selected[k])
                }
            &&& ends.last() <= commits.len()
            &&& commits.len() - ends.last() <= if ends.last() <= 100 {
                0
            } else if ends.last() <= 200 {
                ends.last() - 100
            } else if ends.last() <= 20100 {
                100
            } else if ends.last() <= 25000 {
                ends.last() - 20000
            } else {
                5000
            }
        },
{
    if commits.len() >= 100 {
        let windows = lemma_windows(commits, preferred, 0);
        law_newest_commits_are_selected(commits, preferred);
        let selected = selected_commits(commits, preferred);
        let starts = windows.0;
        let ends = windows.1;
        assert forall|k: int| #![trigger starts[k]] 0 <= k < starts.len() implies {
            &&& 0 <= starts[k] < ends[k] <= commits.len()
            &&& ends[k] - starts[k] == 1 + if starts[k] <= 100 {
                0
            } else if starts[k] <= 200 {
                starts[k] - 100
            } else if starts[k] <= 20100 {
                100
            } else if starts[k] <= 25000 {
                starts[k] - 20000
            } else {
                5000
            }
            &&& stands_for_window(commits, preferred, starts[k], ends[k], selected[k])
        } by {
            assert(is_window(commits, preferred, starts[k], ends[k], selected[k]));
        }
        windows
    } else {
        (Seq::empty(), Seq::empty())
    }
}

/// The newest hundred and one commits all get a bitmap, so that none is left
/// without one where there are any.
pub proof fn law_newest_commits_are_selected(commits: Seq<IndexedCommit>, preferred: Set<ObjectId>)
    ensures
        forall|i: int|
            0 <= i <= 100 && i < commits.len() ==> i < selected_commits(commits, preferred).len()
                && selected_commits(commits, preferred)[i] == #[trigger] commits[i],
        commits.len() > 0 ==> selected_commits(commits, preferred).len() > 0,
{
    if commits.len() >= 100 {
        assert forall|i: int| 0 <= i <= 100 && i < commits.len() implies i < selected_commits(
            commits,
            preferred,
        ).len() && selected_commits(commits, preferred)[i] == #[trigger] commits[i] by {
            lemma_must_region(commits, preferred, 0, i);
        }
        lemma_must_region(commits, preferred, 0, if commits.len() > 100 {
            100
        } else {
            99
        });
        assert(selected_commits(commits, preferred)[0] == commits[0]);
    } else {
        assert(selected_commits(commits, preferred) == commits);
    }
}

proof fn lemma_must_region(commits: Seq<IndexedCommit>, preferred: Set<ObjectId>, from: int, i: int)
    requires
        0 <= from <= i <= 100,
        i < commits.len(),
    ensures
        i - from < spaced_commits(commits, preferred, from).len(),
        spaced_commits(commits, preferred, from)[i - from] == commits[i],
    decreases i - from,
{
    assert(commit_spacing(from) == 0);
    lemma_first_preferred(commits, preferred, from, from);
    lemma_last_merge(commits, from, from);
    assert(chosen_commit(commits, preferred, from, from) == commits[from]);
    if from < i {
        lemma_must_region(commits, preferred, from + 1, i);
    }
}

/// Every `stride`-th candidate from `from` on stands in a sample.
proof fn lemma_sampled(candidates: Seq<(ObjectId, u32)>, from: int, to: int, stride: int)
    requires
        0 <= from <= to <= candidates.len(),
        stride > 0,
    ensures
        forall|m: int|
            #![trigger sampled(candidates, from, to, stride)[m]]
            0 <= m < sampled(candidates, from, to, stride).len() ==> sampled(candidates, from, to, stride)[m]
                == candidates[from + m * stride],
        to <= from + sampled(candidates, from, to, stride).len() * stride < to + stride,
    decreases to - from,
{
    let all = sampled(candidates, from, to, stride);
    if from < to {
        if from + stride <= to {
            lemma_sampled(candidates, from + stride, to, stride);
        } else {
            assert(sampled(candidates, from + stride, to, stride) =~= Seq::empty());
        }
        let rest = sampled(candidates, from + stride, to, stride);
        assert(all =~= seq![candidates[from]] + rest);
        assert forall|m: int| #![trigger all[m]] 0 <= m < all.len() implies all[m]
            == candidates[from + m * stride] by {
            if m > 0 {
                assert(rest[m - 1] == all[m]);
                assert(from + stride + (m - 1) * stride == from + m * stride) by (nonlinear_arith);
            } else {
                assert(0 * stride == 0);
            }
        }
        assert(all.len() * stride == stride + rest.len() * stride) by (nonlinear_arith)
            requires
                all.len() == rest.len() + 1,
        ;
        assert(rest.len() == 0 ==> rest.len() * stride == 0) by (nonlinear_arith);
    } else {
        assert(0 * stride == 0);
    }
}

/// Whether `merge` is the one of the commits from `from` to `to`, which are as
/// many as `size` says.
spec fn is_merge_of(
    candidates: Seq<(ObjectId, u32)>,
    stride: int,
    size: int,
    from: int,
    to: int,
    merge: Seq<(ObjectId, u32)>,
) -> bool {
    &&& 0 <= from < to <= candidates.len()
    &&& to == merge_end(from, size, candidates.len() as int)
    &&& merge == sampled(candidates, from, to, stride)
}

proof fn lemma_partitioned(
    candidates: Seq<(ObjectId, u32)>,
    partition: BitmapPseudoMergePartition,
    index: int,
    start: int,
) -> (ranges: (Seq<int>, Seq<int>))
    requires
        0 <= index <= partition.sizes@.len(),
        0 <= start <= candidates.len(),
        partition.sample_stride > 0,
    ensures
        ({
            let merges = partitioned(candidates, partition, index, start);
            let (starts, ends) = ranges;
            let rest = if ends.len() == 0 {
                start
            } else {
                ends.last()
            };
            &&& starts.len() == merges.len()
            &&& ends.len() == merges.len()
            &&& merges.len() > 0 ==> starts[0] == start
            &&& index + merges.len() <= partition.sizes@.len()
            &&& (rest == candidates.len() || index + merges.len() == partition.sizes@.len())
            &&& forall|k: int| 0 < k < starts.len() ==> #[trigger] starts[k] == ends[k - 1]
            &&& forall|k: int|
                #![trigger starts[k]]
                0 <= k < starts.len() ==> is_merge_of(
                    candidates,
                    partition.sample_stride as int,
                    partition.sizes@[index + k] as int,
                    starts[k],
                    ends[k],
                    merges[k],
                )
        }),
    decreases partition.sizes@.len() - index,
{
    let merges = partitioned(candidates, partition, index, start);
    if index >= partition.sizes@.len() || start >= candidates.len() {
        (Seq::empty(), Seq::empty())
    } else {
        let end = merge_end(start, partition.sizes@[index] as int, candidates.len() as int);
        let (starts_behind, ends_behind) = lemma_partitioned(candidates, partition, index + 1, end);
        let rest = partitioned(candidates, partition, index + 1, end);
        let starts = seq![start] + starts_behind;
        let ends = seq![end] + ends_behind;
        assert(merges =~= seq![sampled(candidates, start, end, partition.sample_stride as int)] + rest);
        assert forall|k: int| #![trigger starts[k]] 0 <= k < starts.len() implies is_merge_of(
            candidates,
            partition.sample_stride as int,
            partition.sizes@[index + k] as int,
            starts[k],
            ends[k],
            merges[k],
        ) by {
            if k > 0 {
                assert(rest[k - 1] == merges[k]);
                assert(starts[k] == starts_behind[k - 1] && ends[k] == ends_behind[k - 1]);
                assert(index + 1 + (k - 1) == index + k);
            }
        }
        assert forall|k: int| 0 < k < starts.len() implies #[trigger] starts[k] == ends[k - 1] by {
            assert(starts[k] == starts_behind[k - 1]);
            if k > 1 {
                assert(ends[k - 1] == ends_behind[k - 2]);
                assert(starts_behind[k - 1] == ends_behind[k - 1 - 1]);
            }
        }
        if ends_behind.len() > 0 {
            assert(ends.last() == ends_behind.last());
        }
        (starts, ends)
    }
}

/// A partitioned group of commits gives one merge after the other, of the
/// commits between the positions that are handed back, the next from where the
/// one before it ends: as many as its size says, and all that are left where
/// that is fewer than eight or more than are left. It goes on until the commits
/// or the sizes are used up. A merge stands for every `sample_stride`-th of its
/// commits, the first of them first.
pub proof fn law_merges_take_the_commits_in_turn(
    candidates: Seq<(ObjectId, u32)>,
    partition: BitmapPseudoMergePartition,
) -> (ranges: (Seq<int>, Seq<int>))
    requires
        partition.sample_stride > 0,
        candidates.len() > 0,
        partition.sizes@.len() > 0,
    ensures
        ({
            let merges = partitioned(candidates, partition, 0, 0);
            let (starts, ends) = ranges;
            &&& merges.len() > 0
            &&& starts.len() == merges.len()
            &&& ends.len() == merges.len()
            &&& starts[0] == 0
            &&& merges.len() <= partition.sizes@.len()
            &&& (ends.last() == candidates.len() || merges.len() == partition.sizes@.len())
            &&& forall|k: int| 0 < k < starts.len() ==> #[trigger] starts[k] == ends[k - 1]
            &&& forall|k: int|
                #![trigger starts[k]]
                0 <= k < starts.len() ==> {
                    &&& 0 <= starts[k] < ends[k] <= candidates.len()
                    &&& ends[k] == if partition.sizes@[k] < 8 || starts[k] + partition.sizes@[k] > candidates.len() {
                        candidates.len() as int
                    } else {
                        starts[k] + partition.sizes@[k]
                    }
                    &&& starts[k] + merges[k].len() * partition.sample_stride - partition.sample_stride < ends[k]
                    &&& ends[k] <= starts[k] + merges[k].len() * partition.sample_stride
                }
            &&& forall|k: int, m: int|
                #![trigger merges[k][m]]
                0 <= k < merges.len() && 0 <= m < merges[k].len() ==> merges[k][m] == candidates[starts[k] + m
                    * partition.sample_stride]
        }),
{
    let ranges = lemma_partitioned(candidates, partition, 0, 0);
    let merges = partitioned(candidates, partition, 0, 0);
    let starts = ranges.0;
    let ends = ranges.1;
    let stride = partition.sample_stride as int;
    assert(merges.len() > 0);
    assert forall|k: int| #![trigger starts[k]] 0 <= k < starts.len() implies {
        &&& 0 <= starts[k] < ends[k] <= candidates.len()
        &&& ends[k] == if partition.sizes@[k] < 8 || starts[k] + partition.sizes@[k] > candidates.len() {
            candidates.len() as int
        } else {
            starts[k] + partition.sizes@[k]
        }
        &&& starts[k] + merges[k].len() * stride - stride < ends[k]
        &&& ends[k] <= starts[k] + merges[k].len() * stride
    } by {
        assert(is_merge_of(candidates, stride, partition.sizes@[0 + k] as int, starts[k], ends[k], merges[k]));
        lemma_sampled(candidates, starts[k], ends[k], stride);
    }
    assert forall|k: int, m: int|
        #![trigger merges[k][m]]
        0 <= k < merges.len() && 0 <= m < merges[k].len() implies merges[k][m] == candidates[starts[k] + m * stride] by {
        assert(is_merge_of(candidates, stride, partition.sizes@[0 + k] as int, starts[k], ends[k], merges[k]));
        lemma_sampled(candidates, starts[k], ends[k], stride);
    }
    ranges
}

/// The commits that a merge may stand for are those of its group that are
/// commits of the pack and, where that is asked, have no bitmap of their own,
/// each with its bit, in the order of the group.
pub proof fn law_merge_candidates(
    commits: Seq<ObjectId>,
    exclude_selected: bool,
    selected: Set<ObjectId>,
    positions: Map<ObjectId, u32>,
    types: Seq<ObjectType>,
) -> (at: Seq<int>)
    ensures
        ({
            let candidates = merge_candidates(commits, exclude_selected, selected, positions, types);
            &&& at.len() == candidates.len()
            &&& forall|k: int|
                0 <= k < at.len() ==> 0 <= #[trigger] at[k] < commits.len() && candidates[k] == (
                    commits[at[k]],
                    positions[commits[at[k]]],
                )
            &&& forall|j: int, k: int| 0 <= j < k < at.len() ==> #[trigger] at[j] < #[trigger] at[k]
            &&& forall|i: int|
                0 <= i < commits.len() ==> (at.contains(i) <==> positions.contains_key(#[trigger] commits[i])
                    && types[positions[commits[i]] as int] == ObjectType::Commit && !(exclude_selected
                    && selected.contains(commits[i])))
        }),
    decreases commits.len(),
{
    if commits.len() == 0 {
        Seq::empty()
    } else {
        let rest = commits.drop_last();
        let last = commits.len() - 1;
        let before = law_merge_candidates(rest, exclude_selected, selected, positions, types);
        let at = if takes_part(commits.last(), exclude_selected, selected, positions, types) {
            before.push(last)
        } else {
            before
        };
        assert forall|i: int| 0 <= i < commits.len() implies (at.contains(i) <==> positions.contains_key(
            #[trigger] commits[i],
        ) && types[positions[commits[i]] as int] == ObjectType::Commit && !(exclude_selected && selected.contains(
            commits[i],
        ))) by {
            if i < last {
                assert(rest[i] == commits[i]);
                if before.contains(i) {
                    let k = choose|k: int| 0 <= k < before.len() && before[k] == i;
                    assert(at[k] == i);
                }
                if at.contains(i) {
                    let k = choose|k: int| 0 <= k < at.len() && at[k] == i;
                    assert(k < before.len());
                    assert(before[k] == i);
                }
            } else {
                if at.contains(i) {
                    let k = choose|k: int| 0 <= k < at.len() && at[k] == i;
                    if k < before.len() {
                        assert(before[k] < rest.len());
                    }
                }
                if takes_part(commits.last(), exclude_selected, selected, positions, types) {
                    assert(at[before.len() as int] == i);
                }
            }
        }
        assert forall|k: int| 0 <= k < at.len() implies 0 <= #[trigger] at[k] < commits.len() by {
            if k < before.len() {
                assert(at[k] == before[k]);
            }
        }
        at
    }
}

/// The committer line of a commit gives its date as the number between the last
/// two spaces: where that is written in decimal digits, behind a minus sign or
/// not, and fits, it is that number.
pub proof fn law_identity_gives_its_seconds(lead: Seq<u8>, field: Seq<u8>, zone: Seq<u8>)
    requires
        forall|i: int| 0 <= i < field.len() ==> #[trigger] field[i] != 32,
        forall|i: int| 0 <= i < zone.len() ==> #[trigger] zone[i] != 32,
        field.len() > 0,
        all_digits(field),
        decimal_value(field) <= i64::MAX,
    ensures
        identity_seconds(lead + seq![32u8] + field + seq![32u8] + zone) == decimal_value(field),
        identity_seconds(lead + seq![32u8, 45u8] + field + seq![32u8] + zone) == -decimal_value(field),
{
    let plain = lead + seq![32u8] + field + seq![32u8] + zone;
    lemma_field_between(lead, field, zone);
    assert(plain =~= lead + seq![32u8] + field + seq![32u8] + zone);
    assert(field[0] != 43 && field[0] != 45);
    let minus = seq![45u8] + field;
    assert forall|i: int| 0 <= i < minus.len() implies #[trigger] minus[i] != 32 by {
        if i > 0 {
            assert(minus[i] == field[i - 1]);
        }
    }
    lemma_field_between(lead, minus, zone);
    assert(lead + seq![32u8, 45u8] + field + seq![32u8] + zone =~= lead + seq![32u8] + minus + seq![32u8] + zone);
    assert(minus.skip(1) =~= field);
}

proof fn lemma_field_between(lead: Seq<u8>, field: Seq<u8>, zone: Seq<u8>)
    requires
        forall|i: int| 0 <= i < field.len() ==> #[trigger] field[i] != 32,
        forall|i: int| 0 <= i < zone.len() ==> #[trigger] zone[i] != 32,
    ensures
        timestamp_field(lead + seq![32u8] + field + seq![32u8] + zone) == Some(field),
{
    let front = lead + seq![32u8] + field;
    let all = front + seq![32u8] + zone;
    lemma_last_space_is(front, zone);
    assert(all.take(front.len() as int) =~= front);
    lemma_last_space_is(lead, field);
    assert(all.subrange(lead.len() as int + 1, front.len() as int) =~= field);
}

proof fn lemma_last_space_is(lead: Seq<u8>, tail: Seq<u8>)
    requires
        forall|i: int| 0 <= i < tail.len() ==> #[trigger] tail[i] != 32,
    ensures
        last_space(lead + seq![32u8] + tail) == lead.len(),
    decreases tail.len(),
{
    let all = lead + seq![32u8] + tail;
    if tail.len() > 0 {
        let rest = tail.drop_last();
        assert forall|i: int| 0 <= i < rest.len() implies #[trigger] rest[i] != 32 by {
            assert(tail[i] == rest[i]);
        }
        lemma_last_space_is(lead, rest);
        assert(all.drop_last() =~= lead + seq![32u8] + rest);
        assert(all.last() == tail[tail.len() - 1]);
    }
}

/// The objects of a pack are listed by type, as their headers say, or where a
/// header says nothing as the object does. Its commits are listed each with its
/// bit, its place in the index, its date and the number of the parents that walks follow: `at` gives the
/// place of each.
pub proof fn law_commits_of_the_pack_are_listed<R: ObjectReader>(
    reader: &R,
    oids: Seq<ObjectId>,
    headers: Seq<Result<Option<ObjectType>, GitError>>,
    n: nat,
) -> (at: Seq<int>)
    requires
        n <= oids.len() <= u32::MAX,
        headers.len() == oids.len(),
        indexed(reader, oids, headers, n) is Ok,
    ensures
        ({
            let (types, commits) = indexed(reader, oids, headers, n)->Ok_0;
            &&& types.len() == n
            &&& forall|i: int|
                0 <= i < n ==> match #[trigger] headers[i] {
                    Ok(Some(object_type)) => types[i] == object_type,
                    Ok(None) => reader.object_at(oids[i]) is Ok && types[i]
                        == match reader.object_at(oids[i])->Ok_0.content {
                        ObjectContent::Commit(_) => ObjectType::Commit,
                        ObjectContent::Tree(_) => ObjectType::Tree,
                        ObjectContent::Tag(_) => ObjectType::Tag,
                        ObjectContent::Blob => ObjectType::Blob,
                    },
                    Err(_) => false,
                }
            &&& at.len() == commits.len()
            &&& forall|j: int, k: int| 0 <= j < k < at.len() ==> #[trigger] at[j] < #[trigger] at[k]
            &&& forall|i: int| 0 <= i < n ==> (at.contains(i) <==> #[trigger] types[i] == ObjectType::Commit)
            &&& forall|k: int|
                0 <= k < at.len() ==> {
                    &&& 0 <= #[trigger] at[k] < n
                    &&& commits[k].oid == oids[at[k]]
                    &&& commits[k].pack_pos == at[k]
                    &&& commits[k].index_pos == index_rank(oids, at[k]) as u32
                    &&& reader.object_at(oids[at[k]]) is Ok
                    &&& reader.object_at(oids[at[k]])->Ok_0.content matches ObjectContent::Commit(Ok(commit))
                        && commits[k].date == identity_seconds(commit.committer@) && commits[k].parent_count
                        == if reader.grafted(oids[at[k]]) {
                        0
                    } else {
                        commit.parents@.len() as usize
                    }
                }
        }),
    decreases n,
{
    if n == 0 {
        Seq::empty()
    } else {
        let last = n - 1;
        let before = law_commits_of_the_pack_are_listed(reader, oids, headers, last as nat);
        let (types_before, commits_before) = indexed(reader, oids, headers, last as nat)->Ok_0;
        let (types, commits) = indexed(reader, oids, headers, n)->Ok_0;
        let at = if types[last] == ObjectType::Commit {
            before.push(last)
        } else {
            before
        };
        assert forall|i: int| 0 <= i < n implies match #[trigger] headers[i] {
            Ok(Some(object_type)) => types[i] == object_type,
            Ok(None) => reader.object_at(oids[i]) is Ok && types[i] == match reader.object_at(oids[i])->Ok_0.content {
                ObjectContent::Commit(_) => ObjectType::Commit,
                ObjectContent::Tree(_) => ObjectType::Tree,
                ObjectContent::Tag(_) => ObjectType::Tag,
                ObjectContent::Blob => ObjectType::Blob,
            },
            Err(_) => false,
        } by {
            if i < last {
                assert(types[i] == types_before[i]);
            }
        }
        assert forall|i: int| 0 <= i < n implies (at.contains(i) <==> #[trigger] types[i] == ObjectType::Commit) by {
            if i < last {
                assert(types[i] == types_before[i]);
                if before.contains(i) {
                    let k = choose|k: int| 0 <= k < before.len() && before[k] == i;
                    assert(at[k] == i);
                }
                if at.contains(i) {
                    let k = choose|k: int| 0 <= k < at.len() && at[k] == i;
                    assert(k < before.len());
                    assert(before[k] == i);
                }
            } else {
                if at.contains(i) {
                    let k = choose|k: int| 0 <= k < at.len() && at[k] == i;
                    if k < before.len() {
                        assert(before[k] < last);
                    }
                }
                if types[last] == ObjectType::Commit {
                    assert(at[before.len() as int] == i);
                }
            }
        }
        assert forall|k: int| 0 <= k < at.len() implies {
            &&& 0 <= #[trigger] at[k] < n
            &&& commits[k].oid == oids[at[k]]
            &&& commits[k].pack_pos == at[k]
            &&& commits[k].index_pos == index_rank(oids, at[k]) as u32
            &&& reader.object_at(oids[at[k]]) is Ok
            &&& reader.object_at(oids[at[k]])->Ok_0.content matches ObjectContent::Commit(Ok(commit))
                && commits[k].date == identity_seconds(commit.committer@) && commits[k].parent_count
                == if reader.grafted(oids[at[k]]) {
                0
            } else {
                commit.parents@.len() as usize
            }
        } by {
            if k < before.len() {
                assert(at[k] == before[k]);
                assert(commits[k] == commits_before[k]);
            }
        }
        at
    }
}

/// The commits are considered newest first, and all of them are.
pub proof fn law_commits_are_considered_newest_first(commits: Seq<IndexedCommit>, i: int, j: int)
    requires
        0 <= i < j < commits.len(),
    ensures
        stable_sort(newest_first(), commits).len() == commits.len(),
        stable_sort(newest_first(), commits).to_multiset() == commits.to_multiset(),
        stable_sort(newest_first(), commits)[i].date >= stable_sort(newest_first(), commits)[j].date,
{
    let less = newest_first();
    assert(is_order(less));
    crate::order::law_stable_sort(less, commits);
    assert(!less(stable_sort(less, commits)[j], stable_sort(less, commits)[i]));
}

/// The bitmap planned for a pseudo-merge marks exactly the objects that its
/// commits lead to, all of which are in the pack. (What a tree lists as a blob
/// is taken to link to nothing.)
pub proof fn law_planned_merges_are_closures<R: ObjectReader>(
    reader: &R,
    oids: Seq<ObjectId>,
    headers: Seq<Result<Option<ObjectType>, GitError>>,
    preferred: Set<ObjectId>,
    groups: Seq<BitmapPseudoMergeGroup>,
    plan: BitmapPlan,
    i: int,
    o: ObjectId,
)
    requires
        0 < oids.len() <= u32::MAX,
        build_end(reader, oids, headers, preferred, groups) matches BuildEnd::Done(types, selected, memo, merges)
            && is_plan(plan, reader, position_map(oids), oids.len(), types, selected, memo, merges) && 0 <= i
            < merges.len() && blobs_are_leaves(reader, commit_ids(selected)) && blobs_are_leaves(
            reader,
            merge_roots(merges[i]).to_set(),
        ),
    ensures
        build_end(reader, oids, headers, preferred, groups) matches BuildEnd::Done(types, selected, memo, merges)
            && plan.merges@[i].commits@ == merges[i].map_values(|pair: (ObjectId, u32)| pair.1) && (leads_to(
            reader,
            merge_roots(merges[i]).to_set(),
            o,
        ) <==> oids.contains(o) && plan.merges@[i].positions@.contains(position_map(oids)[o])),
{
    let positions = position_map(oids);
    if let BuildEnd::Done(types, selected, memo, merges) = build_end(reader, oids, headers, preferred, groups) {
        law_memo_is_sound(reader, oids, selected);
        lemma_position_map(oids);
        let roots = merge_roots(merges[i]);
        law_closure_is_reachability(reader, positions, memo, roots);
        assert(plan.merges@[i].commits@ == merge_bits(merges[i]));
        let marks = commit_closure(reader, positions, memo, roots)->Done_0;
        assert(is_closure(reader, positions, roots.to_set(), marks.bits));
        assert(plan.merges@[i].positions@ == ascending(marks.bits, 64 * words_for(oids.len())));
        lemma_ascending_lists(marks.bits, 64 * words_for(oids.len()), positions[o]);
        assert(leads_to(reader, roots.to_set(), o) <==> positions.contains_key(o) && marks.bits.contains(
            positions[o] as int,
        ));
        assert(positions.contains_key(o) ==> positions[o] < oids.len());
    }
}

/// A bit stands for the last place of its object in the order of bits.
pub proof fn law_bit_is_the_place_of_its_object(oids: Seq<ObjectId>, i: int)
    requires
        0 <= i < oids.len() <= u32::MAX,
        oids.no_duplicates(),
    ensures
        position_map(oids).contains_key(oids[i]),
        position_map(oids)[oids[i]] == i,
{
    lemma_position_map(oids);
    assert(oids.contains(oids[i]));
    assert(position_map(oids).contains_key(oids[i]));
    assert(oids[position_map(oids)[oids[i]] as int] == oids[i]);
}

} // verus!
