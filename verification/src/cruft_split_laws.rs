//! How cruft is split into packs, in terms of the sizes of its objects.

use crate::cruft::CruftObject;
use crate::cruft_split::accepts;
use crate::cruft_split::entry_end;
use crate::cruft_split::groups_of;
use crate::cruft_split::law_partition_covers_and_fits;
use crate::cruft_split::offset_order;
use crate::cruft_split::partition;
use crate::cruft_split::partition_outcome;
use crate::cruft_split::table_time;
use crate::cruft_split::CruftPack;
use crate::cruft_split::CruftSplit;
use crate::error::GitError;
use crate::geometry::saturated;
use crate::object_id::ObjectFormat;
use crate::object_id::ObjectId;
use crate::order::stable_sort;
use crate::pack_file::PackIndexEntry;
use vstd::prelude::*;

verus! {

proof fn lemma_partition_is_greedy(
    sorted: Seq<PackIndexEntry>,
    trailer: u64,
    known: Set<ObjectId>,
    fixed: u64,
    limit: u64,
    n: nat,
)
    requires
        n <= sorted.len(),
        partition(sorted, trailer, known, fixed, limit, n) is Ok,
    ensures
        ({
            let p = partition(sorted, trailer, known, fixed, limit, n)->Ok_0;
            &&& 0 <= p.start <= n
            &&& n > 0 ==> p.start < n && entry_end(sorted, trailer, n - 1) >= sorted[p.start].offset && p.size
                == saturated(fixed + (entry_end(sorted, trailer, n - 1) - sorted[p.start].offset))
            &&& p.closed.len() > 0 ==> p.closed.last().1 == p.start
            &&& forall|g: int|
                0 <= g < p.closed.len() ==> {
                    &&& 0 <= (#[trigger] p.closed[g]).0 < p.closed[g].1 < n
                    &&& fixed + (entry_end(sorted, trailer, p.closed[g].1) - sorted[p.closed[g].0].offset) >= limit
                }
        }),
    decreases n,
{
    if n > 0 {
        let i = n - 1;
        lemma_partition_is_greedy(sorted, trailer, known, fixed, limit, i as nat);
        let before = partition(sorted, trailer, known, fixed, limit, i as nat)->Ok_0;
        let p = partition(sorted, trailer, known, fixed, limit, n)->Ok_0;
        if i > 0 {
            assert(entry_end(sorted, trailer, i - 1) == sorted[i].offset);
        }
        assert forall|g: int| 0 <= g < p.closed.len() implies {
            &&& 0 <= (#[trigger] p.closed[g]).0 < p.closed[g].1 < n
            &&& fixed + (entry_end(sorted, trailer, p.closed[g].1) - sorted[p.closed[g].0].offset) >= limit
        } by {
            if g < before.closed.len() {
                assert(p.closed[g] == before.closed[g]);
            }
        }
    }
}

/// The groups of a partition follow each other from the first object of the
/// pack to the last. A pack of a group of several objects, with its header and
/// its checksum, stays below the limit, and none could take the next object too:
/// with it, its size would reach the limit.
pub proof fn law_partition_fills_its_groups(
    objects: Set<ObjectId>,
    entries: Seq<PackIndexEntry>,
    pack_len: nat,
    format: ObjectFormat,
    limit: u64,
)
    requires
        partition_outcome(objects, entries, pack_len, format, limit) is Ok,
        pack_len <= u64::MAX,
    ensures
        ({
            let sorted = stable_sort(offset_order(), entries);
            let trailer = pack_len - format.raw();
            let groups = partition_outcome(objects, entries, pack_len, format, limit)->Ok_0;
            &&& groups.len() > 0 <==> entries.len() > 0
            &&& groups.len() > 0 ==> groups[0].0 == 0 && groups.last().1 == entries.len()
            &&& forall|g: int|
                0 <= g < groups.len() ==> 0 <= (#[trigger] groups[g]).0 < groups[g].1 <= entries.len() && (groups[g].1
                    == groups[g].0 + 1 || 12 + format.raw() + (if groups[g].1 < sorted.len() {
                    sorted[groups[g].1].offset as int
                } else {
                    trailer
                }) - sorted[groups[g].0].offset < limit)
            &&& forall|g: int|
                0 <= g < groups.len() - 1 ==> groups[g + 1].0 == (#[trigger] groups[g]).1 && 12 + format.raw() + (if groups[g].1
                    + 1 < sorted.len() {
                    sorted[groups[g].1 + 1].offset as int
                } else {
                    trailer
                }) - sorted[groups[g].0].offset >= limit
        }),
{
    let sorted = stable_sort(offset_order(), entries);
    let trailer = (pack_len - format.raw()) as u64;
    let fixed = (12 + format.raw()) as u64;
    law_partition_covers_and_fits(objects, entries, pack_len, format, limit);
    lemma_partition_is_greedy(sorted, trailer, objects, fixed, limit, sorted.len());
    crate::order::law_equal_items_keep_their_order(offset_order(), entries);
    let p = partition(sorted, trailer, objects, fixed, limit, sorted.len())->Ok_0;
    let groups = groups_of(p, sorted.len());
    assert forall|g: int| 0 <= g < groups.len() implies 0 <= (#[trigger] groups[g]).0 < groups[g].1 <= sorted.len() by {
        if g < p.closed.len() {
            assert(groups[g] == p.closed[g]);
        }
    }
    assert forall|g: int| 0 <= g < groups.len() - 1 implies groups[g + 1].0 == (#[trigger] groups[g]).1 && fixed + (
    entry_end(sorted, trailer, groups[g].1) - sorted[groups[g].0].offset) >= limit by {
        assert(groups[g] == p.closed[g]);
        assert(groups[g + 1].0 == groups[g + 1 - 1].1);
    }
}

/// A pack of a group of several objects is accepted where it stays below a
/// limit that there is, and only there. One of a single object, and one without
/// a limit, is accepted whatever its size.
pub proof fn law_packs_stay_below_the_limit(
    before: CruftSplit,
    pack: CruftPack,
    after: CruftSplit,
    taken: Result<(), GitError>,
)
    requires
        before.pending_groups().len() > 0,
        accepts(before, pack, after, taken),
    ensures
        ({
            let group = before.pending_groups().last();
            let limited = before.spec_limit() is Some && before.spec_limit()->Some_0 > 0;
            let large = limited && group.len() != 1 && pack.pack@.len() >= before.spec_limit()->Some_0;
            &&& !large ==> taken is Ok && after.accepted() == before.accepted().push(pack) && after.pending_groups()
                == before.pending_groups().drop_last()
            &&& large && taken is Ok ==> after.accepted() == before.accepted()
        }),
{
}

/// The table of times of a cruft pack gives each object its time.
pub proof fn law_table_gives_each_object_its_time(objects: Seq<CruftObject>, k: int)
    requires
        0 <= k < objects.len(),
        forall|i: int, j: int|
            0 <= i < j < objects.len() ==> (#[trigger] objects[i]).oid != (#[trigger] objects[j]).oid,
    ensures
        table_time(objects, objects[k].oid) == objects[k].mtime,
    decreases objects.len(),
{
    let last = objects.len() - 1;
    if k < last {
        let rest = objects.drop_last();
        assert(objects[k].oid != objects[last].oid);
        assert forall|i: int, j: int| 0 <= i < j < rest.len() implies (#[trigger] rest[i]).oid != (
        #[trigger] rest[j]).oid by {
            assert(objects[i].oid != objects[j].oid);
        }
        law_table_gives_each_object_its_time(rest, k);
    }
}

} // verus!
