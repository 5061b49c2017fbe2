//! Splitting cruft into packs of limited size.

use crate::cruft::CruftObject;
use crate::error::GitError;
use crate::geometry::saturated;
use crate::object_id::ObjectFormat;
use crate::object_id::ObjectId;
use crate::oid_map::OidMap;
use crate::oid_map::OidSet;
use crate::order::law_stable_sort;
use crate::order::sort;
use crate::order::stable_sort;
use crate::order::Less;
use crate::order::Order;
use crate::pack_file::entry_id_list;
use crate::pack_file::entry_ids;
use crate::pack_file::entry_order;
use crate::pack_file::ByEntryOid;
use crate::pack_file::PackIndexEntry;
use crate::pack_file::PackWrite;
use vstd::multiset::Multiset;
use vstd::prelude::*;
use vstd::string::*;

verus! {

/// The bytes of one cruft pack plus its sidecars and checksum.
pub struct CruftPack {
    pub pack: Vec<u8>,
    pub idx: Vec<u8>,
    pub rev: Vec<u8>,
    pub mtimes: Vec<u8>,
    pub checksum: ObjectId,
    /// Object ids the cruft pack holds.
    pub oids: Vec<ObjectId>,
    /// The objects as the writer laid them out.
    pub index_entries: Vec<PackIndexEntry>,
}

/// Index entries by offset.
pub open spec fn offset_order() -> Less<PackIndexEntry> {
    |a: PackIndexEntry, b: PackIndexEntry| a.offset < b.offset
}

struct ByOffset;

impl Order<PackIndexEntry> for ByOffset {
    closed spec fn less(&self) -> Less<PackIndexEntry> {
        offset_order()
    }

    proof fn lemma_is_order(&self) {
    }

    fn is_less(&self, a: &PackIndexEntry, b: &PackIndexEntry) -> (less: bool) {
        a.offset < b.offset
    }
}

/// Where the encoded bytes of the entry at position `i` end.
pub open spec fn entry_end(sorted: Seq<PackIndexEntry>, trailer: u64, i: int) -> u64 {
    if i + 1 < sorted.len() {
        sorted[i + 1].offset
    } else {
        trailer
    }
}

/// Whether an entry before position `i` has the id of the entry there.
pub open spec fn repeats(sorted: Seq<PackIndexEntry>, i: int) -> bool {
    exists|k: int| 0 <= k < i && (#[trigger] sorted[k]).oid == sorted[i].oid
}

/// A partition in progress: the groups closed so far, each a range of
/// positions, where the open group starts, and how large a pack of the open
/// group would be.
#[verifier::ext_equal]
pub struct Partition {
    pub closed: Seq<(int, int)>,
    pub start: int,
    pub size: u64,
}

/// The partition of the first `n` entries, or the fault in the index that makes
/// it impossible. A group is closed when the next entry would take the pack to
/// the limit; the first entry of a group is always allowed.
pub open spec fn partition(
    sorted: Seq<PackIndexEntry>,
    trailer: u64,
    known: Set<ObjectId>,
    fixed: u64,
    limit: u64,
    n: nat,
) -> Result<Partition, Seq<char>>
    decreases n,
{
    if n == 0 {
        Ok(Partition { closed: Seq::empty(), start: 0, size: fixed })
    } else {
        let i = n - 1;
        match partition(sorted, trailer, known, fixed, limit, i as nat) {
            Err(fault) => Err(fault),
            Ok(p) => if entry_end(sorted, trailer, i) < sorted[i].offset {
                Err("cruft pack index offsets are not monotonic"@)
            } else if !known.contains(sorted[i].oid) || repeats(sorted, i) {
                Err("cruft pack index names an unknown object"@)
            } else {
                let encoded = entry_end(sorted, trailer, i) - sorted[i].offset;
                if p.start < i && saturated(p.size + encoded) >= limit {
                    Ok(
                        Partition {
                            closed: p.closed.push((p.start, i)),
                            start: i,
                            size: saturated(fixed + encoded),
                        },
                    )
                } else {
                    Ok(Partition { closed: p.closed, start: p.start, size: saturated(p.size + encoded) })
                }
            },
        }
    }
}

/// The groups of a finished partition.
pub open spec fn groups_of(p: Partition, n: nat) -> Seq<(int, int)> {
    if p.start < n {
        p.closed.push((p.start, n as int))
    } else {
        p.closed
    }
}

/// The outcome of partitioning the objects of a pack by their encoded size.
pub open spec fn partition_outcome(
    objects: Set<ObjectId>,
    entries: Seq<PackIndexEntry>,
    pack_len: nat,
    format: ObjectFormat,
    limit: u64,
) -> Result<Seq<(int, int)>, Seq<char>> {
    if pack_len < format.raw() {
        Err("cruft pack is shorter than its trailer"@)
    } else {
        let sorted = stable_sort(offset_order(), entries);
        let trailer = (pack_len - format.raw()) as u64;
        match partition(sorted, trailer, objects, (12 + format.raw()) as u64, limit, sorted.len()) {
            Err(fault) => Err(fault),
            Ok(p) => if objects.subset_of(entry_ids(sorted).to_set()) {
                Ok(groups_of(p, sorted.len()))
            } else {
                Err("cruft pack omitted objects from its index"@)
            },
        }
    }
}

proof fn lemma_partition_prefix(
    sorted: Seq<PackIndexEntry>,
    trailer: u64,
    known: Set<ObjectId>,
    fixed: u64,
    limit: u64,
    n: nat,
    m: nat,
)
    requires
        n <= m,
        partition(sorted, trailer, known, fixed, limit, n) is Err,
    ensures
        partition(sorted, trailer, known, fixed, limit, m) == partition(
            sorted,
            trailer,
            known,
            fixed,
            limit,
            n,
        ),
    decreases m - n,
{
    if n < m {
        lemma_partition_prefix(sorted, trailer, known, fixed, limit, n + 1, m);
    }
}

/// Whether ranges stand in a row, without gaps, from the first position on.
pub open spec fn in_a_row(ranges: Seq<(int, int)>) -> bool {
    &&& ranges.len() > 0 ==> ranges[0].0 == 0
    &&& forall|g: int| 0 <= g < ranges.len() ==> (#[trigger] ranges[g]).0 < ranges[g].1
    &&& forall|g: int| 0 < g < ranges.len() ==> (#[trigger] ranges[g]).0 == ranges[g - 1].1
}

/// Whether a pack of the entries from `lo` up to `hi` stays below the limit, or
/// holds one object.
pub open spec fn fits(
    sorted: Seq<PackIndexEntry>,
    trailer: u64,
    fixed: u64,
    limit: u64,
    lo: int,
    hi: int,
) -> bool {
    hi - lo == 1 || fixed + (entry_end(sorted, trailer, hi - 1) - sorted[lo].offset) < limit
}

proof fn lemma_partition_shape(
    sorted: Seq<PackIndexEntry>,
    trailer: u64,
    known: Set<ObjectId>,
    fixed: u64,
    limit: u64,
    n: nat,
)
    requires
        n <= sorted.len(),
        partition(sorted, trailer, known, fixed, limit, n) is Ok,
    ensures
        ({
            let p = partition(sorted, trailer, known, fixed, limit, n)->Ok_0;
            &&& in_a_row(p.closed)
            &&& p.start == if p.closed.len() > 0 {
                p.closed.last().1
            } else {
                0
            }
            &&& n > 0 ==> 0 <= p.start < n
            &&& n == 0 ==> p.start == 0
            &&& forall|g: int|
                0 <= g < p.closed.len() ==> (#[trigger] p.closed[g]).1 <= n && 0 <= p.closed[g].0 && fits(
                    sorted,
                    trailer,
                    fixed,
                    limit,
                    p.closed[g].0,
                    p.closed[g].1,
                )
            &&& n == 0 ==> p.size == fixed
            &&& n > 0 ==> p.size == saturated(
                fixed + (entry_end(sorted, trailer, n - 1) - sorted[p.start].offset),
            )
            &&& n - p.start >= 2 ==> p.size < limit
            &&& n > 0 ==> entry_end(sorted, trailer, n - 1) >= sorted[p.start].offset
        }),
    decreases n,
{
    if n > 0 {
        let i = n - 1;
        lemma_partition_shape(sorted, trailer, known, fixed, limit, i as nat);
        let before = partition(sorted, trailer, known, fixed, limit, i as nat)->Ok_0;
        let p = partition(sorted, trailer, known, fixed, limit, n)->Ok_0;
        if i > 0 {
            assert(entry_end(sorted, trailer, i - 1) == sorted[i].offset);
        }
        if p.closed.len() > before.closed.len() {
            assert(p.closed == before.closed.push((before.start, i as int)));
            assert(fits(sorted, trailer, fixed, limit, before.start, i as int));
            assert forall|g: int| 0 <= g < p.closed.len() implies (#[trigger] p.closed[g]).0 < p.closed[g].1 by {
                if g < before.closed.len() {
                    assert(p.closed[g] == before.closed[g]);
                }
            }
            assert forall|g: int| 0 < g < p.closed.len() implies (#[trigger] p.closed[g]).0
                == p.closed[g - 1].1 by {
                if g < before.closed.len() {
                    assert(p.closed[g] == before.closed[g]);
                    assert(p.closed[g - 1] == before.closed[g - 1]);
                } else {
                    assert(p.closed[g - 1] == before.closed.last());
                }
            }
            assert forall|g: int| 0 <= g < p.closed.len() implies (#[trigger] p.closed[g]).1 <= n && 0
                <= p.closed[g].0 && fits(sorted, trailer, fixed, limit, p.closed[g].0, p.closed[g].1) by {
                if g < before.closed.len() {
                    assert(p.closed[g] == before.closed[g]);
                }
            }
        }
    }
}

/// A partition lays out every object of the pack in exactly one group, in the
/// order of the pack. No group is empty, and a pack of any group of several
/// objects stays below the limit as the encoded sizes have it.
pub proof fn law_partition_covers_and_fits(
    objects: Set<ObjectId>,
    entries: Seq<PackIndexEntry>,
    pack_len: nat,
    format: ObjectFormat,
    limit: u64,
)
    requires
        partition_outcome(objects, entries, pack_len, format, limit) is Ok,
    ensures
        ({
            let sorted = stable_sort(offset_order(), entries);
            let trailer = (pack_len - format.raw()) as u64;
            let groups = partition_outcome(objects, entries, pack_len, format, limit)->Ok_0;
            &&& in_a_row(groups)
            &&& sorted.len() > 0 ==> groups.len() > 0 && groups.last().1 == sorted.len()
            &&& forall|g: int|
                0 <= g < groups.len() ==> fits(
                    sorted,
                    trailer,
                    (12 + format.raw()) as u64,
                    limit,
                    (#[trigger] groups[g]).0,
                    groups[g].1,
                )
        }),
{
    let sorted = stable_sort(offset_order(), entries);
    let trailer = (pack_len - format.raw()) as u64;
    let fixed = (12 + format.raw()) as u64;
    lemma_partition_shape(sorted, trailer, objects, fixed, limit, sorted.len());
    let p = partition(sorted, trailer, objects, fixed, limit, sorted.len())->Ok_0;
    let groups = groups_of(p, sorted.len());
    assert forall|g: int| 0 <= g < groups.len() implies (#[trigger] groups[g]).0 < groups[g].1 && fits(
        sorted,
        trailer,
        fixed,
        limit,
        groups[g].0,
        groups[g].1,
    ) by {
        if g < p.closed.len() {
            assert(groups[g] == p.closed[g]);
        }
    }
    assert forall|g: int| 0 < g < groups.len() implies (#[trigger] groups[g]).0 == groups[g - 1].1 by {
        if g < p.closed.len() {
            assert(groups[g] == p.closed[g]);
            assert(groups[g - 1] == p.closed[g - 1]);
        } else {
            assert(groups[g - 1] == p.closed.last());
        }
    }
}

/// The ids of cruft objects.
pub open spec fn cruft_ids(objects: Seq<CruftObject>) -> Seq<ObjectId> {
    objects.map_values(|object: CruftObject| object.oid)
}

/// Whether `group` holds, in order, an object of `objects` for each entry from
/// `lo` up to `hi`.
pub open spec fn is_group(
    group: Seq<CruftObject>,
    objects: Seq<CruftObject>,
    sorted: Seq<PackIndexEntry>,
    lo: int,
    hi: int,
) -> bool {
    &&& group.len() == hi - lo
    &&& forall|k: int|
        0 <= k < group.len() ==> (#[trigger] group[k]).oid == sorted[lo + k].oid && objects.contains(group[k])
}

fn position_by_oid(objects: &[CruftObject]) -> (positions: OidMap<usize>)
    ensures
        positions@.dom() == cruft_ids(objects@).to_set(),
        forall|oid: ObjectId|
            #[trigger] positions@.contains_key(oid) ==> positions@[oid] < objects@.len()
                && objects@[positions@[oid] as int].oid == oid,
{
    let mut positions: OidMap<usize> = OidMap::new();
    let ghost all = cruft_ids(objects@);
    let mut i: usize = 0;
    assert(positions@.dom() =~= all.take(0).to_set());
    while i < objects.len()
        invariant
            i <= objects@.len(),
            all == cruft_ids(objects@),
            positions@.dom() == all.take(i as int).to_set(),
            forall|oid: ObjectId|
                #[trigger] positions@.contains_key(oid) ==> positions@[oid] < objects@.len()
                    && objects@[positions@[oid] as int].oid == oid,
        decreases objects@.len() - i,
    {
        let oid = objects[i].oid;
        positions.insert(oid, i);
        proof {
            assert(all.take(i + 1) =~= all.take(i as int).push(oid));
            all.take(i as int).lemma_push_to_set_commute(oid);
            assert(positions@.dom() =~= all.take(i + 1).to_set());
        }
        i += 1;
    }
    assert(all.take(i as int) =~= all);
    positions
}

/// Splits the objects of a pack that came out too large into groups that should
/// fit, by the encoded size that the pack shows each object to take.
pub fn partition_cruft_objects_by_encoded_size(
    objects: &[CruftObject],
    entries: &[PackIndexEntry],
    pack_len: usize,
    format: ObjectFormat,
    limit: u64,
) -> (groups: Result<Vec<Vec<CruftObject>>, GitError>)
    ensures
        match (
            groups,
            partition_outcome(
                cruft_ids(objects@).to_set(),
                entries@,
                pack_len as nat,
                format,
                limit,
            ),
        ) {
            (Err(err), Err(fault)) => err matches GitError::InvalidFormat(text) && text@ == fault,
            (Ok(groups), Ok(ranges)) => {
                &&& groups@.len() == ranges.len()
                &&& forall|g: int|
                    0 <= g < groups@.len() ==> is_group(
                        (#[trigger] groups@[g])@,
                        objects@,
                        stable_sort(offset_order(), entries@),
                        ranges[g].0,
                        ranges[g].1,
                    )
            },
            _ => false,
        },
{
    let raw_len: usize = format.raw_len();
    if pack_len < raw_len {
        return Err(GitError::InvalidFormat(String::from_str("cruft pack is shorter than its trailer")));
    }
    let trailer: u64 = (pack_len - raw_len) as u64;
    let sorted = sort(&ByOffset, entries);
    proof {
        law_stable_sort(offset_order(), entries@);
    }
    let ghost all = stable_sort(offset_order(), entries@);
    let positions = position_by_oid(objects);
    let ghost known = cruft_ids(objects@).to_set();
    let fixed: u64 = 12 + raw_len as u64;
    let mut current_size: u64 = fixed;
    let mut current: Vec<CruftObject> = Vec::new();
    let mut groups: Vec<Vec<CruftObject>> = Vec::new();
    let mut taken = OidSet::new();
    let ghost mut state = Partition { closed: Seq::empty(), start: 0, size: fixed };
    let mut i: usize = 0;
    while i < sorted.len()
        invariant
            i <= sorted@.len(),
            sorted@ == all,
            all == stable_sort(offset_order(), entries@),
            known == cruft_ids(objects@).to_set(),
            positions@.dom() == known,
            forall|oid: ObjectId|
                #[trigger] positions@.contains_key(oid) ==> positions@[oid] < objects@.len()
                    && objects@[positions@[oid] as int].oid == oid,
            raw_len == format.raw(),
            raw_len <= pack_len,
            trailer == (pack_len - raw_len) as u64,
            fixed == (12 + format.raw()) as u64,
            partition(all, trailer, known, fixed, limit, i as nat) == Ok::<Partition, Seq<char>>(state),
            current_size == state.size,
            state.start == i - current@.len(),
            0 <= state.start,
            is_group(current@, objects@, all, state.start, i as int),
            groups@.len() == state.closed.len(),
            forall|g: int|
                0 <= g < groups@.len() ==> is_group(
                    (#[trigger] groups@[g])@,
                    objects@,
                    all,
                    state.closed[g].0,
                    state.closed[g].1,
                ),
            forall|oid: ObjectId|
                #[trigger] taken@.contains(oid) <==> exists|k: int| 0 <= k < i && (#[trigger] all[k]).oid == oid,
        decreases sorted@.len() - i,
    {
        let entry = sorted[i];
        let end: u64 = if i + 1 < sorted.len() {
            sorted[i + 1].offset
        } else {
            trailer
        };
        if end < entry.offset {
            let err = GitError::InvalidFormat(
                String::from_str("cruft pack index offsets are not monotonic"),
            );
            proof {
                lemma_partition_prefix(all, trailer, known, fixed, limit, (i + 1) as nat, all.len());
            }
            return Err(err);
        }
        let encoded: u64 = end - entry.offset;
        let fresh = taken.insert(entry.oid);
        let position = match positions.get(&entry.oid) {
            Some(position) => if fresh {
                Some(*position)
            } else {
                None
            },
            None => None,
        };
        let position: usize = match position {
            Some(position) => position,
            None => {
                let err = GitError::InvalidFormat(
                    String::from_str("cruft pack index names an unknown object"),
                );
                proof {
                    assert(repeats(all, i as int) || !known.contains(entry.oid));
                    lemma_partition_prefix(all, trailer, known, fixed, limit, (i + 1) as nat, all.len());
                }
                return Err(err);
            },
        };
        proof {
            assert(positions@.contains_key(entry.oid));
            assert(!repeats(all, i as int));
        }
        if current.len() > 0 && current_size.saturating_add(encoded) >= limit {
            let ghost finished = current@;
            let mut open: Vec<CruftObject> = Vec::new();
            std::mem::swap(&mut open, &mut current);
            groups.push(open);
            current_size = fixed;
            proof {
                state = Partition {
                    closed: state.closed.push((state.start, i as int)),
                    start: i as int,
                    size: fixed,
                };
            }
        }
        current_size = current_size.saturating_add(encoded);
        let ghost before = current@;
        current.push(objects[position].copy());
        proof {
            state = Partition { closed: state.closed, start: state.start, size: current_size };
            assert(objects@.contains(objects@[position as int]));
            assert forall|k: int| 0 <= k < current@.len() implies (#[trigger] current@[k]).oid == all[state.start
                + k].oid && objects@.contains(current@[k]) by {
                if k < before.len() {
                    assert(current@[k] == before[k]);
                }
            }
            assert forall|oid: ObjectId| #[trigger] taken@.contains(oid) <==> exists|k: int|
                0 <= k < i + 1 && (#[trigger] all[k]).oid == oid by {
                assert(all[i as int].oid == entry.oid);
            }
        }
        i += 1;
    }
    let ghost p = state;
    if current.len() > 0 {
        groups.push(current);
    }
    let mut k: usize = 0;
    while k < objects.len()
        invariant
            k <= objects@.len(),
            known == cruft_ids(objects@).to_set(),
            all == stable_sort(offset_order(), entries@),
            raw_len == format.raw(),
            raw_len <= pack_len,
            trailer == (pack_len - raw_len) as u64,
            fixed == (12 + format.raw()) as u64,
            partition(all, trailer, known, fixed, limit, all.len()) is Ok,
            forall|oid: ObjectId|
                #[trigger] taken@.contains(oid) <==> exists|m: int|
                    0 <= m < all.len() && (#[trigger] all[m]).oid == oid,
            forall|m: int| 0 <= m < k ==> taken@.contains((#[trigger] objects@[m]).oid),
        decreases objects@.len() - k,
    {
        if !taken.contains(&objects[k].oid) {
            let err = GitError::InvalidFormat(
                String::from_str("cruft pack omitted objects from its index"),
            );
            proof {
                let oid = objects@[k as int].oid;
                assert(cruft_ids(objects@)[k as int] == oid);
                assert(known.contains(oid));
                assert(!entry_ids(all).to_set().contains(oid)) by {
                    if entry_ids(all).contains(oid) {
                        let m = choose|m: int| 0 <= m < all.len() && entry_ids(all)[m] == oid;
                        assert(all[m].oid == oid);
                    }
                }
            }
            return Err(err);
        }
        k += 1;
    }
    proof {
        assert forall|oid: ObjectId| known.contains(oid) implies entry_ids(all).to_set().contains(oid) by {
            let m = choose|m: int| 0 <= m < objects@.len() && cruft_ids(objects@)[m] == oid;
            assert(taken@.contains(objects@[m].oid));
            let j = choose|j: int| 0 <= j < all.len() && (#[trigger] all[j]).oid == oid;
            assert(entry_ids(all)[j] == oid);
        }
        assert(groups_of(p, all.len()).len() == groups@.len());
        assert forall|g: int| 0 <= g < groups@.len() implies is_group(
            (#[trigger] groups@[g])@,
            objects@,
            all,
            groups_of(p, all.len())[g].0,
            groups_of(p, all.len())[g].1,
        ) by {}
    }
    Ok(groups)
}

/// The objects of each group.
pub open spec fn group_views(groups: Seq<Vec<CruftObject>>) -> Seq<Seq<CruftObject>> {
    groups.map_values(|group: Vec<CruftObject>| group@)
}

/// Whether a group may stay in one pack: there is no limit, it holds one
/// object, or its pack stays below the limit.
pub open spec fn may_stay(limit: Option<u64>, objects: nat, pack_len: nat) -> bool {
    limit is None || limit->Some_0 == 0 || objects == 1 || pack_len < limit->Some_0
}

/// The work of splitting cruft into packs of limited size. The pack of a group
/// has to be encoded before its size is known: the caller encodes
/// [`next_group`](CruftSplit::next_group) and hands the pack to
/// [`accept`](CruftSplit::accept), until no group is left.
pub struct CruftSplit {
    format: ObjectFormat,
    limit: Option<u64>,
    pending: Vec<Vec<CruftObject>>,
    packs: Vec<CruftPack>,
    whole: bool,
}

impl CruftSplit {
    /// The groups still to be encoded, the last of them next.
    pub closed spec fn pending_groups(self) -> Seq<Seq<CruftObject>> {
        group_views(self.pending@)
    }

    /// The packs accepted so far.
    pub closed spec fn accepted(self) -> Seq<CruftPack> {
        self.packs@
    }

    pub closed spec fn spec_limit(self) -> Option<u64> {
        self.limit
    }

    pub closed spec fn spec_format(self) -> ObjectFormat {
        self.format
    }

    /// Whether nothing has been split yet.
    pub closed spec fn is_whole(self) -> bool {
        self.whole
    }

    /// Starts with all objects in one group; without objects there is none.
    pub fn new(objects: Vec<CruftObject>, format: ObjectFormat, max_pack_size: Option<u64>) -> (split: CruftSplit)
        ensures
            split.pending_groups() == if objects@.len() == 0 {
                Seq::<Seq<CruftObject>>::empty()
            } else {
                seq![objects@]
            },
            split.accepted() == Seq::<CruftPack>::empty(),
            split.spec_limit() == max_pack_size,
            split.spec_format() == format,
            split.is_whole(),
    {
        let mut pending: Vec<Vec<CruftObject>> = Vec::new();
        if objects.len() > 0 {
            pending.push(objects);
        }
        let split = CruftSplit { format, limit: max_pack_size, pending, packs: Vec::new(), whole: true };
        assert(split.pending_groups() =~= if objects@.len() == 0 {
            Seq::<Seq<CruftObject>>::empty()
        } else {
            seq![objects@]
        });
        split
    }

    /// The group to encode next.
    pub fn next_group(&self) -> (group: Option<&Vec<CruftObject>>)
        ensures
            group is Some <==> self.pending_groups().len() > 0,
            group matches Some(group) ==> group@ == self.pending_groups().last(),
    {
        let n: usize = self.pending.len();
        if n == 0 {
            None
        } else {
            Some(&self.pending[n - 1])
        }
    }

    /// Takes the encoded pack of the next group.
    pub fn accept(&mut self, pack: CruftPack) -> (taken: Result<(), GitError>)
        requires
            old(self).pending_groups().len() > 0,
        ensures
            final(self).spec_limit() == old(self).spec_limit(),
            final(self).spec_format() == old(self).spec_format(),
            accepts(*old(self), pack, *final(self), taken),
    {
        let ghost before = self.pending_groups();
        let ghost rest = before.drop_last();
        let objects = match self.pending.pop() {
            Some(objects) => objects,
            None => {
                assert(false);
                Vec::new()
            },
        };
        proof {
            assert(group_views(self.pending@) =~= rest);
            assert(objects@ == before.last());
        }
        let limit: u64 = match self.limit {
            Some(limit) => limit,
            None => 0,
        };
        if limit == 0 || objects.len() == 1 || (pack.pack.len() as u64) < limit {
            self.packs.push(pack);
            return Ok(());
        }
        let groups = match partition_cruft_objects_by_encoded_size(
            &objects,
            &pack.index_entries,
            pack.pack.len(),
            self.format,
            limit,
        ) {
            Err(err) => {
                return Err(err);
            },
            Ok(groups) => groups,
        };
        if !self.whole && groups.len() <= 1 {
            return Err(
                GitError::InvalidFormat(
                    String::from_str("size-limited cruft pack could not make partition progress"),
                ),
            );
        }
        self.whole = false;
        let ghost all = groups@;
        let mut groups = groups;
        while groups.len() > 0
            invariant
                groups@.len() <= all.len(),
                groups@ == all.take(groups@.len() as int),
                self.pending@.len() == rest.len() + all.len() - groups@.len(),
                group_views(self.pending@).take(rest.len() as int) == rest,
                forall|g: int|
                    groups@.len() <= g < all.len() ==> #[trigger] self.pending@[rest.len() + all.len() - 1 - g]
                        == all[g],
                self.limit == old(self).limit,
                self.format == old(self).format,
                self.packs == old(self).packs,
                !self.whole,
            decreases groups@.len(),
        {
            let ghost n = groups@.len();
            let ghost pending_before = self.pending@;
            match groups.pop() {
                Some(group) => {
                    assert(group == all[n - 1]);
                    self.pending.push(group);
                    proof {
                        assert(groups@ =~= all.take(n - 1));
                        assert(group_views(self.pending@).take(rest.len() as int) =~= group_views(
                            pending_before,
                        ).take(rest.len() as int));
                        assert forall|g: int| groups@.len() <= g < all.len() implies
                            #[trigger] self.pending@[rest.len() + all.len() - 1 - g] == all[g] by {
                            if g > n - 1 {
                                assert(pending_before[rest.len() + all.len() - 1 - g] == all[g]);
                            }
                        }
                    }
                },
                None => {},
            }
        }
        proof {
            let after = self.pending_groups();
            assert forall|k: int| rest.len() <= k < after.len() implies #[trigger] after[k] == all[after.len() - 1
                - k]@ by {
                let g = after.len() - 1 - k;
                assert(self.pending@[rest.len() + all.len() - 1 - g] == all[g]);
            }
        }
        Ok(())
    }

    /// The packs, once no group is left.
    pub fn finish(self) -> (packs: Vec<CruftPack>)
        ensures
            packs@ == self.accepted(),
    {
        self.packs
    }
}

/// Whether taking the pack of the next group leads from one state of a split to
/// another. A pack that may stay is accepted; otherwise its group is partitioned
/// by what the pack shows of the encoded sizes. A group that came out of a split
/// and cannot be split further is an error.
pub open spec fn accepts(
    before: CruftSplit,
    pack: CruftPack,
    after: CruftSplit,
    taken: Result<(), GitError>,
) -> bool {
    let group = before.pending_groups().last();
    let rest = before.pending_groups().drop_last();
    let outcome = partition_outcome(
        cruft_ids(group).to_set(),
        pack.index_entries@,
        pack.pack@.len(),
        before.spec_format(),
        match before.spec_limit() {
            Some(limit) => limit,
            None => 0,
        },
    );
    if may_stay(before.spec_limit(), group.len(), pack.pack@.len()) {
        &&& taken is Ok
        &&& after.pending_groups() == rest
        &&& after.accepted() == before.accepted().push(pack)
        &&& after.is_whole() == before.is_whole()
    } else {
        match outcome {
            Err(fault) => taken matches Err(GitError::InvalidFormat(text)) && text@ == fault,
            Ok(ranges) => if !before.is_whole() && ranges.len() <= 1 {
                taken matches Err(GitError::InvalidFormat(text)) && text@
                    == "size-limited cruft pack could not make partition progress"@
            } else {
                &&& taken is Ok
                &&& after.accepted() == before.accepted()
                &&& !after.is_whole()
                &&& after.pending_groups().len() == rest.len() + ranges.len()
                &&& after.pending_groups().take(rest.len() as int) == rest
                &&& forall|k: int|
                    rest.len() <= k < after.pending_groups().len() ==> is_group(
                        #[trigger] after.pending_groups()[k],
                        group,
                        stable_sort(offset_order(), pack.index_entries@),
                        ranges[after.pending_groups().len() - 1 - k].0,
                        ranges[after.pending_groups().len() - 1 - k].1,
                    )
            },
        }
    }
}

/// The ids of the objects of groups, together.
pub open spec fn group_ids(groups: Seq<Seq<CruftObject>>) -> Multiset<ObjectId>
    decreases groups.len(),
{
    if groups.len() == 0 {
        Multiset::empty()
    } else {
        group_ids(groups.drop_last()).add(cruft_ids(groups.last()).to_multiset())
    }
}

/// The ids that packs hold, together.
pub open spec fn held_ids(packs: Seq<CruftPack>) -> Multiset<ObjectId>
    decreases packs.len(),
{
    if packs.len() == 0 {
        Multiset::empty()
    } else {
        held_ids(packs.drop_last()).add(packs.last().oids@.to_multiset())
    }
}

/// Whether a pack was encoded from the objects of a group.
pub open spec fn is_pack_of(pack: CruftPack, group: Seq<CruftObject>) -> bool {
    &&& pack.oids@.to_multiset() == cruft_ids(group).to_multiset()
    &&& entry_ids(pack.index_entries@).to_multiset() == cruft_ids(group).to_multiset()
}

/// What a split holds: the ids of its packs and of its pending groups.
pub open spec fn split_ids(split: CruftSplit) -> Multiset<ObjectId> {
    held_ids(split.accepted()).add(group_ids(split.pending_groups()))
}

proof fn lemma_group_ids_concat(a: Seq<Seq<CruftObject>>, b: Seq<Seq<CruftObject>>)
    ensures
        group_ids(a + b) == group_ids(a).add(group_ids(b)),
    decreases b.len(),
{
    if b.len() == 0 {
        assert(a + b =~= a);
        assert(group_ids(a) =~= group_ids(a).add(group_ids(b)));
    } else {
        lemma_group_ids_concat(a, b.drop_last());
        assert((a + b).drop_last() =~= a + b.drop_last());
        assert(group_ids(a + b) =~= group_ids(a).add(group_ids(b)));
    }
}

/// The ids from where a group begins are its own and those behind it.
proof fn lemma_group_leads(
    part: Seq<CruftObject>,
    group: Seq<CruftObject>,
    sorted: Seq<PackIndexEntry>,
    lo: int,
    hi: int,
)
    requires
        0 <= lo < hi <= sorted.len(),
        is_group(part, group, sorted, lo, hi),
    ensures
        entry_ids(sorted.skip(lo)) == cruft_ids(part) + entry_ids(sorted.skip(hi)),
{
    let own = cruft_ids(part);
    let all = entry_ids(sorted.skip(lo));
    let behind = entry_ids(sorted.skip(hi));
    assert(all.len() == own.len() + behind.len());
    assert forall|k: int| 0 <= k < all.len() implies all[k] == (own + behind)[k] by {
        if k < own.len() {
            assert(part[k].oid == sorted[lo + k].oid);
        } else {
            assert(behind[k - own.len()] == sorted[hi + (k - own.len())].oid);
        }
    }
    assert(all =~= own + behind);
}

/// The last `j` ranges, taken from the end, hold the entries behind where the
/// first of them begins.
proof fn lemma_tail_ids(
    tail: Seq<Seq<CruftObject>>,
    group: Seq<CruftObject>,
    sorted: Seq<PackIndexEntry>,
    ranges: Seq<(int, int)>,
    j: int,
)
    requires
        in_a_row(ranges),
        tail.len() == ranges.len(),
        0 <= j <= ranges.len(),
        ranges.len() > 0 ==> ranges.last().1 == sorted.len(),
        forall|g: int|
            0 <= g < ranges.len() ==> 0 <= (#[trigger] ranges[g]).0 < ranges[g].1 <= sorted.len(),
        forall|g: int|
            0 <= g < ranges.len() ==> is_group(
                #[trigger] tail[ranges.len() - 1 - g],
                group,
                sorted,
                ranges[g].0,
                ranges[g].1,
            ),
    ensures
        group_ids(tail.take(j)) == entry_ids(
            sorted.skip(
                if j == 0 {
                    sorted.len() as int
                } else {
                    ranges[ranges.len() - j].0
                },
            ),
        ).to_multiset(),
    decreases j,
{
    broadcast use vstd::seq_lib::group_to_multiset_ensures;

    if j == 0 {
        assert(entry_ids(sorted.skip(sorted.len() as int)) =~= Seq::empty());
        assert(tail.take(0) =~= Seq::empty());
        assert(group_ids(tail.take(0)) =~= entry_ids(sorted.skip(sorted.len() as int)).to_multiset());
    } else {
        lemma_tail_ids(tail, group, sorted, ranges, j - 1);
        let g = ranges.len() - j;
        let (lo, hi) = ranges[g];
        assert(hi == if j == 1 {
            sorted.len() as int
        } else {
            ranges[g + 1].0
        });
        assert(is_group(tail[ranges.len() - 1 - g], group, sorted, ranges[g].0, ranges[g].1));
        let own = cruft_ids(tail[j - 1]);
        let behind = entry_ids(sorted.skip(hi));
        let all = entry_ids(sorted.skip(lo));
        lemma_group_leads(tail[j - 1], group, sorted, lo, hi);
        vstd::seq_lib::lemma_multiset_commutative(own, behind);
        assert(tail.take(j).drop_last() =~= tail.take(j - 1));
        assert(group_ids(tail.take(j)) =~= behind.to_multiset().add(own.to_multiset()));
        assert(behind.to_multiset().add(own.to_multiset()) =~= all.to_multiset());
    }
}

/// The ranges of a partition lie within the entries.
proof fn lemma_ranges_within(
    known: Set<ObjectId>,
    entries: Seq<PackIndexEntry>,
    pack_len: nat,
    format: ObjectFormat,
    limit: u64,
)
    requires
        partition_outcome(known, entries, pack_len, format, limit) is Ok,
    ensures
        ({
            let sorted = stable_sort(offset_order(), entries);
            let ranges = partition_outcome(known, entries, pack_len, format, limit)->Ok_0;
            &&& in_a_row(ranges)
            &&& ranges.len() == 0 ==> sorted.len() == 0
            &&& ranges.len() > 0 ==> ranges.last().1 == sorted.len()
            &&& forall|g: int|
                0 <= g < ranges.len() ==> 0 <= (#[trigger] ranges[g]).0 < ranges[g].1 <= sorted.len()
        }),
{
    let sorted = stable_sort(offset_order(), entries);
    let trailer = (pack_len - format.raw()) as u64;
    let fixed = (12 + format.raw()) as u64;
    law_partition_covers_and_fits(known, entries, pack_len, format, limit);
    lemma_partition_shape(sorted, trailer, known, fixed, limit, sorted.len());
    let p = partition(sorted, trailer, known, fixed, limit, sorted.len())->Ok_0;
    let ranges = partition_outcome(known, entries, pack_len, format, limit)->Ok_0;
    assert(ranges == groups_of(p, sorted.len()));
    assert forall|g: int| 0 <= g < ranges.len() implies 0 <= (#[trigger] ranges[g]).0 < ranges[g].1
        <= sorted.len() by {
        if g < p.closed.len() {
            assert(ranges[g] == p.closed[g]);
        }
    }
}

/// The groups of a partition, the last of them first, hold the ids of the
/// entries.
proof fn lemma_parts_hold_entries(
    tail: Seq<Seq<CruftObject>>,
    group: Seq<CruftObject>,
    entries: Seq<PackIndexEntry>,
    ranges: Seq<(int, int)>,
)
    requires
        in_a_row(ranges),
        tail.len() == ranges.len(),
        ranges.len() == 0 ==> entries.len() == 0,
        ranges.len() > 0 ==> ranges.last().1 == entries.len(),
        forall|g: int|
            0 <= g < ranges.len() ==> 0 <= (#[trigger] ranges[g]).0 < ranges[g].1 <= entries.len(),
        forall|k: int|
            0 <= k < tail.len() ==> is_group(
                #[trigger] tail[k],
                group,
                stable_sort(offset_order(), entries),
                ranges[tail.len() - 1 - k].0,
                ranges[tail.len() - 1 - k].1,
            ),
    ensures
        group_ids(tail) == entry_ids(entries).to_multiset(),
{
    let sorted = stable_sort(offset_order(), entries);
    law_stable_sort(offset_order(), entries);
    assert forall|g: int| 0 <= g < ranges.len() implies is_group(
        #[trigger] tail[ranges.len() - 1 - g],
        group,
        sorted,
        ranges[g].0,
        ranges[g].1,
    ) by {
        let k = ranges.len() - 1 - g;
        assert(is_group(tail[k], group, sorted, ranges[tail.len() - 1 - k].0, ranges[tail.len() - 1 - k].1));
    }
    lemma_tail_ids(tail, group, sorted, ranges, ranges.len() as int);
    assert(tail.take(ranges.len() as int) =~= tail);
    if ranges.len() == 0 {
        assert(sorted.skip(sorted.len() as int) =~= sorted);
    } else {
        assert(sorted.skip(0) =~= sorted);
    }
    lemma_entry_ids_multiset(sorted, entries);
}

/// The pieces that a group falls into hold the objects of its pack.
proof fn lemma_pieces_hold_pack(before: CruftSplit, pack: CruftPack, after: CruftSplit)
    requires
        before.pending_groups().len() > 0,
        accepts(before, pack, after, Ok(())),
        !may_stay(before.spec_limit(), before.pending_groups().last().len(), pack.pack@.len()),
    ensures
        ({
            let rest = before.pending_groups().drop_last();
            &&& after.accepted() == before.accepted()
            &&& after.pending_groups() == rest + after.pending_groups().skip(rest.len() as int)
            &&& group_ids(after.pending_groups().skip(rest.len() as int)) == entry_ids(
                pack.index_entries@,
            ).to_multiset()
        }),
{
    let group = before.pending_groups().last();
    let rest = before.pending_groups().drop_last();
    let limit = match before.spec_limit() {
        Some(limit) => limit,
        None => 0,
    };
    let known = cruft_ids(group).to_set();
    let entries = pack.index_entries@;
    let ranges = partition_outcome(known, entries, pack.pack@.len(), before.spec_format(), limit)->Ok_0;
    lemma_ranges_within(known, entries, pack.pack@.len(), before.spec_format(), limit);
    law_stable_sort(offset_order(), entries);
    let pending = after.pending_groups();
    let tail = pending.skip(rest.len() as int);
    assert forall|k: int| 0 <= k < tail.len() implies is_group(
        #[trigger] tail[k],
        group,
        stable_sort(offset_order(), entries),
        ranges[tail.len() - 1 - k].0,
        ranges[tail.len() - 1 - k].1,
    ) by {
        assert(tail[k] == pending[rest.len() + k]);
    }
    lemma_parts_hold_entries(tail, group, entries, ranges);
    assert(pending =~= rest + tail);
}

/// Taking the pack of a group neither loses an object nor doubles one.
proof fn lemma_accept_keeps_ids(before: CruftSplit, pack: CruftPack, after: CruftSplit)
    requires
        before.pending_groups().len() > 0,
        is_pack_of(pack, before.pending_groups().last()),
        accepts(before, pack, after, Ok(())),
    ensures
        split_ids(after) == split_ids(before),
{
    let group = before.pending_groups().last();
    let rest = before.pending_groups().drop_last();
    if may_stay(before.spec_limit(), group.len(), pack.pack@.len()) {
        assert(before.accepted().push(pack).drop_last() =~= before.accepted());
        assert(split_ids(after) =~= split_ids(before));
    } else {
        lemma_pieces_hold_pack(before, pack, after);
        let tail = after.pending_groups().skip(rest.len() as int);
        lemma_group_ids_concat(rest, tail);
        assert(split_ids(after) =~= split_ids(before));
    }
}

/// Entries in another order have the same ids.
proof fn lemma_entry_ids_multiset(a: Seq<PackIndexEntry>, b: Seq<PackIndexEntry>)
    requires
        a.to_multiset() == b.to_multiset(),
    ensures
        entry_ids(a).to_multiset() == entry_ids(b).to_multiset(),
    decreases a.len(),
{
    broadcast use vstd::seq_lib::group_to_multiset_ensures;

    assert(a.to_multiset().len() == a.len() && b.to_multiset().len() == b.len());
    if a.len() == 0 {
        assert(entry_ids(a) =~= Seq::empty());
        assert(entry_ids(b) =~= Seq::empty());
    } else {
        let entry = a.last();
        assert(a.contains(entry));
        assert(a.to_multiset().count(entry) > 0);
        assert(b.contains(entry));
        let i = choose|i: int| 0 <= i < b.len() && b[i] == entry;
        let a2 = a.drop_last();
        let b2 = b.remove(i);
        assert(a2.push(entry) =~= a);
        assert(b2.to_multiset() =~= b.to_multiset().remove(entry));
        assert(a2.to_multiset() =~= a.to_multiset().remove(entry));
        lemma_entry_ids_multiset(a2, b2);
        assert(entry_ids(a) =~= entry_ids(a2).push(entry.oid));
        assert(entry_ids(b2) =~= entry_ids(b).remove(i));
        assert(entry_ids(b)[i] == entry.oid);
        assert(entry_ids(b).to_multiset() =~= entry_ids(b2).to_multiset().insert(entry.oid));
        assert(entry_ids(a).to_multiset() =~= entry_ids(b).to_multiset());
    }
}

proof fn lemma_run_keeps_ids(states: Seq<CruftSplit>, packs: Seq<CruftPack>, n: int)
    requires
        states.len() == packs.len() + 1,
        forall|i: int|
            0 <= i < packs.len() ==> (#[trigger] states[i]).pending_groups().len() > 0 && is_pack_of(
                packs[i],
                states[i].pending_groups().last(),
            ) && accepts(states[i], packs[i], states[i + 1], Ok(())),
        0 <= n < states.len(),
    ensures
        split_ids(states[n]) == split_ids(states[0]),
    decreases n,
{
    if n > 0 {
        lemma_run_keeps_ids(states, packs, n - 1);
        assert(states[n - 1].pending_groups().len() > 0);
        lemma_accept_keeps_ids(states[n - 1], packs[n - 1], states[n - 1 + 1]);
    }
}

/// However a split goes on from its start with all objects, once no group is
/// left its packs together hold exactly the objects, each once for each time
/// that it was there.
pub proof fn law_packs_hold_exactly_the_objects(
    objects: Seq<CruftObject>,
    states: Seq<CruftSplit>,
    packs: Seq<CruftPack>,
)
    requires
        states.len() == packs.len() + 1,
        states[0].pending_groups() == if objects.len() == 0 {
            Seq::<Seq<CruftObject>>::empty()
        } else {
            seq![objects]
        },
        states[0].accepted() == Seq::<CruftPack>::empty(),
        forall|i: int|
            0 <= i < packs.len() ==> (#[trigger] states[i]).pending_groups().len() > 0 && is_pack_of(
                packs[i],
                states[i].pending_groups().last(),
            ) && accepts(states[i], packs[i], states[i + 1], Ok(())),
        states.last().pending_groups().len() == 0,
    ensures
        held_ids(states.last().accepted()) == cruft_ids(objects).to_multiset(),
{
    broadcast use vstd::seq_lib::group_to_multiset_ensures;

    lemma_run_keeps_ids(states, packs, states.len() - 1);
    let held = held_ids(states.last().accepted());
    assert(group_ids(states.last().pending_groups()) == Multiset::<ObjectId>::empty());
    assert(held =~= split_ids(states.last()));
    if objects.len() == 0 {
        assert(cruft_ids(objects) =~= Seq::empty());
        assert(split_ids(states[0]) =~= cruft_ids(objects).to_multiset());
    } else {
        let start = seq![objects];
        assert(start.drop_last() =~= Seq::empty());
        assert(group_ids(start.drop_last()) == Multiset::<ObjectId>::empty());
        assert(split_ids(states[0]) =~= cruft_ids(objects).to_multiset());
    }
}

/// The time that a `.mtimes` table records for an id: that of its object, or
/// zero.
pub open spec fn table_time(objects: Seq<CruftObject>, oid: ObjectId) -> u32
    decreases objects.len(),
{
    if objects.len() == 0 {
        0
    } else if objects.last().oid == oid {
        objects.last().mtime
    } else {
        table_time(objects.drop_last(), oid)
    }
}

fn mtimes_by_oid(objects: &[CruftObject]) -> (mtimes: OidMap<u32>)
    ensures
        forall|oid: ObjectId|
            #[trigger] mtimes@.contains_key(oid) ==> mtimes@[oid] == table_time(objects@, oid),
        forall|oid: ObjectId| !#[trigger] mtimes@.contains_key(oid) ==> table_time(objects@, oid) == 0,
{
    let mut mtimes: OidMap<u32> = OidMap::new();
    let mut i: usize = 0;
    while i < objects.len()
        invariant
            i <= objects@.len(),
            forall|oid: ObjectId|
                #[trigger] mtimes@.contains_key(oid) ==> mtimes@[oid] == table_time(
                    objects@.take(i as int),
                    oid,
                ),
            forall|oid: ObjectId|
                !#[trigger] mtimes@.contains_key(oid) ==> table_time(objects@.take(i as int), oid) == 0,
        decreases objects@.len() - i,
    {
        assert(objects@.take(i + 1).drop_last() =~= objects@.take(i as int));
        mtimes.insert(objects[i].oid, objects[i].mtime);
        i += 1;
    }
    assert(objects@.take(i as int) =~= objects@);
    mtimes
}

/// The `.mtimes` table of a cruft pack and the ids that it is about, both in
/// index order.
pub fn cruft_mtimes_table(entries: &[PackIndexEntry], objects: &[CruftObject]) -> (table: (
    Vec<u32>,
    Vec<ObjectId>,
))
    ensures
        table.1@ == entry_ids(stable_sort(entry_order(), entries@)),
        table.0@ == table.1@.map_values(|oid: ObjectId| table_time(objects@, oid)),
{
    let mtimes = mtimes_by_oid(objects);
    let sorted = sort(&ByEntryOid, entries);
    let oids = entry_id_list(&sorted);
    let mut times: Vec<u32> = Vec::with_capacity(oids.len());
    let mut i: usize = 0;
    while i < oids.len()
        invariant
            i <= oids@.len(),
            times@.len() == i,
            forall|oid: ObjectId|
                #[trigger] mtimes@.contains_key(oid) ==> mtimes@[oid] == table_time(objects@, oid),
            forall|oid: ObjectId| !#[trigger] mtimes@.contains_key(oid) ==> table_time(objects@, oid) == 0,
            forall|k: int| 0 <= k < i ==> times@[k] == table_time(objects@, oids@[k]),
        decreases oids@.len() - i,
    {
        let time: u32 = match mtimes.get(&oids[i]) {
            Some(time) => *time,
            None => 0,
        };
        times.push(time);
        i += 1;
    }
    assert(times@ =~= oids@.map_values(|oid: ObjectId| table_time(objects@, oid)));
    (times, oids)
}

/// Puts a cruft pack together from what the writer wrote for its objects and
/// the bytes of its sidecars.
pub fn build_one_cruft_pack(written: PackWrite, rev: Vec<u8>, mtimes: Vec<u8>) -> (cruft: CruftPack)
    ensures
        cruft.pack == written.pack,
        cruft.idx == written.index,
        cruft.rev == rev,
        cruft.mtimes == mtimes,
        cruft.checksum == written.checksum,
        cruft.index_entries == written.entries,
        cruft.oids@ == entry_ids(stable_sort(entry_order(), written.entries@)),
{
    let sorted = sort(&ByEntryOid, &written.entries);
    let oids = entry_id_list(&sorted);
    CruftPack {
        pack: written.pack,
        idx: written.index,
        rev,
        mtimes,
        checksum: written.checksum,
        oids,
        index_entries: written.entries,
    }
}

} // verus!
