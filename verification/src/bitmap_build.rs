//! Which commits of a pack get a bitmap, and what their bitmaps hold.

use crate::bitmap::index_positions;
use crate::bitmap::lemma_position_map;
use crate::bitmap::position_map;
use crate::bitmap_load::list_midx_bit_order;
use crate::bitmap_load::list_pack_bit_order;
use crate::bitmap_load::midx_bit_order;
use crate::bitmap_load::pack_bit_order;
use crate::bitmap_walk::bitmap_commit_closure;
use crate::bitmap_walk::blobs_are_leaves;
use crate::bitmap_walk::lemma_leaves_below;
use crate::bitmap_walk::lemma_leaves_of_fewer;
use crate::bitmap_walk::lemma_start_leads;
use crate::bitmap_walk::commit_closure;
use crate::bitmap_walk::fits;
use crate::bitmap_walk::is_closure;
use crate::bitmap_walk::is_misuse;
use crate::bitmap_walk::is_sound;
use crate::bitmap_walk::law_closure_is_reachability;
use crate::bitmap_walk::leads_to;
use crate::bitmap_walk::misuse;
use crate::bitmap_walk::stored_bits;
use crate::bitmap_walk::BitmapClosure;
use crate::bitmap_walk::Coverage;
use crate::bitmap_walk::FillEnd;
use crate::bitset::bits;
use crate::bitset::bitset_positions;
use crate::bitset::positions_below;
use crate::bitset::word_count_for;
use crate::bitset::words_for;
use crate::bitset::MAX_BITSET_WORDS;
use crate::error::GitError;
use crate::midx::MultiPackIndexEntry;
use crate::object::ObjectContent;
use crate::object::ObjectReader;
use crate::object::ObjectType;
use crate::object_id::ObjectId;
use crate::oid_map::OidMap;
use crate::oid_map::OidSet;
use crate::order::is_order;
use crate::order::law_stable_sort;
use crate::order::lemma_oid_order;
use crate::order::lemma_sort_contains;
use crate::order::oid_less;
use crate::order::sort;
use crate::order::stable_sort;
use crate::order::Less;
use crate::order::Order;
use crate::pack_file::PackIndexEntry;
use crate::reachability::followed_parents;
use crate::text::parse_i64;
use crate::text::signed_value;
use std::sync::Arc;
use vstd::prelude::*;
use vstd::slice::slice_subrange;

verus! {

/// The position of the last space, or -1 where there is none.
pub open spec fn last_space(bytes: Seq<u8>) -> int
    decreases bytes.len(),
{
    if bytes.len() == 0 {
        -1
    } else if bytes.last() == 32 {
        bytes.len() - 1
    } else {
        last_space(bytes.drop_last())
    }
}

/// The field between the last two spaces, or before the only one.
pub open spec fn timestamp_field(identity: Seq<u8>) -> Option<Seq<u8>> {
    let end = last_space(identity);
    if end < 0 {
        None
    } else {
        Some(identity.subrange(last_space(identity.take(end)) + 1, end))
    }
}

/// The seconds that an identity line gives; zero where it gives none.
pub open spec fn identity_seconds(identity: Seq<u8>) -> i64 {
    match timestamp_field(identity) {
        None => 0,
        Some(field) => match signed_value(field) {
            Some(value) => if i64::MIN <= value <= i64::MAX {
                value as i64
            } else {
                0
            },
            None => 0,
        },
    }
}

proof fn lemma_last_space(bytes: Seq<u8>)
    ensures
        -1 <= last_space(bytes) < bytes.len(),
    decreases bytes.len(),
{
    if bytes.len() > 0 && bytes.last() != 32 {
        lemma_last_space(bytes.drop_last());
    }
}

/// One more than the position of the last space before `end`; zero where there
/// is none.
fn after_last_space(bytes: &[u8], end: usize) -> (after: usize)
    requires
        end <= bytes@.len(),
    ensures
        after == last_space(bytes@.take(end as int)) + 1,
        after <= end,
{
    let mut i: usize = end;
    while i > 0
        invariant
            i <= end <= bytes@.len(),
            last_space(bytes@.take(end as int)) == last_space(bytes@.take(i as int)),
        decreases i,
    {
        assert(bytes@.take(i as int).drop_last() =~= bytes@.take(i - 1));
        assert(bytes@.take(i as int).last() == bytes@[i - 1]);
        if bytes[i - 1] == 32 {
            return i;
        }
        i -= 1;
    }
    0
}

/// Committer timestamp in seconds of a commit identity line
/// (`Name <email> <timestamp> <tz>`); zero when unparseable.
pub fn commit_identity_timestamp(identity: &[u8]) -> (seconds: i64)
    ensures
        seconds == identity_seconds(identity@),
{
    assert(identity@.take(identity@.len() as int) =~= identity@);
    let after: usize = after_last_space(identity, identity.len());
    if after == 0 {
        return 0;
    }
    let end: usize = after - 1;
    let start: usize = after_last_space(identity, end);
    match parse_i64(slice_subrange(identity, start, end)) {
        Some(value) => value,
        None => 0,
    }
}

/// How many commits the schedule passes over behind position `idx` of the list,
/// newest first: none among the first hundred, then up to a hundred, and from
/// the twenty-thousandth on up to five thousand.
pub open spec fn commit_spacing(idx: int) -> int {
    if idx <= 100 {
        0
    } else if idx <= 20000 {
        if idx - 100 < 100 {
            idx - 100
        } else {
            100
        }
    } else if idx - 20000 < 100 {
        100
    } else if idx - 20000 > 5000 {
        5000
    } else {
        idx - 20000
    }
}

/// How many commits the selection passes over behind position `idx`.
pub fn bitmap_next_commit_index(idx: u32) -> (next: u32)
    ensures
        next == commit_spacing(idx as int),
{
    if idx <= 100 {
        return 0;
    }
    if idx <= 20000 {
        let offset: u32 = idx - 100;
        return if offset < 100 {
            offset
        } else {
            100
        };
    }
    let offset: u32 = idx - 20000;
    if offset < 100 {
        100
    } else if offset > 5000 {
        5000
    } else {
        offset
    }
}

/// A commit of the pack: its bit, its position in the index, and what the
/// selection goes by.
#[derive(Debug, Clone, Copy, PartialEq, Eq)]
pub struct IndexedCommit {
    pub oid: ObjectId,
    pub pack_pos: u32,
    pub index_pos: u32,
    pub date: i64,
    pub parent_count: usize,
}

/// Commits, newest first.
pub open spec fn newest_first() -> Less<IndexedCommit> {
    |a: IndexedCommit, b: IndexedCommit| a.date > b.date
}

/// Commits, newest first.
pub struct ByDate;

impl Order<IndexedCommit> for ByDate {
    open spec fn less(&self) -> Less<IndexedCommit> {
        newest_first()
    }

    proof fn lemma_is_order(&self) {
        assert(is_order(newest_first()));
    }

    fn is_less(&self, a: &IndexedCommit, b: &IndexedCommit) -> (less: bool) {
        a.date > b.date
    }
}

/// The first preferred commit between two positions, both included.
pub open spec fn first_preferred(
    commits: Seq<IndexedCommit>,
    preferred: Set<ObjectId>,
    from: int,
    to: int,
) -> Option<int>
    decreases to - from + 1,
{
    if from > to {
        None
    } else if preferred.contains(commits[from].oid) {
        Some(from)
    } else {
        first_preferred(commits, preferred, from + 1, to)
    }
}

/// The last merge between two positions, both included.
pub open spec fn last_merge(commits: Seq<IndexedCommit>, from: int, to: int) -> Option<int>
    decreases to - from + 1,
{
    if from > to {
        None
    } else if commits[to].parent_count >= 2 {
        Some(to)
    } else {
        last_merge(commits, from, to - 1)
    }
}

/// The commit that is chosen from a window: the first that is preferred, else
/// the last merge, else the last.
pub open spec fn chosen_commit(
    commits: Seq<IndexedCommit>,
    preferred: Set<ObjectId>,
    from: int,
    to: int,
) -> IndexedCommit {
    match first_preferred(commits, preferred, from, to) {
        Some(i) => commits[i],
        None => match last_merge(commits, from, to) {
            Some(i) => commits[i],
            None => commits[to],
        },
    }
}

/// The commits that the spacing schedule selects from position `i` on.
pub open spec fn spaced_commits(
    commits: Seq<IndexedCommit>,
    preferred: Set<ObjectId>,
    i: int,
) -> Seq<IndexedCommit>
    decreases commits.len() - i,
{
    let next = commit_spacing(i);
    if i + next >= commits.len() || next < 0 {
        Seq::empty()
    } else {
        seq![chosen_commit(commits, preferred, i, i + next)] + spaced_commits(
            commits,
            preferred,
            i + next + 1,
        )
    }
}

/// The commits that get a bitmap, of commits listed newest first: all of fewer
/// than a hundred, else those that the schedule selects.
pub open spec fn selected_commits(commits: Seq<IndexedCommit>, preferred: Set<ObjectId>) -> Seq<IndexedCommit> {
    if commits.len() < 100 {
        commits
    } else {
        spaced_commits(commits, preferred, 0)
    }
}

/// The commit that is chosen from the window between two positions.
fn choose_commit(commits: &Vec<IndexedCommit>, preferred: &OidSet, from: usize, to: usize) -> (chosen: IndexedCommit)
    requires
        from <= to < commits@.len(),
    ensures
        chosen == chosen_commit(commits@, preferred@, from as int, to as int),
{
    let mut chosen: usize = to;
    let mut merge: bool = false;
    let mut j: usize = from;
    while j <= to
        invariant
            from <= j <= to + 1,
            to < commits@.len(),
            first_preferred(commits@, preferred@, from as int, to as int) == first_preferred(
                commits@,
                preferred@,
                j as int,
                to as int,
            ),
            chosen <= to,
            merge ==> last_merge(commits@, from as int, j - 1) == Some(chosen as int),
            !merge ==> last_merge(commits@, from as int, j - 1) is None && chosen == to,
        decreases to + 1 - j,
    {
        if preferred.contains(&commits[j].oid) {
            return commits[j];
        }
        if commits[j].parent_count >= 2 {
            chosen = j;
            merge = true;
        }
        assert(to < commits.len());
        j += 1;
    }
    commits[chosen]
}

/// The commits that get a bitmap, of commits listed newest first.
pub fn select_bitmap_commits(commits: &Vec<IndexedCommit>, preferred: &OidSet) -> (selected: Vec<IndexedCommit>)
    requires
        commits@.len() <= u32::MAX,
    ensures
        selected@ == selected_commits(commits@, preferred@),
{
    let mut selected: Vec<IndexedCommit> = Vec::new();
    let count: usize = commits.len();
    if count < 100 {
        let mut k: usize = 0;
        while k < count
            invariant
                k <= count == commits@.len(),
                selected@ == commits@.take(k as int),
            decreases count - k,
        {
            selected.push(commits[k]);
            assert(selected@ =~= commits@.take(k + 1));
            k += 1;
        }
        assert(commits@.take(k as int) =~= commits@);
        return selected;
    }
    let mut i: usize = 0;
    assert(selected@ + spaced_commits(commits@, preferred@, 0) =~= spaced_commits(commits@, preferred@, 0));
    while i < count
        invariant
            i <= count == commits@.len(),
            count <= u32::MAX,
            selected@ + spaced_commits(commits@, preferred@, i as int) == spaced_commits(commits@, preferred@, 0),
        decreases count - i,
    {
        let next: usize = bitmap_next_commit_index(i as u32) as usize;
        if next >= count - i {
            assert(spaced_commits(commits@, preferred@, i as int) =~= Seq::empty());
            assert(selected@ =~= spaced_commits(commits@, preferred@, 0));
            return selected;
        }
        let chosen = choose_commit(commits, preferred, i, i + next);
        let ghost held = selected@;
        selected.push(chosen);
        i = i + next + 1;
        assert(held + (seq![chosen] + spaced_commits(commits@, preferred@, i as int)) =~= selected@
            + spaced_commits(commits@, preferred@, i as int));
    }
    assert(spaced_commits(commits@, preferred@, i as int) =~= Seq::empty());
    assert(selected@ =~= spaced_commits(commits@, preferred@, 0));
    selected
}

/// An object and its place in a list.
#[derive(Debug, Clone, Copy)]
struct Slot {
    oid: ObjectId,
    slot: u32,
}

spec fn slot_order() -> Less<Slot> {
    |a: Slot, b: Slot| a.oid.less(b.oid)
}

struct BySlotOid;

impl Order<Slot> for BySlotOid {
    closed spec fn less(&self) -> Less<Slot> {
        slot_order()
    }

    proof fn lemma_is_order(&self) {
        lemma_oid_order();
        let less = slot_order();
        let by_oid = oid_less();
        assert forall|a: Slot, b: Slot| #[trigger] less(a, b) implies !less(b, a) by {
            assert(by_oid(a.oid, b.oid));
        }
        assert forall|a: Slot, b: Slot, c: Slot| #[trigger] less(a, c) implies #[trigger] less(a, b) || less(
            b,
            c,
        ) by {
            assert(by_oid(a.oid, c.oid));
            assert(by_oid(a.oid, b.oid) || by_oid(b.oid, c.oid));
        }
    }

    fn is_less(&self, a: &Slot, b: &Slot) -> (less: bool) {
        a.oid.is_less(&b.oid)
    }
}

spec fn slots(oids: Seq<ObjectId>) -> Seq<Slot> {
    Seq::new(oids.len(), |i: int| Slot { oid: oids[i], slot: i as u32 })
}

/// The position that each object of a list has when the list is sorted by id,
/// repeated ids kept as they stand.
pub closed spec fn index_rank(oids: Seq<ObjectId>, i: int) -> int {
    stable_sort(slot_order(), slots(oids)).index_of(Slot { oid: oids[i], slot: i as u32 })
}

/// The objects of a list, each at the position that its rank gives, are the
/// sorted list.
pub proof fn law_ranks_sort_the_objects(oids: Seq<ObjectId>, i: int)
    requires
        0 <= i < oids.len() <= u32::MAX,
    ensures
        0 <= index_rank(oids, i) < oids.len(),
        stable_sort(oid_less(), oids)[index_rank(oids, i)] == oids[i],
{
    BySlotOid.lemma_is_order();
    lemma_oid_order();
    law_stable_sort(slot_order(), slots(oids));
    let me = Slot { oid: oids[i], slot: i as u32 };
    assert(slots(oids)[i] == me);
    assert(slots(oids).contains(me));
    lemma_sort_contains(slot_order(), slots(oids), me);
    let f = |slot: Slot| slot.oid;
    crate::order::lemma_sort_map(slot_order(), oid_less(), f, slots(oids));
    assert(slots(oids).map_values(f) =~= oids);
    let sorted = stable_sort(slot_order(), slots(oids));
    let k = sorted.index_of(me);
    assert(sorted[k] == me && 0 <= k < sorted.len());
    assert(sorted.map_values(f)[k] == oids[i]);
}

/// The position that each object of a list has when the list is sorted by id.
fn index_ranks(oids: &[ObjectId]) -> (ranks: Vec<u32>)
    requires
        oids@.len() <= u32::MAX,
    ensures
        ranks@.len() == oids@.len(),
        forall|i: int| 0 <= i < oids@.len() ==> (#[trigger] ranks@[i]) as int == index_rank(oids@, i),
{
    let n: usize = oids.len();
    let mut items: Vec<Slot> = Vec::with_capacity(n);
    let mut ranks: Vec<u32> = Vec::with_capacity(n);
    let mut i: usize = 0;
    while i < n
        invariant
            i <= n == oids@.len(),
            n <= u32::MAX,
            items@ == slots(oids@).take(i as int),
            ranks@.len() == i,
        decreases n - i,
    {
        items.push(Slot { oid: oids[i], slot: i as u32 });
        assert(items@ =~= slots(oids@).take(i + 1));
        ranks.push(0);
        i += 1;
    }
    assert(items@ =~= slots(oids@));
    let sorted = sort(&BySlotOid, &items);
    let ghost all = slots(oids@);
    proof {
        BySlotOid.lemma_is_order();
        law_stable_sort(slot_order(), all);
        assert(all.no_duplicates());
        all.lemma_multiset_has_no_duplicates();
        sorted@.lemma_multiset_has_no_duplicates_conv();
        assert forall|k: int| 0 <= k < n implies all.contains(#[trigger] sorted@[k]) by {
            assert(sorted@.contains(sorted@[k]));
            lemma_sort_contains(slot_order(), all, sorted@[k]);
        }
    }
    let mut k: usize = 0;
    while k < n
        invariant
            k <= n == oids@.len(),
            n <= u32::MAX,
            all == slots(oids@),
            sorted@ == stable_sort(slot_order(), all),
            sorted@.len() == n,
            sorted@.no_duplicates(),
            forall|j: int| 0 <= j < n ==> all.contains(#[trigger] sorted@[j]),
            ranks@.len() == n,
            forall|j: int| 0 <= j < k ==> ranks@[(#[trigger] sorted@[j]).slot as int] == j,
        decreases n - k,
    {
        assert(all.contains(sorted@[k as int]));
        let slot: usize = sorted[k].slot as usize;
        proof {
            assert forall|j: int| 0 <= j < k implies (#[trigger] sorted@[j]).slot != slot by {
                assert(all.contains(sorted@[j]));
                assert(sorted@[j] != sorted@[k as int]);
            }
        }
        ranks.set(slot, k as u32);
        k += 1;
    }
    proof {
        assert forall|i: int| 0 <= i < oids@.len() implies (#[trigger] ranks@[i]) as int == index_rank(oids@, i) by {
            let me = Slot { oid: oids@[i], slot: i as u32 };
            assert(all[i] == me);
            assert(all.contains(me));
            BySlotOid.lemma_is_order();
            lemma_sort_contains(slot_order(), all, me);
            let at = sorted@.index_of(me);
            assert(sorted@[at] == me && 0 <= at < n);
        }
    }
    ranks
}

/// The type of an object: what its header says, or where that says nothing,
/// what it is read as.
pub open spec fn header_type<R: ObjectReader>(
    reader: &R,
    header: Result<Option<ObjectType>, GitError>,
    oid: ObjectId,
) -> Result<ObjectType, GitError> {
    match header {
        Err(err) => Err(err),
        Ok(Some(object_type)) => Ok(object_type),
        Ok(None) => match reader.object_at(oid) {
            Err(err) => Err(err),
            Ok(object) => Ok(object.spec_type()),
        },
    }
}

/// What the selection goes by of a commit at a bit, or how reading it fails.
pub open spec fn indexed_commit<R: ObjectReader>(reader: &R, oids: Seq<ObjectId>, i: int) -> Result<
    IndexedCommit,
    FillEnd,
> {
    match reader.object_at(oids[i]) {
        Err(err) => Err(FillEnd::Failed(err)),
        Ok(object) => match object.content {
            ObjectContent::Commit(Err(err)) => Err(FillEnd::Failed(err)),
            ObjectContent::Commit(Ok(commit)) => Ok(
                IndexedCommit {
                    oid: oids[i],
                    pack_pos: i as u32,
                    index_pos: index_rank(oids, i) as u32,
                    date: identity_seconds(commit.committer@),
                    parent_count: followed_parents(commit, reader.grafted(oids[i])).len() as usize,
                },
            ),
            _ => Err(FillEnd::Misused(oids[i])),
        },
    }
}

/// The types of the first `n` objects and the commits among them, or the first
/// failure to read one.
pub open spec fn indexed<R: ObjectReader>(
    reader: &R,
    oids: Seq<ObjectId>,
    headers: Seq<Result<Option<ObjectType>, GitError>>,
    n: nat,
) -> Result<(Seq<ObjectType>, Seq<IndexedCommit>), FillEnd>
    decreases n,
{
    if n == 0 {
        Ok((Seq::empty(), Seq::empty()))
    } else {
        match indexed(reader, oids, headers, (n - 1) as nat) {
            Err(end) => Err(end),
            Ok((types, commits)) => match header_type(reader, headers[n - 1], oids[n - 1]) {
                Err(err) => Err(FillEnd::Failed(err)),
                Ok(object_type) => if object_type == ObjectType::Commit {
                    match indexed_commit(reader, oids, n - 1) {
                        Err(end) => Err(end),
                        Ok(commit) => Ok((types.push(object_type), commits.push(commit))),
                    }
                } else {
                    Ok((types.push(object_type), commits))
                },
            },
        }
    }
}

proof fn lemma_indexing_fails<R: ObjectReader>(
    reader: &R,
    oids: Seq<ObjectId>,
    headers: Seq<Result<Option<ObjectType>, GitError>>,
    n: nat,
    m: nat,
)
    requires
        n <= m,
        indexed(reader, oids, headers, n) is Err,
    ensures
        indexed(reader, oids, headers, m) == indexed(reader, oids, headers, n),
    decreases m - n,
{
    if n < m {
        lemma_indexing_fails(reader, oids, headers, n, (m - 1) as nat);
    }
}

/// Whether `err` is the error with which a walk that ended in `end` is reported.
pub open spec fn ends_in(end: FillEnd, err: GitError) -> bool {
    match end {
        FillEnd::Failed(inner) => err == inner,
        FillEnd::Misused(oid) => is_misuse(err, oid),
        _ => false,
    }
}

/// The types of objects and the commits among them.
struct IndexedObjects {
    types: Vec<ObjectType>,
    commits: Vec<IndexedCommit>,
}

fn index_objects<R: ObjectReader>(
    reader: &R,
    oids: &[ObjectId],
    headers: &[Result<Option<ObjectType>, GitError>],
) -> (objects: Result<IndexedObjects, GitError>)
    requires
        headers@.len() == oids@.len(),
        oids@.len() <= u32::MAX,
    ensures
        match indexed(reader, oids@, headers@, oids@.len()) {
            Ok((types, commits)) => objects is Ok && objects->Ok_0.types@ == types && objects->Ok_0.commits@
                == commits && types.len() == oids@.len() && commits.len() <= oids@.len(),
            Err(end) => objects matches Err(err) && ends_in(end, err),
        },
{
    let ranks = index_ranks(oids);
    let mut types: Vec<ObjectType> = Vec::with_capacity(oids.len());
    let mut commits: Vec<IndexedCommit> = Vec::new();
    let mut i: usize = 0;
    while i < oids.len()
        invariant
            i <= oids@.len() <= u32::MAX,
            headers@.len() == oids@.len(),
            ranks@.len() == oids@.len(),
            forall|k: int| 0 <= k < oids@.len() ==> (#[trigger] ranks@[k]) as int == index_rank(oids@, k),
            indexed(reader, oids@, headers@, i as nat) == Ok::<
                (Seq<ObjectType>, Seq<IndexedCommit>),
                FillEnd,
            >((types@, commits@)),
            types@.len() == i,
            commits@.len() <= i,
        decreases oids@.len() - i,
    {
        let oid = oids[i];
        let object_type = match &headers[i] {
            Err(err) => {
                proof {
                    lemma_indexing_fails(reader, oids@, headers@, (i + 1) as nat, oids@.len());
                }
                return Err(err.copy());
            },
            Ok(Some(object_type)) => *object_type,
            Ok(None) => match reader.read_object(&oid) {
                Err(err) => {
                    proof {
                        lemma_indexing_fails(reader, oids@, headers@, (i + 1) as nat, oids@.len());
                    }
                    return Err(err);
                },
                Ok(object) => object.object_type(),
            },
        };
        assert(header_type(reader, headers@[i as int], oid) == Ok::<ObjectType, GitError>(object_type));
        types.push(object_type);
        if object_type == ObjectType::Commit {
            match reader.read_object(&oid) {
                Err(err) => {
                    proof {
                        lemma_indexing_fails(reader, oids@, headers@, (i + 1) as nat, oids@.len());
                    }
                    return Err(err);
                },
                Ok(object) => match &object.content {
                    ObjectContent::Commit(Err(err)) => {
                        proof {
                            lemma_indexing_fails(reader, oids@, headers@, (i + 1) as nat, oids@.len());
                        }
                        return Err(err.copy());
                    },
                    ObjectContent::Commit(Ok(commit)) => {
                        let parent_count: usize = if reader.is_shallow_graft(&oid) {
                            0
                        } else {
                            commit.parents.len()
                        };
                        assert(ranks@[i as int] as int == index_rank(oids@, i as int));
                        commits.push(
                            IndexedCommit {
                                oid,
                                pack_pos: i as u32,
                                index_pos: ranks[i],
                                date: commit_identity_timestamp(&commit.committer),
                                parent_count,
                            },
                        );
                    },
                    _ => {
                        proof {
                            lemma_indexing_fails(reader, oids@, headers@, (i + 1) as nat, oids@.len());
                        }
                        return Err(misuse(&oid));
                    },
                },
            }
        }
        i += 1;
    }
    Ok(IndexedObjects { types, commits })
}

/// The closures of the selected commits, oldest first, each with the help of
/// those before, or how one of the walks ends instead.
pub open spec fn closure_memo<R: ObjectReader>(
    reader: &R,
    positions: Map<ObjectId, u32>,
    selected: Seq<IndexedCommit>,
) -> Result<Map<ObjectId, Set<int>>, FillEnd>
    decreases selected.len(),
{
    if selected.len() == 0 {
        Ok(Map::empty())
    } else {
        match closure_memo(reader, positions, selected.drop_first()) {
            Err(end) => Err(end),
            Ok(memo) => match commit_closure(reader, positions, memo, seq![selected[0].oid]) {
                FillEnd::Done(marks) => Ok(memo.insert(selected[0].oid, marks.bits)),
                end => Err(end),
            },
        }
    }
}

proof fn lemma_memo_fails<R: ObjectReader>(
    reader: &R,
    positions: Map<ObjectId, u32>,
    selected: Seq<IndexedCommit>,
    n: int,
)
    requires
        0 <= n <= selected.len(),
        closure_memo(reader, positions, selected.skip(n)) is Err,
    ensures
        closure_memo(reader, positions, selected) == closure_memo(reader, positions, selected.skip(n)),
    decreases n,
{
    if n > 0 {
        assert(selected.skip(n - 1).drop_first() =~= selected.skip(n));
        lemma_memo_fails(reader, positions, selected, n - 1);
    } else {
        assert(selected.skip(0) =~= selected);
    }
}

proof fn lemma_memo_keys<R: ObjectReader>(
    reader: &R,
    positions: Map<ObjectId, u32>,
    selected: Seq<IndexedCommit>,
)
    ensures
        closure_memo(reader, positions, selected) matches Ok(memo) ==> forall|i: int|
            0 <= i < selected.len() ==> memo.contains_key((#[trigger] selected[i]).oid),
    decreases selected.len(),
{
    if selected.len() > 0 {
        let rest = selected.drop_first();
        lemma_memo_keys(reader, positions, rest);
        if let Ok(memo) = closure_memo(reader, positions, selected) {
            assert forall|i: int| 0 <= i < selected.len() implies memo.contains_key((#[trigger] selected[i]).oid) by {
                if i > 0 {
                    assert(rest[i - 1] == selected[i]);
                }
            }
        }
    }
}

/// What each selected commit's bitmap holds is exactly what the commit leads
/// to, all of which is in the pack.
pub proof fn law_memo_is_sound<R: ObjectReader>(
    reader: &R,
    oids: Seq<ObjectId>,
    selected: Seq<IndexedCommit>,
)
    requires
        blobs_are_leaves(reader, commit_ids(selected)),
        oids.len() <= u32::MAX,
    ensures
        closure_memo(reader, position_map(oids), selected) matches Ok(memo) ==> {
            &&& is_sound(reader, (Coverage { positions: position_map(oids), stored: memo, open: false }))
            &&& forall|c: ObjectId| #[trigger]
                memo.contains_key(c) ==> is_closure(reader, position_map(oids), set![c], memo[c])
        },
    decreases selected.len(),
{
    let positions = position_map(oids);
    lemma_position_map(oids);
    if selected.len() > 0 {
        let starts = commit_ids(selected);
        let fewer = commit_ids(selected.drop_first());
        assert forall|c: ObjectId| fewer.contains(c) implies #[trigger] starts.contains(c) by {
            let names = selected.drop_first().map_values(|commit: IndexedCommit| commit.oid);
            let k = choose|k: int| 0 <= k < names.len() && names[k] == c;
            assert(selected.map_values(|commit: IndexedCommit| commit.oid)[k + 1] == c);
        }
        lemma_leaves_of_fewer(reader, starts, fewer);
        law_memo_is_sound(reader, oids, selected.drop_first());
        if let Ok(memo) = closure_memo(reader, positions, selected.drop_first()) {
            let commit = selected[0].oid;
            let roots = seq![commit];
            assert(roots.to_set() =~= set![commit]) by {
                assert(roots[0] == commit);
            }
            assert(selected.map_values(|commit: IndexedCommit| commit.oid)[0] == commit);
            assert(starts.contains(commit));
            lemma_start_leads(reader, starts, commit);
            lemma_leaves_below(reader, starts, commit);
            law_closure_is_reachability(reader, positions, memo, roots);
            if let FillEnd::Done(marks) = commit_closure(reader, positions, memo, roots) {
                let more = memo.insert(commit, marks.bits);
                assert forall|c: ObjectId| #[trigger] more.contains_key(c) implies is_closure(
                    reader,
                    positions,
                    set![c],
                    more[c],
                ) by {
                    if c != commit {
                        assert(memo.contains_key(c));
                    }
                }
            }
        }
    }
}

/// The positions in a set below `n`, in order.
pub open spec fn ascending(marked: Set<int>, n: nat) -> Seq<u32>
    decreases n,
{
    if n == 0 {
        Seq::empty()
    } else if marked.contains(n - 1) {
        ascending(marked, (n - 1) as nat).push((n - 1) as u32)
    } else {
        ascending(marked, (n - 1) as nat)
    }
}

proof fn lemma_ascending(words: Seq<u64>, n: nat)
    ensures
        positions_below(words, n) == ascending(bits(words), n),
    decreases n,
{
    if n > 0 {
        lemma_ascending(words, (n - 1) as nat);
    }
}

/// How the commits of a pseudo-merge group are split into merges.
pub struct BitmapPseudoMergePartition {
    /// How many commits each merge takes, as far as there are any; one that
    /// would take fewer than eight takes all that are left.
    pub sizes: Vec<usize>,
    /// Of the commits of a merge, every how many-th is kept.
    pub sample_stride: usize,
}

/// Commits that pseudo-merges are to stand for.
pub struct BitmapPseudoMergeGroup {
    pub commits: Vec<ObjectId>,
    /// Whether commits with a bitmap of their own are left out.
    pub exclude_selected: bool,
    pub partition: Option<BitmapPseudoMergePartition>,
}

impl BitmapPseudoMergeGroup {
    pub open spec fn wf(self) -> bool {
        self.partition matches Some(partition) ==> partition.sample_stride > 0
    }
}

pub open spec fn commit_ids(selected: Seq<IndexedCommit>) -> Set<ObjectId> {
    selected.map_values(|commit: IndexedCommit| commit.oid).to_set()
}

/// Whether a commit of a group takes part.
pub open spec fn takes_part(
    oid: ObjectId,
    exclude_selected: bool,
    selected: Set<ObjectId>,
    positions: Map<ObjectId, u32>,
    types: Seq<ObjectType>,
) -> bool {
    &&& !(exclude_selected && selected.contains(oid))
    &&& positions.contains_key(oid)
    &&& types[positions[oid] as int] == ObjectType::Commit
}

/// The commits of a group that take part, with their bits, in order.
pub open spec fn merge_candidates(
    commits: Seq<ObjectId>,
    exclude_selected: bool,
    selected: Set<ObjectId>,
    positions: Map<ObjectId, u32>,
    types: Seq<ObjectType>,
) -> Seq<(ObjectId, u32)>
    decreases commits.len(),
{
    if commits.len() == 0 {
        Seq::empty()
    } else {
        let rest = merge_candidates(commits.drop_last(), exclude_selected, selected, positions, types);
        if takes_part(commits.last(), exclude_selected, selected, positions, types) {
            rest.push((commits.last(), positions[commits.last()]))
        } else {
            rest
        }
    }
}

/// Of the candidates from `from` to before `to`, every `stride`-th.
pub open spec fn sampled(candidates: Seq<(ObjectId, u32)>, from: int, to: int, stride: int) -> Seq<
    (ObjectId, u32),
>
    decreases
            if from < to {
                to - from
            } else {
                0
            },
{
    if from >= to || stride <= 0 {
        Seq::empty()
    } else {
        seq![candidates[from]] + sampled(candidates, from + stride, to, stride)
    }
}

/// The end of the merge that takes `size` of `count` candidates from `start`.
pub open spec fn merge_end(start: int, size: int, count: int) -> int {
    if size < 8 || start + size > count {
        count
    } else {
        start + size
    }
}

/// The merges that candidates are split into, from the one at `index`, which
/// begins at `start`.
pub open spec fn partitioned(
    candidates: Seq<(ObjectId, u32)>,
    partition: BitmapPseudoMergePartition,
    index: int,
    start: int,
) -> Seq<Seq<(ObjectId, u32)>>
    decreases partition.sizes@.len() - index,
{
    if index >= partition.sizes@.len() || start >= candidates.len() {
        Seq::empty()
    } else {
        let end = merge_end(start, partition.sizes@[index] as int, candidates.len() as int);
        seq![sampled(candidates, start, end, partition.sample_stride as int)] + partitioned(
            candidates,
            partition,
            index + 1,
            end,
        )
    }
}

/// The merges of a group: none without candidates, else one, or those of its
/// partition.
pub open spec fn group_merges(
    group: BitmapPseudoMergeGroup,
    selected: Set<ObjectId>,
    positions: Map<ObjectId, u32>,
    types: Seq<ObjectType>,
) -> Seq<Seq<(ObjectId, u32)>> {
    let candidates = merge_candidates(
        group.commits@,
        group.exclude_selected,
        selected,
        positions,
        types,
    );
    if candidates.len() == 0 {
        Seq::empty()
    } else {
        match group.partition {
            Some(partition) => partitioned(candidates, partition, 0, 0),
            None => seq![candidates],
        }
    }
}

/// The merges of all groups in a row.
pub open spec fn all_merges(
    groups: Seq<BitmapPseudoMergeGroup>,
    selected: Set<ObjectId>,
    positions: Map<ObjectId, u32>,
    types: Seq<ObjectType>,
) -> Seq<Seq<(ObjectId, u32)>>
    decreases groups.len(),
{
    if groups.len() == 0 {
        Seq::empty()
    } else {
        all_merges(groups.drop_last(), selected, positions, types) + group_merges(
            groups.last(),
            selected,
            positions,
            types,
        )
    }
}

/// The commits of a group that take part, with their bits.
pub fn pseudo_merge_candidates(
    group: &BitmapPseudoMergeGroup,
    selected: &OidSet,
    positions: &OidMap<u32>,
    types: &Vec<ObjectType>,
) -> (candidates: Vec<(ObjectId, u32)>)
    requires
        forall|oid: ObjectId| #[trigger] positions@.contains_key(oid) ==> positions@[oid] < types@.len(),
    ensures
        candidates@ == merge_candidates(
            group.commits@,
            group.exclude_selected,
            selected@,
            positions@,
            types@,
        ),
{
    let mut candidates: Vec<(ObjectId, u32)> = Vec::new();
    let mut i: usize = 0;
    while i < group.commits.len()
        invariant
            i <= group.commits@.len(),
            forall|oid: ObjectId| #[trigger] positions@.contains_key(oid) ==> positions@[oid] < types@.len(),
            candidates@ == merge_candidates(
                group.commits@.take(i as int),
                group.exclude_selected,
                selected@,
                positions@,
                types@,
            ),
        decreases group.commits@.len() - i,
    {
        let oid = group.commits[i];
        assert(group.commits@.take(i + 1).drop_last() =~= group.commits@.take(i as int));
        assert(group.commits@.take(i + 1).last() == oid);
        if !(group.exclude_selected && selected.contains(&oid)) {
            match positions.get(&oid) {
                None => {},
                Some(position) => {
                    if types[*position as usize] == ObjectType::Commit {
                        candidates.push((oid, *position));
                    }
                },
            }
        }
        i += 1;
    }
    assert(group.commits@.take(i as int) =~= group.commits@);
    candidates
}

/// Every `stride`-th of some candidates.
fn sample(candidates: &Vec<(ObjectId, u32)>, from: usize, to: usize, stride: usize) -> (kept: Vec<(ObjectId, u32)>)
    requires
        from <= to <= candidates@.len(),
        stride > 0,
    ensures
        kept@ == sampled(candidates@, from as int, to as int, stride as int),
{
    let mut kept: Vec<(ObjectId, u32)> = Vec::new();
    let mut at: usize = from;
    assert(kept@ + sampled(candidates@, from as int, to as int, stride as int) =~= sampled(
        candidates@,
        from as int,
        to as int,
        stride as int,
    ));
    while at < to
        invariant
            from <= at,
            to <= candidates@.len(),
            stride > 0,
            kept@ + sampled(candidates@, at as int, to as int, stride as int) == sampled(
                candidates@,
                from as int,
                to as int,
                stride as int,
            ),
        decreases to - at,
    {
        let ghost held = kept@;
        kept.push(candidates[at]);
        assert(held + (seq![candidates@[at as int]] + sampled(
            candidates@,
            at + stride,
            to as int,
            stride as int,
        )) =~= kept@ + sampled(candidates@, at + stride, to as int, stride as int));
        if stride >= to - at {
            assert(sampled(candidates@, at + stride, to as int, stride as int) =~= Seq::empty());
            assert(kept@ =~= sampled(candidates@, from as int, to as int, stride as int));
            return kept;
        }
        at += stride;
    }
    assert(sampled(candidates@, at as int, to as int, stride as int) =~= Seq::empty());
    assert(kept@ =~= sampled(candidates@, from as int, to as int, stride as int));
    kept
}

/// The commits of merges, each with its bit.
pub open spec fn merge_views(merges: Seq<Vec<(ObjectId, u32)>>) -> Seq<Seq<(ObjectId, u32)>> {
    merges.map_values(|merge: Vec<(ObjectId, u32)>| merge@)
}

/// The merges of a group.
fn list_group_merges(
    group: &BitmapPseudoMergeGroup,
    selected: &OidSet,
    positions: &OidMap<u32>,
    types: &Vec<ObjectType>,
    merges: &mut Vec<Vec<(ObjectId, u32)>>,
)
    requires
        group.wf(),
        forall|oid: ObjectId| #[trigger] positions@.contains_key(oid) ==> positions@[oid] < types@.len(),
    ensures
        merge_views(final(merges)@) == merge_views(old(merges)@) + group_merges(
            *group,
            selected@,
            positions@,
            types@,
        ),
{
    let candidates = pseudo_merge_candidates(group, selected, positions, types);
    let ghost before = merge_views(merges@);
    if candidates.len() == 0 {
        assert(before + Seq::<Seq<(ObjectId, u32)>>::empty() =~= before);
        return;
    }
    match &group.partition {
        None => {
            let ghost whole = candidates@;
            merges.push(candidates);
            assert(merge_views(merges@) =~= before + seq![whole]);
        },
        Some(partition) => {
            let count: usize = candidates.len();
            let mut start: usize = 0;
            let mut index: usize = 0;
            let ghost goal = before + partitioned(candidates@, *partition, 0, 0);
            while index < partition.sizes.len() && start < count
                invariant
                    index <= partition.sizes@.len(),
                    start <= count == candidates@.len(),
                    partition.sample_stride > 0,
                    merge_views(merges@) + partitioned(candidates@, *partition, index as int, start as int) == goal,
                decreases partition.sizes@.len() - index,
            {
                let size: usize = partition.sizes[index];
                let end: usize = if size < 8 || size > count - start {
                    count
                } else {
                    start + size
                };
                let kept = sample(&candidates, start, end, partition.sample_stride);
                let ghost held = merge_views(merges@);
                let ghost rest = partitioned(candidates@, *partition, index + 1, end as int);
                let ghost part = kept@;
                merges.push(kept);
                assert(merge_views(merges@) =~= held.push(part));
                assert(held + (seq![part] + rest) =~= merge_views(merges@) + rest);
                start = end;
                index += 1;
            }
            assert(partitioned(candidates@, *partition, index as int, start as int) =~= Seq::empty());
            assert(merge_views(merges@) =~= goal);
        },
    }
}

/// The bitmap of one commit: its bit, its position in the index, and the bits
/// of what it leads to, in order.
pub struct BitmapPlanEntry {
    pub pack_pos: u32,
    pub index_pos: u32,
    pub positions: Vec<u32>,
}

/// The bitmap of a pseudo-merge: the bits of its commits, and of what they lead
/// to, in order.
pub struct BitmapPlanMerge {
    pub commits: Vec<u32>,
    pub positions: Vec<u32>,
}

/// What a bitmap is to hold: the type of each object in the order of bits, the
/// bitmaps of selected commits, and the pseudo-merges.
pub struct BitmapPlan {
    pub object_types: Vec<ObjectType>,
    pub entries: Vec<BitmapPlanEntry>,
    pub merges: Vec<BitmapPlanMerge>,
}

/// What came of planning a bitmap.
pub enum BitmapBuild {
    Plan(BitmapPlan),
    /// The pack lacks an object that one of its own leads to.
    Missing(ObjectId),
    /// There is nothing to number, or too much.
    Nothing,
}

/// The ids of a merge's commits.
pub open spec fn merge_roots(merge: Seq<(ObjectId, u32)>) -> Seq<ObjectId> {
    merge.map_values(|pair: (ObjectId, u32)| pair.0)
}

/// The bits of a merge's commits.
pub open spec fn merge_bits(merge: Seq<(ObjectId, u32)>) -> Seq<u32> {
    merge.map_values(|pair: (ObjectId, u32)| pair.1)
}

/// How the walks for merges end, unless all of them are done.
pub open spec fn merges_end<R: ObjectReader>(
    reader: &R,
    positions: Map<ObjectId, u32>,
    memo: Map<ObjectId, Set<int>>,
    merges: Seq<Seq<(ObjectId, u32)>>,
) -> Option<FillEnd>
    decreases merges.len(),
{
    if merges.len() == 0 {
        None
    } else {
        match merges_end(reader, positions, memo, merges.drop_last()) {
            Some(end) => Some(end),
            None => match commit_closure(reader, positions, memo, merge_roots(merges.last())) {
                FillEnd::Done(_) => None,
                end => Some(end),
            },
        }
    }
}

proof fn lemma_merges_end<R: ObjectReader>(
    reader: &R,
    positions: Map<ObjectId, u32>,
    memo: Map<ObjectId, Set<int>>,
    merges: Seq<Seq<(ObjectId, u32)>>,
    n: int,
)
    requires
        0 <= n <= merges.len(),
        merges_end(reader, positions, memo, merges.take(n)) is Some,
    ensures
        merges_end(reader, positions, memo, merges) == merges_end(reader, positions, memo, merges.take(n)),
    decreases merges.len() - n,
{
    if n < merges.len() {
        assert(merges.take(n + 1).drop_last() =~= merges.take(n));
        lemma_merges_end(reader, positions, memo, merges, n + 1);
    } else {
        assert(merges.take(n) =~= merges);
    }
}

/// What the selection and the walks of a bitmap come to.
pub enum BuildEnd {
    /// The types, the selected commits, their closures, and the merges.
    Done(
        Seq<ObjectType>,
        Seq<IndexedCommit>,
        Map<ObjectId, Set<int>>,
        Seq<Seq<(ObjectId, u32)>>,
    ),
    Stopped(FillEnd),
}

/// What the selection and the walks of a bitmap over `oids` come to.
pub open spec fn build_end<R: ObjectReader>(
    reader: &R,
    oids: Seq<ObjectId>,
    headers: Seq<Result<Option<ObjectType>, GitError>>,
    preferred: Set<ObjectId>,
    groups: Seq<BitmapPseudoMergeGroup>,
) -> BuildEnd {
    match indexed(reader, oids, headers, oids.len()) {
        Err(end) => BuildEnd::Stopped(end),
        Ok((types, commits)) => {
            let selected = selected_commits(stable_sort(newest_first(), commits), preferred);
            let positions = position_map(oids);
            match closure_memo(reader, positions, selected) {
                Err(end) => BuildEnd::Stopped(end),
                Ok(memo) => {
                    let merges = all_merges(groups, commit_ids(selected), positions, types);
                    match merges_end(reader, positions, memo, merges) {
                        Some(end) => BuildEnd::Stopped(end),
                        None => BuildEnd::Done(types, selected, memo, merges),
                    }
                },
            }
        },
    }
}

/// Whether a plan holds the closures of the selected commits and of the merges.
pub open spec fn is_plan<R: ObjectReader>(
    plan: BitmapPlan,
    reader: &R,
    positions: Map<ObjectId, u32>,
    count: nat,
    types: Seq<ObjectType>,
    selected: Seq<IndexedCommit>,
    memo: Map<ObjectId, Set<int>>,
    merges: Seq<Seq<(ObjectId, u32)>>,
) -> bool {
    &&& plan.object_types@ == types
    &&& plan.entries@.len() == selected.len()
    &&& forall|i: int|
        0 <= i < selected.len() ==> {
            &&& (#[trigger] plan.entries@[i]).pack_pos == selected[i].pack_pos
            &&& plan.entries@[i].index_pos == selected[i].index_pos
            &&& plan.entries@[i].positions@ == ascending(memo[selected[i].oid], 64 * words_for(count))
        }
    &&& plan.merges@.len() == merges.len()
    &&& forall|i: int|
        0 <= i < merges.len() ==> {
            &&& (#[trigger] plan.merges@[i]).commits@ == merge_bits(merges[i])
            &&& commit_closure(reader, positions, memo, merge_roots(merges[i])) is Done
            &&& plan.merges@[i].positions@ == ascending(
                commit_closure(reader, positions, memo, merge_roots(merges[i]))->Done_0.bits,
                64 * words_for(count),
            )
        }
}

/// What came of planning one pseudo-merge.
enum MergeBuild {
    Planned(BitmapPlanMerge),
    Missing(ObjectId),
}

/// The bitmap of a pseudo-merge.
fn bitmap_add_pseudo_merge<R: ObjectReader>(
    reader: &R,
    commits: &Vec<(ObjectId, u32)>,
    oid_to_pack: &OidMap<u32>,
    word_count: usize,
    memo: &OidMap<Arc<Vec<u64>>>,
) -> (merge: Result<MergeBuild, GitError>)
    requires
        fits(oid_to_pack@, memo@, word_count as nat),
        word_count <= MAX_BITSET_WORDS,
    ensures
        match commit_closure(reader, oid_to_pack@, stored_bits(memo@), merge_roots(commits@)) {
            FillEnd::Done(marks) => merge matches Ok(MergeBuild::Planned(plan)) && plan.commits@ == merge_bits(
                commits@,
            ) && plan.positions@ == ascending(marks.bits, 64 * word_count as nat),
            FillEnd::Missing(oid) => merge matches Ok(MergeBuild::Missing(missing)) && missing == oid,
            end => merge matches Err(err) && ends_in(end, err),
        },
{
    let mut roots: Vec<ObjectId> = Vec::with_capacity(commits.len());
    let mut positions: Vec<u32> = Vec::with_capacity(commits.len());
    let mut i: usize = 0;
    while i < commits.len()
        invariant
            i <= commits@.len(),
            roots@ == merge_roots(commits@.take(i as int)),
            positions@ == merge_bits(commits@.take(i as int)),
        decreases commits@.len() - i,
    {
        roots.push(commits[i].0);
        positions.push(commits[i].1);
        assert(roots@ =~= merge_roots(commits@.take(i + 1)));
        assert(positions@ =~= merge_bits(commits@.take(i + 1)));
        i += 1;
    }
    assert(commits@.take(i as int) =~= commits@);
    match bitmap_commit_closure(reader, &roots, oid_to_pack, word_count, memo) {
        Err(err) => Err(err),
        Ok(BitmapClosure::Missing(oid)) => Ok(MergeBuild::Missing(oid)),
        Ok(BitmapClosure::Closed(words)) => {
            proof {
                lemma_ascending(words@, 64 * words@.len());
            }
            Ok(
                MergeBuild::Planned(
                    BitmapPlanMerge { commits: positions, positions: bitset_positions(&words) },
                ),
            )
        },
    }
}

/// Plans the bitmap of the objects in `bit_order`, which lists each covered
/// object in the order of bits.
///
/// Commits are selected newest first by the spacing schedule, with preferred
/// tips and merge commits chosen inside each window; each selected commit is
/// to store its full reachability closure. `headers` says what the header of
/// each object gives as its type, as far as that can be read. There is no plan
/// where an object that one of the covered ones leads to is not covered.
pub fn build_reachability_bitmap<R: ObjectReader>(
    reader: &R,
    bit_order: &[ObjectId],
    headers: &[Result<Option<ObjectType>, GitError>],
    preferred_tips: &OidSet,
    pseudo_merge_groups: &[BitmapPseudoMergeGroup],
) -> (build: Result<BitmapBuild, GitError>)
    requires
        headers@.len() == bit_order@.len(),
        forall|i: int| 0 <= i < pseudo_merge_groups@.len() ==> (#[trigger] pseudo_merge_groups@[i]).wf(),
    ensures
        bit_order@.len() == 0 || bit_order@.len() > u32::MAX ==> build matches Ok(BitmapBuild::Nothing),
        0 < bit_order@.len() <= u32::MAX ==> match build_end(
            reader,
            bit_order@,
            headers@,
            preferred_tips@,
            pseudo_merge_groups@,
        ) {
            BuildEnd::Done(types, selected, memo, merges) => build matches Ok(BitmapBuild::Plan(plan)) && is_plan(
                plan,
                reader,
                position_map(bit_order@),
                bit_order@.len(),
                types,
                selected,
                memo,
                merges,
            ),
            BuildEnd::Stopped(FillEnd::Missing(oid)) => build matches Ok(BitmapBuild::Missing(missing)) && missing
                == oid,
            BuildEnd::Stopped(end) => build matches Err(err) && ends_in(end, err),
        },
{
    if bit_order.len() == 0 || bit_order.len() as u64 > u32::MAX as u64 {
        return Ok(BitmapBuild::Nothing);
    }
    let object_count: usize = bit_order.len();
    let oid_to_pack = index_positions(bit_order);
    let objects = match index_objects(reader, bit_order, headers) {
        Err(err) => {
            return Err(err);
        },
        Ok(objects) => objects,
    };
    let IndexedObjects { types, commits } = objects;
    let sorted = sort(&ByDate, &commits);
    proof {
        ByDate.lemma_is_order();
        law_stable_sort(newest_first(), commits@);
        lemma_position_map(bit_order@);
    }
    let selected = select_bitmap_commits(&sorted, preferred_tips);
    let ghost positions = position_map(bit_order@);
    let word_count: usize = word_count_for(object_count);
    let mut memo: OidMap<Arc<Vec<u64>>> = OidMap::new();
    let mut i: usize = selected.len();
    proof {
        assert(selected@.skip(i as int) =~= Seq::empty());
        assert(stored_bits(memo@) =~= Map::empty());
    }
    while i > 0
        invariant
            i <= selected@.len(),
            0 < bit_order@.len() <= u32::MAX,
            positions == position_map(bit_order@),
            oid_to_pack@ == positions,
            word_count == words_for(bit_order@.len()),
            forall|oid: ObjectId| #[trigger] positions.contains_key(oid) ==> positions[oid] < bit_order@.len(),
            forall|oid: ObjectId| #[trigger] memo@.contains_key(oid) ==> memo@[oid]@.len() == word_count,
            closure_memo(reader, positions, selected@.skip(i as int)) == Ok::<
                Map<ObjectId, Set<int>>,
                FillEnd,
            >(stored_bits(memo@)),
            indexed(reader, bit_order@, headers@, bit_order@.len()) == Ok::<
                (Seq<ObjectType>, Seq<IndexedCommit>),
                FillEnd,
            >((types@, commits@)),
            selected@ == selected_commits(stable_sort(newest_first(), commits@), preferred_tips@),
        decreases i,
    {
        i -= 1;
        let oid = selected[i].oid;
        let mut roots: Vec<ObjectId> = Vec::new();
        roots.push(oid);
        proof {
            assert(selected@.skip(i as int).drop_first() =~= selected@.skip(i + 1));
            assert(selected@.skip(i as int)[0] == selected@[i as int]);
            assert(roots@ =~= seq![oid]);
            assert(fits(oid_to_pack@, memo@, word_count as nat));
        }
        match bitmap_commit_closure(reader, &roots, &oid_to_pack, word_count, &memo) {
            Err(err) => {
                proof {
                    lemma_memo_fails(reader, positions, selected@, i as int);
                }
                return Err(err);
            },
            Ok(BitmapClosure::Missing(missing)) => {
                proof {
                    lemma_memo_fails(reader, positions, selected@, i as int);
                }
                return Ok(BitmapBuild::Missing(missing));
            },
            Ok(BitmapClosure::Closed(words)) => {
                let ghost held = stored_bits(memo@);
                let words = Arc::new(words);
                memo.insert(oid, words);
                assert(stored_bits(memo@) =~= held.insert(oid, bits(words@)));
            },
        }
    }
    let ghost closures = stored_bits(memo@);
    proof {
        assert(selected@.skip(0) =~= selected@);
        lemma_memo_keys(reader, positions, selected@);
    }
    let mut entries: Vec<BitmapPlanEntry> = Vec::with_capacity(selected.len());
    let mut selected_oids = OidSet::new();
    let ghost ids = selected@.map_values(|commit: IndexedCommit| commit.oid);
    let mut k: usize = 0;
    assert(selected_oids@ =~= ids.take(0).to_set());
    while k < selected.len()
        invariant
            k <= selected@.len(),
            0 < bit_order@.len() <= u32::MAX,
            word_count == words_for(bit_order@.len()),
            closures == stored_bits(memo@),
            ids == selected@.map_values(|commit: IndexedCommit| commit.oid),
            forall|m: int| 0 <= m < selected@.len() ==> closures.contains_key((#[trigger] selected@[m]).oid),
            forall|oid: ObjectId| #[trigger] memo@.contains_key(oid) ==> memo@[oid]@.len() == word_count,
            selected_oids@ == ids.take(k as int).to_set(),
            entries@.len() == k,
            forall|m: int|
                0 <= m < k ==> {
                    &&& (#[trigger] entries@[m]).pack_pos == selected@[m].pack_pos
                    &&& entries@[m].index_pos == selected@[m].index_pos
                    &&& entries@[m].positions@ == ascending(
                        closures[selected@[m].oid],
                        64 * words_for(bit_order@.len()),
                    )
                },
        decreases selected@.len() - k,
    {
        let commit = selected[k];
        assert(closures.contains_key(commit.oid));
        match memo.get(&commit.oid) {
            None => {
                assert(false);
            },
            Some(words) => {
                proof {
                    lemma_ascending(words@, 64 * words@.len());
                }
                entries.push(
                    BitmapPlanEntry {
                        pack_pos: commit.pack_pos,
                        index_pos: commit.index_pos,
                        positions: bitset_positions(words.as_slice()),
                    },
                );
            },
        }
        selected_oids.insert(commit.oid);
        proof {
            assert(ids.take(k + 1) =~= ids.take(k as int).push(commit.oid));
            ids.take(k as int).lemma_push_to_set_commute(commit.oid);
        }
        k += 1;
    }
    assert(ids.take(k as int) =~= ids);
    let mut groups: Vec<Vec<(ObjectId, u32)>> = Vec::new();
    let mut g: usize = 0;
    assert(merge_views(groups@) =~= Seq::empty());
    while g < pseudo_merge_groups.len()
        invariant
            g <= pseudo_merge_groups@.len(),
            types@.len() == bit_order@.len(),
            oid_to_pack@ == positions,
            forall|oid: ObjectId| #[trigger] positions.contains_key(oid) ==> positions[oid] < bit_order@.len(),
            forall|m: int| 0 <= m < pseudo_merge_groups@.len() ==> (#[trigger] pseudo_merge_groups@[m]).wf(),
            merge_views(groups@) == all_merges(
                pseudo_merge_groups@.take(g as int),
                selected_oids@,
                positions,
                types@,
            ),
        decreases pseudo_merge_groups@.len() - g,
    {
        assert(pseudo_merge_groups@.take(g + 1).drop_last() =~= pseudo_merge_groups@.take(g as int));
        list_group_merges(&pseudo_merge_groups[g], &selected_oids, &oid_to_pack, &types, &mut groups);
        g += 1;
    }
    assert(pseudo_merge_groups@.take(g as int) =~= pseudo_merge_groups@);
    let ghost all = merge_views(groups@);
    let mut merges: Vec<BitmapPlanMerge> = Vec::with_capacity(groups.len());
    let mut m: usize = 0;
    while m < groups.len()
        invariant
            m <= groups@.len(),
            all == merge_views(groups@),
            0 < bit_order@.len() <= u32::MAX,
            positions == position_map(bit_order@),
            oid_to_pack@ == positions,
            word_count == words_for(bit_order@.len()),
            closures == stored_bits(memo@),
            forall|oid: ObjectId| #[trigger] positions.contains_key(oid) ==> positions[oid] < bit_order@.len(),
            forall|oid: ObjectId| #[trigger] memo@.contains_key(oid) ==> memo@[oid]@.len() == word_count,
            merges_end(reader, positions, closures, all.take(m as int)) is None,
            merges@.len() == m,
            forall|j: int|
                0 <= j < m ==> {
                    &&& (#[trigger] merges@[j]).commits@ == merge_bits(all[j])
                    &&& commit_closure(reader, positions, closures, merge_roots(all[j])) is Done
                    &&& merges@[j].positions@ == ascending(
                        commit_closure(reader, positions, closures, merge_roots(all[j]))->Done_0.bits,
                        64 * words_for(bit_order@.len()),
                    )
                },
            indexed(reader, bit_order@, headers@, bit_order@.len()) == Ok::<
                (Seq<ObjectType>, Seq<IndexedCommit>),
                FillEnd,
            >((types@, commits@)),
            selected@ == selected_commits(stable_sort(newest_first(), commits@), preferred_tips@),
            closure_memo(reader, positions, selected@) == Ok::<Map<ObjectId, Set<int>>, FillEnd>(closures),
            all == all_merges(pseudo_merge_groups@, commit_ids(selected@), positions, types@),
        decreases groups@.len() - m,
    {
        proof {
            assert(all.take(m + 1).drop_last() =~= all.take(m as int));
            assert(all.take(m + 1).last() == groups@[m as int]@);
            assert(fits(oid_to_pack@, memo@, word_count as nat));
        }
        match bitmap_add_pseudo_merge(reader, &groups[m], &oid_to_pack, word_count, &memo) {
            Err(err) => {
                proof {
                    lemma_merges_end(reader, positions, closures, all, m + 1);
                }
                return Err(err);
            },
            Ok(MergeBuild::Missing(missing)) => {
                proof {
                    lemma_merges_end(reader, positions, closures, all, m + 1);
                }
                return Ok(BitmapBuild::Missing(missing));
            },
            Ok(MergeBuild::Planned(plan)) => {
                merges.push(plan);
            },
        }
        m += 1;
    }
    assert(all.take(m as int) =~= all);
    let plan = BitmapPlan { object_types: types, entries, merges };
    assert(build_end(reader, bit_order@, headers@, preferred_tips@, pseudo_merge_groups@)
        == BuildEnd::Done(types@, selected@, closures, all));
    assert(is_plan(plan, reader, positions, bit_order@.len(), types@, selected@, closures, all));
    Ok(BitmapBuild::Plan(plan))
}

pub proof fn lemma_ascending_lists(marked: Set<int>, n: nat, p: u32)
    requires
        n <= 0x1_0000_0000,
    ensures
        ascending(marked, n).contains(p) <==> p < n && marked.contains(p as int),
    decreases n,
{
    if n > 0 {
        let shorter = ascending(marked, (n - 1) as nat);
        let all = ascending(marked, n);
        lemma_ascending_lists(marked, (n - 1) as nat, p);
        if marked.contains(n - 1) {
            assert(all == shorter.push((n - 1) as u32));
            assert(all[shorter.len() as int] == (n - 1) as u32);
            if shorter.contains(p) {
                let k = choose|k: int| 0 <= k < shorter.len() && shorter[k] == p;
                assert(all[k] == p);
            }
            if all.contains(p) {
                let k = choose|k: int| 0 <= k < all.len() && all[k] == p;
                if k < shorter.len() {
                    assert(shorter[k] == p);
                }
            }
        }
    }
}

/// The bitmap planned for a commit lists exactly the bits of the objects that
/// the commit leads to, all of which are covered.
pub proof fn law_planned_bitmaps_are_closures<R: ObjectReader>(
    reader: &R,
    oids: Seq<ObjectId>,
    headers: Seq<Result<Option<ObjectType>, GitError>>,
    preferred: Set<ObjectId>,
    groups: Seq<BitmapPseudoMergeGroup>,
    plan: BitmapPlan,
    i: int,
    o: ObjectId,
)
    requires
        0 < oids.len() <= u32::MAX,
        build_end(reader, oids, headers, preferred, groups) matches BuildEnd::Done(types, selected, memo, merges)
            && is_plan(plan, reader, position_map(oids), oids.len(), types, selected, memo, merges) && 0 <= i
            < selected.len() && blobs_are_leaves(reader, commit_ids(selected)),
    ensures
        build_end(reader, oids, headers, preferred, groups) matches BuildEnd::Done(types, selected, memo, merges)
            && (leads_to(reader, set![selected[i].oid], o) <==> oids.contains(o)
            && plan.entries@[i].positions@.contains(position_map(oids)[o])),
{
    let positions = position_map(oids);
    if let BuildEnd::Done(types, selected, memo, merges) = build_end(reader, oids, headers, preferred, groups) {
        law_memo_is_sound(reader, oids, selected);
        lemma_memo_keys(reader, positions, selected);
        lemma_position_map(oids);
        let c = selected[i].oid;
        assert(memo.contains_key(c));
        assert(is_closure(reader, positions, set![c], memo[c]));
        assert(plan.entries@[i].positions@ == ascending(memo[c], 64 * words_for(oids.len())));
        lemma_ascending_lists(memo[c], 64 * words_for(oids.len()), positions[o]);
        assert(leads_to(reader, set![c], o) <==> positions.contains_key(o) && memo[c].contains(
            positions[o] as int,
        ));
        assert(positions.contains_key(o) ==> positions[o] < oids.len());
    }
}

/// Plans the bitmap of the pack that index entries describe. `headers` goes
/// with the objects as they stand in the pack.
pub fn build_pack_bitmap<R: ObjectReader>(
    reader: &R,
    index_entries: &[PackIndexEntry],
    headers: &[Result<Option<ObjectType>, GitError>],
    preferred_tips: &OidSet,
    pseudo_merge_groups: &[BitmapPseudoMergeGroup],
) -> (build: Result<BitmapBuild, GitError>)
    requires
        headers@.len() == index_entries@.len(),
        forall|i: int| 0 <= i < pseudo_merge_groups@.len() ==> (#[trigger] pseudo_merge_groups@[i]).wf(),
    ensures
        index_entries@.len() == 0 || index_entries@.len() > u32::MAX ==> build matches Ok(BitmapBuild::Nothing),
        0 < index_entries@.len() <= u32::MAX ==> match build_end(
            reader,
            pack_bit_order(index_entries@),
            headers@,
            preferred_tips@,
            pseudo_merge_groups@,
        ) {
            BuildEnd::Done(types, selected, memo, merges) => build matches Ok(BitmapBuild::Plan(plan)) && is_plan(
                plan,
                reader,
                position_map(pack_bit_order(index_entries@)),
                index_entries@.len(),
                types,
                selected,
                memo,
                merges,
            ),
            BuildEnd::Stopped(FillEnd::Missing(oid)) => build matches Ok(BitmapBuild::Missing(missing)) && missing
                == oid,
            BuildEnd::Stopped(end) => build matches Err(err) && ends_in(end, err),
        },
{
    let bit_order = list_pack_bit_order(index_entries);
    build_reachability_bitmap(reader, &bit_order, headers, preferred_tips, pseudo_merge_groups)
}

/// Plans the bitmap of a multi-pack index, with the objects of the preferred
/// pack first. `headers` goes with the objects in the order of bits.
pub fn build_midx_bitmap<R: ObjectReader>(
    reader: &R,
    midx_entries: &[MultiPackIndexEntry],
    preferred_pack: u32,
    headers: &[Result<Option<ObjectType>, GitError>],
    preferred_tips: &OidSet,
    pseudo_merge_groups: &[BitmapPseudoMergeGroup],
) -> (build: Result<BitmapBuild, GitError>)
    requires
        headers@.len() == midx_entries@.len(),
        forall|i: int| 0 <= i < pseudo_merge_groups@.len() ==> (#[trigger] pseudo_merge_groups@[i]).wf(),
    ensures
        midx_entries@.len() == 0 || midx_entries@.len() > u32::MAX ==> build matches Ok(BitmapBuild::Nothing),
        0 < midx_entries@.len() <= u32::MAX ==> match build_end(
            reader,
            midx_bit_order(midx_entries@, Some(preferred_pack)),
            headers@,
            preferred_tips@,
            pseudo_merge_groups@,
        ) {
            BuildEnd::Done(types, selected, memo, merges) => build matches Ok(BitmapBuild::Plan(plan)) && is_plan(
                plan,
                reader,
                position_map(midx_bit_order(midx_entries@, Some(preferred_pack))),
                midx_entries@.len(),
                types,
                selected,
                memo,
                merges,
            ),
            BuildEnd::Stopped(FillEnd::Missing(oid)) => build matches Ok(BitmapBuild::Missing(missing)) && missing
                == oid,
            BuildEnd::Stopped(end) => build matches Err(err) && ends_in(end, err),
        },
{
    let bit_order = list_midx_bit_order(midx_entries, Some(preferred_pack));
    build_reachability_bitmap(reader, &bit_order, headers, preferred_tips, pseudo_merge_groups)
}

} // verus!
