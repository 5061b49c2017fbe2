//! The object walk behind reachability bitmaps: objects that a pack covers are
//! marked by their bit, and stored bitmaps stand for whole closures.

use crate::bitset::bits;
use crate::bitset::bitset_get;
use crate::bitset::bitset_or;
use crate::bitset::bitset_set;
use crate::bitset::empty_bitset;
use crate::error::GitError;
use crate::object::CommitLinks;
use crate::object::ObjectContent;
use crate::object::ObjectReader;
use crate::object::ObjectType;
use crate::object::TreeEntry;
use crate::object::TreeEntryKind;
use crate::object_id::all_ids;
use crate::object_id::lemma_all_ids_finite;
use crate::object_id::ObjectId;
use crate::oid_map::OidMap;
use crate::oid_map::OidSet;
use crate::reachability::followed_parents;
use crate::reachability::preorder_schedule;
use crate::reachability::strict_schedule;
use crate::reachability::tree_links;
use crate::text::concat3;
use crate::text::hex;
use crate::walk::is_closed;
use crate::walk::lemma_unseen_shrinks;
use crate::walk::reaches;
use crate::walk::successors;
use crate::walk::unseen;
use crate::walk::Schedule;
use std::sync::Arc;
use vstd::prelude::*;

verus! {

/// What a bitmap walk does next: mark an object in the role in which it was
/// met, with what is below it, or end.
pub enum BitmapTask {
    Commit(ObjectId),
    Tree(ObjectId),
    Blob(ObjectId),
    Tag(ObjectId),
    /// The walk cannot use the object as what it was met as.
    Misused(ObjectId),
    Fail(GitError),
}

/// What a bitmap covers: the bit of each object, the closures stored for
/// commits, and whether a walk may leave what is covered.
pub struct Coverage {
    pub positions: Map<ObjectId, u32>,
    pub stored: Map<ObjectId, Set<int>>,
    pub open: bool,
}

/// What a walk has marked: the bits of covered objects, and the objects outside
/// in the order in which they were first met.
pub struct Marks {
    pub bits: Set<int>,
    pub extended: Seq<(ObjectId, ObjectType)>,
}

/// How a bitmap walk ends.
pub enum FillEnd {
    Done(Marks),
    /// An object is not covered, and the walk may not leave what is.
    Missing(ObjectId),
    Misused(ObjectId),
    Failed(GitError),
}

pub open spec fn outside(extended: Seq<(ObjectId, ObjectType)>) -> Seq<ObjectId> {
    extended.map_values(|pair: (ObjectId, ObjectType)| pair.0)
}

pub open spec fn has_mark(cover: Coverage, marks: Marks, oid: ObjectId) -> bool {
    if cover.positions.contains_key(oid) {
        marks.bits.contains(cover.positions[oid] as int)
    } else {
        outside(marks.extended).contains(oid)
    }
}

/// `marks` and the mark of one object.
pub open spec fn with_mark(cover: Coverage, marks: Marks, oid: ObjectId, object_type: ObjectType) -> Marks {
    if has_mark(cover, marks, oid) {
        marks
    } else if cover.positions.contains_key(oid) {
        Marks { bits: marks.bits.insert(cover.positions[oid] as int), extended: marks.extended }
    } else {
        Marks { bits: marks.bits, extended: marks.extended.push((oid, object_type)) }
    }
}

/// Whether a walk may meet `oid`.
pub open spec fn admits(cover: Coverage, oid: ObjectId) -> bool {
    cover.open || cover.positions.contains_key(oid)
}

pub open spec fn entry_task(entry: Result<TreeEntry, GitError>) -> Option<BitmapTask> {
    match entry {
        Err(err) => Some(BitmapTask::Fail(err)),
        Ok(entry) => match entry.kind {
            TreeEntryKind::Gitlink => None,
            TreeEntryKind::Tree => Some(BitmapTask::Tree(entry.oid)),
            TreeEntryKind::Blob => Some(BitmapTask::Blob(entry.oid)),
        },
    }
}

/// The tasks that the entries of a tree stand for, the first one last, so that
/// it is taken first. Gitlinks stand for none.
pub open spec fn tree_tasks(entries: Seq<Result<TreeEntry, GitError>>) -> Seq<BitmapTask>
    decreases entries.len(),
{
    if entries.len() == 0 {
        Seq::empty()
    } else {
        let below = tree_tasks(entries.drop_first());
        match entry_task(entries[0]) {
            Some(task) => below.push(task),
            None => below,
        }
    }
}

/// What a newly marked commit leads to: its parents, and on top of them its
/// tree where objects are wanted.
pub open spec fn commit_tasks(commit: CommitLinks, cut: bool, with_objects: bool) -> Seq<BitmapTask> {
    let parents = followed_parents(commit, cut).map_values(|oid: ObjectId| BitmapTask::Commit(oid));
    if with_objects {
        parents.push(BitmapTask::Tree(commit.tree))
    } else {
        parents
    }
}

/// The tasks of an object that is no tree and was met as one: its body is taken
/// for that of a tree, and an empty one has no entries.
pub open spec fn bodily_tasks(oid: ObjectId, body: Seq<u8>) -> Seq<BitmapTask> {
    if body.len() == 0 {
        Seq::empty()
    } else {
        seq![BitmapTask::Misused(oid)]
    }
}

/// The tasks that a newly marked commit or tree leads to.
pub open spec fn next_tasks<R: ObjectReader>(
    reader: &R,
    with_objects: bool,
    oid: ObjectId,
    as_commit: bool,
) -> Seq<BitmapTask> {
    match reader.object_at(oid) {
        Err(err) => seq![BitmapTask::Fail(err)],
        Ok(object) => match object.content {
            ObjectContent::Commit(Ok(commit)) => if as_commit {
                commit_tasks(commit, reader.grafted(oid), with_objects)
            } else {
                seq![BitmapTask::Misused(oid)]
            },
            ObjectContent::Commit(Err(err)) => if as_commit {
                seq![BitmapTask::Fail(err)]
            } else {
                bodily_tasks(oid, object.body@)
            },
            ObjectContent::Tree(entries) => if as_commit {
                seq![BitmapTask::Misused(oid)]
            } else {
                tree_tasks(entries@)
            },
            ObjectContent::Tag(Ok(_)) => seq![BitmapTask::Misused(oid)],
            _ => if as_commit {
                seq![BitmapTask::Misused(oid)]
            } else {
                bodily_tasks(oid, object.body@)
            },
        },
    }
}

/// The ids that have no mark.
pub open spec fn unmarked(cover: Coverage, marks: Marks) -> Set<ObjectId> {
    all_ids().filter(|oid: ObjectId| !has_mark(cover, marks, oid))
}

/// A mark leaves every other mark in place and one id less without one.
pub proof fn lemma_mark(cover: Coverage, marks: Marks, oid: ObjectId, object_type: ObjectType)
    ensures
        has_mark(cover, with_mark(cover, marks, oid, object_type), oid),
        forall|o: ObjectId| #[trigger]
            has_mark(cover, marks, o) ==> has_mark(cover, with_mark(cover, marks, oid, object_type), o),
        unmarked(cover, with_mark(cover, marks, oid, object_type)).len() <= unmarked(cover, marks).len(),
        !has_mark(cover, marks, oid) ==> unmarked(
            cover,
            with_mark(cover, marks, oid, object_type),
        ).len() < unmarked(cover, marks).len(),
{
    let next = with_mark(cover, marks, oid, object_type);
    assert forall|o: ObjectId| #[trigger] has_mark(cover, marks, o) implies has_mark(cover, next, o) by {
        if !cover.positions.contains_key(o) {
            let i = choose|i: int| 0 <= i < marks.extended.len() && outside(marks.extended)[i] == o;
            assert(outside(next.extended)[i] == o);
        }
    }
    if !has_mark(cover, marks, oid) && !cover.positions.contains_key(oid) {
        assert(outside(next.extended)[marks.extended.len() as int] == oid);
    }
    lemma_unmarked_shrinks(cover, marks, next);
    if !has_mark(cover, marks, oid) {
        assert(unmarked(cover, marks).contains(oid));
        assert(unmarked(cover, next).subset_of(unmarked(cover, marks).remove(oid)));
        lemma_all_ids_finite();
        vstd::set_lib::lemma_len_subset(unmarked(cover, next), unmarked(cover, marks).remove(oid));
    }
}

/// More marks leave fewer ids without one.
pub proof fn lemma_unmarked_shrinks(cover: Coverage, marks: Marks, more: Marks)
    requires
        forall|o: ObjectId| #[trigger] has_mark(cover, marks, o) ==> has_mark(cover, more, o),
    ensures
        unmarked(cover, more).len() <= unmarked(cover, marks).len(),
{
    lemma_all_ids_finite();
    assert(unmarked(cover, more).subset_of(unmarked(cover, marks)));
    vstd::set_lib::lemma_len_subset(unmarked(cover, more), unmarked(cover, marks));
}

/// Marks and the closure stored for a commit.
pub open spec fn with_stored(cover: Coverage, marks: Marks, oid: ObjectId) -> Marks {
    Marks { bits: marks.bits.union(cover.stored[oid]), extended: marks.extended }
}

/// What a newly marked object leads to; the flag says whether it was met as a
/// commit.
pub type NextTasks = spec_fn(ObjectId, bool) -> Seq<BitmapTask>;

/// What newly marked objects of a reader lead to.
pub open spec fn reader_tasks<R: ObjectReader>(reader: &R, with_objects: bool) -> NextTasks {
    |oid: ObjectId, as_commit: bool| next_tasks(reader, with_objects, oid, as_commit)
}

/// Where a walk ends that takes the tasks of `stack` from its top. Each object
/// is marked once; a commit with a stored closure is replaced by it, and any
/// other newly marked commit or tree is replaced by what it leads to.
pub open spec fn fill(next: NextTasks, cover: Coverage, stack: Seq<BitmapTask>, marks: Marks) -> FillEnd
    decreases unmarked(cover, marks).len(), stack.len(),
{
    if stack.len() == 0 {
        FillEnd::Done(marks)
    } else {
        let rest = stack.drop_last();
        match stack.last() {
            BitmapTask::Fail(err) => FillEnd::Failed(err),
            BitmapTask::Misused(oid) => FillEnd::Misused(oid),
            BitmapTask::Tag(oid) => if !admits(cover, oid) {
                FillEnd::Missing(oid)
            } else {
                proof {
                    lemma_mark(cover, marks, oid, ObjectType::Tag);
                }
                fill(next, cover, rest, with_mark(cover, marks, oid, ObjectType::Tag))
            },
            BitmapTask::Blob(oid) => if !admits(cover, oid) {
                FillEnd::Missing(oid)
            } else {
                proof {
                    lemma_mark(cover, marks, oid, ObjectType::Blob);
                }
                fill(next, cover, rest, with_mark(cover, marks, oid, ObjectType::Blob))
            },
            BitmapTask::Tree(oid) => if !admits(cover, oid) {
                FillEnd::Missing(oid)
            } else if has_mark(cover, marks, oid) {
                fill(next, cover, rest, marks)
            } else {
                proof {
                    lemma_mark(cover, marks, oid, ObjectType::Tree);
                }
                fill(
                    next,
                    cover,
                    rest + next(oid, false),
                    with_mark(cover, marks, oid, ObjectType::Tree),
                )
            },
            BitmapTask::Commit(oid) => if !admits(cover, oid) {
                FillEnd::Missing(oid)
            } else if has_mark(cover, marks, oid) {
                fill(next, cover, rest, marks)
            } else if cover.positions.contains_key(oid) && cover.stored.contains_key(oid) {
                proof {
                    lemma_unmarked_shrinks(cover, marks, with_stored(cover, marks, oid));
                }
                fill(next, cover, rest, with_stored(cover, marks, oid))
            } else {
                proof {
                    lemma_mark(cover, marks, oid, ObjectType::Commit);
                }
                fill(
                    next,
                    cover,
                    rest + next(oid, true),
                    with_mark(cover, marks, oid, ObjectType::Commit),
                )
            },
        }
    }
}

/// The bits of stored closures.
pub open spec fn stored_bits(stored: Map<ObjectId, Arc<Vec<u64>>>) -> Map<ObjectId, Set<int>> {
    Map::new(|oid: ObjectId| stored.contains_key(oid), |oid: ObjectId| bits(stored[oid]@))
}

/// Whether bitsets of `count` words hold every position and stored closure.
pub open spec fn fits(
    positions: Map<ObjectId, u32>,
    stored: Map<ObjectId, Arc<Vec<u64>>>,
    count: nat,
) -> bool {
    &&& forall|oid: ObjectId| #[trigger] positions.contains_key(oid) ==> positions[oid] < 64 * count
    &&& forall|oid: ObjectId| #[trigger] stored.contains_key(oid) ==> stored[oid]@.len() <= count
}

/// What a walk has marked so far.
pub struct FillState {
    pub words: Vec<u64>,
    pub extended: Vec<(ObjectId, ObjectType)>,
    pub extended_seen: OidSet,
}

impl FillState {
    pub open spec fn wf(self) -> bool {
        self.extended_seen.items() == outside(self.extended@)
    }

    pub open spec fn marks(self) -> Marks {
        Marks { bits: bits(self.words@), extended: self.extended@ }
    }

    pub fn new(count: usize) -> (state: FillState)
        ensures
            state.wf(),
            state.words@.len() == count,
            state.marks() == (Marks { bits: Set::empty(), extended: Seq::empty() }),
    {
        let state = FillState {
            words: empty_bitset(count),
            extended: Vec::new(),
            extended_seen: OidSet::new(),
        };
        assert(state.extended_seen.items() =~= outside(state.extended@));
        state
    }

    /// Marks one object; returns false when it was already marked.
    fn mark(&mut self, positions: &OidMap<u32>, cover: Ghost<Coverage>, oid: &ObjectId, object_type: ObjectType) -> (fresh: bool)
        requires
            old(self).wf(),
            cover@.positions == positions@,
            positions@.contains_key(*oid) ==> positions@[*oid] < 64 * old(self).words@.len(),
        ensures
            final(self).wf(),
            final(self).words@.len() == old(self).words@.len(),
            final(self).marks() == with_mark(cover@, old(self).marks(), *oid, object_type),
            fresh == !has_mark(cover@, old(self).marks(), *oid),
    {
        match positions.get(oid) {
            Some(position) => {
                if bitset_get(&self.words, *position) {
                    return false;
                }
                bitset_set(&mut self.words, *position);
                true
            },
            None => {
                assert(self.extended_seen@.contains(*oid) == self.extended_seen.items().contains(*oid));
                if !self.extended_seen.insert(*oid) {
                    return false;
                }
                self.extended.push((*oid, object_type));
                assert(self.extended_seen.items() =~= outside(self.extended@));
                true
            },
        }
    }
}

/// The tasks that the entries of a tree stand for, the first one last.
fn list_tree_tasks(entries: &Vec<Result<TreeEntry, GitError>>) -> (tasks: Vec<BitmapTask>)
    ensures
        tasks@ == tree_tasks(entries@),
{
    let mut tasks: Vec<BitmapTask> = Vec::new();
    let mut i: usize = entries.len();
    assert(entries@.skip(i as int) =~= Seq::empty());
    while i > 0
        invariant
            i <= entries@.len(),
            tasks@ == tree_tasks(entries@.skip(i as int)),
        decreases i,
    {
        i -= 1;
        assert(entries@.skip(i as int).drop_first() =~= entries@.skip(i + 1));
        match &entries[i] {
            Err(err) => {
                tasks.push(BitmapTask::Fail(err.copy()));
            },
            Ok(entry) => match entry.kind {
                TreeEntryKind::Gitlink => {},
                TreeEntryKind::Tree => {
                    tasks.push(BitmapTask::Tree(entry.oid));
                },
                TreeEntryKind::Blob => {
                    tasks.push(BitmapTask::Blob(entry.oid));
                },
            },
        }
    }
    assert(entries@.skip(0) =~= entries@);
    tasks
}

/// The tasks that a newly marked commit or tree leads to.
fn list_next_tasks<R: ObjectReader>(
    reader: &R,
    with_objects: bool,
    oid: &ObjectId,
    as_commit: bool,
) -> (tasks: Vec<BitmapTask>)
    ensures
        tasks@ == next_tasks(reader, with_objects, *oid, as_commit),
{
    let mut tasks: Vec<BitmapTask> = Vec::new();
    match reader.read_object(oid) {
        Err(err) => {
            tasks.push(BitmapTask::Fail(err));
            assert(tasks@ =~= next_tasks(reader, with_objects, *oid, as_commit));
        },
        Ok(object) => match &object.content {
            ObjectContent::Commit(Ok(commit)) => {
                if as_commit {
                    let cut = reader.is_shallow_graft(oid);
                    if !cut {
                        let mut k: usize = 0;
                        while k < commit.parents.len()
                            invariant
                                k <= commit.parents@.len(),
                                tasks@ == commit.parents@.take(k as int).map_values(
                                    |oid: ObjectId| BitmapTask::Commit(oid),
                                ),
                            decreases commit.parents@.len() - k,
                        {
                            tasks.push(BitmapTask::Commit(commit.parents[k]));
                            assert(tasks@ =~= commit.parents@.take(k + 1).map_values(
                                |oid: ObjectId| BitmapTask::Commit(oid),
                            ));
                            k += 1;
                        }
                        assert(commit.parents@.take(k as int) =~= commit.parents@);
                    }
                    assert(tasks@ =~= followed_parents(*commit, cut).map_values(
                        |oid: ObjectId| BitmapTask::Commit(oid),
                    ));
                    if with_objects {
                        tasks.push(BitmapTask::Tree(commit.tree));
                    }
                } else {
                    tasks.push(BitmapTask::Misused(*oid));
                    assert(tasks@ =~= next_tasks(reader, with_objects, *oid, as_commit));
                }
            },
            ObjectContent::Commit(Err(err)) => {
                if as_commit {
                    tasks.push(BitmapTask::Fail(err.copy()));
                } else if object.body.len() > 0 {
                    tasks.push(BitmapTask::Misused(*oid));
                }
                assert(tasks@ =~= next_tasks(reader, with_objects, *oid, as_commit));
            },
            ObjectContent::Tree(entries) => {
                if as_commit {
                    tasks.push(BitmapTask::Misused(*oid));
                    assert(tasks@ =~= next_tasks(reader, with_objects, *oid, as_commit));
                } else {
                    tasks = list_tree_tasks(entries);
                }
            },
            ObjectContent::Tag(Ok(_)) => {
                tasks.push(BitmapTask::Misused(*oid));
                assert(tasks@ =~= next_tasks(reader, with_objects, *oid, as_commit));
            },
            _ => {
                if as_commit || object.body.len() > 0 {
                    tasks.push(BitmapTask::Misused(*oid));
                }
                assert(tasks@ =~= next_tasks(reader, with_objects, *oid, as_commit));
            },
        },
    }
    tasks
}

/// The error for an object that a bitmap walk cannot use as what it was met as.
pub open spec fn is_misuse(err: GitError, oid: ObjectId) -> bool {
    err matches GitError::InvalidObject(text) && text@ == "unexpected object "@ + hex(oid.raw())
        + " in bitmap walk"@
}

pub(crate) fn misuse(oid: &ObjectId) -> (err: GitError)
    ensures
        is_misuse(err, *oid),
{
    let name = oid.to_hex();
    GitError::InvalidObject(concat3("unexpected object ", name.as_str(), " in bitmap walk"))
}

/// Takes the tasks of `stack` from its top. Returns the first object that is
/// not covered where the walk may not leave what is.
pub fn run_fill<R: ObjectReader>(
    reader: &R,
    positions: &OidMap<u32>,
    stored: &OidMap<Arc<Vec<u64>>>,
    open: bool,
    with_objects: bool,
    tasks: Vec<BitmapTask>,
    state: &mut FillState,
) -> (missing: Result<Option<ObjectId>, GitError>)
    requires
        old(state).wf(),
        fits(positions@, stored@, old(state).words@.len()),
    ensures
        final(state).wf(),
        final(state).words@.len() == old(state).words@.len(),
        ({
            let cover = Coverage { positions: positions@, stored: stored_bits(stored@), open };
            match fill(reader_tasks(reader, with_objects), cover, tasks@, old(state).marks()) {
                FillEnd::Done(marks) => missing == Ok::<Option<ObjectId>, GitError>(None)
                    && final(state).marks() == marks,
                FillEnd::Missing(oid) => missing == Ok::<Option<ObjectId>, GitError>(Some(oid)),
                FillEnd::Misused(oid) => missing is Err && is_misuse(missing->Err_0, oid),
                FillEnd::Failed(err) => missing == Err::<Option<ObjectId>, GitError>(err),
            }
        }),
{
    let ghost cover = Coverage { positions: positions@, stored: stored_bits(stored@), open };
    let ghost next = reader_tasks(reader, with_objects);
    let ghost start = tasks@;
    let ghost before = state.marks();
    let mut stack = tasks;
    while stack.len() > 0
        invariant
            start == tasks@,
            before == old(state).marks(),
            cover == (Coverage { positions: positions@, stored: stored_bits(stored@), open }),
            next == reader_tasks(reader, with_objects),
            state.wf(),
            state.words@.len() == old(state).words@.len(),
            fits(positions@, stored@, state.words@.len()),
            fill(next, cover, start, before) == fill(next, cover, stack@, state.marks()),
        decreases unmarked(cover, state.marks()).len(), stack@.len(),
    {
        let ghost held = stack@;
        let ghost marks = state.marks();
        match stack.pop() {
            None => {},
            Some(task) => {
                assert(task == held.last() && stack@ == held.drop_last());
                match task {
                    BitmapTask::Fail(err) => {
                        return Err(err);
                    },
                    BitmapTask::Misused(oid) => {
                        return Err(misuse(&oid));
                    },
                    BitmapTask::Tag(oid) => {
                        if !open && !positions.contains_key(&oid) {
                            return Ok(Some(oid));
                        }
                        proof {
                            lemma_mark(cover, marks, oid, ObjectType::Tag);
                        }
                        state.mark(positions, Ghost(cover), &oid, ObjectType::Tag);
                    },
                    BitmapTask::Blob(oid) => {
                        if !open && !positions.contains_key(&oid) {
                            return Ok(Some(oid));
                        }
                        proof {
                            lemma_mark(cover, marks, oid, ObjectType::Blob);
                        }
                        state.mark(positions, Ghost(cover), &oid, ObjectType::Blob);
                    },
                    BitmapTask::Tree(oid) => {
                        if !open && !positions.contains_key(&oid) {
                            return Ok(Some(oid));
                        }
                        proof {
                            lemma_mark(cover, marks, oid, ObjectType::Tree);
                        }
                        if state.mark(positions, Ghost(cover), &oid, ObjectType::Tree) {
                            let mut more = list_next_tasks(reader, with_objects, &oid, false);
                            stack.append(&mut more);
                        }
                    },
                    BitmapTask::Commit(oid) => {
                        proof {
                            lemma_mark(cover, marks, oid, ObjectType::Commit);
                        }
                        match positions.get(&oid) {
                            None => {
                                if !open {
                                    return Ok(Some(oid));
                                }
                                if state.mark(positions, Ghost(cover), &oid, ObjectType::Commit) {
                                    let mut more = list_next_tasks(reader, with_objects, &oid, true);
                                    stack.append(&mut more);
                                }
                            },
                            Some(position) => {
                                if !bitset_get(&state.words, *position) {
                                    match stored.get(&oid) {
                                        Some(closure) => {
                                            proof {
                                                lemma_unmarked_shrinks(
                                                    cover,
                                                    marks,
                                                    with_stored(cover, marks, oid),
                                                );
                                            }
                                            bitset_or(&mut state.words, closure);
                                            assert(state.marks() == with_stored(cover, marks, oid));
                                        },
                                        None => {
                                            state.mark(positions, Ghost(cover), &oid, ObjectType::Commit);
                                            let mut more = list_next_tasks(reader, with_objects, &oid, true);
                                            stack.append(&mut more);
                                        },
                                    }
                                }
                            },
                        }
                    },
                }
            },
        }
    }
    Ok(None)
}

/// The links between the objects of a reader.
pub open spec fn object_graph<R: ObjectReader>(reader: &R) -> Schedule {
    strict_schedule(reader, Set::empty())
}

/// Whether `oid` can be reached from `starts`.
pub open spec fn leads_to<R: ObjectReader>(reader: &R, starts: Set<ObjectId>, oid: ObjectId) -> bool {
    reaches(object_graph(reader), Set::empty(), starts, oid)
}

/// Whether what the trees that `starts` lead to list as blobs links to nothing.
pub open spec fn blobs_are_leaves<R: ObjectReader>(reader: &R, starts: Set<ObjectId>) -> bool {
    forall|tree: ObjectId, i: int|
        #![trigger leads_to(reader, starts, tree), tree_entry(reader, tree, i)]
        leads_to(reader, starts, tree) ==> match tree_entry(reader, tree, i) {
            Some(entry) => entry.kind == TreeEntryKind::Blob ==> successors(object_graph(reader), entry.oid).len()
                == 0,
            None => true,
        }
}

/// What holds of the trees that ids lead to holds of those that ids below them
/// lead to.
pub proof fn lemma_leaves_below<R: ObjectReader>(reader: &R, starts: Set<ObjectId>, oid: ObjectId)
    requires
        blobs_are_leaves(reader, starts),
        leads_to(reader, starts, oid),
    ensures
        blobs_are_leaves(reader, set![oid]),
{
    assert forall|tree: ObjectId, i: int|
        #![trigger leads_to(reader, set![oid], tree), tree_entry(reader, tree, i)]
        leads_to(reader, set![oid], tree) implies match tree_entry(reader, tree, i) {
        Some(entry) => entry.kind == TreeEntryKind::Blob ==> successors(object_graph(reader), entry.oid).len() == 0,
        None => true,
    } by {
        lemma_leads_through(reader, starts, oid, tree);
    }
}

/// What holds of the trees that ids lead to holds of those that fewer ids lead
/// to.
pub proof fn lemma_leaves_of_fewer<R: ObjectReader>(reader: &R, starts: Set<ObjectId>, fewer: Set<ObjectId>)
    requires
        blobs_are_leaves(reader, starts),
        fewer.subset_of(starts),
    ensures
        blobs_are_leaves(reader, fewer),
{
    let graph = object_graph(reader);
    assert forall|tree: ObjectId, i: int|
        #![trigger leads_to(reader, fewer, tree), tree_entry(reader, tree, i)]
        leads_to(reader, fewer, tree) implies match tree_entry(reader, tree, i) {
        Some(entry) => entry.kind == TreeEntryKind::Blob ==> successors(object_graph(reader), entry.oid).len() == 0,
        None => true,
    } by {
        assert(leads_to(reader, starts, tree)) by {
            assert forall|set: Set<ObjectId>| is_closed(graph, Set::empty(), starts, set) implies set.contains(tree) by {
                assert(is_closed(graph, Set::empty(), fewer, set));
            }
        }
    }
}

/// The well-formed entry of a tree at a position.
pub open spec fn tree_entry<R: ObjectReader>(reader: &R, tree: ObjectId, i: int) -> Option<TreeEntry> {
    match reader.object_at(tree) {
        Ok(object) => match object.content {
            ObjectContent::Tree(entries) => if 0 <= i < entries@.len() {
                match entries@[i] {
                    Ok(entry) => Some(entry),
                    Err(_) => None,
                }
            } else {
                None
            },
            _ => None,
        },
        Err(_) => None,
    }
}

/// Whether each stored closure is that of its commit, and wholly covered, and
/// no two objects share a bit.
pub open spec fn is_sound<R: ObjectReader>(reader: &R, cover: Coverage) -> bool {
    &&& forall|a: ObjectId, b: ObjectId|
        #![trigger cover.positions[a], cover.positions[b]]
        cover.positions.contains_key(a) && cover.positions.contains_key(b) && cover.positions[a]
            == cover.positions[b] ==> a == b
    &&& forall|c: ObjectId| #[trigger]
        cover.stored.contains_key(c) && cover.positions.contains_key(c) ==> is_closure(
            reader,
            cover.positions,
            set![c],
            cover.stored[c],
        )
}

/// Whether `marked` holds exactly the bits of what can be reached from
/// `starts`, all of which has one.
pub open spec fn is_closure<R: ObjectReader>(
    reader: &R,
    positions: Map<ObjectId, u32>,
    starts: Set<ObjectId>,
    marked: Set<int>,
) -> bool {
    &&& forall|o: ObjectId| #[trigger]
        leads_to(reader, starts, o) <==> positions.contains_key(o) && marked.contains(positions[o] as int)
    &&& forall|p: int| #[trigger]
        marked.contains(p) ==> exists|o: ObjectId| #[trigger]
            positions.contains_key(o) && positions[o] == p
}

pub open spec fn task_oid(task: BitmapTask) -> Option<ObjectId> {
    match task {
        BitmapTask::Commit(oid) => Some(oid),
        BitmapTask::Tree(oid) => Some(oid),
        BitmapTask::Blob(oid) => Some(oid),
        BitmapTask::Tag(oid) => Some(oid),
        BitmapTask::Misused(_) => None,
        BitmapTask::Fail(_) => None,
    }
}

pub open spec fn schedules(stack: Seq<BitmapTask>, oid: ObjectId) -> bool {
    exists|k: int| 0 <= k < stack.len() && task_oid(#[trigger] stack[k]) == Some(oid)
}

pub open spec fn doomed(stack: Seq<BitmapTask>) -> bool {
    exists|k: int| 0 <= k < stack.len() && task_oid(#[trigger] stack[k]) is None
}

proof fn lemma_doomed(next: NextTasks, cover: Coverage, stack: Seq<BitmapTask>, marks: Marks)
    requires
        doomed(stack),
    ensures
        !(fill(next, cover, stack, marks) is Done),
    decreases unmarked(cover, marks).len(), stack.len(),
{
    let rest = stack.drop_last();
    let k = choose|k: int| 0 <= k < stack.len() && task_oid(#[trigger] stack[k]) is None;
    if task_oid(stack.last()) is Some {
        assert(rest[k] == stack[k]);
        assert(doomed(rest));
        match stack.last() {
            BitmapTask::Tag(oid) => {
                lemma_mark(cover, marks, oid, ObjectType::Tag);
                lemma_doomed(next, cover, rest, with_mark(cover, marks, oid, ObjectType::Tag));
            },
            BitmapTask::Blob(oid) => {
                lemma_mark(cover, marks, oid, ObjectType::Blob);
                lemma_doomed(next, cover, rest, with_mark(cover, marks, oid, ObjectType::Blob));
            },
            BitmapTask::Tree(oid) => {
                if has_mark(cover, marks, oid) {
                    lemma_doomed(next, cover, rest, marks);
                } else {
                    lemma_mark(cover, marks, oid, ObjectType::Tree);
                    let grown = rest + next(oid, false);
                    assert(grown[k] == stack[k]);
                    lemma_doomed(next, cover, grown, with_mark(cover, marks, oid, ObjectType::Tree));
                }
            },
            BitmapTask::Commit(oid) => {
                if has_mark(cover, marks, oid) {
                    lemma_doomed(next, cover, rest, marks);
                } else if cover.positions.contains_key(oid) && cover.stored.contains_key(oid) {
                    lemma_unmarked_shrinks(cover, marks, with_stored(cover, marks, oid));
                    lemma_doomed(next, cover, rest, with_stored(cover, marks, oid));
                } else {
                    lemma_mark(cover, marks, oid, ObjectType::Commit);
                    let grown = rest + next(oid, true);
                    assert(grown[k] == stack[k]);
                    lemma_doomed(next, cover, grown, with_mark(cover, marks, oid, ObjectType::Commit));
                }
            },
            _ => {},
        }
    }
}

/// Whether a tree lists an object other than as a gitlink.
spec fn lists(entries: Seq<Result<TreeEntry, GitError>>, oid: ObjectId) -> bool {
    exists|i: int|
        0 <= i < entries.len() && (#[trigger] entries[i]) is Ok && entries[i]->Ok_0.kind
            != TreeEntryKind::Gitlink && entries[i]->Ok_0.oid == oid
}

proof fn lemma_tree_links(entries: Seq<Result<TreeEntry, GitError>>)
    requires
        forall|i: int| 0 <= i < entries.len() ==> (#[trigger] entries[i]) is Ok,
    ensures
        tree_links(entries) is Ok,
        forall|oid: ObjectId| #[trigger]
            tree_links(entries)->Ok_0.contains(oid) <==> lists(entries, oid),
    decreases entries.len(),
{
    if entries.len() > 0 {
        let rest = entries.drop_last();
        lemma_tree_links(rest);
        let links = tree_links(rest)->Ok_0;
        let all = tree_links(entries)->Ok_0;
        let last = entries.last()->Ok_0;
        assert(entries.last() is Ok);
        assert forall|oid: ObjectId| #[trigger] all.contains(oid) <==> lists(entries, oid) by {
            if all.contains(oid) {
                let i = choose|i: int| 0 <= i < all.len() && all[i] == oid;
                if i < links.len() {
                    assert(links[i] == oid);
                    assert(links.contains(oid));
                    let j = choose|j: int|
                        0 <= j < rest.len() && (#[trigger] rest[j]) is Ok && rest[j]->Ok_0.kind
                            != TreeEntryKind::Gitlink && rest[j]->Ok_0.oid == oid;
                    assert(entries[j] == rest[j]);
                } else {
                    assert(entries[entries.len() - 1] == entries.last());
                }
            }
            if lists(entries, oid) {
                let j = choose|j: int|
                    0 <= j < entries.len() && (#[trigger] entries[j]) is Ok && entries[j]->Ok_0.kind
                        != TreeEntryKind::Gitlink && entries[j]->Ok_0.oid == oid;
                if j < rest.len() {
                    assert(rest[j] == entries[j]);
                    assert(links.contains(oid));
                    let i = choose|i: int| 0 <= i < links.len() && links[i] == oid;
                    assert(all[i] == oid);
                } else {
                    assert(all[all.len() - 1] == oid);
                }
            }
        }
    }
}

proof fn lemma_tree_tasks(entries: Seq<Result<TreeEntry, GitError>>)
    requires
        !doomed(tree_tasks(entries)),
    ensures
        forall|i: int| 0 <= i < entries.len() ==> (#[trigger] entries[i]) is Ok,
        forall|oid: ObjectId| #[trigger] schedules(tree_tasks(entries), oid) <==> lists(entries, oid),
        forall|k: int|
            0 <= k < tree_tasks(entries).len() ==> {
                ||| (#[trigger] tree_tasks(entries)[k]) is Tree
                ||| tree_tasks(entries)[k] is Blob && exists|i: int|
                    0 <= i < entries.len() && (#[trigger] entries[i]) is Ok && entries[i]->Ok_0.kind
                        == TreeEntryKind::Blob && BitmapTask::Blob(entries[i]->Ok_0.oid)
                        == tree_tasks(entries)[k]
            },
    decreases entries.len(),
{
    if entries.len() > 0 {
        let rest = entries.drop_first();
        let below = tree_tasks(rest);
        let all = tree_tasks(entries);
        assert(!doomed(below)) by {
            if doomed(below) {
                let k = choose|k: int| 0 <= k < below.len() && task_oid(#[trigger] below[k]) is None;
                assert(all[k] == below[k]);
            }
        }
        lemma_tree_tasks(rest);
        if entries[0] is Err {
            assert(task_oid(all[below.len() as int]) is None);
        }
        assert forall|i: int| 0 <= i < entries.len() implies (#[trigger] entries[i]) is Ok by {
            if i > 0 {
                assert(rest[i - 1] == entries[i]);
            }
        }
        assert forall|oid: ObjectId| #[trigger] schedules(all, oid) <==> lists(entries, oid) by {
            if schedules(all, oid) {
                let k = choose|k: int| 0 <= k < all.len() && task_oid(#[trigger] all[k]) == Some(oid);
                if k < below.len() {
                    assert(below[k] == all[k]);
                    assert(schedules(below, oid));
                    let j = choose|j: int|
                        0 <= j < rest.len() && (#[trigger] rest[j]) is Ok && rest[j]->Ok_0.kind
                            != TreeEntryKind::Gitlink && rest[j]->Ok_0.oid == oid;
                    assert(entries[j + 1] == rest[j]);
                } else {
                    assert(entries[0] is Ok);
                }
            }
            if lists(entries, oid) {
                let j = choose|j: int|
                    0 <= j < entries.len() && (#[trigger] entries[j]) is Ok && entries[j]->Ok_0.kind
                        != TreeEntryKind::Gitlink && entries[j]->Ok_0.oid == oid;
                if j > 0 {
                    assert(rest[j - 1] == entries[j]);
                    assert(lists(rest, oid));
                    assert(schedules(below, oid));
                    let k = choose|k: int| 0 <= k < below.len() && task_oid(#[trigger] below[k]) == Some(oid);
                    assert(all[k] == below[k]);
                } else {
                    assert(task_oid(all[below.len() as int]) == Some(oid));
                }
            }
        }
        assert forall|k: int| 0 <= k < all.len() implies {
            ||| (#[trigger] all[k]) is Tree
            ||| all[k] is Blob && exists|i: int|
                0 <= i < entries.len() && (#[trigger] entries[i]) is Ok && entries[i]->Ok_0.kind
                    == TreeEntryKind::Blob && BitmapTask::Blob(entries[i]->Ok_0.oid) == all[k]
        } by {
            if k < below.len() {
                assert(all[k] == below[k]);
                if all[k] is Blob {
                    let i = choose|i: int|
                        0 <= i < rest.len() && (#[trigger] rest[i]) is Ok && rest[i]->Ok_0.kind
                            == TreeEntryKind::Blob && BitmapTask::Blob(rest[i]->Ok_0.oid) == below[k];
                    assert(entries[i + 1] == rest[i]);
                }
            } else {
                assert(entries[0] is Ok);
            }
        }
    }
}

/// What holds of a walk in progress.
spec fn in_progress<R: ObjectReader>(
    reader: &R,
    cover: Coverage,
    starts: Set<ObjectId>,
    stack: Seq<BitmapTask>,
    marks: Marks,
) -> bool {
    let graph = object_graph(reader);
    &&& forall|o: ObjectId| #[trigger] has_mark(cover, marks, o) ==> leads_to(reader, starts, o)
    &&& forall|p: int| #[trigger]
        marks.bits.contains(p) ==> exists|o: ObjectId| #[trigger]
            cover.positions.contains_key(o) && cover.positions[o] == p
    &&& forall|k: int|
        0 <= k < stack.len() && task_oid(#[trigger] stack[k]) is Some ==> leads_to(
            reader,
            starts,
            task_oid(stack[k])->Some_0,
        )
    &&& forall|o: ObjectId| #[trigger]
        starts.contains(o) ==> has_mark(cover, marks, o) || schedules(stack, o)
    &&& forall|o: ObjectId, nxt: ObjectId|
        #![trigger has_mark(cover, marks, o), successors(graph, o).contains(nxt)]
        has_mark(cover, marks, o) && successors(graph, o).contains(nxt) ==> has_mark(cover, marks, nxt)
            || schedules(stack, nxt)
    &&& forall|k: int, nxt: ObjectId|
        #![trigger stack[k], schedules(stack.take(k), nxt)]
        0 <= k < stack.len() && stack[k] is Tag && successors(graph, stack[k]->Tag_0).contains(nxt)
            ==> has_mark(cover, marks, nxt) || schedules(stack.take(k), nxt)
    &&& forall|k: int|
        0 <= k < stack.len() && (#[trigger] stack[k]) is Blob ==> successors(graph, stack[k]->Blob_0).len() == 0
}

proof fn lemma_leads_on<R: ObjectReader>(reader: &R, starts: Set<ObjectId>, o: ObjectId, nxt: ObjectId)
    requires
        leads_to(reader, starts, o),
        successors(object_graph(reader), o).contains(nxt),
    ensures
        leads_to(reader, starts, nxt),
{
    let graph = object_graph(reader);
    assert forall|set: Set<ObjectId>| is_closed(graph, Set::empty(), starts, set) implies set.contains(nxt) by {
        assert(set.contains(o));
    }
}

pub proof fn lemma_leads_through<R: ObjectReader>(reader: &R, starts: Set<ObjectId>, c: ObjectId, o: ObjectId)
    requires
        leads_to(reader, starts, c),
        leads_to(reader, set![c], o),
    ensures
        leads_to(reader, starts, o),
{
    let graph = object_graph(reader);
    assert forall|set: Set<ObjectId>| is_closed(graph, Set::empty(), starts, set) implies set.contains(o) by {
        assert(set.contains(c));
        assert(is_closed(graph, Set::empty(), set![c], set));
    }
}

/// A step that marks the task it takes keeps a walk in progress.
proof fn lemma_step<R: ObjectReader>(
    reader: &R,
    cover: Coverage,
    starts: Set<ObjectId>,
    stack: Seq<BitmapTask>,
    marks: Marks,
    more: Seq<BitmapTask>,
    marked: Marks,
)
    requires
        in_progress(reader, cover, starts, stack, marks),
        stack.len() > 0,
        task_oid(stack.last()) is Some,
        has_mark(cover, marked, task_oid(stack.last())->Some_0),
        forall|o: ObjectId| #[trigger] has_mark(cover, marks, o) ==> has_mark(cover, marked, o),
        forall|o: ObjectId| #[trigger] has_mark(cover, marked, o) ==> leads_to(reader, starts, o),
        forall|p: int| #[trigger]
            marked.bits.contains(p) ==> exists|o: ObjectId| #[trigger]
                cover.positions.contains_key(o) && cover.positions[o] == p,
        forall|o: ObjectId, nxt: ObjectId|
            #![trigger has_mark(cover, marked, o), successors(object_graph(reader), o).contains(nxt)]
            has_mark(cover, marked, o) && !has_mark(cover, marks, o) && successors(
                object_graph(reader),
                o,
            ).contains(nxt) ==> has_mark(cover, marked, nxt) || schedules(stack.drop_last() + more, nxt),
        forall|k: int|
            0 <= k < more.len() ==> {
                &&& task_oid(#[trigger] more[k]) is Some
                &&& leads_to(reader, starts, task_oid(more[k])->Some_0)
                &&& !(more[k] is Tag)
                &&& more[k] is Blob ==> successors(object_graph(reader), more[k]->Blob_0).len() == 0
            },
    ensures
        in_progress(reader, cover, starts, stack.drop_last() + more, marked),
{
    let graph = object_graph(reader);
    let rest = stack.drop_last();
    let grown = rest + more;
    let oid = task_oid(stack.last())->Some_0;
    assert forall|o: ObjectId| schedules(stack, o) implies o == oid || #[trigger] schedules(grown, o) by {
        let k = choose|k: int| 0 <= k < stack.len() && task_oid(#[trigger] stack[k]) == Some(o);
        if k < rest.len() {
            assert(grown[k] == stack[k]);
        }
    }
    assert forall|k: int| 0 <= k < grown.len() && task_oid(#[trigger] grown[k]) is Some implies leads_to(
        reader,
        starts,
        task_oid(grown[k])->Some_0,
    ) by {
        if k < rest.len() {
            assert(grown[k] == stack[k]);
        } else {
            assert(grown[k] == more[k - rest.len()]);
        }
    }
    assert forall|o: ObjectId| #[trigger] starts.contains(o) implies has_mark(cover, marked, o) || schedules(
        grown,
        o,
    ) by {
        if !has_mark(cover, marks, o) {
            assert(schedules(stack, o));
        }
    }
    assert forall|o: ObjectId, nxt: ObjectId|
        #![trigger has_mark(cover, marked, o), successors(graph, o).contains(nxt)]
        has_mark(cover, marked, o) && successors(graph, o).contains(nxt) implies has_mark(cover, marked, nxt)
        || schedules(grown, nxt) by {
        if has_mark(cover, marks, o) {
            assert(has_mark(cover, marks, nxt) || schedules(stack, nxt));
        }
    }
    assert forall|k: int, nxt: ObjectId|
        #![trigger grown[k], schedules(grown.take(k), nxt)]
        0 <= k < grown.len() && grown[k] is Tag && successors(graph, grown[k]->Tag_0).contains(nxt)
        implies has_mark(cover, marked, nxt) || schedules(grown.take(k), nxt) by {
        if k < rest.len() {
            assert(grown[k] == stack[k]);
            assert(grown.take(k) =~= stack.take(k));
            assert(has_mark(cover, marks, nxt) || schedules(stack.take(k), nxt));
        } else {
            assert(grown[k] == more[k - rest.len()]);
        }
    }
    assert forall|k: int| 0 <= k < grown.len() && (#[trigger] grown[k]) is Blob implies successors(
        graph,
        grown[k]->Blob_0,
    ).len() == 0 by {
        if k < rest.len() {
            assert(grown[k] == stack[k]);
        } else {
            assert(grown[k] == more[k - rest.len()]);
        }
    }
}

/// The tasks that a newly marked object leads to are its links.
proof fn lemma_next_tasks<R: ObjectReader>(reader: &R, starts: Set<ObjectId>, oid: ObjectId, as_commit: bool)
    requires
        blobs_are_leaves(reader, starts),
        leads_to(reader, starts, oid),
        !doomed(next_tasks(reader, true, oid, as_commit)),
    ensures
        ({
            let tasks = next_tasks(reader, true, oid, as_commit);
            let graph = object_graph(reader);
            &&& forall|nxt: ObjectId| #[trigger]
                successors(graph, oid).contains(nxt) <==> schedules(tasks, nxt)
            &&& forall|k: int|
                0 <= k < tasks.len() ==> {
                    &&& task_oid(#[trigger] tasks[k]) is Some
                    &&& !(tasks[k] is Tag)
                    &&& tasks[k] is Blob ==> successors(graph, tasks[k]->Blob_0).len() == 0
                }
        }),
{
    let tasks = next_tasks(reader, true, oid, as_commit);
    let graph = object_graph(reader);
    assert forall|k: int| 0 <= k < tasks.len() implies task_oid(#[trigger] tasks[k]) is Some by {}
    match reader.object_at(oid) {
        Err(err) => {
            assert(task_oid(tasks[0]) is None);
        },
        Ok(object) => match object.content {
            ObjectContent::Commit(Ok(commit)) => {
                if as_commit {
                    let parents = followed_parents(commit, reader.grafted(oid));
                    let next = successors(graph, oid);
                    assert(next == parents.reverse().push(commit.tree));
                    assert(tasks.len() == parents.len() + 1);
                    assert forall|nxt: ObjectId| #[trigger] next.contains(nxt) <==> schedules(tasks, nxt) by {
                        if next.contains(nxt) {
                            let i = choose|i: int| 0 <= i < next.len() && next[i] == nxt;
                            if i < parents.len() {
                                assert(task_oid(tasks[parents.len() - 1 - i]) == Some(nxt));
                            } else {
                                assert(task_oid(tasks[i]) == Some(nxt));
                            }
                        }
                        if schedules(tasks, nxt) {
                            let k = choose|k: int| 0 <= k < tasks.len() && task_oid(#[trigger] tasks[k]) == Some(nxt);
                            if k < parents.len() {
                                assert(next[parents.len() - 1 - k] == nxt);
                            } else {
                                assert(next[k] == nxt);
                            }
                        }
                    }
                } else {
                    assert(task_oid(tasks[0]) is None);
                }
            },
            ObjectContent::Tree(entries) => {
                if as_commit {
                    assert(task_oid(tasks[0]) is None);
                } else {
                    lemma_tree_tasks(entries@);
                    lemma_tree_links(entries@);
                    let links = tree_links(entries@)->Ok_0;
                    let next = successors(graph, oid);
                    assert(next == links.reverse());
                    assert forall|nxt: ObjectId| #[trigger] next.contains(nxt) <==> schedules(tasks, nxt) by {
                        if next.contains(nxt) {
                            let i = choose|i: int| 0 <= i < next.len() && next[i] == nxt;
                            assert(links[links.len() - 1 - i] == nxt);
                            assert(links.contains(nxt));
                        }
                        if links.contains(nxt) {
                            let i = choose|i: int| 0 <= i < links.len() && links[i] == nxt;
                            assert(next[links.len() - 1 - i] == nxt);
                        }
                    }
                    assert forall|k: int| 0 <= k < tasks.len() && (#[trigger] tasks[k]) is Blob implies successors(
                        graph,
                        tasks[k]->Blob_0,
                    ).len() == 0 by {
                        let i = choose|i: int|
                            0 <= i < entries@.len() && (#[trigger] entries@[i]) is Ok && entries@[i]->Ok_0.kind
                                == TreeEntryKind::Blob && BitmapTask::Blob(entries@[i]->Ok_0.oid) == tasks[k];
                        assert(tree_entry(reader, oid, i) == Some(entries@[i]->Ok_0));
                    }
                }
            },
            _ => {
                if tasks.len() > 0 {
                    assert(task_oid(tasks[0]) is None);
                }
                assert(successors(graph, oid) =~= Seq::empty());
            },
        },
    }
}

/// Marking one covered or admitted object adds its mark and no other.
pub proof fn lemma_mark_adds_one(cover: Coverage, marks: Marks, oid: ObjectId, object_type: ObjectType)
    requires
        forall|a: ObjectId, b: ObjectId|
            #![trigger cover.positions[a], cover.positions[b]]
            cover.positions.contains_key(a) && cover.positions.contains_key(b) && cover.positions[a]
                == cover.positions[b] ==> a == b,
    ensures
        forall|o: ObjectId| #[trigger]
            has_mark(cover, with_mark(cover, marks, oid, object_type), o) <==> has_mark(cover, marks, o) || o
                == oid,
{
    lemma_mark(cover, marks, oid, object_type);
    let next = with_mark(cover, marks, oid, object_type);
    assert forall|o: ObjectId| #[trigger] has_mark(cover, next, o) implies has_mark(cover, marks, o) || o == oid by {
        if !cover.positions.contains_key(o) {
            let i = choose|i: int| 0 <= i < next.extended.len() && outside(next.extended)[i] == o;
            if i < marks.extended.len() {
                assert(outside(marks.extended)[i] == o);
            }
        } else if cover.positions.contains_key(oid) {
            assert(cover.positions[o] == cover.positions[oid] ==> o == oid);
        }
    }
}

proof fn lemma_fill_progress<R: ObjectReader>(
    reader: &R,
    cover: Coverage,
    starts: Set<ObjectId>,
    stack: Seq<BitmapTask>,
    marks: Marks,
)
    requires
        blobs_are_leaves(reader, starts),
        is_sound(reader, cover),
        in_progress(reader, cover, starts, stack, marks),
    ensures
        fill(reader_tasks(reader, true), cover, stack, marks) matches FillEnd::Done(all) ==> in_progress(
            reader,
            cover,
            starts,
            Seq::empty(),
            all,
        ),
    decreases unmarked(cover, marks).len(), stack.len(),
{
    let next = reader_tasks(reader, true);
    let graph = object_graph(reader);
    if stack.len() == 0 {
        assert(stack =~= Seq::<BitmapTask>::empty());
    } else if doomed(stack) {
        lemma_doomed(next, cover, stack, marks);
    } else {
        let rest = stack.drop_last();
        let none = Seq::<BitmapTask>::empty();
        assert(rest + none =~= rest);
        let oid = task_oid(stack[stack.len() - 1])->Some_0;
        assert(stack[stack.len() - 1] == stack.last());
        assert(task_oid(stack.last()) is Some);
        match stack.last() {
            BitmapTask::Tag(tag) => {
                if admits(cover, tag) {
                    let marked = with_mark(cover, marks, tag, ObjectType::Tag);
                    lemma_mark(cover, marks, tag, ObjectType::Tag);
                    lemma_mark_adds_one(cover, marks, tag, ObjectType::Tag);
                    assert(stack.take(stack.len() - 1) =~= rest);
                    assert forall|o: ObjectId, nxt: ObjectId|
                        #![trigger has_mark(cover, marked, o), successors(graph, o).contains(nxt)]
                        has_mark(cover, marked, o) && !has_mark(cover, marks, o) && successors(
                            graph,
                            o,
                        ).contains(nxt) implies has_mark(cover, marked, nxt) || schedules(rest + none, nxt) by {
                        assert(has_mark(cover, marks, nxt) || schedules(stack.take(stack.len() - 1), nxt));
                    }
                    lemma_step(reader, cover, starts, stack, marks, none, marked);
                    lemma_fill_progress(reader, cover, starts, rest, marked);
                }
            },
            BitmapTask::Blob(blob) => {
                if admits(cover, blob) {
                    let marked = with_mark(cover, marks, blob, ObjectType::Blob);
                    lemma_mark(cover, marks, blob, ObjectType::Blob);
                    lemma_mark_adds_one(cover, marks, blob, ObjectType::Blob);
                    lemma_step(reader, cover, starts, stack, marks, none, marked);
                    lemma_fill_progress(reader, cover, starts, rest, marked);
                }
            },
            BitmapTask::Tree(tree) => {
                if admits(cover, tree) {
                    if has_mark(cover, marks, tree) {
                        lemma_step(reader, cover, starts, stack, marks, none, marks);
                        lemma_fill_progress(reader, cover, starts, rest, marks);
                    } else {
                        let marked = with_mark(cover, marks, tree, ObjectType::Tree);
                        lemma_mark(cover, marks, tree, ObjectType::Tree);
                        let grown = rest + next(tree, false);
                        if doomed(grown) {
                            lemma_doomed(next, cover, grown, marked);
                        } else {
                            lemma_expand(reader, cover, starts, stack, marks, tree, false, ObjectType::Tree);
                            lemma_fill_progress(reader, cover, starts, grown, marked);
                        }
                    }
                }
            },
            BitmapTask::Commit(commit) => {
                if admits(cover, commit) {
                    if has_mark(cover, marks, commit) {
                        lemma_step(reader, cover, starts, stack, marks, none, marks);
                        lemma_fill_progress(reader, cover, starts, rest, marks);
                    } else if cover.positions.contains_key(commit) && cover.stored.contains_key(commit) {
                        let marked = with_stored(cover, marks, commit);
                        lemma_unmarked_shrinks(cover, marks, marked);
                        let closure = cover.stored[commit];
                        assert(is_closure(reader, cover.positions, set![commit], closure));
                        assert(leads_to(reader, set![commit], commit)) by {
                            assert forall|set: Set<ObjectId>|
                                is_closed(graph, Set::empty(), set![commit], set) implies set.contains(commit) by {
                                assert(set![commit].contains(commit));
                            }
                        }
                        assert forall|o: ObjectId| #[trigger] has_mark(cover, marked, o) implies leads_to(
                            reader,
                            starts,
                            o,
                        ) by {
                            if !has_mark(cover, marks, o) {
                                assert(leads_to(reader, set![commit], o));
                                lemma_leads_through(reader, starts, commit, o);
                            }
                        }
                        assert forall|o: ObjectId, nxt: ObjectId|
                            #![trigger has_mark(cover, marked, o), successors(graph, o).contains(nxt)]
                            has_mark(cover, marked, o) && !has_mark(cover, marks, o) && successors(
                                graph,
                                o,
                            ).contains(nxt) implies has_mark(cover, marked, nxt) || schedules(rest + none, nxt) by {
                            assert(leads_to(reader, set![commit], o));
                            lemma_leads_on(reader, set![commit], o, nxt);
                            assert(has_mark(cover, marked, nxt));
                        }
                        lemma_step(reader, cover, starts, stack, marks, none, marked);
                        lemma_fill_progress(reader, cover, starts, rest, marked);
                    } else {
                        let marked = with_mark(cover, marks, commit, ObjectType::Commit);
                        lemma_mark(cover, marks, commit, ObjectType::Commit);
                        let grown = rest + next(commit, true);
                        if doomed(grown) {
                            lemma_doomed(next, cover, grown, marked);
                        } else {
                            lemma_expand(reader, cover, starts, stack, marks, commit, true, ObjectType::Commit);
                            lemma_fill_progress(reader, cover, starts, grown, marked);
                        }
                    }
                }
            },
            _ => {},
        }
    }
}

proof fn lemma_expand<R: ObjectReader>(
    reader: &R,
    cover: Coverage,
    starts: Set<ObjectId>,
    stack: Seq<BitmapTask>,
    marks: Marks,
    oid: ObjectId,
    as_commit: bool,
    object_type: ObjectType,
)
    requires
        blobs_are_leaves(reader, starts),
        is_sound(reader, cover),
        in_progress(reader, cover, starts, stack, marks),
        stack.len() > 0,
        task_oid(stack.last()) == Some(oid),
        !doomed(stack.drop_last() + next_tasks(reader, true, oid, as_commit)),
        !has_mark(cover, marks, oid),
    ensures
        in_progress(
            reader,
            cover,
            starts,
            stack.drop_last() + next_tasks(reader, true, oid, as_commit),
            with_mark(cover, marks, oid, object_type),
        ),
{
    let more = next_tasks(reader, true, oid, as_commit);
    let rest = stack.drop_last();
    let grown = rest + more;
    let graph = object_graph(reader);
    let marked = with_mark(cover, marks, oid, object_type);
    assert(stack[stack.len() - 1] == stack.last());
    assert(leads_to(reader, starts, oid));
    assert forall|k: int| 0 <= k < more.len() implies task_oid(#[trigger] more[k]) is Some by {
        assert(grown[rest.len() + k] == more[k]);
    }
    lemma_next_tasks(reader, starts, oid, as_commit);
    lemma_mark(cover, marks, oid, object_type);
    lemma_mark_adds_one(cover, marks, oid, object_type);
    assert forall|o: ObjectId, nxt: ObjectId|
        #![trigger has_mark(cover, marked, o), successors(graph, o).contains(nxt)]
        has_mark(cover, marked, o) && !has_mark(cover, marks, o) && successors(graph, o).contains(nxt)
        implies has_mark(cover, marked, nxt) || schedules(grown, nxt) by {
        assert(schedules(more, nxt));
        let k = choose|k: int| 0 <= k < more.len() && task_oid(#[trigger] more[k]) == Some(nxt);
        assert(grown[rest.len() + k] == more[k]);
    }
    assert forall|k: int| 0 <= k < more.len() implies leads_to(
        reader,
        starts,
        task_oid(#[trigger] more[k])->Some_0,
    ) by {
        let nxt = task_oid(more[k])->Some_0;
        assert(schedules(more, nxt));
        lemma_leads_on(reader, starts, oid, nxt);
    }
    lemma_step(reader, cover, starts, stack, marks, more, marked);
}

/// Marks of a walk that has not begun.
pub open spec fn no_marks() -> Marks {
    Marks { bits: Set::empty(), extended: Seq::empty() }
}

pub open spec fn commit_roots(roots: Seq<ObjectId>) -> Seq<BitmapTask> {
    roots.map_values(|oid: ObjectId| BitmapTask::Commit(oid))
}

/// Where the walk ends that marks what `roots`, all of them commits, lead to,
/// and may not leave what is covered.
pub open spec fn commit_closure<R: ObjectReader>(
    reader: &R,
    positions: Map<ObjectId, u32>,
    stored: Map<ObjectId, Set<int>>,
    roots: Seq<ObjectId>,
) -> FillEnd {
    fill(
        reader_tasks(reader, true),
        Coverage { positions, stored, open: false },
        commit_roots(roots),
        no_marks(),
    )
}

/// The closure of commits, or an object of it that is not covered.
pub enum BitmapClosure {
    Closed(Vec<u64>),
    Missing(ObjectId),
}

/// Marks what `roots` lead to, with closures already known for some commits.
pub fn bitmap_commit_closure<R: ObjectReader>(
    reader: &R,
    roots: &[ObjectId],
    oid_to_pack: &OidMap<u32>,
    word_count: usize,
    memo: &OidMap<Arc<Vec<u64>>>,
) -> (closure: Result<BitmapClosure, GitError>)
    requires
        fits(oid_to_pack@, memo@, word_count as nat),
    ensures
        match commit_closure(reader, oid_to_pack@, stored_bits(memo@), roots@) {
            FillEnd::Done(marks) => closure matches Ok(BitmapClosure::Closed(words)) && words@.len()
                == word_count && bits(words@) == marks.bits,
            FillEnd::Missing(oid) => closure matches Ok(BitmapClosure::Missing(missing)) && missing == oid,
            FillEnd::Misused(oid) => closure matches Err(err) && is_misuse(err, oid),
            FillEnd::Failed(failure) => closure matches Err(err) && err == failure,
        },
{
    let mut tasks: Vec<BitmapTask> = Vec::with_capacity(roots.len());
    let mut i: usize = 0;
    while i < roots.len()
        invariant
            i <= roots@.len(),
            tasks@ == commit_roots(roots@.take(i as int)),
        decreases roots@.len() - i,
    {
        tasks.push(BitmapTask::Commit(roots[i]));
        assert(tasks@ =~= commit_roots(roots@.take(i + 1)));
        i += 1;
    }
    assert(roots@.take(i as int) =~= roots@);
    let mut state = FillState::new(word_count);
    match run_fill(reader, oid_to_pack, memo, false, true, tasks, &mut state) {
        Err(err) => Err(err),
        Ok(Some(oid)) => Ok(BitmapClosure::Missing(oid)),
        Ok(None) => Ok(BitmapClosure::Closed(state.words)),
    }
}

pub proof fn lemma_start_leads<R: ObjectReader>(reader: &R, starts: Set<ObjectId>, oid: ObjectId)
    requires
        starts.contains(oid),
    ensures
        leads_to(reader, starts, oid),
{
    assert forall|set: Set<ObjectId>| is_closed(object_graph(reader), Set::empty(), starts, set)
        implies set.contains(oid) by {}
}

/// A walk that is done has marked exactly what its starts lead to.
proof fn lemma_done_is_closed<R: ObjectReader>(reader: &R, cover: Coverage, starts: Set<ObjectId>, marks: Marks)
    requires
        in_progress(reader, cover, starts, Seq::empty(), marks),
    ensures
        forall|o: ObjectId| #[trigger] leads_to(reader, starts, o) <==> has_mark(cover, marks, o),
{
    let graph = object_graph(reader);
    let set = Set::new(|o: ObjectId| has_mark(cover, marks, o));
    assert(is_closed(graph, Set::empty(), starts, set)) by {
        assert forall|o: ObjectId, nxt: ObjectId|
            #![trigger set.contains(o), successors(graph, o).contains(nxt)]
            set.contains(o) && successors(graph, o).contains(nxt) && !Set::<ObjectId>::empty().contains(nxt)
            implies set.contains(nxt) by {
            assert(has_mark(cover, marks, o));
        }
    }
    assert forall|o: ObjectId| #[trigger] leads_to(reader, starts, o) implies has_mark(cover, marks, o) by {
        assert(set.contains(o));
    }
}

/// The closure computed for commits holds exactly the bits of what they lead
/// to, all of which is covered; so a pack that lacks any of it yields none.
pub proof fn law_closure_is_reachability<R: ObjectReader>(
    reader: &R,
    positions: Map<ObjectId, u32>,
    stored: Map<ObjectId, Set<int>>,
    roots: Seq<ObjectId>,
)
    requires
        blobs_are_leaves(reader, roots.to_set()),
        is_sound(reader, (Coverage { positions, stored, open: false })),
    ensures
        commit_closure(reader, positions, stored, roots) matches FillEnd::Done(marks) ==> is_closure(
            reader,
            positions,
            roots.to_set(),
            marks.bits,
        ),
{
    let cover = Coverage { positions, stored, open: false };
    let starts = roots.to_set();
    let stack = commit_roots(roots);
    let graph = object_graph(reader);
    assert forall|k: int| 0 <= k < stack.len() && task_oid(#[trigger] stack[k]) is Some implies leads_to(
        reader,
        starts,
        task_oid(stack[k])->Some_0,
    ) by {
        assert(roots.contains(roots[k]));
        lemma_start_leads(reader, starts, roots[k]);
    }
    assert forall|o: ObjectId| #[trigger] starts.contains(o) implies schedules(stack, o) by {
        let i = choose|i: int| 0 <= i < roots.len() && roots[i] == o;
        assert(task_oid(stack[i]) == Some(o));
    }
    assert(in_progress(reader, cover, starts, stack, no_marks()));
    lemma_fill_progress(reader, cover, starts, stack, no_marks());
    if let FillEnd::Done(marks) = commit_closure(reader, positions, stored, roots) {
        lemma_done_is_closed(reader, cover, starts, marks);
        lemma_extended_stays_empty(reader_tasks(reader, true), cover, stack, no_marks());
        assert forall|o: ObjectId| #[trigger] leads_to(reader, starts, o) <==> positions.contains_key(o)
            && marks.bits.contains(positions[o] as int) by {
            assert(has_mark(cover, marks, o) == (positions.contains_key(o) && marks.bits.contains(
                positions[o] as int,
            )));
        }
    }
}

/// A walk that may not leave what is covered meets nothing outside.
proof fn lemma_extended_stays_empty(next: NextTasks, cover: Coverage, stack: Seq<BitmapTask>, marks: Marks)
    requires
        !cover.open,
        marks.extended.len() == 0,
    ensures
        fill(next, cover, stack, marks) matches FillEnd::Done(all) ==> all.extended.len() == 0,
    decreases unmarked(cover, marks).len(), stack.len(),
{
    if stack.len() > 0 {
        let rest = stack.drop_last();
        match stack.last() {
            BitmapTask::Tag(oid) => {
                lemma_mark(cover, marks, oid, ObjectType::Tag);
                if admits(cover, oid) {
                    lemma_extended_stays_empty(next, cover, rest, with_mark(cover, marks, oid, ObjectType::Tag));
                }
            },
            BitmapTask::Blob(oid) => {
                lemma_mark(cover, marks, oid, ObjectType::Blob);
                if admits(cover, oid) {
                    lemma_extended_stays_empty(next, cover, rest, with_mark(cover, marks, oid, ObjectType::Blob));
                }
            },
            BitmapTask::Tree(oid) => {
                lemma_mark(cover, marks, oid, ObjectType::Tree);
                if !admits(cover, oid) {
                } else if has_mark(cover, marks, oid) {
                    lemma_extended_stays_empty(next, cover, rest, marks);
                } else {
                    lemma_extended_stays_empty(
                        next,
                        cover,
                        rest + next(oid, false),
                        with_mark(cover, marks, oid, ObjectType::Tree),
                    );
                }
            },
            BitmapTask::Commit(oid) => {
                lemma_mark(cover, marks, oid, ObjectType::Commit);
                if !admits(cover, oid) {
                } else if has_mark(cover, marks, oid) {
                    lemma_extended_stays_empty(next, cover, rest, marks);
                } else if cover.stored.contains_key(oid) {
                    lemma_unmarked_shrinks(cover, marks, with_stored(cover, marks, oid));
                    lemma_extended_stays_empty(next, cover, rest, with_stored(cover, marks, oid));
                } else {
                    lemma_extended_stays_empty(
                        next,
                        cover,
                        rest + next(oid, true),
                        with_mark(cover, marks, oid, ObjectType::Commit),
                    );
                }
            },
            _ => {},
        }
    }
}

/// A walk that may leave what is covered never misses an object for it.
pub proof fn lemma_open_walk_misses_nothing(
    next: NextTasks,
    cover: Coverage,
    stack: Seq<BitmapTask>,
    marks: Marks,
)
    requires
        cover.open,
    ensures
        !(fill(next, cover, stack, marks) is Missing),
    decreases unmarked(cover, marks).len(), stack.len(),
{
    if stack.len() > 0 {
        let rest = stack.drop_last();
        match stack.last() {
            BitmapTask::Tag(oid) => {
                lemma_mark(cover, marks, oid, ObjectType::Tag);
                lemma_open_walk_misses_nothing(next, cover, rest, with_mark(cover, marks, oid, ObjectType::Tag));
            },
            BitmapTask::Blob(oid) => {
                lemma_mark(cover, marks, oid, ObjectType::Blob);
                lemma_open_walk_misses_nothing(next, cover, rest, with_mark(cover, marks, oid, ObjectType::Blob));
            },
            BitmapTask::Tree(oid) => {
                lemma_mark(cover, marks, oid, ObjectType::Tree);
                if has_mark(cover, marks, oid) {
                    lemma_open_walk_misses_nothing(next, cover, rest, marks);
                } else {
                    lemma_open_walk_misses_nothing(
                        next,
                        cover,
                        rest + next(oid, false),
                        with_mark(cover, marks, oid, ObjectType::Tree),
                    );
                }
            },
            BitmapTask::Commit(oid) => {
                lemma_mark(cover, marks, oid, ObjectType::Commit);
                if has_mark(cover, marks, oid) {
                    lemma_open_walk_misses_nothing(next, cover, rest, marks);
                } else if cover.positions.contains_key(oid) && cover.stored.contains_key(oid) {
                    lemma_unmarked_shrinks(cover, marks, with_stored(cover, marks, oid));
                    lemma_open_walk_misses_nothing(next, cover, rest, with_stored(cover, marks, oid));
                } else {
                    lemma_open_walk_misses_nothing(
                        next,
                        cover,
                        rest + next(oid, true),
                        with_mark(cover, marks, oid, ObjectType::Commit),
                    );
                }
            },
            _ => {},
        }
    }
}

/// The tasks that a starting point stands for, the first to be done first: its
/// chain of tags, and what the chain ends at.
pub open spec fn root_chain<R: ObjectReader>(reader: &R, oid: ObjectId, seen: Seq<ObjectId>) -> Seq<BitmapTask>
    decreases unseen(seen).len(),
{
    if seen.contains(oid) {
        seq![BitmapTask::Misused(oid)]
    } else {
        match reader.object_at(oid) {
            Err(err) => seq![BitmapTask::Fail(err)],
            Ok(object) => match object.content {
                ObjectContent::Tag(Err(err)) => seq![BitmapTask::Fail(err)],
                ObjectContent::Tag(Ok(target)) => {
                    proof {
                        lemma_unseen_shrinks(seen, oid);
                    }
                    seq![BitmapTask::Tag(oid)] + root_chain(reader, target, seen.push(oid))
                },
                ObjectContent::Commit(_) => seq![BitmapTask::Commit(oid)],
                ObjectContent::Tree(_) => seq![BitmapTask::Tree(oid)],
                ObjectContent::Blob => seq![BitmapTask::Blob(oid)],
            },
        }
    }
}

/// The tasks of starting points other than commits, in order.
pub open spec fn front_tasks<R: ObjectReader>(reader: &R, roots: Seq<ObjectId>) -> Seq<BitmapTask>
    decreases roots.len(),
{
    if roots.len() == 0 {
        Seq::empty()
    } else {
        let chain = root_chain(reader, roots.last(), Seq::empty());
        let front = front_tasks(reader, roots.drop_last());
        if chain.last() is Commit {
            front + chain.drop_last()
        } else {
            front + chain
        }
    }
}

/// The commits that starting points come down to, in order.
pub open spec fn back_tasks<R: ObjectReader>(reader: &R, roots: Seq<ObjectId>) -> Seq<BitmapTask>
    decreases roots.len(),
{
    if roots.len() == 0 {
        Seq::empty()
    } else {
        let chain = root_chain(reader, roots.last(), Seq::empty());
        let back = back_tasks(reader, roots.drop_last());
        if chain.last() is Commit {
            back.push(chain.last())
        } else {
            back
        }
    }
}

/// The stack that a walk from any starting points begins with: everything but
/// commits first, then the commits, the last of them first.
pub open spec fn root_tasks<R: ObjectReader>(reader: &R, roots: Seq<ObjectId>) -> Seq<BitmapTask> {
    back_tasks(reader, roots) + front_tasks(reader, roots).reverse()
}

/// The tasks that a starting point stands for.
fn list_root_chain<R: ObjectReader>(reader: &R, root: ObjectId) -> (tasks: Vec<BitmapTask>)
    ensures
        tasks@ == root_chain(reader, root, Seq::empty()),
        tasks@.len() > 0,
{
    let mut tasks: Vec<BitmapTask> = Vec::new();
    let mut seen = OidSet::new();
    let mut oid = root;
    assert(tasks@ + root_chain(reader, root, Seq::empty()) =~= root_chain(reader, root, Seq::empty()));
    loop
        invariant
            tasks@ + root_chain(reader, oid, seen.items()) == root_chain(reader, root, Seq::empty()),
        decreases unseen(seen.items()).len(),
    {
        assert(seen@.contains(oid) == seen.items().contains(oid));
        if seen.contains(&oid) {
            tasks.push(BitmapTask::Misused(oid));
            assert(tasks@ =~= root_chain(reader, root, Seq::empty()));
            return tasks;
        }
        match reader.read_object(&oid) {
            Err(err) => {
                tasks.push(BitmapTask::Fail(err));
                assert(tasks@ =~= root_chain(reader, root, Seq::empty()));
                return tasks;
            },
            Ok(object) => match &object.content {
                ObjectContent::Tag(Err(err)) => {
                    tasks.push(BitmapTask::Fail(err.copy()));
                    assert(tasks@ =~= root_chain(reader, root, Seq::empty()));
                    return tasks;
                },
                ObjectContent::Tag(Ok(target)) => {
                    let ghost held = tasks@;
                    proof {
                        lemma_unseen_shrinks(seen.items(), oid);
                    }
                    tasks.push(BitmapTask::Tag(oid));
                    let ghost rest = root_chain(reader, *target, seen.items().push(oid));
                    assert(held + (seq![BitmapTask::Tag(oid)] + rest) =~= tasks@ + rest);
                    seen.insert(oid);
                    oid = *target;
                },
                ObjectContent::Commit(_) => {
                    tasks.push(BitmapTask::Commit(oid));
                    assert(tasks@ =~= root_chain(reader, root, Seq::empty()));
                    return tasks;
                },
                ObjectContent::Tree(_) => {
                    tasks.push(BitmapTask::Tree(oid));
                    assert(tasks@ =~= root_chain(reader, root, Seq::empty()));
                    return tasks;
                },
                ObjectContent::Blob => {
                    tasks.push(BitmapTask::Blob(oid));
                    assert(tasks@ =~= root_chain(reader, root, Seq::empty()));
                    return tasks;
                },
            },
        }
    }
}

/// The stack that a walk from any starting points begins with.
pub fn list_root_tasks<R: ObjectReader>(reader: &R, roots: &[ObjectId]) -> (tasks: Vec<BitmapTask>)
    ensures
        tasks@ == root_tasks(reader, roots@),
{
    let mut back: Vec<BitmapTask> = Vec::new();
    let mut front: Vec<BitmapTask> = Vec::new();
    let mut i: usize = 0;
    while i < roots.len()
        invariant
            i <= roots@.len(),
            back@ == back_tasks(reader, roots@.take(i as int)),
            front@ == front_tasks(reader, roots@.take(i as int)),
        decreases roots@.len() - i,
    {
        assert(roots@.take(i + 1).drop_last() =~= roots@.take(i as int));
        let mut chain = list_root_chain(reader, roots[i]);
        let ghost whole = chain@;
        match chain.pop() {
            None => {},
            Some(end) => {
                assert(end == whole.last() && chain@ == whole.drop_last());
                match end {
                    BitmapTask::Commit(oid) => {
                        back.push(BitmapTask::Commit(oid));
                        front.append(&mut chain);
                    },
                    other => {
                        chain.push(other);
                        assert(chain@ =~= whole);
                        front.append(&mut chain);
                    },
                }
            },
        }
        i += 1;
    }
    assert(roots@.take(i as int) =~= roots@);
    let ghost front_all = front@;
    let ghost back_all = back@;
    while front.len() > 0
        invariant
            front@.len() <= front_all.len(),
            front@ == front_all.take(front@.len() as int),
            back@ == back_all + front_all.skip(front@.len() as int).reverse(),
        decreases front@.len(),
    {
        let ghost n = front@.len();
        match front.pop() {
            None => {},
            Some(task) => {
                back.push(task);
                assert(front@ =~= front_all.take(front@.len() as int));
                assert(back@ =~= back_all + front_all.skip(front@.len() as int).reverse());
            },
        }
    }
    assert(front_all.skip(0) =~= front_all);
    back
}

proof fn lemma_root_chain<R: ObjectReader>(
    reader: &R,
    starts: Set<ObjectId>,
    oid: ObjectId,
    seen: Seq<ObjectId>,
)
    requires
        leads_to(reader, starts, oid),
    ensures
        ({
            let chain = root_chain(reader, oid, seen);
            let graph = object_graph(reader);
            &&& chain.len() > 0
            &&& task_oid(chain[0]) is None || task_oid(chain[0]) == Some(oid)
            &&& !(chain.last() is Tag)
            &&& forall|k: int|
                0 <= k < chain.len() && task_oid(#[trigger] chain[k]) is Some ==> leads_to(
                    reader,
                    starts,
                    task_oid(chain[k])->Some_0,
                )
            &&& forall|k: int, nxt: ObjectId|
                #![trigger chain[k], successors(graph, chain[k]->Tag_0).contains(nxt)]
                0 <= k < chain.len() && chain[k] is Tag && successors(graph, chain[k]->Tag_0).contains(nxt)
                    ==> k + 1 < chain.len() && (task_oid(chain[k + 1]) == Some(nxt) || task_oid(
                    chain[k + 1],
                ) is None)
            &&& forall|k: int|
                0 <= k < chain.len() && (#[trigger] chain[k]) is Blob ==> successors(
                    graph,
                    chain[k]->Blob_0,
                ).len() == 0
        }),
    decreases unseen(seen).len(),
{
    if !seen.contains(oid) {
        if let Ok(object) = reader.object_at(oid) {
            if let ObjectContent::Tag(Ok(target)) = object.content {
                lemma_unseen_shrinks(seen, oid);
                let graph = object_graph(reader);
                assert(graph(oid) == preorder_schedule(*object, reader.grafted(oid)));
                assert(successors(graph, oid) == seq![target]);
                assert(successors(graph, oid)[0] == target);
                lemma_leads_on(reader, starts, oid, target);
                lemma_root_chain(reader, starts, target, seen.push(oid));
                let rest = root_chain(reader, target, seen.push(oid));
                let chain = root_chain(reader, oid, seen);
                assert(chain == seq![BitmapTask::Tag(oid)] + rest);
                assert(chain.last() == rest.last());
                assert forall|k: int, nxt: ObjectId|
                    #![trigger chain[k], successors(graph, chain[k]->Tag_0).contains(nxt)]
                    0 <= k < chain.len() && chain[k] is Tag && successors(graph, chain[k]->Tag_0).contains(nxt)
                    implies k + 1 < chain.len() && (task_oid(chain[k + 1]) == Some(nxt) || task_oid(
                    chain[k + 1],
                ) is None) by {
                    if k == 0 {
                        assert(nxt == target);
                        assert(chain[1] == rest[0]);
                    } else {
                        assert(chain[k] == rest[k - 1]);
                        assert(chain[k + 1] == rest[k]);
                    }
                }
                assert forall|k: int| 0 <= k < chain.len() && task_oid(#[trigger] chain[k]) is Some implies leads_to(
                    reader,
                    starts,
                    task_oid(chain[k])->Some_0,
                ) by {
                    if k > 0 {
                        assert(chain[k] == rest[k - 1]);
                    }
                }
                assert forall|k: int| 0 <= k < chain.len() && (#[trigger] chain[k]) is Blob implies successors(
                    graph,
                    chain[k]->Blob_0,
                ).len() == 0 by {
                    if k > 0 {
                        assert(chain[k] == rest[k - 1]);
                    }
                }
            }
        }
    }
}

proof fn lemma_schedules_more(a: Seq<BitmapTask>, b: Seq<BitmapTask>, oid: ObjectId)
    ensures
        schedules(a + b, oid) <==> schedules(a, oid) || schedules(b, oid),
        doomed(a) || doomed(b) ==> doomed(a + b),
{
    let all = a + b;
    if schedules(a, oid) {
        let k = choose|k: int| 0 <= k < a.len() && task_oid(#[trigger] a[k]) == Some(oid);
        assert(all[k] == a[k]);
    }
    if schedules(b, oid) {
        let k = choose|k: int| 0 <= k < b.len() && task_oid(#[trigger] b[k]) == Some(oid);
        assert(all[a.len() + k] == b[k]);
    }
    if schedules(all, oid) {
        let k = choose|k: int| 0 <= k < all.len() && task_oid(#[trigger] all[k]) == Some(oid);
        if k < a.len() {
            assert(a[k] == all[k]);
        } else {
            assert(b[k - a.len()] == all[k]);
        }
    }
    if doomed(a) {
        let k = choose|k: int| 0 <= k < a.len() && task_oid(#[trigger] a[k]) is None;
        assert(all[k] == a[k]);
    }
    if doomed(b) {
        let k = choose|k: int| 0 <= k < b.len() && task_oid(#[trigger] b[k]) is None;
        assert(all[a.len() + k] == b[k]);
    }
}

/// What holds of the tasks that starting points stand for.
spec fn roots_planned<R: ObjectReader>(
    reader: &R,
    starts: Set<ObjectId>,
    roots: Seq<ObjectId>,
    front: Seq<BitmapTask>,
    back: Seq<BitmapTask>,
) -> bool {
    let graph = object_graph(reader);
    &&& forall|k: int|
        0 <= k < front.len() && task_oid(#[trigger] front[k]) is Some ==> leads_to(
            reader,
            starts,
            task_oid(front[k])->Some_0,
        )
    &&& forall|k: int|
        0 <= k < back.len() ==> (#[trigger] back[k]) is Commit && leads_to(reader, starts, back[k]->Commit_0)
    &&& forall|o: ObjectId| #[trigger] roots.contains(o) ==> schedules(front, o) || schedules(back, o)
    &&& forall|k: int, nxt: ObjectId|
        #![trigger front[k], successors(graph, front[k]->Tag_0).contains(nxt)]
        0 <= k < front.len() && front[k] is Tag && successors(graph, front[k]->Tag_0).contains(nxt)
            ==> schedules(front.skip(k + 1), nxt) || schedules(back, nxt)
    &&& forall|k: int|
        0 <= k < front.len() && (#[trigger] front[k]) is Blob ==> successors(graph, front[k]->Blob_0).len() == 0
}

proof fn lemma_roots_planned<R: ObjectReader>(reader: &R, starts: Set<ObjectId>, roots: Seq<ObjectId>)
    requires
        forall|o: ObjectId| #[trigger] roots.contains(o) ==> starts.contains(o),
    ensures
        doomed(front_tasks(reader, roots)) || roots_planned(
            reader,
            starts,
            roots,
            front_tasks(reader, roots),
            back_tasks(reader, roots),
        ),
    decreases roots.len(),
{
    let front = front_tasks(reader, roots);
    let back = back_tasks(reader, roots);
    let graph = object_graph(reader);
    if roots.len() > 0 && !doomed(front) {
        let root = roots.last();
        let fewer = roots.drop_last();
        assert(roots.contains(root));
        lemma_start_leads(reader, starts, root);
        lemma_root_chain(reader, starts, root, Seq::empty());
        assert forall|o: ObjectId| #[trigger] fewer.contains(o) implies starts.contains(o) by {
            let i = choose|i: int| 0 <= i < fewer.len() && fewer[i] == o;
            assert(roots[i] == o);
            assert(roots.contains(o));
        }
        lemma_roots_planned(reader, starts, fewer);
        let chain = root_chain(reader, root, Seq::empty());
        let front0 = front_tasks(reader, fewer);
        let back0 = back_tasks(reader, fewer);
        let added = if chain.last() is Commit {
            chain.drop_last()
        } else {
            chain
        };
        assert(front == front0 + added);
        lemma_schedules_more(front0, added, root);
        assert(!doomed(front0) && !doomed(added));
        assert forall|k: int| 0 <= k < chain.len() implies task_oid(#[trigger] chain[k]) is Some by {
            if k < added.len() {
                assert(added[k] == chain[k]);
            }
        }
        assert forall|o: ObjectId| schedules(back0, o) implies #[trigger] schedules(back, o) by {
            let k = choose|k: int| 0 <= k < back0.len() && task_oid(#[trigger] back0[k]) == Some(o);
            assert(back[k] == back0[k]);
        }
        if chain.last() is Commit {
            assert(back[back0.len() as int] == chain.last());
            assert(chain[chain.len() - 1] == chain.last());
        }
        // The end of the chain is scheduled, and so is each step of it.
        assert forall|k: int| 0 <= k < chain.len() implies schedules(added, task_oid(#[trigger] chain[k])->Some_0)
            || schedules(back, task_oid(chain[k])->Some_0) by {
            if k < added.len() {
                assert(added[k] == chain[k]);
            } else {
                assert(task_oid(back[back0.len() as int]) == task_oid(chain[k]));
            }
        }
        assert forall|k: int| 0 <= k < front.len() && task_oid(#[trigger] front[k]) is Some implies leads_to(
            reader,
            starts,
            task_oid(front[k])->Some_0,
        ) by {
            if k < front0.len() {
                assert(front[k] == front0[k]);
            } else {
                assert(front[k] == chain[k - front0.len()]);
            }
        }
        assert forall|k: int| 0 <= k < back.len() implies (#[trigger] back[k]) is Commit && leads_to(
            reader,
            starts,
            back[k]->Commit_0,
        ) by {
            if k < back0.len() {
                assert(back[k] == back0[k]);
            }
        }
        assert forall|o: ObjectId| #[trigger] roots.contains(o) implies schedules(front, o) || schedules(back, o) by {
            lemma_schedules_more(front0, added, o);
            let i = choose|i: int| 0 <= i < roots.len() && roots[i] == o;
            if i < fewer.len() {
                assert(fewer[i] == o);
                assert(fewer.contains(o));
            } else {
                assert(task_oid(chain[0]) == Some(o));
            }
        }
        assert forall|k: int, nxt: ObjectId|
            #![trigger front[k], successors(graph, front[k]->Tag_0).contains(nxt)]
            0 <= k < front.len() && front[k] is Tag && successors(graph, front[k]->Tag_0).contains(nxt)
            implies schedules(front.skip(k + 1), nxt) || schedules(back, nxt) by {
            if k < front0.len() {
                assert(front[k] == front0[k]);
                assert(successors(graph, front0[k]->Tag_0).contains(nxt));
                lemma_schedules_more(front0.skip(k + 1), added, nxt);
                assert(front.skip(k + 1) =~= front0.skip(k + 1) + added);
            } else {
                let j = k - front0.len();
                assert(front[k] == chain[j]);
                assert(successors(graph, chain[j]->Tag_0).contains(nxt));
                assert(task_oid(chain[j + 1]) == Some(nxt));
                if j + 1 < added.len() {
                    assert(front.skip(k + 1)[0] == chain[j + 1]);
                } else {
                    assert(task_oid(back[back0.len() as int]) == Some(nxt));
                }
            }
        }
        assert forall|k: int| 0 <= k < front.len() && (#[trigger] front[k]) is Blob implies successors(
            graph,
            front[k]->Blob_0,
        ).len() == 0 by {
            if k < front0.len() {
                assert(front[k] == front0[k]);
            } else {
                assert(front[k] == chain[k - front0.len()]);
            }
        }
    }
}

/// Every bit that a walk from any starting points marks is that of an object.
pub proof fn lemma_marked_bits_have_objects<R: ObjectReader>(reader: &R, cover: Coverage, roots: Seq<ObjectId>)
    requires
        blobs_are_leaves(reader, roots.to_set()),
        is_sound(reader, cover),
    ensures
        fill(reader_tasks(reader, true), cover, root_tasks(reader, roots), no_marks()) matches FillEnd::Done(marks)
            ==> forall|p: int| #[trigger]
            marks.bits.contains(p) ==> exists|o: ObjectId| #[trigger]
                cover.positions.contains_key(o) && cover.positions[o] == p,
{
    lemma_root_walk(reader, cover, roots);
}

/// A walk from any starting points that may leave what is covered marks exactly
/// what they lead to.
pub proof fn law_root_walk_is_reachability<R: ObjectReader>(reader: &R, cover: Coverage, roots: Seq<ObjectId>)
    requires
        blobs_are_leaves(reader, roots.to_set()),
        is_sound(reader, cover),
    ensures
        fill(reader_tasks(reader, true), cover, root_tasks(reader, roots), no_marks()) matches FillEnd::Done(marks)
            ==> forall|o: ObjectId| #[trigger]
            leads_to(reader, roots.to_set(), o) <==> has_mark(cover, marks, o),
{
    lemma_root_walk(reader, cover, roots);
    if let FillEnd::Done(marks) = fill(
        reader_tasks(reader, true),
        cover,
        root_tasks(reader, roots),
        no_marks(),
    ) {
        lemma_done_is_closed(reader, cover, roots.to_set(), marks);
    }
}

proof fn lemma_root_walk<R: ObjectReader>(reader: &R, cover: Coverage, roots: Seq<ObjectId>)
    requires
        blobs_are_leaves(reader, roots.to_set()),
        is_sound(reader, cover),
    ensures
        fill(reader_tasks(reader, true), cover, root_tasks(reader, roots), no_marks()) matches FillEnd::Done(marks)
            ==> in_progress(reader, cover, roots.to_set(), Seq::empty(), marks),
{
    let starts = roots.to_set();
    let front = front_tasks(reader, roots);
    let back = back_tasks(reader, roots);
    let stack = root_tasks(reader, roots);
    let graph = object_graph(reader);
    let next = reader_tasks(reader, true);
    lemma_roots_planned(reader, starts, roots);
    if doomed(front) {
        let k = choose|k: int| 0 <= k < front.len() && task_oid(#[trigger] front[k]) is None;
        assert(stack[back.len() + front.len() - 1 - k] == front[k]);
        lemma_doomed(next, cover, stack, no_marks());
    } else {
        assert forall|k: int| 0 <= k < stack.len() && task_oid(#[trigger] stack[k]) is Some implies leads_to(
            reader,
            starts,
            task_oid(stack[k])->Some_0,
        ) by {
            if k < back.len() {
                assert(stack[k] == back[k]);
            } else {
                assert(stack[k] == front[front.len() - 1 - (k - back.len())]);
            }
        }
        assert forall|o: ObjectId| #[trigger] starts.contains(o) implies schedules(stack, o) by {
            assert(roots.contains(o));
            if schedules(front, o) {
                let k = choose|k: int| 0 <= k < front.len() && task_oid(#[trigger] front[k]) == Some(o);
                assert(stack[back.len() + front.len() - 1 - k] == front[k]);
            } else {
                let k = choose|k: int| 0 <= k < back.len() && task_oid(#[trigger] back[k]) == Some(o);
                assert(stack[k] == back[k]);
            }
        }
        assert forall|k: int, nxt: ObjectId|
            #![trigger stack[k], schedules(stack.take(k), nxt)]
            0 <= k < stack.len() && stack[k] is Tag && successors(graph, stack[k]->Tag_0).contains(nxt)
            implies has_mark(cover, no_marks(), nxt) || schedules(stack.take(k), nxt) by {
            if k < back.len() {
                assert(stack[k] == back[k]);
            } else {
                let j = front.len() - 1 - (k - back.len());
                assert(stack[k] == front[j]);
                assert(successors(graph, front[j]->Tag_0).contains(nxt));
                if schedules(back, nxt) {
                    let m = choose|m: int| 0 <= m < back.len() && task_oid(#[trigger] back[m]) == Some(nxt);
                    assert(stack.take(k)[m] == back[m]);
                } else {
                    let later = front.skip(j + 1);
                    let m = choose|m: int| 0 <= m < later.len() && task_oid(#[trigger] later[m]) == Some(nxt);
                    assert(front[j + 1 + m] == later[m]);
                    let at = back.len() + front.len() - 1 - (j + 1 + m);
                    assert(stack.take(k)[at] == front[j + 1 + m]);
                }
            }
        }
        assert forall|k: int| 0 <= k < stack.len() && (#[trigger] stack[k]) is Blob implies successors(
            graph,
            stack[k]->Blob_0,
        ).len() == 0 by {
            if k < back.len() {
                assert(stack[k] == back[k]);
            } else {
                assert(stack[k] == front[front.len() - 1 - (k - back.len())]);
            }
        }
        assert(in_progress(reader, cover, starts, stack, no_marks()));
        lemma_fill_progress(reader, cover, starts, stack, no_marks());
    }
}

} // verus!
