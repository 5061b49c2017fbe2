//! Cruft: the unreachable objects of a repository, how recent each is, which of
//! them survive, and how they are split into packs.

use crate::error::GitError;
use crate::filter::lists_text;
use crate::filter::text_set;
use crate::object::share;
use crate::object::EncodedObject;
use crate::object::ObjectContent;
use crate::object::ObjectReader;
use crate::object::TreeEntry;
use crate::object::TreeEntryKind;
use crate::object_id::ObjectId;
use crate::oid_map::OidMap;
use crate::oid_map::OidSet;
use crate::order::is_sorted;
use crate::order::oid_less;
use crate::order::sort_names;
use crate::order::sort_oids;
use crate::order::stable_sort;
use crate::order::text_order;
use crate::order::texts;
use crate::pack_file::PackFile;
use crate::pack_file::PackIndexEntry;
use crate::reachability::copy_oids;
use crate::reachability::stored;
use crate::walk::law_walk_visits_closure;
use crate::walk::reaches;
use crate::walk::walk;
use crate::walk::Expand;
use crate::walk::Schedule;
use crate::walk::Visit;
use crate::walk_laws::lemma_push_contains;
use std::sync::Arc;
use vstd::prelude::*;

verus! {

/// The later of the times recorded for `oid`, if any, and `mtime`.
pub open spec fn later(mtimes: Map<ObjectId, u32>, oid: ObjectId, mtime: u32) -> u32 {
    if mtimes.contains_key(oid) && mtimes[oid] >= mtime {
        mtimes[oid]
    } else {
        mtime
    }
}

/// `mtimes` with every time of `copies` recorded.
pub open spec fn recorded(mtimes: Map<ObjectId, u32>, copies: Seq<(ObjectId, u32)>) -> Map<ObjectId, u32>
    decreases copies.len(),
{
    if copies.len() == 0 {
        mtimes
    } else {
        let rest = recorded(mtimes, copies.drop_last());
        let (oid, mtime) = copies.last();
        rest.insert(oid, later(rest, oid, mtime))
    }
}

/// The time of each copy that a pack holds: its own where the pack records one,
/// else the pack's.
pub open spec fn pack_copies(
    entries: Seq<PackIndexEntry>,
    per_object: Option<Seq<u32>>,
    pack_mtime: u32,
) -> Seq<(ObjectId, u32)> {
    Seq::new(
        entries.len(),
        |i: int|
            (
                entries[i].oid,
                match per_object {
                    Some(times) => if i < times.len() {
                        times[i]
                    } else {
                        pack_mtime
                    },
                    None => pack_mtime,
                },
            ),
    )
}

/// Records the time of one copy of an object.
pub fn record_mtime(mtimes: &mut OidMap<u32>, oid: ObjectId, mtime: u32)
    ensures
        final(mtimes)@ == old(mtimes)@.insert(oid, later(old(mtimes)@, oid, mtime)),
{
    let best: u32 = match mtimes.get(&oid) {
        Some(known) => if *known >= mtime {
            *known
        } else {
            mtime
        },
        None => mtime,
    };
    mtimes.insert(oid, best);
}

/// The recorded times, where there are any.
pub open spec fn times_of(per_object: Option<Vec<u32>>) -> Option<Seq<u32>> {
    match per_object {
        Some(times) => Some(times@),
        None => None,
    }
}

/// Records the time of each copy that a pack holds.
pub fn record_pack_mtimes(
    mtimes: &mut OidMap<u32>,
    entries: &[PackIndexEntry],
    per_object: &Option<Vec<u32>>,
    pack_mtime: u32,
)
    ensures
        final(mtimes)@ == recorded(
            old(mtimes)@,
            pack_copies(
                entries@,
                times_of(*per_object),
                pack_mtime,
            ),
        ),
{
    let ghost times = times_of(*per_object);
    let ghost copies = pack_copies(entries@, times, pack_mtime);
    let ghost start = mtimes@;
    let mut i: usize = 0;
    assert(copies.take(0) =~= Seq::empty());
    while i < entries.len()
        invariant
            i <= entries@.len(),
            times == times_of(*per_object),
            copies == pack_copies(entries@, times, pack_mtime),
            mtimes@ == recorded(start, copies.take(i as int)),
        decreases entries@.len() - i,
    {
        let mtime: u32 = match per_object {
            Some(times) => if i < times.len() {
                times[i]
            } else {
                pack_mtime
            },
            None => pack_mtime,
        };
        assert(copies.take(i + 1).drop_last() =~= copies.take(i as int));
        record_mtime(mtimes, entries[i].oid, mtime);
        i += 1;
    }
    assert(copies.take(i as int) =~= copies);
}

/// Records the time of each loose copy.
pub fn record_loose_mtimes(mtimes: &mut OidMap<u32>, copies: &[(ObjectId, u32)])
    ensures
        final(mtimes)@ == recorded(old(mtimes)@, copies@),
{
    let ghost start = mtimes@;
    let mut i: usize = 0;
    assert(copies@.take(0) =~= Seq::empty());
    while i < copies.len()
        invariant
            i <= copies@.len(),
            mtimes@ == recorded(start, copies@.take(i as int)),
        decreases copies@.len() - i,
    {
        assert(copies@.take(i + 1).drop_last() =~= copies@.take(i as int));
        let (oid, mtime) = copies[i];
        record_mtime(mtimes, oid, mtime);
        i += 1;
    }
    assert(copies@.take(i as int) =~= copies@);
}

/// The time recorded for an object is the latest of any of its copies.
pub proof fn law_recorded_is_latest(copies: Seq<(ObjectId, u32)>, oid: ObjectId)
    ensures
        ({
            let mtimes = recorded(Map::empty(), copies);
            &&& mtimes.contains_key(oid) <==> exists|i: int| 0 <= i < copies.len() && (#[trigger] copies[i]).0 == oid
            &&& mtimes.contains_key(oid) ==> exists|i: int|
                0 <= i < copies.len() && #[trigger] copies[i] == (oid, mtimes[oid])
            &&& forall|i: int|
                0 <= i < copies.len() && (#[trigger] copies[i]).0 == oid ==> copies[i].1 <= mtimes[oid]
        }),
    decreases copies.len(),
{
    if copies.len() > 0 {
        let rest = copies.drop_last();
        law_recorded_is_latest(rest, oid);
        let mtimes = recorded(Map::empty(), copies);
        let before = recorded(Map::empty(), rest);
        assert(copies[copies.len() - 1] == copies.last());
        if before.contains_key(oid) {
            let i = choose|i: int| 0 <= i < rest.len() && #[trigger] rest[i] == (oid, before[oid]);
            assert(copies[i] == (oid, before[oid]));
        }
        assert forall|i: int| 0 <= i < copies.len() && (#[trigger] copies[i]).0 == oid
            implies copies[i].1 <= mtimes[oid] && mtimes.contains_key(oid) by {
            if i < rest.len() {
                assert(rest[i] == copies[i]);
            }
        }
    }
}

/// The ids that a tree's well-formed entries lead to; malformed entries are
/// passed over.
pub open spec fn lenient_tree_links(entries: Seq<Result<TreeEntry, GitError>>) -> Seq<ObjectId>
    decreases entries.len(),
{
    if entries.len() == 0 {
        Seq::empty()
    } else {
        let rest = lenient_tree_links(entries.drop_last());
        match entries.last() {
            Ok(entry) => if entry.kind == TreeEntryKind::Gitlink {
                rest
            } else {
                rest.push(entry.oid)
            },
            Err(_) => rest,
        }
    }
}

/// The ids that an object leads to, as far as its body decodes.
pub open spec fn lenient_links(object: EncodedObject) -> Seq<ObjectId> {
    match object.content {
        ObjectContent::Commit(Ok(commit)) => commit.parents@.push(commit.tree),
        ObjectContent::Tree(entries) => lenient_tree_links(entries@),
        ObjectContent::Tag(Ok(target)) => seq![target],
        _ => Seq::empty(),
    }
}

/// The walk that rescues cruft: it passes over whatever cannot be read or
/// decoded.
pub open spec fn rescue_schedule<R: ObjectReader>(reader: &R) -> Schedule {
    |oid: ObjectId|
        match reader.object_at(oid) {
            Err(_) => Ok(Seq::<ObjectId>::empty()),
            Ok(object) => Ok(lenient_links(*object)),
        }
}

struct RescueGraph<'a, R> {
    reader: &'a R,
}

impl<'a, R: ObjectReader> Expand for RescueGraph<'a, R> {
    closed spec fn object_of(&self, oid: ObjectId) -> Option<Arc<EncodedObject>> {
        stored(self.reader, oid)
    }

    closed spec fn schedule(&self) -> Schedule {
        rescue_schedule(self.reader)
    }

    fn expand(&self, oid: &ObjectId) -> (visit: Result<Visit, GitError>) {
        let object = match self.reader.read_object(oid) {
            Err(_) => {
                return Ok(Visit { object: None, scheduled: Vec::new() });
            },
            Ok(object) => object,
        };
        let scheduled = match &object.content {
            ObjectContent::Commit(Ok(commit)) => {
                let mut links = copy_oids(&commit.parents);
                links.push(commit.tree);
                links
            },
            ObjectContent::Tree(entries) => {
                let mut links: Vec<ObjectId> = Vec::new();
                let mut i: usize = 0;
                assert(entries@.take(0) =~= Seq::empty());
                while i < entries.len()
                    invariant
                        i <= entries@.len(),
                        links@ == lenient_tree_links(entries@.take(i as int)),
                    decreases entries@.len() - i,
                {
                    assert(entries@.take(i + 1).drop_last() =~= entries@.take(i as int));
                    match &entries[i] {
                        Ok(entry) => {
                            if entry.kind != TreeEntryKind::Gitlink {
                                links.push(entry.oid);
                            }
                        },
                        Err(_) => {},
                    }
                    i += 1;
                }
                assert(entries@.take(i as int) =~= entries@);
                links
            },
            ObjectContent::Tag(Ok(target)) => {
                let mut links: Vec<ObjectId> = Vec::new();
                links.push(*target);
                assert(links@ =~= seq![*target]);
                links
            },
            _ => Vec::new(),
        };
        Ok(Visit { object: Some(object), scheduled })
    }
}

/// Where the rescue starts: at every survivor that is newer than the cutoff,
/// and at the roots that count as recent.
pub open spec fn rescue_starts(
    survivors: Map<ObjectId, u32>,
    expiration: u32,
    recent_roots: Set<ObjectId>,
) -> Set<ObjectId> {
    Set::new(|oid: ObjectId| survivors.contains_key(oid) && survivors[oid] > expiration).union(recent_roots)
}

/// Whether a survivor outlives the cutoff: it is newer, or something that
/// counts as recent leads to it.
pub open spec fn outlives<R: ObjectReader>(
    reader: &R,
    survivors: Map<ObjectId, u32>,
    expiration: u32,
    recent_roots: Set<ObjectId>,
    oid: ObjectId,
) -> bool {
    ||| survivors[oid] > expiration
    ||| reaches(
        rescue_schedule(reader),
        Set::empty(),
        rescue_starts(survivors, expiration, recent_roots),
        oid,
    )
}

/// Applies an expiration cutoff to the survivors: starting from those strictly
/// newer than `expiration` and from `recent_roots`, everything they lead to is
/// rescued with the time it had; older survivors that nothing recent reaches
/// are dropped.
pub fn rescue_and_expire_cruft_objects<R: ObjectReader>(
    reader: &R,
    survivors: &OidMap<u32>,
    expiration: u32,
    recent_roots: &[ObjectId],
) -> (kept: OidMap<u32>)
    ensures
        forall|oid: ObjectId|
            #[trigger] kept@.contains_key(oid) <==> survivors@.contains_key(oid) && outlives(
                reader,
                survivors@,
                expiration,
                recent_roots@.to_set(),
                oid,
            ),
        forall|oid: ObjectId| #[trigger] kept@.contains_key(oid) ==> kept@[oid] == survivors@[oid],
{
    let count: usize = survivors.len();
    let ghost keys = survivors.keys();
    let mut starts: Vec<ObjectId> = Vec::new();
    let mut i: usize = 0;
    while i < count
        invariant
            i <= count == keys.len(),
            keys == survivors.keys(),
            forall|oid: ObjectId|
                #[trigger] starts@.contains(oid) <==> exists|k: int|
                    0 <= k < i && #[trigger] keys[k] == oid && survivors@[oid] > expiration,
        decreases count - i,
    {
        let oid = survivors.key_at(i);
        let ghost before = starts@;
        if *survivors.value_at(i) > expiration {
            starts.push(oid);
        }
        proof {
            assert forall|o: ObjectId| #[trigger] starts@.contains(o) <==> exists|k: int|
                0 <= k < i + 1 && #[trigger] keys[k] == o && survivors@[o] > expiration by {
                if before.contains(o) {
                    let m = choose|m: int| 0 <= m < before.len() && before[m] == o;
                    assert(starts@[m] == o);
                    let k = choose|k: int| 0 <= k < i && #[trigger] keys[k] == o && survivors@[o] > expiration;
                    assert(keys[k] == o);
                }
                if starts@.contains(o) && !before.contains(o) {
                    let m = choose|m: int| 0 <= m < starts@.len() && starts@[m] == o;
                    if m < before.len() {
                        assert(before[m] == o);
                    }
                    assert(o == oid);
                    assert(keys[i as int] == o);
                }
                if exists|k: int| 0 <= k < i + 1 && #[trigger] keys[k] == o && survivors@[o] > expiration {
                    let k = choose|k: int|
                        0 <= k < i + 1 && #[trigger] keys[k] == o && survivors@[o] > expiration;
                    if k < i {
                        assert(before.contains(o));
                    } else {
                        assert(starts@[starts@.len() - 1] == o);
                    }
                }
            }
        }
        i += 1;
    }
    let ghost recent = starts@;
    let mut extra = copy_oids(recent_roots);
    starts.append(&mut extra);
    proof {
        let goal = rescue_starts(survivors@, expiration, recent_roots@.to_set());
        assert forall|oid: ObjectId| starts@.to_set().contains(oid) == goal.contains(oid) by {
            assert(starts@.contains(oid) == (recent.contains(oid) || recent_roots@.contains(oid))) by {
                if recent.contains(oid) {
                    let m = choose|m: int| 0 <= m < recent.len() && recent[m] == oid;
                    assert(starts@[m] == oid);
                }
                if recent_roots@.contains(oid) {
                    let m = choose|m: int| 0 <= m < recent_roots@.len() && recent_roots@[m] == oid;
                    assert(starts@[recent.len() + m] == oid);
                }
                if starts@.contains(oid) {
                    let m = choose|m: int| 0 <= m < starts@.len() && starts@[m] == oid;
                    if m < recent.len() {
                        assert(recent[m] == oid);
                    } else {
                        assert(recent_roots@[m - recent.len()] == oid);
                    }
                }
            }
            if survivors@.contains_key(oid) {
                assert(keys.contains(oid));
                let k = choose|k: int| 0 <= k < keys.len() && keys[k] == oid;
                assert(keys[k] == oid);
            }
            if recent.contains(oid) {
                let k = choose|k: int| 0 <= k < count && #[trigger] keys[k] == oid && survivors@[oid] > expiration;
                assert(keys.contains(oid));
            }
        }
        assert(starts@.to_set() =~= goal);
        law_walk_visits_closure(rescue_schedule(reader), Set::empty(), starts@);
    }
    let graph = RescueGraph { reader };
    let none = OidSet::new();
    let keep = match walk(&graph, starts, &none) {
        Ok(walked) => walked.seen,
        Err(_) => {
            assert(false);
            OidSet::new()
        },
    };
    let mut kept: OidMap<u32> = OidMap::new();
    let mut j: usize = 0;
    while j < count
        invariant
            j <= count == keys.len(),
            keys == survivors.keys(),
            forall|oid: ObjectId|
                #[trigger] kept@.contains_key(oid) <==> exists|k: int|
                    0 <= k < j && #[trigger] keys[k] == oid && (survivors@[oid] > expiration
                        || keep@.contains(oid)),
            forall|oid: ObjectId| #[trigger] kept@.contains_key(oid) ==> kept@[oid] == survivors@[oid],
        decreases count - j,
    {
        let oid = survivors.key_at(j);
        let mtime: u32 = *survivors.value_at(j);
        let ghost before = kept@;
        if mtime > expiration || keep.contains(&oid) {
            kept.insert(oid, mtime);
        }
        proof {
            assert forall|o: ObjectId| #[trigger] kept@.contains_key(o) <==> exists|k: int|
                0 <= k < j + 1 && #[trigger] keys[k] == o && (survivors@[o] > expiration
                    || keep@.contains(o)) by {
                if before.contains_key(o) {
                    let k = choose|k: int|
                        0 <= k < j && #[trigger] keys[k] == o && (survivors@[o] > expiration
                            || keep@.contains(o));
                    assert(keys[k] == o);
                }
                if kept@.contains_key(o) && !before.contains_key(o) {
                    assert(keys[j as int] == o);
                }
                if exists|k: int|
                    0 <= k < j + 1 && #[trigger] keys[k] == o && (survivors@[o] > expiration
                        || keep@.contains(o)) {
                    let k = choose|k: int|
                        0 <= k < j + 1 && #[trigger] keys[k] == o && (survivors@[o] > expiration
                            || keep@.contains(o));
                    if k < j {
                        assert(before.contains_key(o));
                    }
                }
            }
        }
        j += 1;
    }
    proof {
        assert forall|oid: ObjectId| #[trigger] kept@.contains_key(oid) <==> survivors@.contains_key(oid)
            && outlives(reader, survivors@, expiration, recent_roots@.to_set(), oid) by {
            assert(keep@.contains(oid) == keep.items().contains(oid));
            if survivors@.contains_key(oid) {
                assert(keys.contains(oid));
                let k = choose|k: int| 0 <= k < keys.len() && keys[k] == oid;
                assert(keys[k] == oid);
            }
            if kept@.contains_key(oid) {
                let k = choose|k: int|
                    0 <= k < count && #[trigger] keys[k] == oid && (survivors@[oid] > expiration
                        || keep@.contains(oid));
                assert(keys.contains(oid));
            }
        }
    }
    kept
}

/// What an object that outlives the cutoff names outlives it too.
pub proof fn law_rescue_is_closed<R: ObjectReader>(
    reader: &R,
    survivors: Map<ObjectId, u32>,
    expiration: u32,
    recent_roots: Set<ObjectId>,
    from: ObjectId,
    to: ObjectId,
)
    requires
        survivors.contains_key(from),
        survivors.contains_key(to),
        outlives(reader, survivors, expiration, recent_roots, from),
        reader.object_at(from) matches Ok(object) && lenient_links(*object).contains(to),
    ensures
        outlives(reader, survivors, expiration, recent_roots, to),
{
    let starts = rescue_starts(survivors, expiration, recent_roots);
    let schedule = rescue_schedule(reader);
    assert forall|set: Set<ObjectId>| crate::walk::is_closed(schedule, Set::empty(), starts, set)
        implies set.contains(to) by {
        if survivors[from] > expiration {
            assert(starts.contains(from));
        }
        assert(set.contains(from));
        assert(crate::walk::successors(schedule, from).contains(to));
    }
}

/// What the well-formed entries of a tree, other than gitlinks, name.
proof fn lemma_lenient_tree_links(entries: Seq<Result<TreeEntry, GitError>>, oid: ObjectId)
    ensures
        lenient_tree_links(entries).contains(oid) <==> exists|i: int|
            0 <= i < entries.len() && (#[trigger] entries[i]) is Ok && entries[i]->Ok_0.kind
                != TreeEntryKind::Gitlink && entries[i]->Ok_0.oid == oid,
    decreases entries.len(),
{
    if entries.len() > 0 {
        let rest = entries.drop_last();
        let last = entries.len() - 1;
        lemma_lenient_tree_links(rest, oid);
        assert(entries[last] == entries.last());
        if entries.last() is Ok {
            lemma_push_contains(lenient_tree_links(rest), entries.last()->Ok_0.oid, oid);
        }
        if lenient_tree_links(rest).contains(oid) {
            let i = choose|i: int|
                0 <= i < rest.len() && (#[trigger] rest[i]) is Ok && rest[i]->Ok_0.kind != TreeEntryKind::Gitlink
                    && rest[i]->Ok_0.oid == oid;
            assert(entries[i] == rest[i]);
        }
        if exists|i: int|
            0 <= i < entries.len() && (#[trigger] entries[i]) is Ok && entries[i]->Ok_0.kind
                != TreeEntryKind::Gitlink && entries[i]->Ok_0.oid == oid {
            let i = choose|i: int|
                0 <= i < entries.len() && (#[trigger] entries[i]) is Ok && entries[i]->Ok_0.kind
                    != TreeEntryKind::Gitlink && entries[i]->Ok_0.oid == oid;
            if i < last {
                assert(rest[i] == entries[i]);
            }
        }
    }
}

proof fn lemma_lenient_links(object: EncodedObject, oid: ObjectId)
    ensures
        lenient_links(object).contains(oid) <==> match object.content {
            ObjectContent::Commit(Ok(commit)) => commit.tree == oid || exists|i: int|
                0 <= i < commit.parents@.len() && #[trigger] commit.parents@[i] == oid,
            ObjectContent::Tree(entries) => exists|i: int|
                0 <= i < entries@.len() && (#[trigger] entries@[i]) is Ok && entries@[i]->Ok_0.kind
                    != TreeEntryKind::Gitlink && entries@[i]->Ok_0.oid == oid,
            ObjectContent::Tag(Ok(target)) => target == oid,
            _ => false,
        },
{
    match object.content {
        ObjectContent::Commit(Ok(commit)) => {
            lemma_push_contains(commit.parents@, commit.tree, oid);
        },
        ObjectContent::Tree(entries) => {
            lemma_lenient_tree_links(entries@, oid);
        },
        ObjectContent::Tag(Ok(target)) => {
            assert(seq![target][0] == target);
        },
        _ => {},
    }
}

proof fn lemma_rescue_step<R: ObjectReader>(reader: &R, oid: ObjectId, next: ObjectId)
    requires
        reader.object_at(oid) is Ok,
    ensures
        crate::walk::successors(rescue_schedule(reader), oid).contains(next)
            <==> match reader.object_at(oid)->Ok_0.content {
            ObjectContent::Commit(Ok(commit)) => commit.tree == next || exists|i: int|
                0 <= i < commit.parents@.len() && #[trigger] commit.parents@[i] == next,
            ObjectContent::Tree(entries) => exists|i: int|
                0 <= i < entries@.len() && (#[trigger] entries@[i]) is Ok && entries@[i]->Ok_0.kind
                    != TreeEntryKind::Gitlink && entries@[i]->Ok_0.oid == next,
            ObjectContent::Tag(Ok(target)) => target == next,
            _ => false,
        },
{
    assert forall|object: EncodedObject| object == *reader.object_at(oid)->Ok_0 implies #[trigger] lenient_links(
        object,
    ).contains(next) == match object.content {
        ObjectContent::Commit(Ok(commit)) => commit.tree == next || exists|i: int|
            0 <= i < commit.parents@.len() && #[trigger] commit.parents@[i] == next,
        ObjectContent::Tree(entries) => exists|i: int|
            0 <= i < entries@.len() && (#[trigger] entries@[i]) is Ok && entries@[i]->Ok_0.kind
                != TreeEntryKind::Gitlink && entries@[i]->Ok_0.oid == next,
        ObjectContent::Tag(Ok(target)) => target == next,
        _ => false,
    } by {
        lemma_lenient_links(object, next);
    }
    assert(lenient_links(*reader.object_at(oid)->Ok_0).contains(next) == crate::walk::successors(
        rescue_schedule(reader),
        oid,
    ).contains(next));
}

/// The survivors kept are those in a set `led` that holds every survivor
/// strictly newer than the cutoff and every recent root and, with each object
/// that it holds, all that the object's fields name: every parent and the tree
/// of a commit, what each well-formed entry of a tree other than a gitlink
/// names, and the target of a tag.
pub proof fn law_rescue_follows_every_link<R: ObjectReader>(
    reader: &R,
    survivors: Map<ObjectId, u32>,
    expiration: u32,
    recent_roots: Set<ObjectId>,
) -> (led: Set<ObjectId>)
    ensures
        forall|oid: ObjectId|
            survivors.contains_key(oid) ==> (#[trigger] led.contains(oid) <==> outlives(
                reader,
                survivors,
                expiration,
                recent_roots,
                oid,
            )),
        forall|oid: ObjectId| #[trigger]
            survivors.contains_key(oid) && survivors[oid] > expiration ==> led.contains(oid),
        forall|oid: ObjectId| #[trigger] recent_roots.contains(oid) ==> led.contains(oid),
        forall|oid: ObjectId| #[trigger]
            led.contains(oid) && reader.object_at(oid) is Ok ==> match reader.object_at(oid)->Ok_0.content {
                ObjectContent::Commit(Ok(commit)) => {
                    &&& led.contains(commit.tree)
                    &&& forall|i: int| 0 <= i < commit.parents@.len() ==> led.contains(#[trigger] commit.parents@[i])
                },
                ObjectContent::Tree(entries) => forall|i: int|
                    0 <= i < entries@.len() && (#[trigger] entries@[i]) is Ok && entries@[i]->Ok_0.kind
                        != TreeEntryKind::Gitlink ==> led.contains(entries@[i]->Ok_0.oid),
                ObjectContent::Tag(Ok(target)) => led.contains(target),
                _ => true,
            },
{
    let starts = rescue_starts(survivors, expiration, recent_roots);
    let schedule = rescue_schedule(reader);
    let led = Set::new(|oid: ObjectId| reaches(schedule, Set::empty(), starts, oid));
    assert forall|oid: ObjectId| starts.contains(oid) implies #[trigger] led.contains(oid) by {
        assert(reaches(schedule, Set::empty(), starts, oid));
    }
    assert forall|oid: ObjectId| survivors.contains_key(oid) implies (#[trigger] led.contains(oid) <==> outlives(
        reader,
        survivors,
        expiration,
        recent_roots,
        oid,
    )) by {
        if survivors[oid] > expiration {
            assert(starts.contains(oid));
        }
    }
    assert forall|oid: ObjectId| #[trigger] survivors.contains_key(oid) && survivors[oid] > expiration
        implies led.contains(oid) by {
        assert(starts.contains(oid));
    }
    assert forall|oid: ObjectId| #[trigger] recent_roots.contains(oid) implies led.contains(oid) by {
        assert(starts.contains(oid));
    }
    assert forall|oid: ObjectId, next: ObjectId| #![trigger led.contains(oid), led.contains(next)]
        led.contains(oid) && crate::walk::successors(schedule, oid).contains(next) implies led.contains(next) by {
        assert forall|set: Set<ObjectId>| crate::walk::is_closed(schedule, Set::empty(), starts, set)
            implies set.contains(next) by {
            assert(set.contains(oid));
        }
    }
    assert forall|oid: ObjectId| #[trigger] led.contains(oid) && reader.object_at(oid) is Ok
        implies match reader.object_at(oid)->Ok_0.content {
        ObjectContent::Commit(Ok(commit)) => {
            &&& led.contains(commit.tree)
            &&& forall|i: int| 0 <= i < commit.parents@.len() ==> led.contains(#[trigger] commit.parents@[i])
        },
        ObjectContent::Tree(entries) => forall|i: int|
            0 <= i < entries@.len() && (#[trigger] entries@[i]) is Ok && entries@[i]->Ok_0.kind
                != TreeEntryKind::Gitlink ==> led.contains(entries@[i]->Ok_0.oid),
        ObjectContent::Tag(Ok(target)) => led.contains(target),
        _ => true,
    } by {
        assert forall|next: ObjectId| crate::walk::successors(schedule, oid).contains(next)
            implies #[trigger] led.contains(next) by {}
        match reader.object_at(oid)->Ok_0.content {
            ObjectContent::Commit(Ok(commit)) => {
                lemma_rescue_step(reader, oid, commit.tree);
                assert forall|i: int| 0 <= i < commit.parents@.len() implies led.contains(
                    #[trigger] commit.parents@[i],
                ) by {
                    lemma_rescue_step(reader, oid, commit.parents@[i]);
                }
            },
            ObjectContent::Tree(entries) => {
                assert forall|i: int|
                    0 <= i < entries@.len() && (#[trigger] entries@[i]) is Ok && entries@[i]->Ok_0.kind
                        != TreeEntryKind::Gitlink implies led.contains(entries@[i]->Ok_0.oid) by {
                    lemma_rescue_step(reader, oid, entries@[i]->Ok_0.oid);
                }
            },
            ObjectContent::Tag(Ok(target)) => {
                lemma_rescue_step(reader, oid, target);
            },
            _ => {},
        }
    }
    led
}

/// No survivor is kept but for that: whatever `set` holds the survivors strictly
/// newer than the cutoff and the recent roots and, with each object that it
/// holds, all that the object's fields name, holds every survivor kept.
pub proof fn law_rescue_keeps_nothing_else<R: ObjectReader>(
    reader: &R,
    survivors: Map<ObjectId, u32>,
    expiration: u32,
    recent_roots: Set<ObjectId>,
    set: Set<ObjectId>,
)
    requires
        forall|oid: ObjectId| #[trigger]
            survivors.contains_key(oid) && survivors[oid] > expiration ==> set.contains(oid),
        forall|oid: ObjectId| #[trigger] recent_roots.contains(oid) ==> set.contains(oid),
        forall|oid: ObjectId| #[trigger]
            set.contains(oid) && reader.object_at(oid) is Ok ==> match reader.object_at(oid)->Ok_0.content {
                ObjectContent::Commit(Ok(commit)) => {
                    &&& set.contains(commit.tree)
                    &&& forall|i: int| 0 <= i < commit.parents@.len() ==> set.contains(#[trigger] commit.parents@[i])
                },
                ObjectContent::Tree(entries) => forall|i: int|
                    0 <= i < entries@.len() && (#[trigger] entries@[i]) is Ok && entries@[i]->Ok_0.kind
                        != TreeEntryKind::Gitlink ==> set.contains(entries@[i]->Ok_0.oid),
                ObjectContent::Tag(Ok(target)) => set.contains(target),
                _ => true,
            },
    ensures
        forall|oid: ObjectId| #[trigger]
            survivors.contains_key(oid) && outlives(reader, survivors, expiration, recent_roots, oid)
                ==> set.contains(oid),
{
    let starts = rescue_starts(survivors, expiration, recent_roots);
    let schedule = rescue_schedule(reader);
    assert forall|oid: ObjectId, next: ObjectId|
        #![trigger set.contains(oid), crate::walk::successors(schedule, oid).contains(next)]
        set.contains(oid) && crate::walk::successors(schedule, oid).contains(next) implies set.contains(next) by {
        assert(reader.object_at(oid) is Ok);
        lemma_rescue_step(reader, oid, next);
    }
    assert(crate::walk::is_closed(schedule, Set::empty(), starts, set));
}

/// Stems of cruft packs that a selective repack leaves as they are: those of at
/// least `limit` bytes. An expiring repack, and one without a positive limit,
/// leaves none.
pub open spec fn keeps_cruft_pack(file: PackFile, combine_below: Option<u64>, expiring: bool) -> bool {
    &&& !expiring
    &&& combine_below is Some
    &&& combine_below->Some_0 > 0
    &&& file.has_mtimes
    &&& file.size >= combine_below->Some_0
}

/// The stems of the cruft packs that are left as they are, sorted.
pub fn retained_cruft_pack_stems(
    files: &[PackFile],
    combine_below: Option<u64>,
    expiring: bool,
) -> (stems: Vec<String>)
    ensures
        texts(stems@) == stable_sort(
            text_order(),
            files@.filter(|file: PackFile| keeps_cruft_pack(file, combine_below, expiring)).map_values(
                |file: PackFile| file.stem@,
            ),
        ),
{
    let ghost keep = |file: PackFile| keeps_cruft_pack(file, combine_below, expiring);
    let ghost stem_of = |file: PackFile| file.stem@;
    let mut stems: Vec<String> = Vec::new();
    let mut i: usize = 0;
    proof {
        reveal(Seq::filter);
        assert(files@.take(0).filter(keep).map_values(stem_of) =~= texts(stems@));
    }
    while i < files.len()
        invariant
            i <= files@.len(),
            keep == (|file: PackFile| keeps_cruft_pack(file, combine_below, expiring)),
            stem_of == (|file: PackFile| file.stem@),
            texts(stems@) == files@.take(i as int).filter(keep).map_values(stem_of),
        decreases files@.len() - i,
    {
        let ghost done = files@.take(i as int).filter(keep);
        let ghost before = texts(stems@);
        proof {
            reveal(Seq::filter);
            assert(files@.take(i + 1).drop_last() =~= files@.take(i as int));
        }
        let limit: u64 = match combine_below {
            Some(limit) => limit,
            None => 0,
        };
        if !expiring && limit > 0 && files[i].has_mtimes && files[i].size >= limit {
            stems.push(files[i].stem.clone());
            proof {
                assert(texts(stems@) =~= before.push(files@[i as int].stem@));
                assert(done.push(files@[i as int]).map_values(stem_of) =~= done.map_values(stem_of).push(
                    files@[i as int].stem@,
                ));
            }
        }
        i += 1;
    }
    assert(files@.take(i as int) =~= files@);
    sort_names(&stems)
}

/// Whether an object on disk is cruft: it is not reachable, no kept, promisor
/// or retained cruft pack holds it and, in a local repack, no alternate does.
pub open spec fn is_cruft(
    oid: ObjectId,
    reachable: Set<ObjectId>,
    excluded: Set<ObjectId>,
    promisor: Set<ObjectId>,
    retained_cruft: Set<ObjectId>,
    alternates: Set<ObjectId>,
) -> bool {
    &&& !reachable.contains(oid)
    &&& !excluded.contains(oid)
    &&& !promisor.contains(oid)
    &&& !retained_cruft.contains(oid)
    &&& !alternates.contains(oid)
}

/// The cruft among the objects on disk, each with its time. `alternates` holds
/// what alternates hold in a local repack, and nothing otherwise.
pub fn select_cruft(
    mtimes: &OidMap<u32>,
    reachable: &OidSet,
    excluded: &OidSet,
    promisor: &OidSet,
    retained_cruft: &OidSet,
    alternates: &OidSet,
) -> (cruft: OidMap<u32>)
    ensures
        forall|oid: ObjectId|
            #[trigger] cruft@.contains_key(oid) <==> mtimes@.contains_key(oid) && is_cruft(
                oid,
                reachable@,
                excluded@,
                promisor@,
                retained_cruft@,
                alternates@,
            ),
        forall|oid: ObjectId| #[trigger] cruft@.contains_key(oid) ==> cruft@[oid] == mtimes@[oid],
{
    let count: usize = mtimes.len();
    let ghost keys = mtimes.keys();
    let mut cruft: OidMap<u32> = OidMap::new();
    let mut i: usize = 0;
    while i < count
        invariant
            i <= count == keys.len(),
            keys == mtimes.keys(),
            forall|oid: ObjectId|
                #[trigger] cruft@.contains_key(oid) <==> keys.take(i as int).contains(oid) && is_cruft(
                    oid,
                    reachable@,
                    excluded@,
                    promisor@,
                    retained_cruft@,
                    alternates@,
                ),
            forall|oid: ObjectId| #[trigger] cruft@.contains_key(oid) ==> cruft@[oid] == mtimes@[oid],
        decreases count - i,
    {
        let oid = mtimes.key_at(i);
        let mtime: u32 = *mtimes.value_at(i);
        if !reachable.contains(&oid) && !excluded.contains(&oid) && !promisor.contains(&oid)
            && !retained_cruft.contains(&oid) && !alternates.contains(&oid) {
            cruft.insert(oid, mtime);
        }
        proof {
            let done = keys.take(i as int);
            let next = keys.take(i + 1);
            assert(next =~= done.push(oid));
            assert forall|o: ObjectId| next.contains(o) == (done.contains(o) || o == oid) by {
                assert(next[i as int] == oid);
                if done.contains(o) {
                    let k = choose|k: int| 0 <= k < done.len() && done[k] == o;
                    assert(next[k] == o);
                }
                if next.contains(o) {
                    let k = choose|k: int| 0 <= k < next.len() && next[k] == o;
                    if k < i {
                        assert(done[k] == o);
                    }
                }
            }
        }
        i += 1;
    }
    assert(keys.take(i as int) =~= keys);
    cruft
}

/// The packs that a cruft repack supersedes.
pub struct SupersededPacks {
    /// Stems of ordinary packs.
    pub packs: Vec<String>,
    /// Stems of cruft packs.
    pub cruft_packs: Vec<String>,
}

/// Whether a cruft repack replaces a pack: it is neither retained nor kept.
pub open spec fn is_replaced(file: PackFile, retained: Set<Seq<char>>, retained_cruft: Set<Seq<char>>) -> bool {
    &&& !retained.contains(file.stem@)
    &&& !retained_cruft.contains(file.stem@)
    &&& !file.has_keep
}

/// The packs that the new reachable and cruft packs supersede, by stem, cruft
/// packs apart.
pub fn superseded_by_cruft_repack(
    files: &[PackFile],
    retained: &[String],
    retained_cruft: &[String],
) -> (superseded: SupersededPacks)
    ensures
        texts(superseded.packs@) == files@.filter(
            |file: PackFile|
                is_replaced(file, text_set(retained@), text_set(retained_cruft@)) && !file.has_mtimes,
        ).map_values(|file: PackFile| file.stem@),
        texts(superseded.cruft_packs@) == files@.filter(
            |file: PackFile|
                is_replaced(file, text_set(retained@), text_set(retained_cruft@)) && file.has_mtimes,
        ).map_values(|file: PackFile| file.stem@),
{
    let ghost plain = |file: PackFile|
        is_replaced(file, text_set(retained@), text_set(retained_cruft@)) && !file.has_mtimes;
    let ghost cruft = |file: PackFile|
        is_replaced(file, text_set(retained@), text_set(retained_cruft@)) && file.has_mtimes;
    let ghost stem_of = |file: PackFile| file.stem@;
    let mut packs: Vec<String> = Vec::new();
    let mut cruft_packs: Vec<String> = Vec::new();
    let mut i: usize = 0;
    proof {
        reveal(Seq::filter);
        assert(files@.take(0).filter(plain).map_values(stem_of) =~= texts(packs@));
        assert(files@.take(0).filter(cruft).map_values(stem_of) =~= texts(cruft_packs@));
    }
    while i < files.len()
        invariant
            i <= files@.len(),
            plain == (|file: PackFile|
                is_replaced(file, text_set(retained@), text_set(retained_cruft@)) && !file.has_mtimes),
            cruft == (|file: PackFile|
                is_replaced(file, text_set(retained@), text_set(retained_cruft@)) && file.has_mtimes),
            stem_of == (|file: PackFile| file.stem@),
            texts(packs@) == files@.take(i as int).filter(plain).map_values(stem_of),
            texts(cruft_packs@) == files@.take(i as int).filter(cruft).map_values(stem_of),
        decreases files@.len() - i,
    {
        let ghost done_plain = files@.take(i as int).filter(plain);
        let ghost done_cruft = files@.take(i as int).filter(cruft);
        let ghost before_plain = texts(packs@);
        let ghost before_cruft = texts(cruft_packs@);
        proof {
            reveal(Seq::filter);
            assert(files@.take(i + 1).drop_last() =~= files@.take(i as int));
            assert(done_plain.push(files@[i as int]).map_values(stem_of) =~= done_plain.map_values(
                stem_of,
            ).push(files@[i as int].stem@));
            assert(done_cruft.push(files@[i as int]).map_values(stem_of) =~= done_cruft.map_values(
                stem_of,
            ).push(files@[i as int].stem@));
        }
        let file = &files[i];
        if !lists_text(retained, file.stem.as_str()) && !lists_text(retained_cruft, file.stem.as_str())
            && !file.has_keep {
            if file.has_mtimes {
                cruft_packs.push(file.stem.clone());
                assert(texts(cruft_packs@) =~= before_cruft.push(file.stem@));
            } else {
                packs.push(file.stem.clone());
                assert(texts(packs@) =~= before_plain.push(file.stem@));
            }
        }
        i += 1;
    }
    assert(files@.take(i as int) =~= files@);
    SupersededPacks { packs, cruft_packs }
}

/// A cruft object with its time.
pub struct CruftObject {
    pub oid: ObjectId,
    pub mtime: u32,
    pub object: Arc<EncodedObject>,
}

impl CruftObject {
    /// Another handle to the same object.
    pub fn copy(&self) -> (object: CruftObject)
        ensures
            object == *self,
    {
        CruftObject { oid: self.oid, mtime: self.mtime, object: share(&self.object) }
    }
}

/// The cruft objects of `ids`, each read in turn with its time; missing ones
/// are passed over, and any other failure ends it.
pub open spec fn read_cruft<R: ObjectReader>(
    reader: &R,
    mtimes: Map<ObjectId, u32>,
    ids: Seq<ObjectId>,
) -> Result<Seq<CruftObject>, GitError>
    decreases ids.len(),
{
    if ids.len() == 0 {
        Ok(Seq::empty())
    } else {
        match read_cruft(reader, mtimes, ids.drop_last()) {
            Err(err) => Err(err),
            Ok(objects) => match reader.object_at(ids.last()) {
                Err(GitError::NotFound(_)) => Ok(objects),
                Err(err) => Err(err),
                Ok(object) => Ok(
                    objects.push(CruftObject { oid: ids.last(), mtime: mtimes[ids.last()], object }),
                ),
            },
        }
    }
}

proof fn lemma_read_cruft_prefix<R: ObjectReader>(
    reader: &R,
    mtimes: Map<ObjectId, u32>,
    ids: Seq<ObjectId>,
    n: int,
)
    requires
        0 <= n <= ids.len(),
        read_cruft(reader, mtimes, ids.take(n)) is Err,
    ensures
        read_cruft(reader, mtimes, ids) == read_cruft(reader, mtimes, ids.take(n)),
    decreases ids.len() - n,
{
    if n < ids.len() {
        assert(ids.take(n + 1).drop_last() =~= ids.take(n));
        lemma_read_cruft_prefix(reader, mtimes, ids, n + 1);
    } else {
        assert(ids.take(n) =~= ids);
    }
}

/// Whether `ids` are the keys of `map`, each once, in index order.
pub open spec fn are_sorted_keys<V>(ids: Seq<ObjectId>, map: Map<ObjectId, V>) -> bool {
    &&& is_sorted(oid_less(), ids)
    &&& ids.no_duplicates()
    &&& ids.to_set() == map.dom()
}

/// The keys of `map` in index order.
pub fn sorted_keys<V>(map: &OidMap<V>) -> (ids: Vec<ObjectId>)
    ensures
        are_sorted_keys(ids@, map@),
{
    let mut keys: Vec<ObjectId> = Vec::new();
    let count: usize = map.len();
    let mut i: usize = 0;
    while i < count
        invariant
            i <= count == map.keys().len(),
            keys@ == map.keys().take(i as int),
        decreases count - i,
    {
        keys.push(map.key_at(i));
        assert(map.keys().take(i + 1) =~= map.keys().take(i as int).push(map.keys()[i as int]));
        i += 1;
    }
    assert(map.keys().take(i as int) =~= map.keys());
    let ids = sort_oids(&keys);
    proof {
        keys@.lemma_multiset_has_no_duplicates();
        ids@.lemma_multiset_has_no_duplicates_conv();
        assert(ids@.to_set() =~= map@.dom());
    }
    ids
}

/// Reads the surviving cruft objects, in index order.
pub fn collect_cruft_objects<R: ObjectReader>(reader: &R, survivors: &OidMap<u32>) -> (objects: Result<
    Vec<CruftObject>,
    GitError,
>)
    ensures
        exists|ids: Seq<ObjectId>|
            #[trigger] are_sorted_keys(ids, survivors@) && match objects {
                Ok(objects) => read_cruft(reader, survivors@, ids) == Ok::<Seq<CruftObject>, GitError>(
                    objects@,
                ),
                Err(err) => read_cruft(reader, survivors@, ids) == Err::<Seq<CruftObject>, GitError>(err),
            },
{
    let ids = sorted_keys(survivors);
    let mut objects: Vec<CruftObject> = Vec::new();
    let mut i: usize = 0;
    while i < ids.len()
        invariant
            i <= ids@.len(),
            are_sorted_keys(ids@, survivors@),
            read_cruft(reader, survivors@, ids@.take(i as int)) == Ok::<Seq<CruftObject>, GitError>(objects@),
        decreases ids@.len() - i,
    {
        assert(ids@.take(i + 1).drop_last() =~= ids@.take(i as int));
        let oid = ids[i];
        assert(ids@.to_set().contains(oid));
        match survivors.get(&oid) {
            None => {
                assert(false);
            },
            Some(mtime) => {
                match reader.read_object(&oid) {
                    Ok(object) => {
                        objects.push(CruftObject { oid, mtime: *mtime, object });
                    },
                    Err(GitError::NotFound(_)) => {},
                    Err(err) => {
                        proof {
                            lemma_read_cruft_prefix(reader, survivors@, ids@, i + 1);
                        }
                        return Err(err);
                    },
                }
            },
        }
        i += 1;
    }
    assert(ids@.take(i as int) =~= ids@);
    Ok(objects)
}

/// An object that a `repack -A` writes loose, with the time it keeps.
pub open spec fn is_unpacked(
    mtimes: Map<ObjectId, u32>,
    oid: ObjectId,
    reachable: Set<ObjectId>,
    loose: Set<ObjectId>,
    recent: Set<ObjectId>,
    unpack_before: Option<u32>,
) -> bool {
    &&& mtimes.contains_key(oid)
    &&& !reachable.contains(oid)
    &&& !loose.contains(oid)
    &&& unpack_before matches Some(cutoff) ==> mtimes[oid] > cutoff || recent.contains(oid)
}

/// The ids that a `repack -A` writes loose before it removes the packs that
/// hold them: objects found only in packs being replaced that nothing reaches,
/// except, with a cutoff, those that are neither newer than it nor recent.
pub fn select_unpacked(
    mtimes: &OidMap<u32>,
    reachable: &OidSet,
    loose: &OidSet,
    recent: &OidSet,
    unpack_before: Option<u32>,
) -> (unpacked: OidMap<u32>)
    ensures
        forall|oid: ObjectId|
            #[trigger] unpacked@.contains_key(oid) <==> is_unpacked(
                mtimes@,
                oid,
                reachable@,
                loose@,
                recent@,
                unpack_before,
            ),
        forall|oid: ObjectId| #[trigger] unpacked@.contains_key(oid) ==> unpacked@[oid] == mtimes@[oid],
{
    let count: usize = mtimes.len();
    let ghost keys = mtimes.keys();
    let mut unpacked: OidMap<u32> = OidMap::new();
    let mut i: usize = 0;
    while i < count
        invariant
            i <= count == keys.len(),
            keys == mtimes.keys(),
            forall|oid: ObjectId|
                #[trigger] unpacked@.contains_key(oid) <==> keys.take(i as int).contains(oid) && is_unpacked(
                    mtimes@,
                    oid,
                    reachable@,
                    loose@,
                    recent@,
                    unpack_before,
                ),
            forall|oid: ObjectId| #[trigger] unpacked@.contains_key(oid) ==> unpacked@[oid] == mtimes@[oid],
        decreases count - i,
    {
        let oid = mtimes.key_at(i);
        let mtime: u32 = *mtimes.value_at(i);
        let in_time = match unpack_before {
            Some(cutoff) => mtime > cutoff || recent.contains(&oid),
            None => true,
        };
        if !reachable.contains(&oid) && !loose.contains(&oid) && in_time {
            unpacked.insert(oid, mtime);
        }
        proof {
            let done = keys.take(i as int);
            let next = keys.take(i + 1);
            assert(next =~= done.push(oid));
            assert forall|o: ObjectId| next.contains(o) == (done.contains(o) || o == oid) by {
                assert(next[i as int] == oid);
                if done.contains(o) {
                    let k = choose|k: int| 0 <= k < done.len() && done[k] == o;
                    assert(next[k] == o);
                }
                if next.contains(o) {
                    let k = choose|k: int| 0 <= k < next.len() && next[k] == o;
                    if k < i {
                        assert(done[k] == o);
                    }
                }
            }
        }
        i += 1;
    }
    assert(keys.take(i as int) =~= keys);
    unpacked
}

} // verus!
