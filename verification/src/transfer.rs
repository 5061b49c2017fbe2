//! Which objects a pack built for a transfer carries, and in what order.

use crate::error::GitError;
use crate::object::share;
use crate::object::EncodedObject;
use crate::object::ObjectReader;
use crate::object::ObjectType;
use crate::object_id::ObjectId;
use crate::oid_map::OidSet;
use crate::order::lemma_oid_order;
use crate::order::oid_less;
use crate::order::sort;
use crate::order::stable_sort;
use crate::order::Less;
use crate::order::Order;
use crate::reachability::stored;
use crate::reachability::strict_schedule;
use crate::reachability::strict_walk;
use crate::reachability::walk_reachable_objects_with_cut;
use crate::walk::law_walk_visits_closure;
use std::sync::Arc;
use vstd::prelude::*;

verus! {

/// Reachable sets of at least this many objects are written from their ids, in
/// windows, instead of being held in memory.
pub const REACHABLE_PACK_STREAMING_MIN_OBJECTS: usize = 4096;

/// An object to be packed, with its id.
pub struct ReachablePackObject {
    pub oid: ObjectId,
    pub object: Arc<EncodedObject>,
}

impl ReachablePackObject {
    /// Another handle to the same object.
    pub fn copy(&self) -> (entry: ReachablePackObject)
        ensures
            entry == *self,
    {
        ReachablePackObject { oid: self.oid, object: share(&self.object) }
    }
}

/// What the pack order looks at.
#[derive(Debug, Clone, Copy, PartialEq, Eq)]
pub struct ReachablePackObjectMeta {
    pub oid: ObjectId,
    pub object_type: ObjectType,
    pub size: u64,
}

pub enum ReachablePackObjectsForWrite {
    /// The objects themselves, in walk order.
    Buffered(Vec<ReachablePackObject>),
    /// Only what the pack order looks at, in pack order.
    Streaming(Vec<ReachablePackObjectMeta>),
}

/// The objects that a reader holds under `ids`.
pub open spec fn pack_objects<R: ObjectReader>(reader: &R, ids: Seq<ObjectId>) -> Seq<
    ReachablePackObject,
> {
    ids.map_values(
        |oid: ObjectId| (ReachablePackObject { oid, object: stored(reader, oid)->Some_0 }),
    )
}

pub open spec fn meta_of(entry: ReachablePackObject) -> ReachablePackObjectMeta {
    ReachablePackObjectMeta {
        oid: entry.oid,
        object_type: entry.object.spec_type(),
        size: entry.object.body@.len() as u64,
    }
}

/// The objects reachable from `starts` without entering `excluded`, in walk
/// order.
pub fn collect_reachable_pack_objects<R: ObjectReader>(
    reader: &R,
    starts: &[ObjectId],
    excluded: &OidSet,
) -> (objects: Result<Vec<ReachablePackObject>, GitError>)
    ensures
        match objects {
            Ok(objects) => {
                &&& strict_walk(reader, starts@, excluded@, Set::empty()) is Ok
                &&& objects@ == pack_objects(
                    reader,
                    strict_walk(reader, starts@, excluded@, Set::empty())->Ok_0,
                )
                &&& forall|i: int|
                    0 <= i < objects@.len() ==> reader.object_at((#[trigger] objects@[i]).oid) == Ok::<
                        Arc<EncodedObject>,
                        GitError,
                    >(objects@[i].object)
            },
            Err(err) => strict_walk(reader, starts@, excluded@, Set::empty())
                == Err::<Seq<ObjectId>, GitError>(err),
        },
{
    let cut = OidSet::new();
    let walked = match walk_reachable_objects_with_cut(reader, starts, excluded, &cut) {
        Err(err) => {
            return Err(err);
        },
        Ok(walked) => walked,
    };
    let ghost ids = walked.seen.items();
    proof {
        law_walk_visits_closure(strict_schedule(reader, Set::empty()), excluded@, starts@.reverse());
    }
    let mut objects: Vec<ReachablePackObject> = Vec::new();
    let count: usize = walked.seen.len();
    let mut i: usize = 0;
    while i < count
        invariant
            i <= count,
            count == ids.len(),
            ids == walked.seen.items(),
            walked.objects@ == ids.map_values(|oid: ObjectId| stored(reader, oid)),
            forall|oid: ObjectId| #[trigger] ids.contains(oid) ==> (strict_schedule(reader, Set::empty()))(oid) is Ok,
            objects@ == pack_objects(reader, ids.take(i as int)),
            forall|k: int|
                0 <= k < objects@.len() ==> reader.object_at((#[trigger] objects@[k]).oid) == Ok::<
                    Arc<EncodedObject>,
                    GitError,
                >(objects@[k].object),
        decreases count - i,
    {
        let oid = walked.seen.get(i);
        assert(ids.contains(oid));
        assert(walked.objects@[i as int] == stored(reader, oid));
        match &walked.objects[i] {
            None => {
                assert(false);
            },
            Some(object) => {
                objects.push(ReachablePackObject { oid, object: share(object) });
            },
        }
        assert(ids.take(i + 1) =~= ids.take(i as int).push(oid));
        assert(objects@ =~= pack_objects(reader, ids.take(i + 1)));
        i += 1;
    }
    assert(ids.take(i as int) =~= ids);
    Ok(objects)
}

/// The objects reachable from `starts` without entering `excluded`, in walk
/// order, without their ids.
pub fn collect_reachable_objects<R: ObjectReader>(
    reader: &R,
    starts: &[ObjectId],
    excluded: &OidSet,
) -> (objects: Result<Vec<Arc<EncodedObject>>, GitError>)
    ensures
        match objects {
            Ok(objects) => {
                &&& strict_walk(reader, starts@, excluded@, Set::empty()) is Ok
                &&& objects@ == strict_walk(reader, starts@, excluded@, Set::empty())->Ok_0.map_values(
                    |oid: ObjectId| stored(reader, oid)->Some_0,
                )
            },
            Err(err) => strict_walk(reader, starts@, excluded@, Set::empty())
                == Err::<Seq<ObjectId>, GitError>(err),
        },
{
    match collect_reachable_pack_objects(reader, starts, excluded) {
        Err(err) => Err(err),
        Ok(entries) => {
            let ghost ids = strict_walk(reader, starts@, excluded@, Set::empty())->Ok_0;
            let mut objects: Vec<Arc<EncodedObject>> = Vec::new();
            let mut i: usize = 0;
            while i < entries.len()
                invariant
                    i <= entries@.len(),
                    entries@ == pack_objects(reader, ids),
                    objects@.len() == i,
                    forall|k: int| 0 <= k < i ==> objects@[k] == stored(reader, ids[k])->Some_0,
                decreases entries@.len() - i,
            {
                objects.push(share(&entries[i].object));
                i += 1;
            }
            assert(objects@ =~= ids.map_values(|oid: ObjectId| stored(reader, oid)->Some_0));
            Ok(objects)
        },
    }
}

/// Commits come first in a pack, then trees, blobs and tags.
pub open spec fn type_rank(object_type: ObjectType) -> int {
    match object_type {
        ObjectType::Commit => 0,
        ObjectType::Tree => 1,
        ObjectType::Blob => 2,
        ObjectType::Tag => 3,
    }
}

fn reachable_pack_type_rank(object_type: ObjectType) -> (rank: u8)
    ensures
        rank == type_rank(object_type),
{
    match object_type {
        ObjectType::Commit => 0,
        ObjectType::Tree => 1,
        ObjectType::Blob => 2,
        ObjectType::Tag => 3,
    }
}

/// The order of objects in a streamed pack: by type, the larger first, by id.
pub open spec fn pack_order() -> Less<ReachablePackObjectMeta> {
    |a: ReachablePackObjectMeta, b: ReachablePackObjectMeta|
        {
            if type_rank(a.object_type) != type_rank(b.object_type) {
                type_rank(a.object_type) < type_rank(b.object_type)
            } else if a.size != b.size {
                a.size > b.size
            } else {
                a.oid.less(b.oid)
            }
        }
}

struct ByPackOrder;

impl Order<ReachablePackObjectMeta> for ByPackOrder {
    closed spec fn less(&self) -> Less<ReachablePackObjectMeta> {
        pack_order()
    }

    proof fn lemma_is_order(&self) {
        lemma_oid_order();
        let less = pack_order();
        let by_oid = oid_less();
        assert forall|a: ReachablePackObjectMeta, b: ReachablePackObjectMeta| #[trigger]
            less(a, b) implies !less(b, a) by {
            assert(by_oid(a.oid, b.oid) ==> !by_oid(b.oid, a.oid));
        }
        assert forall|a: ReachablePackObjectMeta, b: ReachablePackObjectMeta, c: ReachablePackObjectMeta|
            #[trigger] less(a, c) implies #[trigger] less(a, b) || less(b, c) by {
            assert(by_oid(a.oid, c.oid) ==> by_oid(a.oid, b.oid) || by_oid(b.oid, c.oid));
        }
    }

    fn is_less(&self, a: &ReachablePackObjectMeta, b: &ReachablePackObjectMeta) -> (less: bool) {
        let rank_a: u8 = reachable_pack_type_rank(a.object_type);
        let rank_b: u8 = reachable_pack_type_rank(b.object_type);
        if rank_a != rank_b {
            rank_a < rank_b
        } else if a.size != b.size {
            a.size > b.size
        } else {
            a.oid.is_less(&b.oid)
        }
    }
}

/// Puts `metadata` in the order of objects in a streamed pack.
pub fn sort_reachable_pack_metadata(metadata: &[ReachablePackObjectMeta]) -> (sorted: Vec<
    ReachablePackObjectMeta,
>)
    ensures
        sorted@ == stable_sort(pack_order(), metadata@),
{
    sort(&ByPackOrder, metadata)
}

/// The reachable objects in the form in which a pack writer takes them: small
/// sets whole and in walk order, large ones as metadata in pack order.
pub fn collect_reachable_pack_objects_for_write<R: ObjectReader>(
    reader: &R,
    starts: &[ObjectId],
    excluded: &OidSet,
) -> (objects: Result<ReachablePackObjectsForWrite, GitError>)
    ensures
        match (objects, strict_walk(reader, starts@, excluded@, Set::empty())) {
            (Err(err), walked) => walked == Err::<Seq<ObjectId>, GitError>(err),
            (Ok(_), Err(_)) => false,
            (Ok(ReachablePackObjectsForWrite::Buffered(objects)), Ok(ids)) => {
                &&& ids.len() < REACHABLE_PACK_STREAMING_MIN_OBJECTS
                &&& objects@ == pack_objects(reader, ids)
            },
            (Ok(ReachablePackObjectsForWrite::Streaming(metadata)), Ok(ids)) => {
                &&& ids.len() >= REACHABLE_PACK_STREAMING_MIN_OBJECTS
                &&& metadata@ == stable_sort(
                    pack_order(),
                    pack_objects(reader, ids).map_values(|entry: ReachablePackObject| meta_of(entry)),
                )
            },
        },
{
    match collect_reachable_pack_objects(reader, starts, excluded) {
        Err(err) => Err(err),
        Ok(objects) => {
            if objects.len() < REACHABLE_PACK_STREAMING_MIN_OBJECTS {
                return Ok(ReachablePackObjectsForWrite::Buffered(objects));
            }
            let mut metadata: Vec<ReachablePackObjectMeta> = Vec::new();
            let mut i: usize = 0;
            while i < objects.len()
                invariant
                    i <= objects@.len(),
                    metadata@.len() == i,
                    forall|k: int| 0 <= k < i ==> metadata@[k] == meta_of(objects@[k]),
                decreases objects@.len() - i,
            {
                let entry = &objects[i];
                metadata.push(
                    ReachablePackObjectMeta {
                        oid: entry.oid,
                        object_type: entry.object.object_type(),
                        size: entry.object.body.len() as u64,
                    },
                );
                i += 1;
            }
            assert(metadata@ =~= objects@.map_values(|entry: ReachablePackObject| meta_of(entry)));
            Ok(ReachablePackObjectsForWrite::Streaming(sort_reachable_pack_metadata(&metadata)))
        },
    }
}

/// The objects of a pack of everything reachable from `starts` without entering
/// `excluded`, in walk order; `None` where there is nothing to pack.
pub fn build_reachable_pack<R: ObjectReader>(reader: &R, starts: &[ObjectId], excluded: &OidSet) -> (objects: Result<
    Option<Vec<ReachablePackObject>>,
    GitError,
>)
    ensures
        match strict_walk(reader, starts@, excluded@, Set::empty()) {
            Err(failure) => objects matches Err(err) && err == failure,
            Ok(ids) => if ids.len() == 0 {
                objects matches Ok(None)
            } else {
                objects matches Ok(Some(objects)) && objects@ == pack_objects(reader, ids)
            },
        },
{
    match collect_reachable_pack_objects(reader, starts, excluded) {
        Err(err) => Err(err),
        Ok(objects) => if objects.len() == 0 {
            Ok(None)
        } else {
            Ok(Some(objects))
        },
    }
}

/// What is written of everything reachable from `starts` without entering
/// `excluded`, in the form and the order in which the writer takes it; `None`
/// where there is nothing to pack.
pub fn write_reachable_pack_to_writer<R: ObjectReader>(reader: &R, starts: &[ObjectId], excluded: &OidSet) -> (written:
    Result<Option<ReachablePackObjectsForWrite>, GitError>)
    ensures
        match strict_walk(reader, starts@, excluded@, Set::empty()) {
            Err(failure) => written matches Err(err) && err == failure,
            Ok(ids) => if ids.len() == 0 {
                written matches Ok(None)
            } else if ids.len() < REACHABLE_PACK_STREAMING_MIN_OBJECTS {
                written matches Ok(Some(ReachablePackObjectsForWrite::Buffered(objects))) && objects@
                    == pack_objects(reader, ids)
            } else {
                written matches Ok(Some(ReachablePackObjectsForWrite::Streaming(metadata))) && metadata@
                    == stable_sort(
                    pack_order(),
                    pack_objects(reader, ids).map_values(|entry: ReachablePackObject| meta_of(entry)),
                )
            },
        },
{
    match collect_reachable_pack_objects_for_write(reader, starts, excluded) {
        Err(err) => Err(err),
        Ok(ReachablePackObjectsForWrite::Buffered(objects)) => if objects.len() == 0 {
            Ok(None)
        } else {
            Ok(Some(ReachablePackObjectsForWrite::Buffered(objects)))
        },
        Ok(streamed) => Ok(Some(streamed)),
    }
}

/// A pack that is streamed takes every object once: commits, then trees, then
/// blobs, then tags, the largest of a type first, and those of one size in the
/// order of ids.
pub proof fn law_streamed_objects_go_by_type_and_size(metadata: Seq<ReachablePackObjectMeta>, i: int, j: int)
    requires
        0 <= i < j < metadata.len(),
    ensures
        stable_sort(pack_order(), metadata).len() == metadata.len(),
        stable_sort(pack_order(), metadata).to_multiset() == metadata.to_multiset(),
        ({
            let a = stable_sort(pack_order(), metadata)[i];
            let b = stable_sort(pack_order(), metadata)[j];
            &&& b.object_type is Commit ==> a.object_type is Commit
            &&& b.object_type is Tree ==> a.object_type is Commit || a.object_type is Tree
            &&& b.object_type is Blob ==> !(a.object_type is Tag)
            &&& a.object_type == b.object_type ==> a.size > b.size || a.size == b.size && !b.oid.less(a.oid)
        }),
{
    let less = pack_order();
    crate::order::lemma_oid_order();
    let by_oid = crate::order::oid_less();
    assert forall|a: ReachablePackObjectMeta, b: ReachablePackObjectMeta| #[trigger] less(a, b) implies !less(b, a) by {
        if by_oid(a.oid, b.oid) {
            assert(!by_oid(b.oid, a.oid));
        }
    }
    assert forall|a: ReachablePackObjectMeta, b: ReachablePackObjectMeta, c: ReachablePackObjectMeta| #[trigger]
        less(a, c) implies #[trigger] less(a, b) || less(b, c) by {
        if by_oid(a.oid, c.oid) {
            assert(by_oid(a.oid, b.oid) || by_oid(b.oid, c.oid));
        }
    }
    crate::order::law_stable_sort(less, metadata);
    assert(!less(stable_sort(less, metadata)[j], stable_sort(less, metadata)[i]));
}

} // verus!
