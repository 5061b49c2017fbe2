//! When objects on disk were last written.

use crate::cruft::law_recorded_is_latest;
use crate::cruft::pack_copies;
use crate::cruft::record_loose_mtimes;
use crate::cruft::record_pack_mtimes;
use crate::cruft::recorded;
use crate::cruft::times_of;
use crate::object_id::ObjectId;
use crate::oid_map::OidMap;
use crate::pack_file::PackIndexEntry;
use vstd::prelude::*;

verus! {

/// A pack with the times that it gives its objects.
pub struct DatedPack {
    /// Whether the pack itself is there, and not only its index.
    pub has_pack: bool,
    /// What its index lists, in index order.
    pub entries: Vec<PackIndexEntry>,
    /// The times in its `.mtimes` file, where it has one that can be read.
    pub per_object: Option<Vec<u32>>,
    /// When the pack was written.
    pub mtime: u32,
}

/// The copies that packs hold, with their times.
pub open spec fn copies_in(packs: Seq<DatedPack>) -> Seq<(ObjectId, u32)>
    decreases packs.len(),
{
    if packs.len() == 0 {
        Seq::empty()
    } else {
        let pack = packs.last();
        let rest = copies_in(packs.drop_last());
        if pack.has_pack {
            rest + pack_copies(pack.entries@, times_of(pack.per_object), pack.mtime)
        } else {
            rest
        }
    }
}

proof fn lemma_recorded_in_turn(mtimes: Map<ObjectId, u32>, first: Seq<(ObjectId, u32)>, second: Seq<(ObjectId, u32)>)
    ensures
        recorded(mtimes, first + second) == recorded(recorded(mtimes, first), second),
    decreases second.len(),
{
    if second.len() == 0 {
        assert(first + second =~= first);
    } else {
        assert((first + second).drop_last() =~= first + second.drop_last());
        lemma_recorded_in_turn(mtimes, first, second.drop_last());
    }
}

/// The latest time of each object that packs hold. A pack that is gone counts
/// for nothing.
pub fn packed_object_mtimes(packs: &[DatedPack]) -> (mtimes: OidMap<u32>)
    ensures
        mtimes@ == recorded(Map::empty(), copies_in(packs@)),
{
    let mut mtimes: OidMap<u32> = OidMap::new();
    let mut i: usize = 0;
    assert(mtimes@ =~= Map::empty());
    while i < packs.len()
        invariant
            i <= packs@.len(),
            mtimes@ == recorded(Map::empty(), copies_in(packs@.take(i as int))),
        decreases packs@.len() - i,
    {
        assert(packs@.take(i + 1).drop_last() =~= packs@.take(i as int));
        let pack = &packs[i];
        if pack.has_pack {
            proof {
                lemma_recorded_in_turn(
                    Map::empty(),
                    copies_in(packs@.take(i as int)),
                    pack_copies(pack.entries@, times_of(pack.per_object), pack.mtime),
                );
            }
            record_pack_mtimes(&mut mtimes, &pack.entries, &pack.per_object, pack.mtime);
        }
        i += 1;
    }
    assert(packs@.take(i as int) =~= packs@);
    mtimes
}

/// Every object on disk with the latest time of any copy: a packed object has
/// the time that its pack records for it, or else that of the pack; a loose one
/// has that of its file.
pub fn object_mtimes_on_disk(packs: &[DatedPack], loose: &[(ObjectId, u32)]) -> (mtimes: OidMap<u32>)
    ensures
        mtimes@ == recorded(Map::empty(), copies_in(packs@) + loose@),
{
    let mut mtimes = packed_object_mtimes(packs);
    proof {
        lemma_recorded_in_turn(Map::empty(), copies_in(packs@), loose@);
    }
    record_loose_mtimes(&mut mtimes, loose);
    mtimes
}

/// The time of an object on disk is that of its latest copy, loose or in a pack
/// that is there: a copy in a pack has the time that the pack records for it,
/// and where it records none that of the pack. An object without a copy has no
/// time.
pub proof fn law_time_is_that_of_the_latest_copy(packs: Seq<DatedPack>, loose: Seq<(ObjectId, u32)>, oid: ObjectId)
    ensures
        ({
            let mtimes = recorded(Map::empty(), copies_in(packs) + loose);
            &&& mtimes.contains_key(oid) ==> {
                ||| exists|i: int| 0 <= i < loose.len() && #[trigger] loose[i] == (oid, mtimes[oid])
                ||| exists|p: int, k: int|
                    #![trigger packs[p].entries@[k]]
                    0 <= p < packs.len() && packs[p].has_pack && 0 <= k < packs[p].entries@.len()
                        && packs[p].entries@[k].oid == oid && mtimes[oid] == if packs[p].per_object is Some && k
                        < packs[p].per_object->Some_0@.len() {
                        packs[p].per_object->Some_0@[k]
                    } else {
                        packs[p].mtime
                    }
            }
            &&& forall|i: int|
                0 <= i < loose.len() && (#[trigger] loose[i]).0 == oid ==> mtimes.contains_key(oid) && mtimes[oid]
                    >= loose[i].1
            &&& forall|p: int, k: int|
                #![trigger packs[p].entries@[k]]
                0 <= p < packs.len() && packs[p].has_pack && 0 <= k < packs[p].entries@.len()
                    && packs[p].entries@[k].oid == oid ==> mtimes.contains_key(oid) && mtimes[oid]
                    >= if packs[p].per_object is Some && k < packs[p].per_object->Some_0@.len() {
                    packs[p].per_object->Some_0@[k]
                } else {
                    packs[p].mtime
                }
        }),
{
    let copies = copies_in(packs) + loose;
    let mtimes = recorded(Map::empty(), copies);
    law_recorded_is_latest(copies, oid);
    assert forall|i: int| 0 <= i < loose.len() && (#[trigger] loose[i]).0 == oid implies mtimes.contains_key(oid)
        && mtimes[oid] >= loose[i].1 by {
        assert(copies[copies_in(packs).len() + i] == loose[i]);
    }
    assert forall|p: int, k: int|
        #![trigger packs[p].entries@[k]]
        0 <= p < packs.len() && packs[p].has_pack && 0 <= k < packs[p].entries@.len() && packs[p].entries@[k].oid
            == oid implies mtimes.contains_key(oid) && mtimes[oid] >= copy_time(packs[p], k) by {
        let at = lemma_copy_is_listed(packs, p, k);
        assert(copies[at] == copies_in(packs)[at]);
    }
    if mtimes.contains_key(oid) {
        let i = choose|i: int| 0 <= i < copies.len() && #[trigger] copies[i] == (oid, mtimes[oid]);
        if i < copies_in(packs).len() {
            assert(copies_in(packs)[i] == copies[i]);
            let (p, k) = lemma_listed_is_copy(packs, i);
            assert(packs[p].entries@[k].oid == oid);
        } else {
            assert(loose[i - copies_in(packs).len()] == copies[i]);
        }
    }
}

/// The time of the copy at a position of a pack.
spec fn copy_time(pack: DatedPack, k: int) -> u32 {
    if pack.per_object is Some && k < pack.per_object->Some_0@.len() {
        pack.per_object->Some_0@[k]
    } else {
        pack.mtime
    }
}

proof fn lemma_copy_is_listed(packs: Seq<DatedPack>, p: int, k: int) -> (at: int)
    requires
        0 <= p < packs.len(),
        packs[p].has_pack,
        0 <= k < packs[p].entries@.len(),
    ensures
        0 <= at < copies_in(packs).len(),
        copies_in(packs)[at] == (packs[p].entries@[k].oid, copy_time(packs[p], k)),
    decreases packs.len(),
{
    let rest = packs.drop_last();
    if p < rest.len() {
        assert(rest[p] == packs[p]);
        lemma_copy_is_listed(rest, p, k)
    } else {
        copies_in(rest).len() + k
    }
}

proof fn lemma_listed_is_copy(packs: Seq<DatedPack>, at: int) -> (place: (int, int))
    requires
        0 <= at < copies_in(packs).len(),
    ensures
        0 <= place.0 < packs.len(),
        packs[place.0].has_pack,
        0 <= place.1 < packs[place.0].entries@.len(),
        copies_in(packs)[at] == (packs[place.0].entries@[place.1].oid, copy_time(packs[place.0], place.1)),
    decreases packs.len(),
{
    let rest = packs.drop_last();
    if at < copies_in(rest).len() {
        let place = lemma_listed_is_copy(rest, at);
        assert(rest[place.0] == packs[place.0]);
        assert(copies_in(packs)[at] == copies_in(rest)[at]);
        place
    } else {
        (packs.len() - 1, at - copies_in(rest).len())
    }
}

} // verus!
