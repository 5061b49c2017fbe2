//! Loaded reachability bitmaps, and walks that consult them.

use crate::bitmap_walk::fill;
use crate::bitmap_walk::fits;
use crate::bitmap_walk::is_misuse;
use crate::bitmap_walk::list_root_tasks;
use crate::bitmap_walk::no_marks;
use crate::bitmap_walk::outside;
use crate::bitmap_walk::reader_tasks;
use crate::bitmap_walk::root_tasks;
use crate::bitmap_walk::run_fill;
use crate::bitmap_walk::stored_bits;
use crate::bitmap_walk::Coverage;
use crate::bitmap_walk::FillEnd;
use crate::bitmap_walk::FillState;
use crate::bitset::bit;
use crate::bitset::bits;
use crate::bitset::bitset_and_not;
use crate::bitset::bitset_is_subset;
use crate::bitset::bitset_or;
use crate::bitset::word_count_for;
use crate::bitset::words_for;
use crate::error::GitError;
use crate::object::ObjectReader;
use crate::object::ObjectType;
use crate::object_id::ObjectId;
use crate::oid_map::OidMap;
use crate::oid_map::OidSet;
use std::sync::Arc;
use vstd::prelude::*;

verus! {

/// The position of each id of a list, the last one of an id that occurs twice.
pub open spec fn position_map(oids: Seq<ObjectId>) -> Map<ObjectId, u32>
    decreases oids.len(),
{
    if oids.len() == 0 {
        Map::empty()
    } else {
        position_map(oids.drop_last()).insert(oids.last(), (oids.len() - 1) as u32)
    }
}

/// What a position map says is where the list holds the id.
pub proof fn lemma_position_map(oids: Seq<ObjectId>)
    requires
        oids.len() <= 0x1_0000_0000,
    ensures
        forall|o: ObjectId| #[trigger] position_map(oids).contains_key(o) <==> oids.contains(o),
        forall|o: ObjectId| #[trigger]
            position_map(oids).contains_key(o) ==> position_map(oids)[o] < oids.len() && oids[position_map(
                oids,
            )[o] as int] == o,
    decreases oids.len(),
{
    if oids.len() > 0 {
        let fewer = oids.drop_last();
        lemma_position_map(fewer);
        assert(oids[oids.len() - 1] == oids.last());
        let held = position_map(fewer);
        let map = position_map(oids);
        assert(map == held.insert(oids.last(), (oids.len() - 1) as u32));
        assert forall|o: ObjectId| #[trigger] map.contains_key(o) implies map[o] < oids.len()
            && oids[map[o] as int] == o by {
            if o != oids.last() {
                assert(held.contains_key(o));
                assert(fewer[held[o] as int] == o);
            }
        }
        assert forall|o: ObjectId| #[trigger] map.contains_key(o) <==> oids.contains(o) by {
            assert(map.contains_key(o) <==> held.contains_key(o) || o == oids.last());
            assert(held.contains_key(o) <==> fewer.contains(o));
            if oids.contains(o) {
                let i = choose|i: int| 0 <= i < oids.len() && oids[i] == o;
                if i < fewer.len() {
                    assert(fewer[i] == o);
                }
            }
            if fewer.contains(o) {
                let i = choose|i: int| 0 <= i < fewer.len() && fewer[i] == o;
                assert(oids[i] == o);
            }
        }
    }
}

/// The position of each id of a list.
pub fn index_positions(oids: &[ObjectId]) -> (positions: OidMap<u32>)
    requires
        oids@.len() <= u32::MAX,
    ensures
        positions@ == position_map(oids@),
{
    let mut positions: OidMap<u32> = OidMap::new();
    let mut i: usize = 0;
    while i < oids.len()
        invariant
            i <= oids@.len() <= u32::MAX,
            positions@ == position_map(oids@.take(i as int)),
        decreases oids@.len() - i,
    {
        positions.insert(oids[i], i as u32);
        assert(oids@.take(i + 1).drop_last() =~= oids@.take(i as int));
        i += 1;
    }
    assert(oids@.take(i as int) =~= oids@);
    positions
}

/// A bitmap that stands for several commits at once: once a walk has marked
/// all of `commits`, it may add all of `bitmap`.
pub struct LoadedPseudoMerge {
    pub commits: Arc<Vec<u64>>,
    pub bitmap: Arc<Vec<u64>>,
}

/// A pack's bitmap loaded for consultation: the bit of each object, the
/// resolved reachability bitset of each selected commit, and the four object
/// type bitmaps. Bit numbering follows pack order throughout.
pub struct LoadedPackBitmap {
    pub object_count: u32,
    pub oid_to_pack: OidMap<u32>,
    pub pack_to_oid: Vec<ObjectId>,
    pub commit_words: OidMap<Arc<Vec<u64>>>,
    pub pseudo_merges: Vec<LoadedPseudoMerge>,
    pub commits: Vec<u64>,
    pub trees: Vec<u64>,
    pub blobs: Vec<u64>,
    pub tags: Vec<u64>,
}

impl LoadedPackBitmap {
    pub open spec fn spec_word_count(self) -> nat {
        words_for(self.object_count as nat)
    }

    pub open spec fn wf(self) -> bool {
        &&& self.pack_to_oid@.len() == self.object_count
        &&& self.oid_to_pack@ == position_map(self.pack_to_oid@)
        &&& forall|oid: ObjectId| #[trigger]
            self.commit_words@.contains_key(oid) ==> self.commit_words@[oid]@.len() == self.spec_word_count()
        &&& forall|i: int|
            0 <= i < self.pseudo_merges@.len() ==> (#[trigger] self.pseudo_merges@[i]).commits@.len()
                == self.spec_word_count() && self.pseudo_merges@[i].bitmap@.len() == self.spec_word_count()
        &&& self.commits@.len() == self.spec_word_count()
        &&& self.trees@.len() == self.spec_word_count()
        &&& self.blobs@.len() == self.spec_word_count()
        &&& self.tags@.len() == self.spec_word_count()
    }

    /// What walks that consult this bitmap go by.
    pub open spec fn coverage(self) -> Coverage {
        Coverage { positions: self.oid_to_pack@, stored: stored_bits(self.commit_words@), open: true }
    }

    proof fn lemma_fits(self)
        requires
            self.wf(),
        ensures
            fits(self.oid_to_pack@, self.commit_words@, self.spec_word_count()),
    {
        lemma_position_map(self.pack_to_oid@);
        assert(64 * self.spec_word_count() >= self.object_count);
    }

    pub fn object_count(&self) -> (count: u32)
        ensures
            count == self.object_count,
    {
        self.object_count
    }

    /// Pack-order position of `oid`, when the object is in the bitmapped pack.
    pub fn pack_position(&self, oid: &ObjectId) -> (position: Option<u32>)
        ensures
            position == if self.oid_to_pack@.contains_key(*oid) {
                Some(self.oid_to_pack@[*oid])
            } else {
                None
            },
    {
        match self.oid_to_pack.get(oid) {
            Some(position) => Some(*position),
            None => None,
        }
    }

    /// The object whose bit is at `position`.
    pub fn oid_at(&self, position: u32) -> (oid: Option<&ObjectId>)
        ensures
            match oid {
                Some(oid) => position < self.pack_to_oid@.len() && *oid == self.pack_to_oid@[position as int],
                None => position >= self.pack_to_oid@.len(),
            },
    {
        if (position as usize) < self.pack_to_oid.len() {
            Some(&self.pack_to_oid[position as usize])
        } else {
            None
        }
    }

    /// The resolved reachability bitset stored for `oid`, when it was one of
    /// the writer's selected commits.
    pub fn bitmap_for_commit(&self, oid: &ObjectId) -> (words: Option<&Arc<Vec<u64>>>)
        ensures
            words is Some <==> self.commit_words@.contains_key(*oid),
            words matches Some(words) ==> *words == self.commit_words@[*oid],
    {
        self.commit_words.get(oid)
    }

    /// Every commit with a stored bitmap, once.
    pub fn bitmapped_commits(&self) -> (oids: Vec<ObjectId>)
        ensures
            oids@ == self.commit_words.keys(),
            oids@.no_duplicates(),
            forall|oid: ObjectId| oids@.contains(oid) <==> self.commit_words@.contains_key(oid),
    {
        let count: usize = self.commit_words.len();
        let mut oids: Vec<ObjectId> = Vec::with_capacity(count);
        let mut i: usize = 0;
        while i < count
            invariant
                i <= count,
                count == self.commit_words.keys().len(),
                oids@ == self.commit_words.keys().take(i as int),
            decreases count - i,
        {
            oids.push(self.commit_words.key_at(i));
            assert(oids@ =~= self.commit_words.keys().take(i + 1));
            i += 1;
        }
        assert(self.commit_words.keys().take(i as int) =~= self.commit_words.keys());
        oids
    }

    pub fn pseudo_merge_count(&self) -> (count: usize)
        ensures
            count == self.pseudo_merges@.len(),
    {
        self.pseudo_merges.len()
    }

    /// The commits and the bitmap of a pseudo-merge.
    pub fn pseudo_merge_words(&self, index: usize) -> (words: Option<(&[u64], &[u64])>)
        ensures
            match words {
                Some((commits, bitmap)) => index < self.pseudo_merges@.len() && commits@
                    == self.pseudo_merges@[index as int].commits@ && bitmap@
                    == self.pseudo_merges@[index as int].bitmap@,
                None => index >= self.pseudo_merges@.len(),
            },
    {
        if index < self.pseudo_merges.len() {
            let merge = &self.pseudo_merges[index];
            Some((merge.commits.as_slice(), merge.bitmap.as_slice()))
        } else {
            None
        }
    }

    pub open spec fn spec_type_words(self, object_type: ObjectType) -> Seq<u64> {
        match object_type {
            ObjectType::Commit => self.commits@,
            ObjectType::Tree => self.trees@,
            ObjectType::Blob => self.blobs@,
            ObjectType::Tag => self.tags@,
        }
    }

    /// The type bitmap for `object_type`, a bit per pack position.
    pub fn type_words(&self, object_type: ObjectType) -> (words: &[u64])
        ensures
            words@ == self.spec_type_words(object_type),
    {
        match object_type {
            ObjectType::Commit => self.commits.as_slice(),
            ObjectType::Tree => self.trees.as_slice(),
            ObjectType::Blob => self.blobs.as_slice(),
            ObjectType::Tag => self.tags.as_slice(),
        }
    }

    pub fn word_count(&self) -> (count: usize)
        ensures
            count == self.spec_word_count(),
    {
        word_count_for(self.object_count as usize)
    }
}

/// Result of a bitmap-assisted reachability walk: bits for the objects of the
/// bitmapped pack, and the objects met outside it, in the order in which they
/// were first seen.
pub struct BitmapWalkResult {
    pub words: Vec<u64>,
    pub extended: Vec<(ObjectId, ObjectType)>,
    pub pseudo_merges_satisfied: usize,
    pub pseudo_merges_cascades: usize,
}

/// The objects of `extended` that `others` does not name, in order.
pub open spec fn extended_without(
    extended: Seq<(ObjectId, ObjectType)>,
    others: Set<ObjectId>,
) -> Seq<(ObjectId, ObjectType)> {
    extended.filter(|pair: (ObjectId, ObjectType)| !others.contains(pair.0))
}

impl BitmapWalkResult {
    /// Removes everything reachable in `haves` from this result.
    pub fn subtract(&mut self, haves: &BitmapWalkResult)
        ensures
            final(self).words@.len() == old(self).words@.len(),
            bits(final(self).words@) == bits(old(self).words@).difference(bits(haves.words@)),
            final(self).extended@ == extended_without(
                old(self).extended@,
                outside(haves.extended@).to_set(),
            ),
            final(self).pseudo_merges_satisfied == old(self).pseudo_merges_satisfied,
            final(self).pseudo_merges_cascades == old(self).pseudo_merges_cascades,
    {
        bitset_and_not(&mut self.words, &haves.words);
        let mut have = OidSet::new();
        let mut i: usize = 0;
        while i < haves.extended.len()
            invariant
                i <= haves.extended@.len(),
                forall|oid: ObjectId| #[trigger]
                    have@.contains(oid) <==> outside(haves.extended@).take(i as int).contains(oid),
            decreases haves.extended@.len() - i,
        {
            let ghost names = outside(haves.extended@);
            let ghost held = have@;
            let oid = haves.extended[i].0;
            have.insert(oid);
            proof {
                assert(names.take(i + 1) =~= names.take(i as int).push(oid));
                assert forall|o: ObjectId| #[trigger] have@.contains(o) <==> names.take(i + 1).contains(o) by {
                    names.take(i as int).lemma_push_to_set_commute(oid);
                    assert(names.take(i + 1).to_set().contains(o) == names.take(i + 1).contains(o));
                    assert(names.take(i as int).to_set().contains(o) == names.take(i as int).contains(o));
                    assert(have@.contains(o) == (held.contains(o) || o == oid));
                }
            }
            i += 1;
        }
        let ghost others = outside(haves.extended@).to_set();
        assert(outside(haves.extended@).take(i as int) =~= outside(haves.extended@));
        let ghost keep = |pair: (ObjectId, ObjectType)| !others.contains(pair.0);
        let mut kept: Vec<(ObjectId, ObjectType)> = Vec::new();
        let mut k: usize = 0;
        assert(self.extended@.take(0).filter(keep) =~= Seq::empty()) by {
            reveal(Seq::filter);
        }
        while k < self.extended.len()
            invariant
                k <= self.extended@.len(),
                self.extended@ == old(self).extended@,
                forall|oid: ObjectId| #[trigger] have@.contains(oid) <==> others.contains(oid),
                keep == (|pair: (ObjectId, ObjectType)| !others.contains(pair.0)),
                kept@ == self.extended@.take(k as int).filter(keep),
            decreases self.extended@.len() - k,
        {
            let pair = self.extended[k];
            assert(self.extended@.take(k + 1).drop_last() =~= self.extended@.take(k as int));
            assert(self.extended@.take(k + 1).last() == pair);
            if !have.contains(&pair.0) {
                kept.push(pair);
            }
            assert(kept@ == self.extended@.take(k + 1).filter(keep)) by {
                reveal(Seq::filter);
            }
            k += 1;
        }
        assert(self.extended@.take(k as int) =~= self.extended@);
        self.extended = kept;
    }
}

/// Which pseudo-merges a walk has added, and what is marked, after the merges
/// from `i` on were tried in order.
pub open spec fn cascade_pass(
    merges: Seq<LoadedPseudoMerge>,
    i: nat,
    satisfied: Set<int>,
    marked: Set<int>,
) -> (Set<int>, Set<int>)
    decreases merges.len() - i,
{
    if i >= merges.len() {
        (satisfied, marked)
    } else if !satisfied.contains(i as int) && bits(merges[i as int].commits@).subset_of(marked) {
        cascade_pass(merges, i + 1, satisfied.insert(i as int), marked.union(bits(merges[i as int].bitmap@)))
    } else {
        cascade_pass(merges, i + 1, satisfied, marked)
    }
}

/// The pseudo-merges not yet added.
pub open spec fn unsatisfied(merges: Seq<LoadedPseudoMerge>, satisfied: Set<int>) -> Set<int> {
    vstd::set_lib::set_int_range(0, merges.len() as int).difference(satisfied)
}

/// A pass only adds, and what it adds are merges.
pub proof fn lemma_pass_adds(merges: Seq<LoadedPseudoMerge>, i: nat, satisfied: Set<int>, marked: Set<int>)
    ensures
        ({
            let (after, grown) = cascade_pass(merges, i, satisfied, marked);
            &&& satisfied.subset_of(after)
            &&& marked.subset_of(grown)
            &&& forall|k: int| after.contains(k) && !satisfied.contains(k) ==> i <= k < merges.len()
            &&& after != satisfied ==> unsatisfied(merges, after).len() < unsatisfied(merges, satisfied).len()
        }),
    decreases merges.len() - i,
{
    if i < merges.len() {
        let merge = merges[i as int];
        if !satisfied.contains(i as int) && bits(merge.commits@).subset_of(marked) {
            lemma_pass_adds(merges, i + 1, satisfied.insert(i as int), marked.union(bits(merge.bitmap@)));
        } else {
            lemma_pass_adds(merges, i + 1, satisfied, marked);
        }
        let (after, grown) = cascade_pass(merges, i, satisfied, marked);
        if after != satisfied {
            assert(exists|k: int| after.contains(k) && !satisfied.contains(k)) by {
                if forall|k: int| after.contains(k) ==> satisfied.contains(k) {
                    assert(after =~= satisfied);
                }
            }
            let k = choose|k: int| after.contains(k) && !satisfied.contains(k);
            vstd::set_lib::lemma_int_range(0, merges.len() as int);
            let before = unsatisfied(merges, satisfied);
            assert(before.contains(k));
            assert(unsatisfied(merges, after).subset_of(before.remove(k)));
            vstd::set_lib::lemma_len_subset(unsatisfied(merges, after), before.remove(k));
        }
    }
}

/// Which pseudo-merges a walk ends up adding, and what is marked then: passes
/// are made until one adds nothing.
pub open spec fn cascade(
    merges: Seq<LoadedPseudoMerge>,
    satisfied: Set<int>,
    marked: Set<int>,
) -> (Set<int>, Set<int>)
    decreases unsatisfied(merges, satisfied).len(),
{
    let (after, grown) = cascade_pass(merges, 0, satisfied, marked);
    if after == satisfied {
        (after, grown)
    } else {
        proof {
            lemma_pass_adds(merges, 0, satisfied, marked);
        }
        cascade(merges, after, grown)
    }
}

proof fn lemma_pass_idle(merges: Seq<LoadedPseudoMerge>, i: nat, satisfied: Set<int>, marked: Set<int>)
    requires
        cascade_pass(merges, i, satisfied, marked).0 == satisfied,
    ensures
        cascade_pass(merges, i, satisfied, marked).1 == marked,
        forall|k: int|
            i <= k < merges.len() && bits((#[trigger] merges[k]).commits@).subset_of(marked)
                ==> satisfied.contains(k),
    decreases merges.len() - i,
{
    if i < merges.len() {
        let merge = merges[i as int];
        if !satisfied.contains(i as int) && bits(merge.commits@).subset_of(marked) {
            lemma_pass_adds(merges, i + 1, satisfied.insert(i as int), marked.union(bits(merge.bitmap@)));
            assert(satisfied.contains(i as int));
        } else {
            lemma_pass_idle(merges, i + 1, satisfied, marked);
        }
    }
}

proof fn lemma_pass_sound(
    merges: Seq<LoadedPseudoMerge>,
    i: nat,
    satisfied: Set<int>,
    marked: Set<int>,
    closed: Set<int>,
)
    requires
        marked.subset_of(closed),
        forall|k: int|
            0 <= k < merges.len() && bits((#[trigger] merges[k]).commits@).subset_of(closed) ==> bits(
                merges[k].bitmap@,
            ).subset_of(closed),
    ensures
        cascade_pass(merges, i, satisfied, marked).1.subset_of(closed),
    decreases merges.len() - i,
{
    if i < merges.len() {
        let merge = merges[i as int];
        if !satisfied.contains(i as int) && bits(merge.commits@).subset_of(marked) {
            assert(bits(merge.commits@).subset_of(closed));
            lemma_pass_sound(
                merges,
                i + 1,
                satisfied.insert(i as int),
                marked.union(bits(merge.bitmap@)),
                closed,
            );
        } else {
            lemma_pass_sound(merges, i + 1, satisfied, marked, closed);
        }
    }
}

proof fn lemma_pass_holds_bitmaps(merges: Seq<LoadedPseudoMerge>, i: nat, satisfied: Set<int>, marked: Set<int>)
    requires
        forall|k: int|
            0 <= k < merges.len() && #[trigger] satisfied.contains(k) ==> bits(merges[k].bitmap@).subset_of(marked),
    ensures
        forall|k: int|
            0 <= k < merges.len() && #[trigger] cascade_pass(merges, i, satisfied, marked).0.contains(k)
                ==> bits(merges[k].bitmap@).subset_of(cascade_pass(merges, i, satisfied, marked).1),
    decreases merges.len() - i,
{
    if i < merges.len() {
        let merge = merges[i as int];
        if !satisfied.contains(i as int) && bits(merge.commits@).subset_of(marked) {
            let more = satisfied.insert(i as int);
            let grown = marked.union(bits(merge.bitmap@));
            assert forall|k: int| 0 <= k < merges.len() && #[trigger] more.contains(k) implies bits(
                merges[k].bitmap@,
            ).subset_of(grown) by {
                if k != i {
                    assert(satisfied.contains(k));
                }
            }
            lemma_pass_holds_bitmaps(merges, i + 1, more, grown);
            assert(cascade_pass(merges, i, satisfied, marked) == cascade_pass(merges, i + 1, more, grown));
        } else {
            lemma_pass_holds_bitmaps(merges, i + 1, satisfied, marked);
            assert(cascade_pass(merges, i, satisfied, marked) == cascade_pass(merges, i + 1, satisfied, marked));
        }
    } else {
        assert(cascade_pass(merges, i, satisfied, marked) == (satisfied, marked));
    }
}

proof fn lemma_cascade(
    merges: Seq<LoadedPseudoMerge>,
    satisfied: Set<int>,
    marked: Set<int>,
    closed: Set<int>,
)
    requires
        forall|k: int|
            0 <= k < merges.len() && #[trigger] satisfied.contains(k) ==> bits(merges[k].bitmap@).subset_of(marked),
        marked.subset_of(closed),
        forall|k: int|
            0 <= k < merges.len() && bits((#[trigger] merges[k]).commits@).subset_of(closed) ==> bits(
                merges[k].bitmap@,
            ).subset_of(closed),
    ensures
        ({
            let (_, grown) = cascade(merges, satisfied, marked);
            &&& marked.subset_of(grown)
            &&& grown.subset_of(closed)
            &&& forall|k: int|
                0 <= k < merges.len() && bits((#[trigger] merges[k]).commits@).subset_of(grown) ==> bits(
                    merges[k].bitmap@,
                ).subset_of(grown)
        }),
    decreases unsatisfied(merges, satisfied).len(),
{
    let (after, grown) = cascade_pass(merges, 0, satisfied, marked);
    lemma_pass_adds(merges, 0, satisfied, marked);
    lemma_pass_sound(merges, 0, satisfied, marked, closed);
    lemma_pass_holds_bitmaps(merges, 0, satisfied, marked);
    if after == satisfied {
        lemma_pass_idle(merges, 0, satisfied, marked);
    } else {
        lemma_cascade(merges, after, grown, closed);
    }
}

/// The pseudo-merges of a walk add the least set of bits that holds what was
/// marked and, with the commits of a merge, all of its bitmap. In particular
/// they add nothing to a walk that already marked what its commits lead to.
pub proof fn law_cascade_is_least(merges: Seq<LoadedPseudoMerge>, marked: Set<int>, closed: Set<int>)
    requires
        marked.subset_of(closed),
        forall|k: int|
            0 <= k < merges.len() && bits((#[trigger] merges[k]).commits@).subset_of(closed) ==> bits(
                merges[k].bitmap@,
            ).subset_of(closed),
    ensures
        ({
            let (_, grown) = cascade(merges, Set::empty(), marked);
            &&& marked.subset_of(grown)
            &&& grown.subset_of(closed)
            &&& forall|k: int|
                0 <= k < merges.len() && bits((#[trigger] merges[k]).commits@).subset_of(grown) ==> bits(
                    merges[k].bitmap@,
                ).subset_of(grown)
        }),
{
    lemma_cascade(merges, Set::empty(), marked, closed);
}

/// Adds the bitmap of each pseudo-merge whose commits are all marked, until no
/// merge is left that can be added. Returns how many were added, and whether
/// any was.
pub fn bitmap_cascade_pseudo_merges(bitmap: &LoadedPackBitmap, words: &mut Vec<u64>) -> (counts: (usize, usize))
    requires
        bitmap.wf(),
        old(words)@.len() == bitmap.spec_word_count(),
    ensures
        final(words)@.len() == old(words)@.len(),
        ({
            let (satisfied, grown) = cascade(bitmap.pseudo_merges@, Set::empty(), bits(old(words)@));
            &&& bits(final(words)@) == grown
            &&& counts.0 == satisfied.len()
            &&& counts.1 == if satisfied.len() > 0 {
                1usize
            } else {
                0usize
            }
        }),
{
    let count: usize = bitmap.pseudo_merges.len();
    let ghost merges = bitmap.pseudo_merges@;
    let ghost start = bits(words@);
    let mut satisfied: Vec<bool> = Vec::with_capacity(count);
    let mut i: usize = 0;
    while i < count
        invariant
            i <= count,
            satisfied@.len() == i,
            forall|k: int| 0 <= k < i ==> !satisfied@[k],
        decreases count - i,
    {
        satisfied.push(false);
        i += 1;
    }
    let mut total: usize = 0;
    let ghost mut set = Set::<int>::empty();
    assert(set.len() == 0);
    let mut more = true;
    while more
        invariant
            bitmap.wf(),
            merges == bitmap.pseudo_merges@,
            count == merges.len(),
            satisfied@.len() == count,
            words@.len() == old(words)@.len(),
            words@.len() == bitmap.spec_word_count(),
            forall|k: int| set.contains(k) ==> 0 <= k < count,
            forall|k: int| 0 <= k < count ==> (#[trigger] satisfied@[k] <==> set.contains(k)),
            set.finite(),
            total == set.len(),
            total <= count,
            more ==> cascade(merges, set, bits(words@)) == cascade(merges, Set::empty(), start),
            !more ==> (set, bits(words@)) == cascade(merges, Set::empty(), start),
        decreases unsatisfied(merges, set).len() + if more {
                1nat
            } else {
                0nat
            },
    {
        let ghost before = set;
        let ghost held = bits(words@);
        let mut any = false;
        let mut index: usize = 0;
        while index < count
            invariant
                bitmap.wf(),
                merges == bitmap.pseudo_merges@,
                count == merges.len(),
                index <= count,
                satisfied@.len() == count,
                words@.len() == old(words)@.len(),
                words@.len() == bitmap.spec_word_count(),
                forall|k: int| set.contains(k) ==> 0 <= k < count,
                forall|k: int| 0 <= k < count ==> (#[trigger] satisfied@[k] <==> set.contains(k)),
                set.finite(),
                total == set.len(),
                total <= count,
                before.subset_of(set),
                any <==> set != before,
                cascade_pass(merges, index as nat, set, bits(words@)) == cascade_pass(merges, 0, before, held),
            decreases count - index,
        {
            let merge = &bitmap.pseudo_merges[index];
            let fresh = !satisfied[index];
            if fresh && bitset_is_subset(merge.commits.as_slice(), words.as_slice()) {
                proof {
                    assert(bits(merge.commits@).subset_of(bits(words@))) by {
                        assert forall|p: int| bits(merge.commits@).contains(p) implies bits(words@).contains(p) by {
                            assert(bit(merge.commits@, p));
                        }
                    }
                    let grown = set.insert(index as int);
                    vstd::set_lib::lemma_int_range(0, count as int);
                    assert(grown.subset_of(vstd::set_lib::set_int_range(0, count as int)));
                    vstd::set_lib::lemma_len_subset(grown, vstd::set_lib::set_int_range(0, count as int));
                    assert(!before.contains(index as int));
                    assert(grown.contains(index as int));
                    set = grown;
                }
                bitset_or(words, merge.bitmap.as_slice());
                satisfied.set(index, true);
                any = true;
                total += 1;
            } else {
                proof {
                    if fresh {
                        assert(!bits(merge.commits@).subset_of(bits(words@))) by {
                            let p = choose|p: int|
                                0 <= p < 64 * words@.len() && #[trigger] bit(merge.commits@, p) && !bit(words@, p);
                            assert(bits(merge.commits@).contains(p) && !bits(words@).contains(p));
                        }
                    }
                }
            }
            index += 1;
        }
        proof {
            lemma_pass_adds(merges, 0, before, held);
        }
        more = any;
    }
    let cascades: usize = if total > 0 {
        1
    } else {
        0
    };
    (total, cascades)
}

/// Where a bitmap-assisted walk ends before its pseudo-merges are added.
pub open spec fn reachable_end<R: ObjectReader>(
    bitmap: LoadedPackBitmap,
    reader: &R,
    roots: Seq<ObjectId>,
    include_objects: bool,
) -> FillEnd {
    fill(
        reader_tasks(reader, include_objects),
        bitmap.coverage(),
        root_tasks(reader, roots),
        no_marks(),
    )
}

/// Whether `result` is what a bitmap-assisted walk comes to.
pub open spec fn is_bitmap_walk<R: ObjectReader>(
    bitmap: LoadedPackBitmap,
    reader: &R,
    roots: Seq<ObjectId>,
    include_objects: bool,
    result: Result<BitmapWalkResult, GitError>,
) -> bool {
    match reachable_end(bitmap, reader, roots, include_objects) {
        FillEnd::Done(marks) => {
            let (satisfied, grown) = cascade(bitmap.pseudo_merges@, Set::empty(), marks.bits);
            &&& result is Ok
            &&& result->Ok_0.words@.len() == bitmap.spec_word_count()
            &&& bits(result->Ok_0.words@) == grown
            &&& result->Ok_0.extended@ == marks.extended
            &&& result->Ok_0.pseudo_merges_satisfied == satisfied.len()
            &&& result->Ok_0.pseudo_merges_cascades == if satisfied.len() > 0 {
                1usize
            } else {
                0usize
            }
        },
        FillEnd::Failed(err) => result matches Err(failure) && failure == err,
        FillEnd::Misused(oid) => result matches Err(failure) && is_misuse(failure, oid),
        FillEnd::Missing(_) => false,
    }
}

/// Computes the set of objects reachable from `roots` using stored bitmaps
/// where available and an object walk where not.
///
/// Roots may be any object type; tag chains are peeled with every tag object
/// itself included. When `include_objects` is false only commits are walked:
/// the trees of commits without a stored bitmap are not marked.
pub fn bitmap_reachable<R: ObjectReader>(
    bitmap: &LoadedPackBitmap,
    reader: &R,
    roots: &[ObjectId],
    include_objects: bool,
) -> (result: Result<BitmapWalkResult, GitError>)
    requires
        bitmap.wf(),
    ensures
        is_bitmap_walk(*bitmap, reader, roots@, include_objects, result),
{
    proof {
        bitmap.lemma_fits();
        crate::bitmap_walk::lemma_open_walk_misses_nothing(
            reader_tasks(reader, include_objects),
            bitmap.coverage(),
            root_tasks(reader, roots@),
            no_marks(),
        );
    }
    let tasks = list_root_tasks(reader, roots);
    let mut state = FillState::new(bitmap.word_count());
    match run_fill(
        reader,
        &bitmap.oid_to_pack,
        &bitmap.commit_words,
        true,
        include_objects,
        tasks,
        &mut state,
    ) {
        Err(err) => Err(err),
        Ok(_) => {
            let FillState { words, extended, extended_seen: _ } = state;
            let mut words = words;
            let (pseudo_merges_satisfied, pseudo_merges_cascades) = bitmap_cascade_pseudo_merges(
                bitmap,
                &mut words,
            );
            Ok(BitmapWalkResult { words, extended, pseudo_merges_satisfied, pseudo_merges_cascades })
        },
    }
}

} // verus!
