//! Objects that were received and are not yet accepted.

use crate::database::Alternate;
use crate::object_id::byte_slice_less;
use crate::order::law_stable_sort;
use crate::order::lemma_text_order;
use crate::order::sort;
use crate::order::stable_sort;
use crate::order::text_order;
use crate::order::texts;
use crate::order::Less;
use crate::order::Order;
use crate::pack_order::has_extension;
use crate::pack_order::is_extension;
use vstd::prelude::*;
use vstd::string::*;

verus! {

/// Which of two files is moved first: one that is not a pack before one that
/// is, then by name.
pub open spec fn promotes_before(a: &String, b: &String) -> bool {
    let a_pack = has_extension(a@, ".pack"@);
    let b_pack = has_extension(b@, ".pack"@);
    if a_pack != b_pack {
        b_pack
    } else {
        (text_order())(a@, b@)
    }
}

pub open spec fn promotion_less<'a>() -> Less<&'a String> {
    |a: &'a String, b: &'a String| promotes_before(a, b)
}

struct ByPromotion;

impl<'a> Order<&'a String> for ByPromotion {
    closed spec fn less(&self) -> Less<&'a String> {
        promotion_less()
    }

    proof fn lemma_is_order(&self) {
        lemma_text_order();
        let less = promotion_less();
        let by_text = text_order();
        assert forall|a: &'a String, b: &'a String| #[trigger] less(a, b) implies !less(b, a) by {
            if by_text(a@, b@) {
                assert(!by_text(b@, a@));
            }
        }
        assert forall|a: &'a String, b: &'a String, c: &'a String| #[trigger] less(a, c) implies #[trigger] less(
            a,
            b,
        ) || less(b, c) by {
            if by_text(a@, c@) {
                assert(by_text(a@, b@) || by_text(b@, c@));
            }
        }
    }

    fn is_less(&self, a: &&'a String, b: &&'a String) -> (less: bool) {
        let a_pack = is_extension(a.as_str(), ".pack");
        let b_pack = is_extension(b.as_str(), ".pack");
        if a_pack != b_pack {
            b_pack
        } else {
            byte_slice_less(a.as_str().as_bytes(), b.as_str().as_bytes())
        }
    }
}

pub open spec fn borrowed<'a>(files: Seq<String>) -> Seq<&'a String> {
    files.map_values(|file: String| &file)
}

/// The files in the order in which they are moved.
pub open spec fn promoted<'a>(files: Seq<String>) -> Seq<&'a String> {
    stable_sort(promotion_less(), borrowed(files))
}

/// The files of a quarantine in the order in which they are moved to where they
/// are to stay: indexes and sidecars become visible before their packs, so
/// that no reader sees a pack without its index.
pub fn promotion_order(files: &Vec<String>) -> (order: Vec<String>)
    ensures
        texts(order@) == promoted(files@).map_values(|file: &String| file@),
{
    let mut refs: Vec<&String> = Vec::new();
    let mut i: usize = 0;
    while i < files.len()
        invariant
            i <= files@.len(),
            refs@ == borrowed(files@).take(i as int),
        decreases files@.len() - i,
    {
        refs.push(&files[i]);
        assert(refs@ =~= borrowed(files@).take(i + 1));
        i += 1;
    }
    assert(refs@ =~= borrowed(files@));
    let sorted = sort(&ByPromotion, &refs);
    let mut order: Vec<String> = Vec::new();
    let mut k: usize = 0;
    while k < sorted.len()
        invariant
            k <= sorted@.len(),
            order@.len() == k,
            forall|m: int| 0 <= m < k ==> (#[trigger] order@[m])@ == sorted@[m]@,
        decreases sorted@.len() - k,
    {
        order.push(sorted[k].clone());
        k += 1;
    }
    assert(texts(order@) =~= promoted(files@).map_values(|file: &String| file@));
    order
}

/// Every file that is not a pack is moved before every pack.
pub proof fn law_packs_are_promoted_last(files: Seq<String>, i: int, j: int)
    requires
        0 <= i < j < promoted(files).len(),
        has_extension(promoted(files)[i]@, ".pack"@),
    ensures
        has_extension(promoted(files)[j]@, ".pack"@),
{
    ByPromotion.lemma_is_order();
    law_stable_sort(promotion_less(), borrowed(files));
    let less = promotion_less();
    assert(!less(promoted(files)[j], promoted(files)[i]));
}

/// What a promotion does with one file, or after it failed.
#[derive(Debug, PartialEq, Eq)]
pub enum PromotionStep {
    /// Move the file at a position of the order to where it is to stay.
    Move(usize),
    /// Drop the file at a position of the order: what is to stay is there.
    Discard(usize),
    /// Move the file at a position of the order back.
    Return(usize),
    /// All files were promoted: remove the quarantine.
    Finished,
    /// All files that were moved are back: report the failure.
    Failed,
}

/// A promotion in progress.
pub struct Promotion {
    count: usize,
    next: usize,
    moved: Vec<usize>,
    failed: bool,
}

impl Promotion {
    pub closed spec fn spec_count(self) -> usize {
        self.count
    }

    /// The position that comes next.
    pub closed spec fn spec_next(self) -> usize {
        self.next
    }

    /// The positions of the files that were moved and not moved back.
    pub closed spec fn moved(self) -> Seq<usize> {
        self.moved@
    }

    pub closed spec fn has_failed(self) -> bool {
        self.failed
    }

    pub open spec fn wf(self) -> bool {
        self.spec_next() <= self.spec_count()
    }

    pub fn new(count: usize) -> (promotion: Promotion)
        ensures
            promotion.wf(),
            promotion.spec_count() == count,
            promotion.spec_next() == 0,
            promotion.moved() == Seq::<usize>::empty(),
            !promotion.has_failed(),
    {
        Promotion { count, next: 0, moved: Vec::new(), failed: false }
    }

    /// What to do next, where `taken` says whether what the next file is to
    /// become is already there.
    pub fn step(&self, taken: bool) -> (step: PromotionStep)
        requires
            self.wf(),
        ensures
            step == if self.has_failed() {
                if self.moved().len() > 0 {
                    PromotionStep::Return(self.moved().last())
                } else {
                    PromotionStep::Failed
                }
            } else if self.spec_next() == self.spec_count() {
                PromotionStep::Finished
            } else if taken {
                PromotionStep::Discard(self.spec_next())
            } else {
                PromotionStep::Move(self.spec_next())
            },
    {
        if self.failed {
            let n: usize = self.moved.len();
            if n > 0 {
                PromotionStep::Return(self.moved[n - 1])
            } else {
                PromotionStep::Failed
            }
        } else if self.next == self.count {
            PromotionStep::Finished
        } else if taken {
            PromotionStep::Discard(self.next)
        } else {
            PromotionStep::Move(self.next)
        }
    }

    /// Notes that the next file was moved.
    pub fn note_moved(&mut self)
        requires
            old(self).wf(),
            !old(self).has_failed(),
            old(self).spec_next() < old(self).spec_count(),
        ensures
            final(self).wf(),
            final(self).spec_count() == old(self).spec_count(),
            final(self).spec_next() == old(self).spec_next() + 1,
            final(self).moved() == old(self).moved().push(old(self).spec_next()),
            !final(self).has_failed(),
    {
        self.moved.push(self.next);
        self.next = self.next + 1;
    }

    /// Notes that the next file was dropped.
    pub fn note_discarded(&mut self)
        requires
            old(self).wf(),
            !old(self).has_failed(),
            old(self).spec_next() < old(self).spec_count(),
        ensures
            final(self).wf(),
            final(self).spec_count() == old(self).spec_count(),
            final(self).spec_next() == old(self).spec_next() + 1,
            final(self).moved() == old(self).moved(),
            !final(self).has_failed(),
    {
        self.next = self.next + 1;
    }

    /// Notes that the next file could not be moved.
    pub fn note_failed(&mut self)
        requires
            old(self).wf(),
        ensures
            final(self).wf(),
            final(self).spec_count() == old(self).spec_count(),
            final(self).spec_next() == old(self).spec_next(),
            final(self).moved() == old(self).moved(),
            final(self).has_failed(),
    {
        self.failed = true;
    }

    /// Notes that the file moved last was moved back, or could not be: either
    /// way the next one is taken.
    pub fn note_returned(&mut self)
        requires
            old(self).wf(),
            old(self).moved().len() > 0,
        ensures
            final(self).wf(),
            final(self).spec_count() == old(self).spec_count(),
            final(self).spec_next() == old(self).spec_next(),
            final(self).moved() == old(self).moved().drop_last(),
            final(self).has_failed() == old(self).has_failed(),
    {
        self.moved.pop();
    }
}

/// What is left to move back after some files were.
pub open spec fn still_moved(moved: Seq<usize>, returned: nat) -> Seq<usize>
    decreases returned,
{
    if returned == 0 {
        moved
    } else {
        still_moved(moved, (returned - 1) as nat).drop_last()
    }
}

/// A promotion that failed moves back exactly the files that it moved, the last
/// of them first.
pub proof fn law_failed_promotion_returns_what_it_moved(moved: Seq<usize>, returned: nat)
    requires
        returned <= moved.len(),
    ensures
        still_moved(moved, returned) == moved.take(moved.len() - returned),
        returned < moved.len() ==> still_moved(moved, returned).last() == moved[moved.len() - returned - 1],
        returned == moved.len() ==> still_moved(moved, returned).len() == 0,
    decreases returned,
{
    if returned > 0 {
        law_failed_promotion_returns_what_it_moved(moved, (returned - 1) as nat);
        assert(moved.take(moved.len() - returned + 1).drop_last() =~= moved.take(moved.len() - returned));
    } else {
        assert(moved.take(moved.len() as int) =~= moved);
    }
}

/// The text of the file that lets a quarantine draw on other directories: their
/// paths, one to a line.
pub open spec fn alternates_text(alternates: Seq<Alternate>) -> Seq<char>
    decreases alternates.len(),
{
    if alternates.len() == 0 {
        Seq::empty()
    } else {
        alternates_text(alternates.drop_last()) + alternates.last().path@ + "\n"@
    }
}

/// The text of the file that lets a quarantine draw on other directories.
pub fn quarantine_alternates(alternates: &Vec<Alternate>) -> (text: String)
    ensures
        text@ == alternates_text(alternates@),
{
    let mut text = String::new();
    let mut i: usize = 0;
    proof {
        reveal_strlit("");
        assert(text@ =~= alternates_text(alternates@.take(0)));
    }
    while i < alternates.len()
        invariant
            i <= alternates@.len(),
            text@ == alternates_text(alternates@.take(i as int)),
        decreases alternates@.len() - i,
    {
        assert(alternates@.take(i + 1).drop_last() =~= alternates@.take(i as int));
        text.append(alternates[i].path.as_str());
        text.append("\n");
        i += 1;
    }
    assert(alternates@.take(i as int) =~= alternates@);
    text
}

/// Every file of a quarantine is promoted, once; of two packs, and of two other
/// files, the one whose name comes first is promoted first.
pub proof fn law_every_file_is_promoted(files: Seq<String>, i: int, j: int)
    requires
        0 <= i < j < files.len(),
    ensures
        promoted(files).len() == files.len(),
        promoted(files).to_multiset() == borrowed(files).to_multiset(),
        has_extension(promoted(files)[i]@, ".pack"@) == has_extension(promoted(files)[j]@, ".pack"@) ==> !(text_order())(
            promoted(files)[j]@,
            promoted(files)[i]@,
        ),
{
    ByPromotion.lemma_is_order();
    law_stable_sort(promotion_less(), borrowed(files));
    let less = promotion_less();
    assert(!less(promoted(files)[j], promoted(files)[i]));
}

} // verus!
