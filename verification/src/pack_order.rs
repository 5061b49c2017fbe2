//! In which order the packs of a directory are searched.

use crate::order::lemma_text_order;
use crate::order::sort;
use crate::order::stable_sort;
use crate::order::text_order;
use crate::order::Less;
use crate::order::Order;
use crate::object_id::byte_slice_less;
use crate::text::has_suffix;
use crate::text::strip_suffix;
use crate::text::text_eq;
use vstd::prelude::*;
use vstd::string::*;

verus! {

/// A file in a pack directory and, for an index, what is known of the pack that
/// it belongs to.
pub struct ScannedFile {
    pub name: String,
    /// When the pack was last modified, in seconds and nanoseconds, and how
    /// large it is; nothing where it is not there.
    pub pack: Option<(u64, u32, u64)>,
}

/// Whether a name is that of a file with an extension.
pub open spec fn has_extension(name: Seq<char>, extension: Seq<char>) -> bool {
    has_suffix(name, extension) && name.len() > extension.len()
}

pub(crate) fn is_extension(name: &str, extension: &str) -> (is: bool)
    ensures
        is == has_extension(name@, extension@),
{
    match strip_suffix(name, extension) {
        Some(stem) => stem.as_str().unicode_len() > 0,
        None => false,
    }
}

/// An index whose pack is there.
pub struct RegisteredPack {
    pub index_name: String,
    pub seconds: u64,
    pub nanoseconds: u32,
    pub size: u64,
}

/// Which of two packs is searched first: the newer, then the larger, then the
/// one whose index comes first by name.
pub open spec fn search_less(a: &RegisteredPack, b: &RegisteredPack) -> bool {
    if a.seconds != b.seconds {
        a.seconds > b.seconds
    } else if a.nanoseconds != b.nanoseconds {
        a.nanoseconds > b.nanoseconds
    } else if a.size != b.size {
        a.size > b.size
    } else {
        (text_order())(a.index_name@, b.index_name@)
    }
}

pub open spec fn search_order<'a>() -> Less<&'a RegisteredPack> {
    |a: &'a RegisteredPack, b: &'a RegisteredPack| search_less(a, b)
}

struct BySearch;

impl<'a> Order<&'a RegisteredPack> for BySearch {
    closed spec fn less(&self) -> Less<&'a RegisteredPack> {
        search_order()
    }

    proof fn lemma_is_order(&self) {
        lemma_text_order();
        let less = search_order();
        let by_text = text_order();
        assert forall|a: &'a RegisteredPack, b: &'a RegisteredPack| #[trigger] less(a, b) implies !less(b, a) by {
            if by_text(a.index_name@, b.index_name@) {
                assert(!by_text(b.index_name@, a.index_name@));
            }
        }
        assert forall|a: &'a RegisteredPack, b: &'a RegisteredPack, c: &'a RegisteredPack| #[trigger]
            less(a, c) implies #[trigger] less(a, b) || less(b, c) by {
            if by_text(a.index_name@, c.index_name@) {
                assert(by_text(a.index_name@, b.index_name@) || by_text(b.index_name@, c.index_name@));
            }
        }
    }

    fn is_less(&self, a: &&'a RegisteredPack, b: &&'a RegisteredPack) -> (less: bool) {
        if a.seconds != b.seconds {
            a.seconds > b.seconds
        } else if a.nanoseconds != b.nanoseconds {
            a.nanoseconds > b.nanoseconds
        } else if a.size != b.size {
            a.size > b.size
        } else {
            byte_slice_less(a.index_name.as_str().as_bytes(), b.index_name.as_str().as_bytes())
        }
    }
}

/// The packs of a directory: how many indexes and packs it has, and the indexes
/// whose pack is there, in the order of search.
pub struct PackRegistry {
    pub idx_count: usize,
    pub pack_count: usize,
    pub packs: Vec<String>,
}

pub open spec fn count_extension(files: Seq<ScannedFile>, extension: Seq<char>) -> nat
    decreases files.len(),
{
    if files.len() == 0 {
        0
    } else if has_extension(files.last().name@, extension) {
        count_extension(files.drop_last(), extension) + 1
    } else {
        count_extension(files.drop_last(), extension)
    }
}

/// Whether `packs` are the indexes among the files whose pack is there, as they
/// stand.
pub open spec fn are_registered(packs: Seq<RegisteredPack>, files: Seq<ScannedFile>) -> bool
    decreases files.len(),
{
    if files.len() == 0 {
        packs.len() == 0
    } else {
        let file = files.last();
        match file.pack {
            Some((seconds, nanoseconds, size)) => if has_extension(file.name@, ".idx"@) {
                &&& packs.len() > 0
                &&& are_registered(packs.drop_last(), files.drop_last())
                &&& packs.last().index_name@ == file.name@
                &&& packs.last().seconds == seconds
                &&& packs.last().nanoseconds == nanoseconds
                &&& packs.last().size == size
            } else {
                are_registered(packs, files.drop_last())
            },
            None => are_registered(packs, files.drop_last()),
        }
    }
}

pub open spec fn borrowed<'a>(packs: Seq<RegisteredPack>) -> Seq<&'a RegisteredPack> {
    packs.map_values(|pack: RegisteredPack| &pack)
}

/// The packs in the order of search.
pub open spec fn searched<'a>(packs: Seq<RegisteredPack>) -> Seq<&'a RegisteredPack> {
    stable_sort(search_order(), borrowed(packs))
}

proof fn lemma_count_bound(files: Seq<ScannedFile>, extension: Seq<char>)
    ensures
        count_extension(files, extension) <= files.len(),
    decreases files.len(),
{
    if files.len() > 0 {
        lemma_count_bound(files.drop_last(), extension);
    }
}

/// Lists the packs of a directory in the order in which they are searched, the
/// newest and largest first. An index without its pack is passed over.
pub fn scan_pack_registry(files: &Vec<ScannedFile>) -> (registry: PackRegistry)
    ensures
        registry.idx_count == count_extension(files@, ".idx"@),
        registry.pack_count == count_extension(files@, ".pack"@),
        exists|packs: Seq<RegisteredPack>| #[trigger]
            are_registered(packs, files@) && registry.packs@.map_values(|name: String| name@) == searched(
                packs,
            ).map_values(|pack: &RegisteredPack| pack.index_name@),
{
    let mut idx_count: usize = 0;
    let mut pack_count: usize = 0;
    let mut packs: Vec<RegisteredPack> = Vec::new();
    let mut i: usize = 0;
    assert(files@.take(0) =~= Seq::empty());
    while i < files.len()
        invariant
            i <= files@.len(),
            idx_count == count_extension(files@.take(i as int), ".idx"@),
            pack_count == count_extension(files@.take(i as int), ".pack"@),
            are_registered(packs@, files@.take(i as int)),
        decreases files@.len() - i,
    {
        let file = &files[i];
        proof {
            assert(files@.take(i + 1).drop_last() =~= files@.take(i as int));
            assert(files@.take(i + 1).last() == file);
            lemma_count_bound(files@.take(i as int), ".idx"@);
            lemma_count_bound(files@.take(i as int), ".pack"@);
        }
        let ghost held = packs@;
        if is_extension(file.name.as_str(), ".idx") {
            idx_count += 1;
            match file.pack {
                Some((seconds, nanoseconds, size)) => {
                    packs.push(
                        RegisteredPack { index_name: file.name.clone(), seconds, nanoseconds, size },
                    );
                    assert(packs@.drop_last() =~= held);
                },
                None => {},
            }
        }
        if is_extension(file.name.as_str(), ".pack") {
            pack_count += 1;
        }
        i += 1;
    }
    assert(files@.take(i as int) =~= files@);
    let mut refs: Vec<&RegisteredPack> = Vec::new();
    let mut k: usize = 0;
    while k < packs.len()
        invariant
            k <= packs@.len(),
            refs@ == borrowed(packs@).take(k as int),
        decreases packs@.len() - k,
    {
        refs.push(&packs[k]);
        assert(refs@ =~= borrowed(packs@).take(k + 1));
        k += 1;
    }
    assert(refs@ =~= borrowed(packs@));
    let sorted = sort(&BySearch, &refs);
    let mut names: Vec<String> = Vec::new();
    let mut m: usize = 0;
    while m < sorted.len()
        invariant
            m <= sorted@.len(),
            names@.len() == m,
            forall|j: int| 0 <= j < m ==> (#[trigger] names@[j])@ == sorted@[j].index_name@,
        decreases sorted@.len() - m,
    {
        names.push(sorted[m].index_name.clone());
        m += 1;
    }
    assert(names@.map_values(|name: String| name@) =~= searched(packs@).map_values(
        |pack: &RegisteredPack| pack.index_name@,
    ));
    PackRegistry { idx_count, pack_count, packs: names }
}

/// Whether two registries name the same packs in the same order.
pub fn same_registered_pack_set(left: &Vec<String>, right: &Vec<String>) -> (same: bool)
    ensures
        same == (left@.map_values(|name: String| name@) == right@.map_values(|name: String| name@)),
{
    let ghost view = |name: String| name@;
    let ghost a = left@.map_values(view);
    let ghost b = right@.map_values(view);
    if left.len() != right.len() {
        assert(a.len() != b.len());
        return false;
    }
    let mut i: usize = 0;
    while i < left.len()
        invariant
            i <= left@.len() == right@.len(),
            view == (|name: String| name@),
            a == left@.map_values(view),
            b == right@.map_values(view),
            forall|k: int| 0 <= k < i ==> a[k] == b[k],
        decreases left@.len() - i,
    {
        if !text_eq(left[i].as_str(), right[i].as_str()) {
            assert(a[i as int] != b[i as int]);
            return false;
        }
        i += 1;
    }
    assert(a =~= b);
    true
}

/// Whether a fresh scan shows what was known: the directory has the same
/// modification time, as many indexes and packs, and the same packs.
pub fn registry_is_current(
    known_modified: Option<i128>,
    known: &PackRegistry,
    scanned_modified: Option<i128>,
    scanned: &PackRegistry,
) -> (current: bool)
    ensures
        current == (known_modified == scanned_modified && known.idx_count == scanned.idx_count && known.pack_count
            == scanned.pack_count && known.packs@.map_values(|name: String| name@)
            == scanned.packs@.map_values(|name: String| name@)),
{
    let same_time = match (known_modified, scanned_modified) {
        (Some(a), Some(b)) => a == b,
        (None, None) => true,
        _ => false,
    };
    same_time && known.idx_count == scanned.idx_count && known.pack_count == scanned.pack_count
        && same_registered_pack_set(&known.packs, &scanned.packs)
}

/// The packs in the order in which a lookup tries them: the one that the last
/// lookup hit, if any, then the others as they stand.
pub open spec fn lookup_order(count: nat, hint: Option<usize>) -> Seq<usize> {
    match hint {
        Some(h) => if h < count {
            seq![h] + others(count, h)
        } else {
            crate::order::positions(count)
        },
        None => crate::order::positions(count),
    }
}

/// The positions below `count` but one.
pub open spec fn others(count: nat, hint: usize) -> Seq<usize>
    decreases count,
{
    if count == 0 {
        Seq::empty()
    } else if count - 1 == hint {
        others((count - 1) as nat, hint)
    } else {
        others((count - 1) as nat, hint).push((count - 1) as usize)
    }
}

/// The packs in the order in which a lookup tries them.
pub fn find_in_pack_registry(count: usize, hint: Option<usize>) -> (order: Vec<usize>)
    ensures
        order@ == lookup_order(count as nat, hint),
{
    match hint {
        Some(h) => {
            if h < count {
                let mut order: Vec<usize> = Vec::with_capacity(count);
                order.push(h);
                let mut i: usize = 0;
                assert(order@ =~= seq![h] + others(0, h));
                while i < count
                    invariant
                        i <= count,
                        order@ == seq![h] + others(i as nat, h),
                    decreases count - i,
                {
                    let ghost held = order@;
                    if i != h {
                        order.push(i);
                        assert(order@ =~= seq![h] + others((i + 1) as nat, h));
                    }
                    i += 1;
                }
                order
            } else {
                crate::order::all_positions(count)
            }
        },
        None => crate::order::all_positions(count),
    }
}

proof fn lemma_others(count: nat, hint: usize, i: usize)
    requires
        count <= usize::MAX,
    ensures
        others(count, hint).contains(i) <==> i < count && i != hint,
    decreases count,
{
    if count > 0 {
        lemma_others((count - 1) as nat, hint, i);
        let rest = others((count - 1) as nat, hint);
        let all = others(count, hint);
        if count - 1 != hint {
            assert(all[rest.len() as int] == (count - 1) as usize);
            if rest.contains(i) {
                let k = choose|k: int| 0 <= k < rest.len() && rest[k] == i;
                assert(all[k] == i);
            }
            if all.contains(i) {
                let k = choose|k: int| 0 <= k < all.len() && all[k] == i;
                if k < rest.len() {
                    assert(rest[k] == i);
                }
            }
        }
    }
}

/// A lookup tries every pack, whatever the hint.
pub proof fn law_lookup_tries_every_pack(count: nat, hint: Option<usize>, i: usize)
    requires
        count <= usize::MAX,
    ensures
        lookup_order(count, hint).contains(i) <==> i < count,
{
    let all = lookup_order(count, hint);
    let plain = crate::order::positions(count);
    if i < count {
        assert(plain[i as int] == i);
    }
    if let Some(h) = hint {
        if h < count {
            lemma_others(count, h, i);
            let rest = others(count, h);
            if rest.contains(i) {
                let k = choose|k: int| 0 <= k < rest.len() && rest[k] == i;
                assert(all[k + 1] == i);
            }
            assert(all[0] == h);
            if all.contains(i) {
                let k = choose|k: int| 0 <= k < all.len() && all[k] == i;
                if k > 0 {
                    assert(rest[k - 1] == i);
                }
            }
        }
    }
}

/// A pack that may be freshened in place of a cruft pack.
pub struct FreshenCandidate {
    pub index_name: String,
    pub has_mtimes: bool,
    pub has_pack: bool,
    /// Whether the index reads and lists the object.
    pub lists_object: bool,
}

/// Which pack is freshened for an object that is already packed.
#[derive(Debug, PartialEq, Eq)]
pub enum FreshenTarget {
    /// The pack that was found.
    Found,
    /// Another pack, by its position among the candidates.
    Other(usize),
    /// None, so that a loose copy has to be written.
    Nothing,
}

pub open spec fn may_freshen(candidate: FreshenCandidate) -> bool {
    has_extension(candidate.index_name@, ".idx"@) && !candidate.has_mtimes && candidate.has_pack
        && candidate.lists_object
}

/// Which pack is freshened. A cruft pack never is, since that would make every
/// unreachable object in it look recent: the first other pack that lists the
/// object is, if there is one.
pub fn freshen_packed_object(found_is_cruft: bool, candidates: &Vec<FreshenCandidate>) -> (target: FreshenTarget)
    ensures
        match target {
            FreshenTarget::Found => !found_is_cruft,
            FreshenTarget::Other(i) => found_is_cruft && i < candidates@.len() && may_freshen(
                candidates@[i as int],
            ) && forall|k: int| 0 <= k < i ==> !may_freshen(#[trigger] candidates@[k]),
            FreshenTarget::Nothing => found_is_cruft && forall|k: int|
                0 <= k < candidates@.len() ==> !may_freshen(#[trigger] candidates@[k]),
        },
{
    if !found_is_cruft {
        return FreshenTarget::Found;
    }
    let mut i: usize = 0;
    while i < candidates.len()
        invariant
            i <= candidates@.len(),
            found_is_cruft,
            forall|k: int| 0 <= k < i ==> !may_freshen(#[trigger] candidates@[k]),
        decreases candidates@.len() - i,
    {
        let candidate = &candidates[i];
        if is_extension(candidate.index_name.as_str(), ".idx") && !candidate.has_mtimes && candidate.has_pack
            && candidate.lists_object {
            return FreshenTarget::Other(i);
        }
        i += 1;
    }
    FreshenTarget::Nothing
}

/// Packs are searched newest first, of packs of one age the largest first, and
/// of those of one size by the name of the index; every pack is searched.
pub proof fn law_newest_pack_is_searched_first(packs: Seq<RegisteredPack>, i: int, j: int)
    requires
        0 <= i < j < packs.len(),
    ensures
        searched(packs).len() == packs.len(),
        forall|pack: &RegisteredPack| searched(packs).contains(pack) == #[trigger] borrowed(packs).contains(pack),
        ({
            let a = searched(packs)[i];
            let b = searched(packs)[j];
            ||| a.seconds > b.seconds
            ||| a.seconds == b.seconds && a.nanoseconds > b.nanoseconds
            ||| a.seconds == b.seconds && a.nanoseconds == b.nanoseconds && a.size > b.size
            ||| a.seconds == b.seconds && a.nanoseconds == b.nanoseconds && a.size == b.size && !(text_order())(
                b.index_name@,
                a.index_name@,
            )
        }),
{
    let less = search_order();
    BySearch.lemma_is_order();
    crate::order::law_stable_sort(less, borrowed(packs));
    assert forall|pack: &RegisteredPack| searched(packs).contains(pack) == #[trigger] borrowed(packs).contains(pack) by {
        crate::order::lemma_sort_contains(less, borrowed(packs), pack);
    }
    assert(!less(searched(packs)[j], searched(packs)[i]));
}

/// A pack is registered where its index and the pack itself are there, with the
/// age and size of the pack; no other is.
pub proof fn law_indexed_packs_are_registered(packs: Seq<RegisteredPack>, files: Seq<ScannedFile>)
    requires
        are_registered(packs, files),
    ensures
        forall|f: int|
            0 <= f < files.len() && (#[trigger] files[f]).pack is Some && has_extension(files[f].name@, ".idx"@)
                ==> exists|p: int|
                0 <= p < packs.len() && (#[trigger] packs[p]).index_name@ == files[f].name@ && (
                packs[p].seconds,
                packs[p].nanoseconds,
                packs[p].size,
            ) == files[f].pack->Some_0,
        forall|p: int|
            0 <= p < packs.len() ==> exists|f: int|
                0 <= f < files.len() && (#[trigger] files[f]).pack == Some(
                    ((#[trigger] packs[p]).seconds, packs[p].nanoseconds, packs[p].size),
                ) && has_extension(files[f].name@, ".idx"@) && files[f].name@ == packs[p].index_name@,
    decreases files.len(),
{
    if files.len() > 0 {
        let rest = files.drop_last();
        let last = files.len() - 1;
        let file = files.last();
        assert(files[last] == file);
        let listed = file.pack is Some && has_extension(file.name@, ".idx"@);
        let before = if listed {
            packs.drop_last()
        } else {
            packs
        };
        law_indexed_packs_are_registered(before, rest);
        assert forall|f: int|
            0 <= f < files.len() && (#[trigger] files[f]).pack is Some && has_extension(files[f].name@, ".idx"@)
            implies exists|p: int|
            0 <= p < packs.len() && (#[trigger] packs[p]).index_name@ == files[f].name@ && (
            packs[p].seconds,
            packs[p].nanoseconds,
            packs[p].size,
        ) == files[f].pack->Some_0 by {
            if f < last {
                assert(rest[f] == files[f]);
                let p = choose|p: int|
                    0 <= p < before.len() && (#[trigger] before[p]).index_name@ == rest[f].name@ && (
                    before[p].seconds,
                    before[p].nanoseconds,
                    before[p].size,
                ) == rest[f].pack->Some_0;
                assert(packs[p] == before[p]);
            } else {
                assert(packs[packs.len() - 1] == packs.last());
            }
        }
        assert forall|p: int| 0 <= p < packs.len() implies exists|f: int|
            0 <= f < files.len() && (#[trigger] files[f]).pack == Some(
                ((#[trigger] packs[p]).seconds, packs[p].nanoseconds, packs[p].size),
            ) && has_extension(files[f].name@, ".idx"@) && files[f].name@ == packs[p].index_name@ by {
            if p < before.len() {
                assert(before[p] == packs[p]);
                let f = choose|f: int|
                    0 <= f < rest.len() && (#[trigger] rest[f]).pack == Some(
                        (before[p].seconds, before[p].nanoseconds, before[p].size),
                    ) && has_extension(rest[f].name@, ".idx"@) && rest[f].name@ == before[p].index_name@;
                assert(files[f] == rest[f]);
            } else {
                assert(packs[p] == packs.last());
                assert(files[last].name@ == packs[p].index_name@);
            }
        }
    }
}

} // verus!
