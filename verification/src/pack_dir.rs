//! What a pack directory and its neighbours list.

use crate::error::GitError;
use crate::hex_id::all_hex;
use crate::hex_id::is_hex_id;
use crate::hex_id::prefix_floor;
use crate::loose_cache::collect_loose_object_ids;
use crate::loose_cache::is_listed;
use crate::loose_cache::is_loose_id;
use crate::loose_cache::FanoutListing;
use crate::object_id::ObjectFormat;
use crate::object_id::ObjectId;
use crate::oid_map::OidSet;
use crate::order::is_sorted;
use crate::order::oid_less;
use crate::order::sort_oids;
use crate::registry::collect_pack_index_prefix_matches;
use crate::registry::is_fanout;
use crate::registry::prefix_matches;
use crate::text::text_eq;
use vstd::prelude::*;
use vstd::string::*;
use vstd::utf8::*;

verus! {

/// What an index lists: its ids in order, and how many begin with each byte or
/// a lesser one.
pub struct IndexListing {
    pub fanout: [u32; 256],
    pub oids: Vec<ObjectId>,
}

impl IndexListing {
    /// Whether the index is in order.
    pub open spec fn is_ordered(self, format: ObjectFormat) -> bool {
        &&& is_sorted(oid_less(), self.oids@)
        &&& is_fanout(self.fanout@, self.oids@)
        &&& forall|i: int| 0 <= i < self.oids@.len() ==> (#[trigger] self.oids@[i]).raw().len() == format.raw()
    }
}

/// An index in a pack directory.
pub struct IndexRead {
    /// The file name, in `.idx`.
    pub name: String,
    /// Whether the pack that it belongs to is there.
    pub has_pack: bool,
    pub listing: Result<IndexListing, GitError>,
}

/// The multi-pack index of a pack directory.
pub struct MultiPackListing {
    pub pack_names: Vec<String>,
    pub listing: IndexListing,
}

pub open spec fn names_text(names: Seq<String>, name: Seq<char>) -> bool {
    exists|i: int| 0 <= i < names.len() && (#[trigger] names[i])@ == name
}

fn lists_name(names: &Vec<String>, name: &str) -> (found: bool)
    ensures
        found == names_text(names@, name@),
{
    let mut i: usize = 0;
    while i < names.len()
        invariant
            i <= names@.len(),
            forall|k: int| 0 <= k < i ==> (#[trigger] names@[k])@ != name@,
        decreases names@.len() - i,
    {
        if text_eq(names[i].as_str(), name) {
            assert(names@[i as int]@ == name@);
            return true;
        }
        i += 1;
    }
    false
}

/// The names of the packs of a multi-pack index.
pub open spec fn covered_names(midx: Option<MultiPackListing>) -> Seq<String> {
    match midx {
        Some(midx) => midx.pack_names@,
        None => Seq::empty(),
    }
}

/// The failure of the first index that is needed and does not read: one whose
/// pack is there and that a multi-pack index does not stand in for.
pub open spec fn index_failure(packs: Seq<IndexRead>, covered: Seq<String>) -> Option<GitError>
    decreases packs.len(),
{
    if packs.len() == 0 {
        None
    } else {
        match index_failure(packs.drop_last(), covered) {
            Some(err) => Some(err),
            None => match packs.last().listing {
                Err(err) => if packs.last().has_pack && !names_text(covered, packs.last().name@) {
                    Some(err)
                } else {
                    None
                },
                Ok(_) => None,
            },
        }
    }
}

proof fn lemma_index_failure(packs: Seq<IndexRead>, covered: Seq<String>, n: int)
    requires
        0 <= n <= packs.len(),
        index_failure(packs.take(n), covered) is Some,
    ensures
        index_failure(packs, covered) == index_failure(packs.take(n), covered),
    decreases packs.len() - n,
{
    if n < packs.len() {
        assert(packs.take(n + 1).drop_last() =~= packs.take(n));
        lemma_index_failure(packs, covered, n + 1);
    } else {
        assert(packs.take(n) =~= packs);
    }
}

/// The ids that an index lists.
pub open spec fn listed_ids(pack: IndexRead) -> Seq<ObjectId> {
    match pack.listing {
        Ok(listing) => if pack.has_pack {
            listing.oids@
        } else {
            Seq::empty()
        },
        Err(_) => Seq::empty(),
    }
}

/// Whether an object is listed by the multi-pack index, a layer of an
/// incremental one, or the index of a pack.
pub open spec fn is_packed(
    midx: Option<MultiPackListing>,
    layers: Seq<IndexListing>,
    packs: Seq<IndexRead>,
    oid: ObjectId,
) -> bool {
    ||| (midx matches Some(midx) && midx.listing.oids@.contains(oid))
    ||| exists|i: int| 0 <= i < layers.len() && (#[trigger] layers[i]).oids@.contains(oid)
    ||| exists|i: int| 0 <= i < packs.len() && listed_ids(#[trigger] packs[i]).contains(oid)
}

/// The objects that a pack directory lists, and the packs whose index does not
/// read but that a multi-pack index stands in for.
pub struct PackedObjects {
    pub oids: OidSet,
    pub unavailable: Vec<String>,
}

/// Adds ids to a set.
fn add_all(oids: &Vec<ObjectId>, set: &mut OidSet)
    ensures
        final(set)@ == old(set)@.union(oids@.to_set()),
{
    let mut i: usize = 0;
    assert(set@ =~= old(set)@.union(oids@.take(0).to_set()));
    while i < oids.len()
        invariant
            i <= oids@.len(),
            set@ == old(set)@.union(oids@.take(i as int).to_set()),
        decreases oids@.len() - i,
    {
        set.insert(oids[i]);
        proof {
            assert(oids@.take(i + 1) =~= oids@.take(i as int).push(oids@[i as int]));
            oids@.take(i as int).lemma_push_to_set_commute(oids@[i as int]);
            assert(set@ =~= old(set)@.union(oids@.take(i + 1).to_set()));
        }
        i += 1;
    }
    assert(oids@.take(i as int) =~= oids@);
}

/// The names of the packs whose index does not read but that a multi-pack index
/// stands in for.
pub open spec fn unavailable_names(packs: Seq<IndexRead>, covered: Seq<String>) -> Seq<Seq<char>>
    decreases packs.len(),
{
    if packs.len() == 0 {
        Seq::empty()
    } else {
        let rest = unavailable_names(packs.drop_last(), covered);
        let pack = packs.last();
        if pack.has_pack && pack.listing is Err && names_text(covered, pack.name@) {
            rest.push(pack.name@)
        } else {
            rest
        }
    }
}

/// Collects the objects that a pack directory lists.
pub fn collect_packed_object_ids(
    midx: &Option<MultiPackListing>,
    layers: &Vec<IndexListing>,
    packs: &Vec<IndexRead>,
) -> (collected: Result<PackedObjects, GitError>)
    ensures
        match index_failure(packs@, covered_names(*midx)) {
            Some(failure) => collected matches Err(err) && err == failure,
            None => {
                &&& collected is Ok
                &&& forall|oid: ObjectId| #[trigger]
                    collected->Ok_0.oids@.contains(oid) <==> is_packed(*midx, layers@, packs@, oid)
                &&& collected->Ok_0.unavailable@.map_values(|name: String| name@) == unavailable_names(
                    packs@,
                    covered_names(*midx),
                )
            },
        },
{
    let mut oids = OidSet::new();
    let none: Vec<String> = Vec::new();
    let covered = match midx {
        Some(midx) => {
            add_all(&midx.listing.oids, &mut oids);
            &midx.pack_names
        },
        None => &none,
    };
    assert(covered@ =~= covered_names(*midx));
    let ghost from_midx = oids@;
    let mut l: usize = 0;
    while l < layers.len()
        invariant
            l <= layers@.len(),
            forall|oid: ObjectId| #[trigger]
                oids@.contains(oid) <==> from_midx.contains(oid) || exists|i: int|
                    0 <= i < l && (#[trigger] layers@[i]).oids@.contains(oid),
        decreases layers@.len() - l,
    {
        let ghost held = oids@;
        add_all(&layers[l].oids, &mut oids);
        proof {
            assert forall|oid: ObjectId| #[trigger] oids@.contains(oid) <==> from_midx.contains(oid) || exists|i: int|
                0 <= i < l + 1 && (#[trigger] layers@[i]).oids@.contains(oid) by {
                assert(layers@[l as int].oids@.to_set().contains(oid) == layers@[l as int].oids@.contains(oid));
                if held.contains(oid) && !from_midx.contains(oid) {
                    let i = choose|i: int| 0 <= i < l && (#[trigger] layers@[i]).oids@.contains(oid);
                    assert(layers@[i].oids@.contains(oid));
                }
            }
        }
        l += 1;
    }
    let ghost from_layers = oids@;
    let mut unavailable: Vec<String> = Vec::new();
    let ghost view = |name: String| name@;
    let mut p: usize = 0;
    assert(unavailable@.map_values(view) =~= Seq::empty());
    while p < packs.len()
        invariant
            p <= packs@.len(),
            covered@ == covered_names(*midx),
            view == (|name: String| name@),
            index_failure(packs@.take(p as int), covered@) is None,
            unavailable@.map_values(view) == unavailable_names(packs@.take(p as int), covered@),
            forall|oid: ObjectId| #[trigger]
                oids@.contains(oid) <==> from_layers.contains(oid) || exists|i: int|
                    0 <= i < p && listed_ids(#[trigger] packs@[i]).contains(oid),
        decreases packs@.len() - p,
    {
        let pack = &packs[p];
        let ghost held = oids@;
        assert(packs@.take(p + 1).drop_last() =~= packs@.take(p as int));
        assert(packs@.take(p + 1).last() == pack);
        if pack.has_pack {
            match &pack.listing {
                Ok(listing) => {
                    add_all(&listing.oids, &mut oids);
                },
                Err(err) => {
                    if !lists_name(covered, pack.name.as_str()) {
                        proof {
                            lemma_index_failure(packs@, covered@, p + 1);
                        }
                        return Err(err.copy());
                    }
                    let ghost before = unavailable@.map_values(view);
                    unavailable.push(pack.name.clone());
                    assert(unavailable@.map_values(view) =~= before.push(pack.name@));
                },
            }
        }
        proof {
            assert forall|oid: ObjectId| #[trigger] oids@.contains(oid) <==> from_layers.contains(oid)
                || exists|i: int| 0 <= i < p + 1 && listed_ids(#[trigger] packs@[i]).contains(oid) by {
                assert(oids@.contains(oid) <==> held.contains(oid) || listed_ids(packs@[p as int]).contains(oid))
                    by {
                    if pack.has_pack && pack.listing is Ok {
                        let listed = pack.listing->Ok_0.oids@;
                        assert(listed.to_set().contains(oid) == listed.contains(oid));
                    }
                }
                if held.contains(oid) && !from_layers.contains(oid) {
                    let i = choose|i: int| 0 <= i < p && listed_ids(#[trigger] packs@[i]).contains(oid);
                    assert(listed_ids(packs@[i]).contains(oid));
                }
            }
        }
        p += 1;
    }
    assert(packs@.take(p as int) =~= packs@);
    proof {
        assert forall|oid: ObjectId| #[trigger] oids@.contains(oid) <==> is_packed(*midx, layers@, packs@, oid) by {
            if midx is Some {
                let listed = midx->Some_0.listing.oids@;
                assert(listed.to_set().contains(oid) == listed.contains(oid));
            }
        }
    }
    Ok(PackedObjects { oids, unavailable })
}

/// The ids with a prefix that an index lists.
pub open spec fn listing_matches(listing: IndexListing, digits: Seq<u8>) -> Set<ObjectId> {
    prefix_matches(listing.oids@, digits)
}

/// Whether everything that a pack directory lists is in order.
pub open spec fn all_ordered(
    format: ObjectFormat,
    midx: Option<MultiPackListing>,
    layers: Seq<IndexListing>,
    packs: Seq<IndexRead>,
) -> bool {
    &&& midx matches Some(midx) ==> midx.listing.is_ordered(format)
    &&& forall|i: int| 0 <= i < layers.len() ==> (#[trigger] layers[i]).is_ordered(format)
    &&& forall|i: int|
        0 <= i < packs.len() ==> ((#[trigger] packs[i]).listing matches Ok(listing) ==> listing.is_ordered(
            format,
        ))
}

/// Adds the ids of an index that begin with some digits.
fn add_matches(format: ObjectFormat, listing: &IndexListing, digits: &[u8], floor: &ObjectId, found: &mut OidSet)
    requires
        2 <= digits@.len() <= 2 * format.raw(),
        all_hex(digits@),
        floor.spec_format() == format,
        floor.raw() == prefix_floor(format, digits@),
    ensures
        forall|oid: ObjectId| #[trigger]
            final(found)@.contains(oid) ==> old(found)@.contains(oid) || listing_matches(
                *listing,
                digits@,
            ).contains(oid),
        forall|oid: ObjectId| #[trigger] old(found)@.contains(oid) ==> final(found)@.contains(oid),
        listing.is_ordered(format) ==> final(found)@ == old(found)@.union(listing_matches(*listing, digits@)),
{
    collect_pack_index_prefix_matches(format, &listing.oids, &listing.fanout, digits, floor, found);
}

/// Collects the objects with a prefix that a pack directory lists. All that is
/// collected is listed and has the prefix; where everything listed is in
/// order, that is all of it.
pub fn collect_packed_object_ids_with_prefix(
    format: ObjectFormat,
    midx: &Option<MultiPackListing>,
    layers: &Vec<IndexListing>,
    packs: &Vec<IndexRead>,
    digits: &[u8],
    floor: &ObjectId,
) -> (collected: Result<OidSet, GitError>)
    requires
        2 <= digits@.len() <= 2 * format.raw(),
        all_hex(digits@),
        floor.spec_format() == format,
        floor.raw() == prefix_floor(format, digits@),
    ensures
        match index_failure(packs@, covered_names(*midx)) {
            Some(failure) => collected matches Err(err) && err == failure,
            None => {
                &&& collected is Ok
                &&& forall|oid: ObjectId| #[trigger]
                    collected->Ok_0@.contains(oid) ==> is_packed(*midx, layers@, packs@, oid)
                        && crate::hex_id::has_hex_prefix(oid.raw(), digits@)
                &&& all_ordered(format, *midx, layers@, packs@) ==> forall|oid: ObjectId| #[trigger]
                    collected->Ok_0@.contains(oid) <==> is_packed(*midx, layers@, packs@, oid)
                        && crate::hex_id::has_hex_prefix(oid.raw(), digits@)
            },
        },
{
    let ghost ordered = all_ordered(format, *midx, layers@, packs@);
    let mut oids = OidSet::new();
    let none: Vec<String> = Vec::new();
    let covered = match midx {
        Some(midx) => {
            add_matches(format, &midx.listing, digits, floor, &mut oids);
            &midx.pack_names
        },
        None => &none,
    };
    assert(covered@ =~= covered_names(*midx));
    let ghost wanted = |oid: ObjectId| crate::hex_id::has_hex_prefix(oid.raw(), digits@);
    let ghost from_midx = |oid: ObjectId| midx matches Some(midx) && midx.listing.oids@.contains(oid);
    let mut l: usize = 0;
    while l < layers.len()
        invariant
            l <= layers@.len(),
            2 <= digits@.len() <= 2 * format.raw(),
            all_hex(digits@),
            floor.spec_format() == format,
            floor.raw() == prefix_floor(format, digits@),
            ordered == all_ordered(format, *midx, layers@, packs@),
            wanted == (|oid: ObjectId| crate::hex_id::has_hex_prefix(oid.raw(), digits@)),
            forall|oid: ObjectId| #[trigger]
                oids@.contains(oid) ==> wanted(oid) && (from_midx(oid) || exists|i: int|
                    0 <= i < l && (#[trigger] layers@[i]).oids@.contains(oid)),
            ordered ==> forall|oid: ObjectId|
                wanted(oid) && (from_midx(oid) || exists|i: int|
                    0 <= i < l && (#[trigger] layers@[i]).oids@.contains(oid)) ==> #[trigger] oids@.contains(oid),
        decreases layers@.len() - l,
    {
        let ghost held = oids@;
        add_matches(format, &layers[l], digits, floor, &mut oids);
        proof {
            let listing = layers@[l as int];
            assert forall|oid: ObjectId| #[trigger] oids@.contains(oid) implies wanted(oid) && (from_midx(oid)
                || exists|i: int| 0 <= i < l + 1 && (#[trigger] layers@[i]).oids@.contains(oid)) by {
                if held.contains(oid) {
                    if !from_midx(oid) {
                        let i = choose|i: int| 0 <= i < l && (#[trigger] layers@[i]).oids@.contains(oid);
                        assert(layers@[i].oids@.contains(oid));
                    }
                } else {
                    assert(listing_matches(listing, digits@).contains(oid));
                    assert(layers@[l as int].oids@.contains(oid));
                }
            }
            if ordered {
                assert(listing.is_ordered(format));
                assert forall|oid: ObjectId| wanted(oid) && (from_midx(oid) || exists|i: int|
                    0 <= i < l + 1 && (#[trigger] layers@[i]).oids@.contains(oid)) implies #[trigger] oids@.contains(
                    oid,
                ) by {
                    if !held.contains(oid) {
                        let i = choose|i: int| 0 <= i < l + 1 && (#[trigger] layers@[i]).oids@.contains(oid);
                        assert(i == l);
                        assert(listing_matches(listing, digits@).contains(oid));
                    }
                }
            }
        }
        l += 1;
    }
    let mut p: usize = 0;
    while p < packs.len()
        invariant
            p <= packs@.len(),
            covered@ == covered_names(*midx),
            2 <= digits@.len() <= 2 * format.raw(),
            all_hex(digits@),
            floor.spec_format() == format,
            floor.raw() == prefix_floor(format, digits@),
            ordered == all_ordered(format, *midx, layers@, packs@),
            wanted == (|oid: ObjectId| crate::hex_id::has_hex_prefix(oid.raw(), digits@)),
            index_failure(packs@.take(p as int), covered@) is None,
            forall|oid: ObjectId| #[trigger]
                oids@.contains(oid) ==> wanted(oid) && (from_midx(oid) || (exists|i: int|
                    0 <= i < layers@.len() && (#[trigger] layers@[i]).oids@.contains(oid)) || exists|i: int|
                    0 <= i < p && listed_ids(#[trigger] packs@[i]).contains(oid)),
            ordered ==> forall|oid: ObjectId|
                wanted(oid) && (from_midx(oid) || (exists|i: int|
                    0 <= i < layers@.len() && (#[trigger] layers@[i]).oids@.contains(oid)) || exists|i: int|
                    0 <= i < p && listed_ids(#[trigger] packs@[i]).contains(oid)) ==> #[trigger] oids@.contains(
                    oid,
                ),
        decreases packs@.len() - p,
    {
        let pack = &packs[p];
        let ghost held = oids@;
        assert(packs@.take(p + 1).drop_last() =~= packs@.take(p as int));
        assert(packs@.take(p + 1).last() == pack);
        if pack.has_pack {
            match &pack.listing {
                Ok(listing) => {
                    add_matches(format, listing, digits, floor, &mut oids);
                },
                Err(err) => {
                    if !lists_name(covered, pack.name.as_str()) {
                        proof {
                            lemma_index_failure(packs@, covered@, p + 1);
                        }
                        return Err(err.copy());
                    }
                },
            }
        }
        proof {
            let read = packs@[p as int];
            assert forall|oid: ObjectId| #[trigger] oids@.contains(oid) implies wanted(oid) && (from_midx(oid) || (
            exists|i: int| 0 <= i < layers@.len() && (#[trigger] layers@[i]).oids@.contains(oid)) || exists|i: int|
                0 <= i < p + 1 && listed_ids(#[trigger] packs@[i]).contains(oid)) by {
                if held.contains(oid) {
                    if exists|i: int| 0 <= i < p && listed_ids(#[trigger] packs@[i]).contains(oid) {
                        let i = choose|i: int| 0 <= i < p && listed_ids(#[trigger] packs@[i]).contains(oid);
                        assert(listed_ids(packs@[i]).contains(oid));
                    }
                } else {
                    assert(listing_matches(read.listing->Ok_0, digits@).contains(oid));
                    assert(listed_ids(packs@[p as int]).contains(oid));
                }
            }
            if ordered {
                assert(read.listing matches Ok(listing) ==> listing.is_ordered(format));
                assert forall|oid: ObjectId| wanted(oid) && (from_midx(oid) || (exists|i: int|
                    0 <= i < layers@.len() && (#[trigger] layers@[i]).oids@.contains(oid)) || exists|i: int|
                    0 <= i < p + 1 && listed_ids(#[trigger] packs@[i]).contains(oid)) implies #[trigger] oids@.contains(
                    oid,
                ) by {
                    if !held.contains(oid) {
                        let i = choose|i: int| 0 <= i < p + 1 && listed_ids(#[trigger] packs@[i]).contains(oid);
                        assert(i == p);
                        assert(listing_matches(read.listing->Ok_0, digits@).contains(oid));
                    }
                }
            }
        }
        p += 1;
    }
    assert(packs@.take(p as int) =~= packs@);
    proof {
        assert forall|oid: ObjectId| #[trigger] oids@.contains(oid) implies is_packed(*midx, layers@, packs@, oid)
            && crate::hex_id::has_hex_prefix(oid.raw(), digits@) by {
            assert(wanted(oid));
        }
        if ordered {
            assert forall|oid: ObjectId| is_packed(*midx, layers@, packs@, oid) && crate::hex_id::has_hex_prefix(
                oid.raw(),
                digits@,
            ) implies #[trigger] oids@.contains(oid) by {
                assert(wanted(oid));
            }
        }
    }
    Ok(oids)
}

/// A pack index with what its sidecars make of the pack.
pub struct MarkedIndex {
    pub has_pack: bool,
    /// Whether the sidecar that is asked for is there.
    pub marked: bool,
    pub listing: Result<IndexListing, GitError>,
}

/// The failure of the first index of a marked pack that does not read.
pub open spec fn marked_failure(packs: Seq<MarkedIndex>) -> Option<GitError>
    decreases packs.len(),
{
    if packs.len() == 0 {
        None
    } else {
        match marked_failure(packs.drop_last()) {
            Some(err) => Some(err),
            None => match packs.last().listing {
                Err(err) => if packs.last().has_pack && packs.last().marked {
                    Some(err)
                } else {
                    None
                },
                Ok(_) => None,
            },
        }
    }
}

proof fn lemma_marked_failure(packs: Seq<MarkedIndex>, n: int)
    requires
        0 <= n <= packs.len(),
        marked_failure(packs.take(n)) is Some,
    ensures
        marked_failure(packs) == marked_failure(packs.take(n)),
    decreases packs.len() - n,
{
    if n < packs.len() {
        assert(packs.take(n + 1).drop_last() =~= packs.take(n));
        lemma_marked_failure(packs, n + 1);
    } else {
        assert(packs.take(n) =~= packs);
    }
}

/// Whether a marked pack lists an object.
pub open spec fn is_marked(packs: Seq<MarkedIndex>, oid: ObjectId) -> bool {
    exists|i: int|
        0 <= i < packs.len() && (#[trigger] packs[i]).has_pack && packs[i].marked && (packs[i].listing matches Ok(
            listing,
        ) && listing.oids@.contains(oid))
}

/// The objects that marked packs list: those of `.keep` packs, or those of
/// `.promisor` packs.
pub fn marked_pack_object_ids(packs: &Vec<MarkedIndex>) -> (oids: Result<OidSet, GitError>)
    ensures
        match marked_failure(packs@) {
            Some(failure) => oids matches Err(err) && err == failure,
            None => oids is Ok && forall|oid: ObjectId| #[trigger]
                oids->Ok_0@.contains(oid) <==> is_marked(packs@, oid),
        },
{
    let mut oids = OidSet::new();
    let mut p: usize = 0;
    while p < packs.len()
        invariant
            p <= packs@.len(),
            marked_failure(packs@.take(p as int)) is None,
            forall|oid: ObjectId| #[trigger]
                oids@.contains(oid) <==> is_marked(packs@.take(p as int), oid),
        decreases packs@.len() - p,
    {
        let pack = &packs[p];
        let ghost held = oids@;
        let ghost before = packs@.take(p as int);
        let ghost after = packs@.take(p + 1);
        assert(after.drop_last() =~= before);
        assert(after.last() == pack);
        if pack.has_pack && pack.marked {
            match &pack.listing {
                Ok(listing) => {
                    add_all(&listing.oids, &mut oids);
                },
                Err(err) => {
                    proof {
                        lemma_marked_failure(packs@, p + 1);
                    }
                    return Err(err.copy());
                },
            }
        }
        proof {
            assert forall|oid: ObjectId| #[trigger] oids@.contains(oid) <==> is_marked(after, oid) by {
                if held.contains(oid) {
                    let i = choose|i: int|
                        0 <= i < before.len() && (#[trigger] before[i]).has_pack && before[i].marked && (
                        before[i].listing matches Ok(listing) && listing.oids@.contains(oid));
                    assert(after[i] == before[i]);
                }
                if pack.has_pack && pack.marked && pack.listing is Ok {
                    let listed = pack.listing->Ok_0.oids@;
                    assert(listed.to_set().contains(oid) == listed.contains(oid));
                    if listed.contains(oid) {
                        assert(after[p as int].has_pack);
                    }
                }
                if is_marked(after, oid) && !held.contains(oid) {
                    let i = choose|i: int|
                        0 <= i < after.len() && (#[trigger] after[i]).has_pack && after[i].marked && (
                        after[i].listing matches Ok(listing) && listing.oids@.contains(oid));
                    if i < p {
                        assert(before[i] == after[i]);
                    }
                }
            }
        }
        p += 1;
    }
    assert(packs@.take(p as int) =~= packs@);
    Ok(oids)
}

/// What an abbreviated id stands for.
#[derive(Debug, PartialEq, Eq)]
pub enum ObjectPrefixResolution {
    Missing,
    Unique(ObjectId),
    Ambiguous(Vec<ObjectId>),
}

/// The ids of several sets in the order of ids, each once: what the object
/// directory itself has, and what its alternates have.
pub fn merge_object_ids(local: &OidSet, alternates: &Vec<OidSet>) -> (oids: Vec<ObjectId>)
    ensures
        is_sorted(oid_less(), oids@),
        oids@.no_duplicates(),
        forall|oid: ObjectId|
            oids@.contains(oid) <==> local@.contains(oid) || exists|i: int|
                0 <= i < alternates@.len() && (#[trigger] alternates@[i])@.contains(oid),
{
    let mut all = OidSet::from_slice(&local.to_vec());
    let mut i: usize = 0;
    while i < alternates.len()
        invariant
            i <= alternates@.len(),
            forall|oid: ObjectId| #[trigger]
                all@.contains(oid) <==> local@.contains(oid) || exists|k: int|
                    0 <= k < i && (#[trigger] alternates@[k])@.contains(oid),
        decreases alternates@.len() - i,
    {
        let ghost held = all@;
        let more = alternates[i].to_vec();
        add_all(&more, &mut all);
        proof {
            assert forall|oid: ObjectId| #[trigger] all@.contains(oid) <==> local@.contains(oid) || exists|k: int|
                0 <= k < i + 1 && (#[trigger] alternates@[k])@.contains(oid) by {
                assert(more@.to_set().contains(oid) == alternates@[i as int]@.contains(oid));
                if held.contains(oid) && !local@.contains(oid) {
                    let k = choose|k: int| 0 <= k < i && (#[trigger] alternates@[k])@.contains(oid);
                    assert(alternates@[k]@.contains(oid));
                }
            }
        }
        i += 1;
    }
    let list = all.to_vec();
    let count: usize = all.len();
    let oids = sort_oids(&list);
    proof {
        list@.lemma_multiset_has_no_duplicates();
        oids@.lemma_multiset_has_no_duplicates_conv();
        assert forall|oid: ObjectId| oids@.contains(oid) <==> all@.contains(oid) by {
            assert(oids@.to_set().contains(oid) == list@.to_set().contains(oid));
        }
    }
    oids
}

/// The objects of an object directory in the order of ids, each once: those that
/// its fanout directories hold and those that its pack directory lists.
pub fn object_ids_in_objects_dir(
    format: ObjectFormat,
    fanouts: &Vec<FanoutListing>,
    midx: &Option<MultiPackListing>,
    layers: &Vec<IndexListing>,
    packs: &Vec<IndexRead>,
) -> (oids: Result<Vec<ObjectId>, GitError>)
    ensures
        match index_failure(packs@, covered_names(*midx)) {
            Some(failure) => oids matches Err(err) && err == failure,
            None => oids matches Ok(oids) && {
                &&& is_sorted(oid_less(), oids@)
                &&& oids@.no_duplicates()
                &&& forall|oid: ObjectId| #[trigger]
                    oids@.contains(oid) ==> is_listed(format, fanouts@, oid) || is_packed(
                        *midx,
                        layers@,
                        packs@,
                        oid,
                    )
                &&& forall|oid: ObjectId| #[trigger]
                    is_packed(*midx, layers@, packs@, oid) ==> oids@.contains(oid)
                &&& forall|i: int, k: int|
                    #![trigger fanouts@[i].names@[k]]
                    0 <= i < fanouts@.len() && 0 <= k < fanouts@[i].names@.len() && encode_utf8(
                        fanouts@[i].fanout@,
                    ).len() == 2 && is_hex_id(
                        format,
                        encode_utf8(fanouts@[i].fanout@) + encode_utf8(fanouts@[i].names@[k]@),
                    ) ==> exists|oid: ObjectId| #[trigger]
                        oids@.contains(oid) && is_loose_id(
                            format,
                            encode_utf8(fanouts@[i].fanout@),
                            encode_utf8(fanouts@[i].names@[k]@),
                            oid,
                        )
            },
        },
{
    let loose = collect_loose_object_ids(format, fanouts);
    match collect_packed_object_ids(midx, layers, packs) {
        Err(err) => Err(err),
        Ok(packed) => {
            let mut sets: Vec<OidSet> = Vec::new();
            let ghost listed = packed.oids;
            sets.push(packed.oids);
            let oids = merge_object_ids(&loose, &sets);
            proof {
                assert(sets@[0] == listed);
                assert forall|oid: ObjectId| #[trigger] oids@.contains(oid) <==> loose@.contains(oid)
                    || listed@.contains(oid) by {}
                assert forall|oid: ObjectId| #[trigger]
                    is_packed(*midx, layers@, packs@, oid) implies oids@.contains(oid) by {
                    assert(listed@.contains(oid));
                }
                assert forall|oid: ObjectId| #[trigger] loose@.contains(oid) implies oids@.contains(oid) by {}
            }
            Ok(oids)
        },
    }
}

/// What an abbreviated id stands for, given the ids that begin with it: nothing,
/// one object, or several.
pub fn resolve_prefix(matches: Vec<ObjectId>) -> (resolution: ObjectPrefixResolution)
    ensures
        match resolution {
            ObjectPrefixResolution::Missing => matches@.len() == 0,
            ObjectPrefixResolution::Unique(oid) => matches@.len() == 1 && oid == matches@[0],
            ObjectPrefixResolution::Ambiguous(oids) => matches@.len() > 1 && oids == matches,
        },
{
    if matches.len() == 0 {
        ObjectPrefixResolution::Missing
    } else if matches.len() == 1 {
        ObjectPrefixResolution::Unique(matches[0])
    } else {
        ObjectPrefixResolution::Ambiguous(matches)
    }
}

} // verus!
