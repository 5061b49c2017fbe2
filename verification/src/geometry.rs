//! Geometric repacking: which packs roll up so that the rest form a geometric
//! progression by object count.

use crate::error::GitError;
use crate::object::ObjectReader;
use crate::object_id::ObjectId;
use crate::filter::lists_text;
use crate::filter::text_set;
use crate::oid_map::OidSet;
use crate::order::is_sorted;
use crate::order::lemma_sort_map;
use crate::order::oid_less;
use crate::order::sort;
use crate::order::sort_oids;
use crate::order::stable_sort;
use crate::order::Less;
use crate::order::Order;
use crate::pack_file::PackFile;
use crate::reachability::collect_reachable_object_ids_excluding_promised_missing;
use crate::reachability::schedule_stacked;
use crate::reachability::stacked_schedule;
use crate::reachability::tolerant_schedule;
use crate::reachability::MissingPolicy;
use crate::walk::law_walk_visits_closure;
use crate::walk::reaches;
use vstd::prelude::*;

verus! {

/// `value`, or the largest number that a `u64` holds if it is larger.
pub open spec fn saturated(value: int) -> u64 {
    if value > u64::MAX {
        u64::MAX
    } else {
        value as u64
    }
}

fn saturating_product(a: u64, b: u64) -> (product: u64)
    ensures
        product == saturated(a * b),
{
    assert(0 <= a * b <= u64::MAX * u64::MAX) by (nonlinear_arith)
        requires
            0 <= a <= u64::MAX,
            0 <= b <= u64::MAX,
    ;
    let product: u128 = (a as u128) * (b as u128);
    if product > u64::MAX as u128 {
        u64::MAX
    } else {
        product as u64
    }
}

/// The number of objects in all of the packs together.
pub open spec fn total_weight(weights: Seq<u64>) -> u64
    decreases weights.len(),
{
    if weights.len() == 0 {
        0
    } else {
        saturated(total_weight(weights.drop_last()) + weights.last())
    }
}

/// Whether pack `i` is large enough to stand above the pack before it.
pub open spec fn stands_above(weights: Seq<u64>, factor: u64, i: int) -> bool {
    weights[i] >= saturated(factor * weights[i - 1])
}

/// The first pack of the longest run, up to the largest pack, in which each
/// stands above the one before it. `top` is a pack of that run.
pub open spec fn progression_start(weights: Seq<u64>, factor: u64, top: int) -> int
    decreases top,
{
    if top <= 0 || !stands_above(weights, factor, top) {
        top
    } else {
        progression_start(weights, factor, top - 1)
    }
}

/// Whether pack `split` is large enough to stand above all packs before it
/// rolled into one.
pub open spec fn stands_above_rollup(weights: Seq<u64>, factor: u64, split: int) -> bool {
    weights[split] >= saturated(factor * total_weight(weights.take(split)))
}

/// The first split, from `split` on, whose rollup the next pack stands above.
pub open spec fn settled_split(weights: Seq<u64>, factor: u64, split: int) -> int
    decreases weights.len() - split,
{
    if split >= weights.len() || stands_above_rollup(weights, factor, split) {
        split
    } else {
        settled_split(weights, factor, split + 1)
    }
}

/// The number of packs, of those in ascending order of weight, that roll up.
pub open spec fn geometry_split(weights: Seq<u64>, factor: u64) -> int {
    if weights.len() == 0 {
        0
    } else {
        let start = progression_start(weights, factor, weights.len() - 1);
        settled_split(
            weights,
            factor,
            if start == 0 {
                0
            } else {
                start + 1
            },
        )
    }
}

proof fn lemma_progression(weights: Seq<u64>, factor: u64, top: int)
    requires
        0 <= top < weights.len(),
        forall|k: int| top < k < weights.len() ==> #[trigger] stands_above(weights, factor, k),
    ensures
        0 <= progression_start(weights, factor, top) <= top,
        forall|k: int|
            progression_start(weights, factor, top) < k < weights.len() ==> #[trigger] stands_above(
                weights,
                factor,
                k,
            ),
    decreases top,
{
    if top > 0 && stands_above(weights, factor, top) {
        lemma_progression(weights, factor, top - 1);
    }
}

proof fn lemma_settled(weights: Seq<u64>, factor: u64, split: int)
    requires
        0 <= split <= weights.len(),
    ensures
        split <= settled_split(weights, factor, split) <= weights.len(),
        settled_split(weights, factor, split) < weights.len() ==> stands_above_rollup(
            weights,
            factor,
            settled_split(weights, factor, split),
        ),
    decreases weights.len() - split,
{
    if split < weights.len() && !stands_above_rollup(weights, factor, split) {
        lemma_settled(weights, factor, split + 1);
    }
}

/// After the rollup the packs that are left alone form a geometric progression
/// on top of the new pack: the first of them stands above everything rolled up,
/// and each other one above the one before it.
pub proof fn law_split_leaves_progression(weights: Seq<u64>, factor: u64)
    ensures
        0 <= geometry_split(weights, factor) <= weights.len(),
        geometry_split(weights, factor) < weights.len() ==> stands_above_rollup(
            weights,
            factor,
            geometry_split(weights, factor),
        ),
        forall|k: int|
            geometry_split(weights, factor) < k < weights.len() ==> #[trigger] stands_above(
                weights,
                factor,
                k,
            ),
{
    if weights.len() > 0 {
        lemma_progression(weights, factor, weights.len() - 1);
        let start = progression_start(weights, factor, weights.len() - 1);
        lemma_settled(
            weights,
            factor,
            if start == 0 {
                0
            } else {
                start + 1
            },
        );
    }
}

/// Packs that already form a geometric progression are left alone.
pub proof fn law_progression_is_left_alone(weights: Seq<u64>, factor: u64)
    requires
        forall|k: int| 0 < k < weights.len() ==> #[trigger] stands_above(weights, factor, k),
    ensures
        geometry_split(weights, factor) == 0,
{
    if weights.len() > 0 {
        lemma_progression_reaches_bottom(weights, factor, weights.len() - 1);
        assert(weights.take(0) =~= Seq::<u64>::empty());
        assert(factor * 0 == 0) by (nonlinear_arith);
        assert(stands_above_rollup(weights, factor, 0));
    }
}

proof fn lemma_progression_reaches_bottom(weights: Seq<u64>, factor: u64, top: int)
    requires
        0 <= top < weights.len(),
        forall|k: int| 0 < k < weights.len() ==> #[trigger] stands_above(weights, factor, k),
    ensures
        progression_start(weights, factor, top) == 0,
    decreases top,
{
    if top > 0 {
        assert(stands_above(weights, factor, top));
        lemma_progression_reaches_bottom(weights, factor, top - 1);
    }
}

proof fn lemma_total_weight(weights: Seq<u64>, plus: spec_fn(int, u64) -> int)
    requires
        forall|sum: int, weight: u64| #[trigger] plus(sum, weight) == sum + weight,
    ensures
        weights.fold_left(0int, plus) >= 0,
        total_weight(weights) == saturated(weights.fold_left(0int, plus)),
    decreases weights.len(),
{
    reveal(Seq::fold_left);
    if weights.len() > 0 {
        lemma_total_weight(weights.drop_last(), plus);
    }
}

/// Comparing with a product of saturated numbers is comparing with the product,
/// but that the largest number is above everything.
proof fn lemma_saturated_product(weight: u64, factor: u64, sum: int)
    requires
        0 <= sum,
    ensures
        weight >= saturated(factor * saturated(sum)) <==> weight == u64::MAX || weight >= factor * sum,
{
    if factor == 0 {
        assert(factor * saturated(sum) == 0 && factor * sum == 0) by (nonlinear_arith)
            requires
                factor == 0,
        ;
    } else if sum > u64::MAX {
        assert(factor * u64::MAX >= u64::MAX && factor * sum > u64::MAX) by (nonlinear_arith)
            requires
                factor >= 1,
                sum > u64::MAX,
        ;
        assert(saturated(sum) == u64::MAX);
    } else {
        assert(factor * sum >= 0) by (nonlinear_arith)
            requires
                factor >= 1,
                sum >= 0,
        ;
        assert(saturated(sum) == sum);
    }
}

proof fn lemma_progression_breaks(weights: Seq<u64>, factor: u64, top: int)
    requires
        0 <= top < weights.len(),
    ensures
        0 <= progression_start(weights, factor, top) <= top,
        progression_start(weights, factor, top) > 0 ==> !stands_above(
            weights,
            factor,
            progression_start(weights, factor, top),
        ),
    decreases top,
{
    if top > 0 && stands_above(weights, factor, top) {
        lemma_progression_breaks(weights, factor, top - 1);
    }
}

proof fn lemma_settled_is_first(weights: Seq<u64>, factor: u64, split: int, k: int)
    requires
        0 <= split <= k < settled_split(weights, factor, split),
    ensures
        !stands_above_rollup(weights, factor, k),
        k < weights.len(),
    decreases weights.len() - split,
{
    if split < weights.len() && !stands_above_rollup(weights, factor, split) {
        if split < k {
            lemma_settled_is_first(weights, factor, split + 1, k);
        }
    }
}

/// No pack rolls up exactly where each pack holds at least `factor` times the
/// objects of the one before it. Otherwise the last pack `s` that does not is
/// rolled up with all before it, and of the packs behind it the first that holds
/// at least `factor` times the objects of all before it together is left alone,
/// with all behind it: none is rolled up that could be left. A pack of the
/// largest size that can be counted stands above any.
pub proof fn law_split_is_least(weights: Seq<u64>, factor: u64)
    ensures
        ({
            let split = geometry_split(weights, factor);
            &&& 0 <= split <= weights.len()
            &&& split == 0 <==> forall|k: int|
                0 < k < weights.len() ==> (#[trigger] weights[k]) == u64::MAX || weights[k] >= factor * weights[k - 1]
            &&& split > 0 ==> exists|s: int|
                0 < s < split && (#[trigger] weights[s]) < u64::MAX && weights[s] < factor * weights[s - 1] && (forall|
                    k: int,
                |
                    s < k < weights.len() ==> (#[trigger] weights[k]) == u64::MAX || weights[k] >= factor * weights[k
                        - 1]) && (forall|k: int|
                    s < k < split ==> (#[trigger] weights[k]) < u64::MAX && weights[k] < factor * weights.take(
                        k,
                    ).fold_left(0int, |sum: int, weight: u64| sum + weight))
            &&& split < weights.len() ==> weights[split] == u64::MAX || weights[split] >= factor * weights.take(
                split,
            ).fold_left(0int, |sum: int, weight: u64| sum + weight)
        }),
{
    let plus = |sum: int, weight: u64| sum + weight;
    let split = geometry_split(weights, factor);
    assert forall|k: int| 0 < k < weights.len() implies (stands_above(weights, factor, k) <==> (
    #[trigger] weights[k]) == u64::MAX || weights[k] >= factor * weights[k - 1]) by {
        lemma_saturated_product(weights[k], factor, weights[k - 1] as int);
    }
    assert forall|k: int| 0 <= k < weights.len() implies (stands_above_rollup(weights, factor, k) <==> (
    #[trigger] weights[k]) == u64::MAX || weights[k] >= factor * weights.take(k).fold_left(0int, plus)) by {
        lemma_total_weight(weights.take(k), plus);
        lemma_saturated_product(weights[k], factor, weights.take(k).fold_left(0int, plus));
    }
    law_split_leaves_progression(weights, factor);
    if weights.len() > 0 {
        let top = weights.len() - 1;
        let start = progression_start(weights, factor, top);
        lemma_progression(weights, factor, top);
        lemma_progression_breaks(weights, factor, top);
        if start == 0 {
            assert forall|k: int| 0 < k < weights.len() implies (#[trigger] weights[k]) == u64::MAX || weights[k]
                >= factor * weights[k - 1] by {
                assert(stands_above(weights, factor, k));
            }
            assert forall|k: int| 0 < k < weights.len() implies #[trigger] stands_above(weights, factor, k) by {
                assert(weights[k] == u64::MAX || weights[k] >= factor * weights[k - 1]);
            }
            law_progression_is_left_alone(weights, factor);
        } else {
            lemma_settled(weights, factor, start + 1);
            assert(weights[start] < u64::MAX && weights[start] < factor * weights[start - 1]);
            assert forall|k: int| start < k < weights.len() implies (#[trigger] weights[k]) == u64::MAX || weights[k]
                >= factor * weights[k - 1] by {
                assert(stands_above(weights, factor, k));
            }
            assert forall|k: int| start < k < split implies (#[trigger] weights[k]) < u64::MAX && weights[k]
                < factor * weights.take(k).fold_left(0int, plus) by {
                lemma_settled_is_first(weights, factor, start + 1, k);
            }
        }
        if split < weights.len() {
            assert(weights[split] == u64::MAX || weights[split] >= factor * weights.take(split).fold_left(
                0int,
                plus,
            ));
        }
    }
}

/// Given pack weights in ascending order, the number of packs that roll up into
/// one new pack; the packs behind are left alone.
pub fn compute_geometry_split(weights: &[u64], split_factor: u64) -> (split: usize)
    ensures
        split == geometry_split(weights@, split_factor),
        split <= weights@.len(),
{
    proof {
        law_split_leaves_progression(weights@, split_factor);
    }
    let pack_nr: usize = weights.len();
    if pack_nr == 0 {
        return 0;
    }
    let mut i: usize = pack_nr - 1;
    while i > 0 && weights[i] >= saturating_product(split_factor, weights[i - 1])
        invariant
            i < weights@.len(),
            progression_start(weights@, split_factor, weights@.len() - 1) == progression_start(
                weights@,
                split_factor,
                i as int,
            ),
        decreases i,
    {
        i -= 1;
    }
    let mut split: usize = i;
    if split != 0 {
        split += 1;
    }
    let ghost base = split as int;
    let mut total: u64 = 0;
    let mut k: usize = 0;
    while k < split
        invariant
            k <= split <= weights@.len(),
            total == total_weight(weights@.take(k as int)),
        decreases split - k,
    {
        assert(weights@.take(k + 1).drop_last() =~= weights@.take(k as int));
        total = total.saturating_add(weights[k]);
        k += 1;
    }
    while split < pack_nr && weights[split] < saturating_product(split_factor, total)
        invariant
            split <= pack_nr == weights@.len(),
            total == total_weight(weights@.take(split as int)),
            settled_split(weights@, split_factor, base) == settled_split(
                weights@,
                split_factor,
                split as int,
            ),
        decreases pack_nr - split,
    {
        assert(weights@.take(split + 1).drop_last() =~= weights@.take(split as int));
        total = total.saturating_add(weights[split]);
        split += 1;
    }
    split
}

/// A pack considered for a rollup, with the ids that its index lists.
pub struct GeometryPack {
    pub file: PackFile,
    pub oids: Vec<ObjectId>,
}

impl GeometryPack {
    /// The object count that orders the pack in the progression.
    pub open spec fn spec_weight(self) -> u64 {
        self.oids@.len() as u64
    }

    pub fn weight(&self) -> (weight: u64)
        ensures
            weight == self.spec_weight(),
    {
        self.oids.len() as u64
    }
}

/// Whether a pack takes part in the progression: it is indexed, and neither a
/// cruft, a kept nor a promisor pack.
pub open spec fn takes_part(pack: GeometryPack, kept_stems: Set<Seq<char>>) -> bool {
    &&& !pack.file.has_mtimes
    &&& !pack.file.has_keep
    &&& !kept_stems.contains(pack.file.stem@)
    &&& pack.file.has_index
    &&& !pack.file.has_promisor
}

/// Packs by object count.
pub open spec fn weight_order() -> Less<GeometryPack> {
    |a: GeometryPack, b: GeometryPack| a.spec_weight() < b.spec_weight()
}

struct ByWeight;

impl<'a> Order<&'a GeometryPack> for ByWeight {
    closed spec fn less(&self) -> Less<&'a GeometryPack> {
        |a: &'a GeometryPack, b: &'a GeometryPack| a.spec_weight() < b.spec_weight()
    }

    proof fn lemma_is_order(&self) {
    }

    fn is_less(&self, a: &&'a GeometryPack, b: &&'a GeometryPack) -> (less: bool) {
        a.weight() < b.weight()
    }
}

/// The packs that take part, in ascending order of object count, equal ones in
/// the order of `packs`.
pub open spec fn progression(packs: Seq<GeometryPack>, kept_stems: Set<Seq<char>>) -> Seq<GeometryPack> {
    stable_sort(weight_order(), packs.filter(|pack: GeometryPack| takes_part(pack, kept_stems)))
}

/// The packs that references point to.
pub open spec fn derefs(packs: Seq<&GeometryPack>) -> Seq<GeometryPack> {
    packs.map_values(|pack: &GeometryPack| *pack)
}

/// The packs of a directory that take part in the progression, in ascending
/// order of object count. `packs` are in path order, which breaks ties.
pub fn collect_geometry_packs<'a>(packs: &'a [GeometryPack], kept_pack_stems: &[String]) -> (ordered: Vec<
    &'a GeometryPack,
>)
    ensures
        derefs(ordered@) == progression(packs@, text_set(kept_pack_stems@)),
{
    let ghost keep = |pack: GeometryPack| takes_part(pack, text_set(kept_pack_stems@));
    let mut kept: Vec<&'a GeometryPack> = Vec::new();
    let mut i: usize = 0;
    assert(packs@.take(0).filter(keep) =~= Seq::empty()) by {
        reveal(Seq::filter);
    }
    while i < packs.len()
        invariant
            i <= packs@.len(),
            keep == (|pack: GeometryPack| takes_part(pack, text_set(kept_pack_stems@))),
            derefs(kept@) == packs@.take(i as int).filter(keep),
        decreases packs@.len() - i,
    {
        proof {
            reveal(Seq::filter);
            assert(packs@.take(i + 1).drop_last() =~= packs@.take(i as int));
        }
        let file = &packs[i].file;
        if !file.has_mtimes && !file.has_keep && !lists_text(kept_pack_stems, file.stem.as_str())
            && file.has_index && !file.has_promisor {
            let ghost before = derefs(kept@);
            kept.push(&packs[i]);
            assert(derefs(kept@) =~= before.push(packs@[i as int]));
        }
        i += 1;
    }
    assert(packs@.take(i as int) =~= packs@);
    let ordered = sort(&ByWeight, &kept);
    proof {
        let f = |pack: &GeometryPack| *pack;
        lemma_sort_map(ByWeight.less(), weight_order(), f, kept@);
    }
    ordered
}

/// The weights of packs.
pub open spec fn weights_of(packs: Seq<GeometryPack>) -> Seq<u64> {
    packs.map_values(|pack: GeometryPack| pack.spec_weight())
}

pub(crate) fn collect_weights(packs: &[&GeometryPack]) -> (weights: Vec<u64>)
    ensures
        weights@ == weights_of(derefs(packs@)),
{
    let mut weights: Vec<u64> = Vec::new();
    let mut i: usize = 0;
    while i < packs.len()
        invariant
            i <= packs@.len(),
            weights@ == weights_of(derefs(packs@)).take(i as int),
        decreases packs@.len() - i,
    {
        weights.push(packs[i].weight());
        assert(weights_of(derefs(packs@)).take(i + 1) =~= weights_of(derefs(packs@)).take(i as int).push(
            weights_of(derefs(packs@))[i as int],
        ));
        i += 1;
    }
    assert(weights_of(derefs(packs@)).take(i as int) =~= weights_of(derefs(packs@)));
    weights
}

#[derive(Debug, Clone, Copy, PartialEq, Eq, Structural)]
pub struct GeometricRepackPlan {
    pub split: usize,
    pub pack_count: usize,
}

/// How many packs take part in the progression, and how many of them roll up.
pub fn geometric_repack_plan(
    packs: &[GeometryPack],
    split_factor: u64,
    kept_pack_stems: &[String],
) -> (plan: GeometricRepackPlan)
    ensures
        plan.pack_count == progression(packs@, text_set(kept_pack_stems@)).len(),
        plan.split == geometry_split(
            weights_of(progression(packs@, text_set(kept_pack_stems@))),
            split_factor,
        ),
{
    let ordered = collect_geometry_packs(packs, kept_pack_stems);
    let weights = collect_weights(&ordered);
    GeometricRepackPlan {
        split: compute_geometry_split(&weights, split_factor),
        pack_count: ordered.len(),
    }
}

/// Additional object-selection policy for a geometric repack.
#[derive(Debug, Clone, Copy, PartialEq, Eq, Structural)]
pub struct GeometricRepackOptions {
    /// Follow references from selected objects into packs outside the
    /// geometric progression, so that the new pack rescues objects which were
    /// once unreachable.
    pub follow_reachable: bool,
}

impl Default for GeometricRepackOptions {
    fn default() -> (options: GeometricRepackOptions)
        ensures
            options == (GeometricRepackOptions { follow_reachable: false }),
    {
        GeometricRepackOptions { follow_reachable: false }
    }
}

/// The ids in the packs from `lo` up to `hi`.
pub open spec fn ids_in(packs: Seq<GeometryPack>, lo: int, hi: int) -> Set<ObjectId> {
    Set::new(
        |oid: ObjectId|
            exists|k: int| lo <= k < hi && #[trigger] packs[k].oids@.contains(oid),
    )
}

/// The ids that a rollup gathers: those of the packs below the split and the
/// loose ones, except those that a pack left alone serves.
pub open spec fn rolled_up_ids(packs: Seq<GeometryPack>, split: int, loose: Seq<ObjectId>) -> Set<ObjectId> {
    ids_in(packs, 0, split).union(loose.to_set()).difference(ids_in(packs, split, packs.len() as int))
}

/// The ids that the object `oid` names, or why they cannot be told.
pub open spec fn direct_links<R: ObjectReader>(reader: &R, oid: ObjectId) -> Result<Seq<ObjectId>, GitError> {
    match reader.object_at(oid) {
        Err(err) => Err(err),
        Ok(object) => stacked_schedule(*object, false),
    }
}

/// Where a rollup that follows references starts: at what it gathers, and at
/// what the objects in `outside`, the packs left alone, name.
pub open spec fn follow_starts<R: ObjectReader>(
    reader: &R,
    gathered: Set<ObjectId>,
    outside: Set<ObjectId>,
) -> Set<ObjectId> {
    gathered.union(
        Set::new(
            |oid: ObjectId|
                exists|from: ObjectId|
                    outside.contains(from) && #[trigger] direct_links(reader, from) is Ok && direct_links(
                        reader,
                        from,
                    )->Ok_0.contains(oid),
        ),
    )
}

/// Whether `oid` goes into the new pack.
pub open spec fn goes_into_rollup<R: ObjectReader>(
    reader: &R,
    gathered: Set<ObjectId>,
    outside: Set<ObjectId>,
    follow: bool,
    oid: ObjectId,
) -> bool {
    ||| gathered.contains(oid)
    ||| follow && gathered != Set::<ObjectId>::empty() && reaches(
        tolerant_schedule(reader, MissingPolicy::Promised),
        outside,
        follow_starts(reader, gathered, outside),
        oid,
    )
}

/// Whether following references from a rollup meets the error `err`.
pub open spec fn rollup_fails<R: ObjectReader>(
    reader: &R,
    gathered: Set<ObjectId>,
    outside: Set<ObjectId>,
    follow: bool,
    err: GitError,
) -> bool {
    &&& follow
    &&& gathered != Set::<ObjectId>::empty()
    &&& {
        ||| exists|from: ObjectId|
            #[trigger] outside.contains(from) && direct_links(reader, from) == Err::<
                Seq<ObjectId>,
                GitError,
            >(err)
        ||| (forall|from: ObjectId| #[trigger] outside.contains(from) ==> direct_links(reader, from) is Ok)
            && exists|oid: ObjectId|
            #[trigger] reaches(
                tolerant_schedule(reader, MissingPolicy::Promised),
                outside,
                follow_starts(reader, gathered, outside),
                oid,
            ) && !outside.contains(oid) && (tolerant_schedule(reader, MissingPolicy::Promised))(oid)
                == Err::<Seq<ObjectId>, GitError>(err)
    }
}

/// Adds the ids of the packs from `lo` up to `hi` that are not in `skip`.
fn add_pack_ids(packs: &[&GeometryPack], lo: usize, hi: usize, skip: &OidSet, set: &mut OidSet)
    requires
        lo <= hi <= packs@.len(),
    ensures
        final(set)@ == old(set)@.union(ids_in(derefs(packs@), lo as int, hi as int).difference(skip@)),
{
    let ghost all = derefs(packs@);
    let ghost start = set@;
    let mut k: usize = lo;
    while k < hi
        invariant
            lo <= k <= hi <= packs@.len(),
            all == derefs(packs@),
            set@ == start.union(ids_in(all, lo as int, k as int).difference(skip@)),
        decreases hi - k,
    {
        let oids = &packs[k].oids;
        let ghost before = set@;
        let mut j: usize = 0;
        while j < oids.len()
            invariant
                j <= oids@.len(),
                set@ == before.union(oids@.take(j as int).to_set().difference(skip@)),
            decreases oids@.len() - j,
        {
            let ghost so_far = oids@.take(j as int);
            if !skip.contains(&oids[j]) {
                set.insert(oids[j]);
            }
            proof {
                assert(oids@.take(j + 1) =~= so_far.push(oids@[j as int]));
                so_far.lemma_push_to_set_commute(oids@[j as int]);
                assert(set@ =~= before.union(oids@.take(j + 1).to_set().difference(skip@)));
            }
            j += 1;
        }
        proof {
            assert(oids@.take(j as int) =~= oids@);
            assert(all[k as int] == *packs@[k as int]);
            assert forall|oid: ObjectId|
                ids_in(all, lo as int, k + 1).contains(oid) == (ids_in(all, lo as int, k as int).contains(oid)
                    || oids@.contains(oid)) by {
                if oids@.contains(oid) {
                    assert(all[k as int].oids@.contains(oid));
                }
            }
            assert(set@ =~= start.union(ids_in(all, lo as int, k + 1).difference(skip@)));
        }
        k += 1;
    }
    assert(set@ =~= start.union(ids_in(all, lo as int, hi as int).difference(skip@)));
}

/// Adds the ids that the objects in `outside` name to `starts`.
fn add_direct_links<R: ObjectReader>(reader: &R, outside: &OidSet, starts: &mut Vec<ObjectId>) -> (added: Result<
    (),
    GitError,
>)
    ensures
        added is Ok ==> final(starts)@.to_set() == follow_starts(reader, old(starts)@.to_set(), outside@)
            && forall|from: ObjectId| #[trigger]
                outside@.contains(from) ==> direct_links(reader, from) is Ok,
        added matches Err(err) ==> exists|from: ObjectId|
            #[trigger] outside@.contains(from) && direct_links(reader, from) == Err::<
                Seq<ObjectId>,
                GitError,
            >(err),
{
    let ghost base = starts@.to_set();
    let count: usize = outside.len();
    let ghost items = outside.items();
    let mut i: usize = 0;
    while i < count
        invariant
            i <= count == items.len(),
            items == outside.items(),
            starts@.to_set() == follow_starts(reader, base, items.take(i as int).to_set()),
            forall|k: int| 0 <= k < i ==> direct_links(reader, #[trigger] items[k]) is Ok,
        decreases count - i,
    {
        let oid = outside.get(i);
        let object = match reader.read_object(&oid) {
            Err(err) => {
                return Err(err);
            },
            Ok(object) => object,
        };
        match schedule_stacked(&object, false) {
            Err(err) => {
                return Err(err);
            },
            Ok(links) => {
                let mut links = links;
                let ghost linked = links@;
                let ghost before = starts@;
                starts.append(&mut links);
                proof {
                    assert(direct_links(reader, oid) == Ok::<Seq<ObjectId>, GitError>(linked));
                    let done = items.take(i as int);
                    let next = items.take(i + 1);
                    assert(next =~= done.push(oid));
                    done.lemma_push_to_set_commute(oid);
                    assert forall|o: ObjectId|
                        starts@.to_set().contains(o) == follow_starts(reader, base, next.to_set()).contains(o) by {
                        if linked.contains(o) {
                            let m = choose|m: int| 0 <= m < linked.len() && linked[m] == o;
                            assert(starts@[before.len() + m] == o);
                            assert(next.to_set().contains(oid) && direct_links(reader, oid) is Ok);
                        }
                        if before.contains(o) {
                            let m = choose|m: int| 0 <= m < before.len() && before[m] == o;
                            assert(starts@[m] == o);
                            assert(before.to_set().contains(o));
                            assert(follow_starts(reader, base, done.to_set()).contains(o));
                            if !base.contains(o) {
                                let from = choose|from: ObjectId|
                                    done.to_set().contains(from) && #[trigger] direct_links(reader, from) is Ok
                                        && direct_links(reader, from)->Ok_0.contains(o);
                                assert(next.to_set().contains(from));
                            }
                        }
                        if starts@.to_set().contains(o) {
                            let m = choose|m: int| 0 <= m < starts@.len() && starts@[m] == o;
                            if m < before.len() {
                                assert(before[m] == o);
                            } else {
                                assert(linked[m - before.len()] == o);
                            }
                        }
                        if follow_starts(reader, base, next.to_set()).contains(o) && !base.contains(o) {
                            let from = choose|from: ObjectId|
                                next.to_set().contains(from) && #[trigger] direct_links(reader, from) is Ok
                                    && direct_links(reader, from)->Ok_0.contains(o);
                            if from != oid {
                                assert(done.to_set().contains(from));
                                assert(follow_starts(reader, base, done.to_set()).contains(o));
                                assert(before.to_set().contains(o));
                            }
                        }
                        if base.contains(o) {
                            assert(follow_starts(reader, base, done.to_set()).contains(o));
                            assert(before.to_set().contains(o));
                        }
                    }
                    assert(starts@.to_set() =~= follow_starts(reader, base, next.to_set()));
                }
            },
        }
        i += 1;
    }
    proof {
        assert(items.take(i as int) =~= items);
        assert forall|from: ObjectId| #[trigger] outside@.contains(from) implies direct_links(reader, from) is Ok by {
            let k = choose|k: int| 0 <= k < items.len() && items[k] == from;
            assert(direct_links(reader, items[k]) is Ok);
        }
    }
    Ok(())
}

/// The ids that a geometric rollup packs, in index order: every object of the
/// packs below `split` and every loose object, but not objects that a pack left
/// alone serves; and, where references are followed, what those lead to and
/// what the packs left alone name.
pub fn select_rollup<R: ObjectReader>(
    reader: &R,
    packs: &[&GeometryPack],
    split: usize,
    loose: &[ObjectId],
    options: GeometricRepackOptions,
) -> (selected: Result<Vec<ObjectId>, GitError>)
    requires
        split <= packs@.len(),
    ensures
        ({
            let all = derefs(packs@);
            let gathered = rolled_up_ids(all, split as int, loose@);
            let outside = ids_in(all, split as int, all.len() as int);
            match selected {
                Ok(selected) => {
                    &&& is_sorted(oid_less(), selected@)
                    &&& selected@.no_duplicates()
                    &&& forall|oid: ObjectId|
                        #[trigger] selected@.contains(oid) <==> goes_into_rollup(
                            reader,
                            gathered,
                            outside,
                            options.follow_reachable,
                            oid,
                        )
                    &&& forall|err: GitError|
                        !#[trigger] rollup_fails(reader, gathered, outside, options.follow_reachable, err)
                },
                Err(err) => rollup_fails(reader, gathered, outside, options.follow_reachable, err),
            }
        }),
{
    let ghost all = derefs(packs@);
    let ghost gathered = rolled_up_ids(all, split as int, loose@);
    let mut excluded = OidSet::new();
    add_pack_ids(packs, split, packs.len(), &OidSet::new(), &mut excluded);
    let ghost outside = ids_in(all, split as int, all.len() as int);
    assert(excluded@ =~= outside);
    let mut included = OidSet::new();
    add_pack_ids(packs, 0, split, &excluded, &mut included);
    let ghost from_packs = included@;
    let mut i: usize = 0;
    while i < loose.len()
        invariant
            i <= loose@.len(),
            included@ == from_packs.union(loose@.take(i as int).to_set().difference(excluded@)),
        decreases loose@.len() - i,
    {
        let ghost so_far = loose@.take(i as int);
        if !excluded.contains(&loose[i]) {
            included.insert(loose[i]);
        }
        proof {
            assert(loose@.take(i + 1) =~= so_far.push(loose@[i as int]));
            so_far.lemma_push_to_set_commute(loose@[i as int]);
            assert(included@ =~= from_packs.union(loose@.take(i + 1).to_set().difference(excluded@)));
        }
        i += 1;
    }
    assert(loose@.take(i as int) =~= loose@);
    assert(included@ =~= gathered);
    if options.follow_reachable && !included.is_empty() {
        let mut starts = included.to_vec();
        match add_direct_links(reader, &excluded, &mut starts) {
            Err(err) => {
                return Err(err);
            },
            Ok(_) => {},
        }
        let followed = match collect_reachable_object_ids_excluding_promised_missing(
            reader,
            &starts,
            &excluded,
        ) {
            Err(err) => {
                proof {
                    law_walk_visits_closure(
                        tolerant_schedule(reader, MissingPolicy::Promised),
                        excluded@,
                        starts@,
                    );
                }
                return Err(err);
            },
            Ok(followed) => followed,
        };
        proof {
            law_walk_visits_closure(tolerant_schedule(reader, MissingPolicy::Promised), excluded@, starts@);
        }
        proof {
            let graph = tolerant_schedule(reader, MissingPolicy::Promised);
            assert(starts@.to_set() == follow_starts(reader, gathered, outside));
            assert forall|err: GitError| !#[trigger] rollup_fails(reader, gathered, outside, true, err) by {
                if rollup_fails(reader, gathered, outside, true, err) {
                    if exists|from: ObjectId|
                        #[trigger] outside.contains(from) && direct_links(reader, from) == Err::<
                            Seq<ObjectId>,
                            GitError,
                        >(err) {
                        let from = choose|from: ObjectId|
                            #[trigger] outside.contains(from) && direct_links(reader, from) == Err::<
                                Seq<ObjectId>,
                                GitError,
                            >(err);
                        assert(excluded@.contains(from));
                        assert(direct_links(reader, from) is Ok);
                    } else {
                        let oid = choose|oid: ObjectId|
                            #[trigger] reaches(graph, outside, follow_starts(reader, gathered, outside), oid)
                                && !outside.contains(oid) && graph(oid) == Err::<Seq<ObjectId>, GitError>(err);
                        assert(followed.items().contains(oid));
                        assert(graph(oid) is Ok);
                    }
                }
            }
        }
        let count: usize = followed.len();
        let ghost base = included@;
        let mut k: usize = 0;
        while k < count
            invariant
                k <= count == followed.items().len(),
                included@ == base.union(followed.items().take(k as int).to_set()),
            decreases count - k,
        {
            let oid = followed.get(k);
            included.insert(oid);
            proof {
                let so_far = followed.items().take(k as int);
                assert(followed.items().take(k + 1) =~= so_far.push(oid));
                so_far.lemma_push_to_set_commute(oid);
                assert(included@ =~= base.union(followed.items().take(k + 1).to_set()));
            }
            k += 1;
        }
        proof {
            assert(followed.items().take(k as int) =~= followed.items());
            assert forall|oid: ObjectId| included@.contains(oid) == goes_into_rollup(
                reader,
                gathered,
                outside,
                true,
                oid,
            ) by {
                assert(followed.items().to_set().contains(oid) == followed.items().contains(oid));
            }
        }
    }
    let listed = included.to_vec();
    let selected = sort_oids(&listed);
    proof {
        assert forall|oid: ObjectId| #[trigger] selected@.contains(oid) == included@.contains(oid) by {
            assert(selected@.to_set().contains(oid) == listed@.to_set().contains(oid));
        }
        listed@.lemma_multiset_has_no_duplicates();
        selected@.lemma_multiset_has_no_duplicates_conv();
    }
    Ok(selected)
}

} // verus!
