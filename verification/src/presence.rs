//! Many presence checks in a row.

use crate::error::GitError;
use crate::hex_id::is_format_mismatch;
use crate::hex_id::validate_oid_format;
use crate::lookup::LookupStep;
use crate::object_id::ObjectFormat;
use crate::object_id::ObjectId;
use crate::oid_map::OidSet;
use crate::pack_order::find_in_pack_registry;
use crate::pack_order::law_lookup_tries_every_pack;
use crate::pack_order::lookup_order;
use vstd::prelude::*;

verus! {

/// Where a presence check looks.
#[derive(Debug, Clone, Copy, PartialEq, Eq, Structural)]
pub enum PresenceSource {
    Loose,
    /// The packs as they were when the checker was made ready.
    Packed,
    /// The packs after a fresh scan.
    RescannedPacks,
    Alternate(usize),
    RetryLoose,
}

/// What a presence check does after an answer. Without `refresh` it stays with
/// the world as it was made ready: packs are not scanned again, and a loose
/// object is not sought twice.
pub open spec fn presence_step(
    source: PresenceSource,
    answer: Result<Option<()>, GitError>,
    alternates: usize,
    refresh: bool,
) -> LookupStep<PresenceSource, ()> {
    let behind_alternates = if refresh {
        LookupStep::Probe(PresenceSource::RetryLoose)
    } else {
        LookupStep::Finished(Ok(None))
    };
    let behind_packs = if alternates > 0 {
        LookupStep::Probe(PresenceSource::Alternate(0))
    } else {
        behind_alternates
    };
    match answer {
        Ok(None) => match source {
            PresenceSource::Loose => LookupStep::Probe(PresenceSource::Packed),
            PresenceSource::Packed => if refresh {
                LookupStep::Probe(PresenceSource::RescannedPacks)
            } else {
                behind_packs
            },
            PresenceSource::RescannedPacks => behind_packs,
            PresenceSource::Alternate(i) => if i + 1 < alternates {
                LookupStep::Probe(PresenceSource::Alternate((i + 1) as usize))
            } else {
                behind_alternates
            },
            PresenceSource::RetryLoose => LookupStep::Finished(Ok(None)),
        },
        other => LookupStep::Finished(other),
    }
}

/// What a presence check does after an answer.
fn after_presence_probe(
    source: PresenceSource,
    answer: Result<Option<()>, GitError>,
    alternates: usize,
    refresh: bool,
) -> (step: LookupStep<PresenceSource, ()>)
    ensures
        step == presence_step(source, answer, alternates, refresh),
{
    match answer {
        Ok(None) => {
            let past_packs = match source {
                PresenceSource::Loose => {
                    return LookupStep::Probe(PresenceSource::Packed);
                },
                PresenceSource::Packed => {
                    if refresh {
                        return LookupStep::Probe(PresenceSource::RescannedPacks);
                    }
                    true
                },
                PresenceSource::RescannedPacks => true,
                PresenceSource::Alternate(i) => {
                    if i < alternates && i + 1 < alternates {
                        return LookupStep::Probe(PresenceSource::Alternate(i + 1));
                    }
                    false
                },
                PresenceSource::RetryLoose => {
                    return LookupStep::Finished(Ok(None));
                },
            };
            if past_packs && alternates > 0 {
                LookupStep::Probe(PresenceSource::Alternate(0))
            } else if refresh {
                LookupStep::Probe(PresenceSource::RetryLoose)
            } else {
                LookupStep::Finished(Ok(None))
            }
        },
        other => LookupStep::Finished(other),
    }
}

/// What a search of the packs needs next, or what it found.
#[derive(Debug, Clone, Copy, PartialEq, Eq, Structural)]
pub enum PackedStep {
    /// The multi-pack index has to be read.
    LoadMultiPackIndex,
    /// The pack directory has to be scanned.
    ScanRegistry,
    /// The index of the pack at a position has to be read.
    LoadIndex(usize),
    Finished(bool),
}

/// Checks for the presence of many objects, keeping the multi-pack index, the
/// pack indexes and the pack that was hit last between checks.
pub struct ObjectPresenceChecker {
    format: ObjectFormat,
    midx: Option<OidSet>,
    indexes: Vec<Option<OidSet>>,
    recent_pack: Option<usize>,
    prepared_packs: bool,
    prepared_registry: bool,
}

/// The first pack in an order that holds an object, unless an index before it
/// was not read.
pub open spec fn registry_step(indexes: Seq<Option<OidSet>>, order: Seq<usize>, oid: ObjectId) -> PackedStep
    decreases order.len(),
{
    if order.len() == 0 {
        PackedStep::Finished(false)
    } else {
        match indexes[order[0] as int] {
            None => PackedStep::LoadIndex(order[0]),
            Some(oids) => if oids@.contains(oid) {
                PackedStep::Finished(true)
            } else {
                registry_step(indexes, order.drop_first(), oid)
            },
        }
    }
}

/// The first pack in an order whose index was read and holds an object.
pub open spec fn first_holder(indexes: Seq<Option<OidSet>>, order: Seq<usize>, oid: ObjectId) -> Option<usize>
    decreases order.len(),
{
    if order.len() == 0 {
        None
    } else {
        match indexes[order[0] as int] {
            None => None,
            Some(oids) => if oids@.contains(oid) {
                Some(order[0])
            } else {
                first_holder(indexes, order.drop_first(), oid)
            },
        }
    }
}

impl ObjectPresenceChecker {
    pub closed spec fn spec_format(self) -> ObjectFormat {
        self.format
    }

    /// The objects of the multi-pack index that was read last.
    pub closed spec fn multi_pack_index(self) -> Option<OidSet> {
        self.midx
    }

    /// What is in the packs of the directory, as far as it was read.
    pub closed spec fn indexes(self) -> Seq<Option<OidSet>> {
        self.indexes@
    }

    /// The pack that was hit last.
    pub closed spec fn recent_pack(self) -> Option<usize> {
        self.recent_pack
    }

    pub closed spec fn has_packs(self) -> bool {
        self.prepared_packs
    }

    pub closed spec fn has_registry(self) -> bool {
        self.prepared_registry
    }

    pub fn new(format: ObjectFormat) -> (checker: ObjectPresenceChecker)
        ensures
            checker.spec_format() == format,
            checker.multi_pack_index() is None,
            checker.indexes().len() == 0,
            checker.recent_pack() is None,
            !checker.has_packs(),
            !checker.has_registry(),
    {
        ObjectPresenceChecker {
            format,
            midx: None,
            indexes: Vec::new(),
            recent_pack: None,
            prepared_packs: false,
            prepared_registry: false,
        }
    }

    /// What a check does: at its start, where there is no answer yet, and after
    /// an answer.
    pub fn contains(
        &self,
        oid: &ObjectId,
        answer: Option<(PresenceSource, Result<Option<()>, GitError>)>,
        alternates: usize,
        refresh: bool,
    ) -> (step: LookupStep<PresenceSource, ()>)
        ensures
            match answer {
                None => if oid.spec_format() == self.spec_format() {
                    step == LookupStep::<PresenceSource, ()>::Probe(PresenceSource::Loose)
                } else {
                    step matches LookupStep::Finished(Err(err)) && is_format_mismatch(
                        err,
                        *oid,
                        self.spec_format(),
                    )
                },
                Some((source, answer)) => step == presence_step(source, answer, alternates, refresh),
            },
    {
        match answer {
            None => match validate_oid_format(self.format, oid) {
                Ok(()) => LookupStep::Probe(PresenceSource::Loose),
                Err(err) => LookupStep::Finished(Err(err)),
            },
            Some((source, answer)) => after_presence_probe(source, answer, alternates, refresh),
        }
    }

    /// Takes in the multi-pack index.
    pub fn prepare_packs(&mut self, midx: Option<OidSet>)
        ensures
            final(self).multi_pack_index() == midx,
            final(self).has_packs(),
            final(self).spec_format() == old(self).spec_format(),
            final(self).indexes() == old(self).indexes(),
            final(self).recent_pack() == old(self).recent_pack(),
            final(self).has_registry() == old(self).has_registry(),
    {
        self.midx = midx;
        self.prepared_packs = true;
    }

    /// Takes in a scan of the pack directory. What was read of its indexes, and
    /// which pack was hit last, are forgotten where the scan found other packs
    /// than the one before or is the first.
    pub fn prepare_registry(&mut self, packs: usize, changed: bool)
        ensures
            final(self).has_registry(),
            final(self).spec_format() == old(self).spec_format(),
            final(self).multi_pack_index() == old(self).multi_pack_index(),
            final(self).has_packs() == old(self).has_packs(),
            if changed || !old(self).has_registry() || old(self).indexes().len() != packs {
                &&& final(self).indexes() == Seq::new(packs as nat, |i: int| None::<OidSet>)
                &&& final(self).recent_pack() is None
            } else {
                &&& final(self).indexes() == old(self).indexes()
                &&& final(self).recent_pack() == old(self).recent_pack()
            },
    {
        if changed || !self.prepared_registry || self.indexes.len() != packs {
            let mut indexes: Vec<Option<OidSet>> = Vec::new();
            let mut i: usize = 0;
            while i < packs
                invariant
                    i <= packs,
                    indexes@ == Seq::new(i as nat, |i: int| None::<OidSet>),
                decreases packs - i,
            {
                indexes.push(None);
                i += 1;
                assert(indexes@ =~= Seq::new(i as nat, |i: int| None::<OidSet>));
            }
            self.indexes = indexes;
            self.recent_pack = None;
        }
        self.prepared_registry = true;
    }

    /// Takes in the index of the pack at a position.
    pub fn registry_index(&mut self, at: usize, oids: OidSet)
        requires
            at < old(self).indexes().len(),
        ensures
            final(self).indexes() == old(self).indexes().update(at as int, Some(oids)),
            final(self).spec_format() == old(self).spec_format(),
            final(self).multi_pack_index() == old(self).multi_pack_index(),
            final(self).has_packs() == old(self).has_packs(),
            final(self).has_registry() == old(self).has_registry(),
            final(self).recent_pack() == old(self).recent_pack(),
    {
        self.indexes.set(at, Some(oids));
    }

    /// Looks for an object in the packs, that which was hit last first.
    pub fn find_in_registry(&mut self, oid: &ObjectId) -> (step: PackedStep)
        ensures
            ({
                let order = lookup_order(old(self).indexes().len(), old(self).recent_pack());
                &&& step == registry_step(old(self).indexes(), order, *oid)
                &&& final(self).recent_pack() == match first_holder(old(self).indexes(), order, *oid) {
                    Some(at) => Some(at),
                    None => old(self).recent_pack(),
                }
            }),
            final(self).indexes() == old(self).indexes(),
            final(self).spec_format() == old(self).spec_format(),
            final(self).multi_pack_index() == old(self).multi_pack_index(),
            final(self).has_packs() == old(self).has_packs(),
            final(self).has_registry() == old(self).has_registry(),
    {
        let order = find_in_pack_registry(self.indexes.len(), self.recent_pack);
        let ghost indexes = self.indexes@;
        let ghost hint = self.recent_pack;
        let mut i: usize = 0;
        proof {
            assert(order@.skip(0) =~= order@);
        }
        while i < order.len()
            invariant
                i <= order@.len(),
                self == old(self),
                indexes == self.indexes@,
                hint == self.recent_pack,
                order@ == lookup_order(indexes.len(), hint),
                registry_step(indexes, order@, *oid) == registry_step(indexes, order@.skip(i as int), *oid),
                first_holder(indexes, order@, *oid) == first_holder(indexes, order@.skip(i as int), *oid),
            decreases order@.len() - i,
        {
            let at: usize = order[i];
            proof {
                assert(order@.contains(at));
                assert(indexes.len() <= usize::MAX) by {
                    let n: usize = self.indexes.len();
                }
                law_lookup_tries_every_pack(indexes.len(), hint, at);
                assert(order@.skip(i as int)[0] == at);
                assert(order@.skip(i as int).drop_first() =~= order@.skip(i + 1));
            }
            match &self.indexes[at] {
                None => {
                    return PackedStep::LoadIndex(at);
                },
                Some(oids) => {
                    if oids.contains(oid) {
                        self.recent_pack = Some(at);
                        return PackedStep::Finished(true);
                    }
                },
            }
            i += 1;
        }
        PackedStep::Finished(false)
    }

    /// Looks for an object in the multi-pack index and then in the packs. Each
    /// is taken in first where it was not yet, or, in a search that refreshes,
    /// where this search did not take it in (`fresh_packs`, `fresh_registry`).
    pub fn find_packed(
        &mut self,
        oid: &ObjectId,
        force_rescan: bool,
        fresh_packs: bool,
        fresh_registry: bool,
    ) -> (step: PackedStep)
        ensures
            ({
                let order = lookup_order(old(self).indexes().len(), old(self).recent_pack());
                let in_midx = old(self).multi_pack_index() matches Some(oids) && oids@.contains(*oid);
                let searched = old(self).has_packs() && (!force_rescan || fresh_packs) && !in_midx
                    && old(self).has_registry() && (!force_rescan || fresh_registry);
                &&& step == if !old(self).has_packs() || force_rescan && !fresh_packs {
                    PackedStep::LoadMultiPackIndex
                } else if in_midx {
                    PackedStep::Finished(true)
                } else if !old(self).has_registry() || force_rescan && !fresh_registry {
                    PackedStep::ScanRegistry
                } else {
                    registry_step(old(self).indexes(), order, *oid)
                }
                &&& final(self).recent_pack() == match first_holder(old(self).indexes(), order, *oid) {
                    Some(at) if searched => Some(at),
                    _ => old(self).recent_pack(),
                }
            }),
            final(self).indexes() == old(self).indexes(),
            final(self).spec_format() == old(self).spec_format(),
            final(self).multi_pack_index() == old(self).multi_pack_index(),
            final(self).has_packs() == old(self).has_packs(),
            final(self).has_registry() == old(self).has_registry(),
    {
        if !self.prepared_packs || force_rescan && !fresh_packs {
            return PackedStep::LoadMultiPackIndex;
        }
        let in_midx = match &self.midx {
            Some(oids) => oids.contains(oid),
            None => false,
        };
        if in_midx {
            return PackedStep::Finished(true);
        }
        if !self.prepared_registry || force_rescan && !fresh_registry {
            return PackedStep::ScanRegistry;
        }
        self.find_in_registry(oid)
    }
}

proof fn lemma_registry_step(indexes: Seq<Option<OidSet>>, order: Seq<usize>, oid: ObjectId, i: int)
    requires
        0 <= i < order.len(),
        registry_step(indexes, order, oid) == PackedStep::Finished(false),
    ensures
        indexes[order[i] as int] matches Some(oids) && !oids@.contains(oid),
    decreases order.len(),
{
    if i > 0 {
        lemma_registry_step(indexes, order.drop_first(), oid, i - 1);
    }
}

/// A search of the packs that finds nothing has looked into every one of them,
/// whichever was hit last.
pub proof fn law_absent_is_in_no_pack(indexes: Seq<Option<OidSet>>, recent: Option<usize>, oid: ObjectId, pack: int)
    requires
        indexes.len() <= usize::MAX,
        registry_step(indexes, lookup_order(indexes.len(), recent), oid) == PackedStep::Finished(false),
        0 <= pack < indexes.len(),
    ensures
        indexes[pack] matches Some(oids) && !oids@.contains(oid),
{
    let order = lookup_order(indexes.len(), recent);
    law_lookup_tries_every_pack(indexes.len(), recent, pack as usize);
    let i = choose|i: int| 0 <= i < order.len() && order[i] == pack as usize;
    lemma_registry_step(indexes, order, oid, i);
}

/// A search that finds an object has found it in a pack.
pub proof fn law_found_is_in_a_pack(indexes: Seq<Option<OidSet>>, recent: Option<usize>, oid: ObjectId)
    requires
        indexes.len() <= usize::MAX,
        registry_step(indexes, lookup_order(indexes.len(), recent), oid) == PackedStep::Finished(true),
    ensures
        first_holder(indexes, lookup_order(indexes.len(), recent), oid) matches Some(at) && at < indexes.len()
            && (indexes[at as int] matches Some(oids) && oids@.contains(oid)),
{
    let order = lookup_order(indexes.len(), recent);
    lemma_first_holder(indexes, order, oid);
    let at = first_holder(indexes, order, oid)->Some_0;
    law_lookup_tries_every_pack(indexes.len(), recent, at);
}

proof fn lemma_first_holder(indexes: Seq<Option<OidSet>>, order: Seq<usize>, oid: ObjectId)
    requires
        registry_step(indexes, order, oid) == PackedStep::Finished(true),
    ensures
        first_holder(indexes, order, oid) matches Some(at) && order.contains(at) && (
        indexes[at as int] matches Some(oids) && oids@.contains(oid)),
    decreases order.len(),
{
    match indexes[order[0] as int] {
        Some(oids) => if oids@.contains(oid) {
            assert(order.contains(order[0]));
        } else {
            let rest = order.drop_first();
            lemma_first_holder(indexes, rest, oid);
            let at = first_holder(indexes, rest, oid)->Some_0;
            let i = choose|i: int| 0 <= i < rest.len() && rest[i] == at;
            assert(order[i + 1] == at);
        },
        None => {},
    }
}

} // verus!
