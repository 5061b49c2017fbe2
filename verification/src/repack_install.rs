//! Installing repacks: what is written, and what goes once it is.

use crate::cruft_split::CruftPack;
use crate::error::GitError;
use crate::filter::text_set;
use crate::install_plan::all_removals;
use crate::install_plan::bytes_of;
use crate::install_plan::cruft_fault;
use crate::install_plan::cruft_install_ops;
use crate::install_plan::cruft_ops;
use crate::install_plan::cruft_present;
use crate::install_plan::cruft_result_fault;
use crate::install_plan::inconsistency;
use crate::install_plan::install_ops;
use crate::install_plan::is_consistent;
use crate::install_plan::is_pruned;
use crate::install_plan::is_pruned_by_cruft;
use crate::install_plan::is_pruned_rollup;
use crate::install_plan::is_valid_cruft;
use crate::install_plan::is_valid_cruft_result;
use crate::install_plan::midx_stem;
use crate::install_plan::models;
use crate::install_plan::new_stems;
use crate::install_plan::plan_cruft_files;
use crate::install_plan::plan_cruft_files_at_prefix;
use crate::install_plan::plan_cruft_prune;
use crate::install_plan::plan_pack_files;
use crate::install_plan::prune_loose_objects;
use crate::install_plan::prune_obsolete_pack_paths;
use crate::install_plan::prune_rolled_up_packs;
use crate::install_plan::prune_stale_multi_pack_index;
use crate::install_plan::push_write;
use crate::install_plan::stems_where;
use crate::install_plan::superseded_stems_of;
use crate::install_plan::validate_cruft_pack;
use crate::install_plan::validate_cruft_repack_result;
use crate::install_plan::CruftRepackResult;
use crate::install_plan::Op;
use crate::install_plan::PackOp;
use crate::install_plan::ParsedCruft;
use crate::install_plan::ParsedCruftResult;
use crate::install_plan::PrunePlan;
use crate::object_id::ObjectFormat;
use crate::object_id::ObjectId;
use crate::oid_map::OidSet;
use crate::order::texts;
use crate::pack_file::entry_ids;
use crate::pack_file::pack_name;
use crate::pack_file::pack_stem;
use crate::pack_file::PackFile;
use crate::pack_file::PackIndexData;
use crate::pack_file::PackWrite;
use crate::repack::RepackInstallOptions;
use crate::repack::RepackResult;
use crate::text::concat3;
use crate::text::hex;
use vstd::prelude::*;

verus! {

/// What pruning goes by.
pub struct PruneView {
    /// The packs as they stand on disk.
    pub packs: Vec<PackFile>,
    /// The packs that the multi-pack-index names; none without one.
    pub midx_pack_names: Vec<String>,
}

/// What goes once a repack is in place.
pub struct PruneSteps {
    /// The removals of packs.
    pub packs: PrunePlan,
    /// The objects whose loose copies go.
    pub loose: Vec<ObjectId>,
    /// Whether the multi-pack-index goes.
    pub drop_multi_pack_index: bool,
}

/// What installing a repack does: its writes, in order, then its pruning.
pub struct InstallSteps {
    pub writes: Vec<PackOp>,
    pub prune: Option<PruneSteps>,
}

/// Whether pruning removes the packs with the stems `removed`, the loose copies
/// of what `present` has, and a multi-pack-index that names one of the packs.
pub open spec fn prunes(
    steps: PruneSteps,
    removed: Seq<Seq<char>>,
    loose: Seq<ObjectId>,
    present: Set<ObjectId>,
    midx_pack_names: Seq<String>,
) -> bool {
    &&& texts(steps.packs.removed_stems@) == removed
    &&& models(steps.packs.ops@) == all_removals(removed)
    &&& steps.loose@ == loose.filter(|oid: ObjectId| present.contains(oid))
    &&& steps.drop_multi_pack_index == exists|i: int|
        0 <= i < midx_pack_names.len() && removed.contains(midx_stem((#[trigger] midx_pack_names[i])@))
}

fn prune_steps(plan: PrunePlan, loose: &[ObjectId], present: &OidSet, midx_pack_names: &[String]) -> (steps: PruneSteps)
    requires
        models(plan.ops@) == all_removals(texts(plan.removed_stems@)),
    ensures
        prunes(steps, texts(plan.removed_stems@), loose@, present@, midx_pack_names@),
{
    let drop_multi_pack_index = prune_stale_multi_pack_index(midx_pack_names, &plan.removed_stems);
    proof {
        let removed = texts(plan.removed_stems@);
        assert(text_set(plan.removed_stems@) =~= removed.to_set());
        assert forall|i: int| 0 <= i < midx_pack_names@.len() implies text_set(plan.removed_stems@).contains(
            midx_stem((#[trigger] midx_pack_names@[i])@),
        ) == removed.contains(midx_stem(midx_pack_names@[i]@)) by {}
    }
    PruneSteps { loose: prune_loose_objects(loose, present), packs: plan, drop_multi_pack_index }
}

/// Plans the installation of a repack: validates the result, writes its files,
/// and then removes the packs that it supersedes and the loose objects that the
/// new index serves.
///
/// `parsed` is what the result's index parses to; `reverse_index` and `bitmap`
/// are the bytes of the sidecars, where they are written.
pub fn install_repack_result_with_bitmap_options(
    format: ObjectFormat,
    result: &RepackResult,
    parsed: Result<PackIndexData, GitError>,
    options: RepackInstallOptions,
    reverse_index: Vec<u8>,
    bitmap: Option<Vec<u8>>,
    disk: &PruneView,
) -> (steps: Result<InstallSteps, GitError>)
    ensures
        steps is Ok <==> is_consistent(
            format,
            result.pack@,
            result.pack_checksum,
            result.index_entries@,
            parsed,
        ),
        steps matches Ok(steps) ==> {
            &&& models(steps.writes@) == install_ops(
                *result,
                if options.write_reverse_index {
                    Some(reverse_index@)
                } else {
                    None
                },
                bytes_of(bitmap),
                result.promisor,
            )
            &&& steps.prune is Some == options.prune
            &&& steps.prune matches Some(prune) ==> prunes(
                prune,
                stems_where(
                    disk.packs@,
                    |file: PackFile|
                        is_pruned(
                            file,
                            text_set(result.obsolete_packs@),
                            pack_stem(result.pack_checksum),
                            text_set(result.retained_pack_stems@),
                            result.promisor,
                        ),
                ),
                result.packed_loose@,
                entry_ids(parsed->Ok_0.entries@).to_set(),
                disk.midx_pack_names@,
            )
        },
        steps matches Err(err) ==> inconsistency(
            format,
            result.pack@,
            result.pack_checksum,
            result.index_entries@,
            parsed,
            "repack"@,
            "repack index checksum does not match the new pack"@,
            "repack index does not match the new pack contents"@,
            err,
        ),
{
    let reverse = if options.write_reverse_index {
        Some(reverse_index)
    } else {
        None
    };
    match plan_pack_files(format, result, parsed, reverse, bitmap, result.promisor) {
        Err(err) => Err(err),
        Ok((writes, present)) => {
            if !options.prune {
                return Ok(InstallSteps { writes, prune: None });
            }
            let stem = pack_name(&result.pack_checksum);
            let plan = prune_obsolete_pack_paths(
                &disk.packs,
                &result.obsolete_packs,
                stem.as_str(),
                &result.retained_pack_stems,
                result.promisor,
            );
            let prune = prune_steps(plan, &result.packed_loose, &present, &disk.midx_pack_names);
            Ok(InstallSteps { writes, prune: Some(prune) })
        },
    }
}

/// Plans the installation of a repack with a reverse index and no bitmap.
pub fn install_repack_result(
    format: ObjectFormat,
    result: &RepackResult,
    parsed: Result<PackIndexData, GitError>,
    prune: bool,
    reverse_index: Vec<u8>,
    disk: &PruneView,
) -> (steps: Result<InstallSteps, GitError>)
    ensures
        steps is Ok <==> is_consistent(
            format,
            result.pack@,
            result.pack_checksum,
            result.index_entries@,
            parsed,
        ),
        steps matches Ok(steps) ==> {
            &&& models(steps.writes@) == install_ops(*result, Some(reverse_index@), None, result.promisor)
            &&& steps.prune is Some == prune
            &&& steps.prune matches Some(prune) ==> prunes(
                prune,
                stems_where(
                    disk.packs@,
                    |file: PackFile|
                        is_pruned(
                            file,
                            text_set(result.obsolete_packs@),
                            pack_stem(result.pack_checksum),
                            text_set(result.retained_pack_stems@),
                            result.promisor,
                        ),
                ),
                result.packed_loose@,
                entry_ids(parsed->Ok_0.entries@).to_set(),
                disk.midx_pack_names@,
            )
        },
        steps matches Err(err) ==> inconsistency(
            format,
            result.pack@,
            result.pack_checksum,
            result.index_entries@,
            parsed,
            "repack"@,
            "repack index checksum does not match the new pack"@,
            "repack index does not match the new pack contents"@,
            err,
        ),
{
    install_repack_result_with_bitmap_options(
        format,
        result,
        parsed,
        RepackInstallOptions::new(prune),
        reverse_index,
        None,
        disk,
    )
}

/// Plans the installation of a repack with a reverse index and, where there is
/// one, a bitmap.
pub fn install_repack_result_with_bitmap(
    format: ObjectFormat,
    result: &RepackResult,
    parsed: Result<PackIndexData, GitError>,
    prune: bool,
    reverse_index: Vec<u8>,
    bitmap: Option<Vec<u8>>,
    disk: &PruneView,
) -> (steps: Result<InstallSteps, GitError>)
    ensures
        steps is Ok <==> is_consistent(
            format,
            result.pack@,
            result.pack_checksum,
            result.index_entries@,
            parsed,
        ),
        steps matches Ok(steps) ==> {
            &&& models(steps.writes@) == install_ops(
                *result,
                Some(reverse_index@),
                bytes_of(bitmap),
                result.promisor,
            )
            &&& steps.prune is Some == prune
            &&& steps.prune matches Some(prune) ==> prunes(
                prune,
                stems_where(
                    disk.packs@,
                    |file: PackFile|
                        is_pruned(
                            file,
                            text_set(result.obsolete_packs@),
                            pack_stem(result.pack_checksum),
                            text_set(result.retained_pack_stems@),
                            result.promisor,
                        ),
                ),
                result.packed_loose@,
                entry_ids(parsed->Ok_0.entries@).to_set(),
                disk.midx_pack_names@,
            )
        },
        steps matches Err(err) ==> inconsistency(
            format,
            result.pack@,
            result.pack_checksum,
            result.index_entries@,
            parsed,
            "repack"@,
            "repack index checksum does not match the new pack"@,
            "repack index does not match the new pack contents"@,
            err,
        ),
{
    install_repack_result_with_bitmap_options(
        format,
        result,
        parsed,
        RepackInstallOptions::new(prune),
        reverse_index,
        bitmap,
        disk,
    )
}

/// The outcome of a geometric rollup: the new pack, if one was written, and the
/// stems of the rolled-up packs whose objects it now serves.
pub struct GeometricRepackResult {
    pub result: Option<RepackResult>,
    pub rolled_up_packs: Vec<String>,
}

/// Plans the installation of a geometric repack: the new pack is written, and
/// pruning removes exactly the rolled-up packs and the loose objects now packed.
/// Packs above the split are never removed, though some of their objects may
/// also be in the new pack.
pub fn install_geometric_repack_result(
    format: ObjectFormat,
    geometric: &GeometricRepackResult,
    parsed: Result<PackIndexData, GitError>,
    reverse_index: Vec<u8>,
    bitmap: Option<Vec<u8>>,
    prune: bool,
    disk: &PruneView,
) -> (steps: Result<InstallSteps, GitError>)
    ensures
        match geometric.result {
            None => steps matches Ok(steps) && steps.writes@.len() == 0 && steps.prune is None,
            Some(result) => {
                &&& steps is Ok <==> is_consistent(
                    format,
                    result.pack@,
                    result.pack_checksum,
                    result.index_entries@,
                    parsed,
                )
                &&& steps matches Ok(steps) ==> {
                    &&& models(steps.writes@) == install_ops(
                        result,
                        Some(reverse_index@),
                        bytes_of(bitmap),
                        false,
                    )
                    &&& steps.prune is Some == prune
                    &&& steps.prune matches Some(prune) ==> prunes(
                        prune,
                        stems_where(
                            disk.packs@,
                            |file: PackFile|
                                is_pruned_rollup(
                                    file,
                                    text_set(geometric.rolled_up_packs@),
                                    pack_stem(result.pack_checksum),
                                ),
                        ),
                        result.packed_loose@,
                        entry_ids(parsed->Ok_0.entries@).to_set(),
                        disk.midx_pack_names@,
                    )
                }
                &&& steps matches Err(err) ==> inconsistency(
                    format,
                    result.pack@,
                    result.pack_checksum,
                    result.index_entries@,
                    parsed,
                    "repack"@,
                    "repack index checksum does not match the new pack"@,
                    "repack index does not match the new pack contents"@,
                    err,
                )
            },
        },
{
    let result = match &geometric.result {
        None => {
            return Ok(InstallSteps { writes: Vec::new(), prune: None });
        },
        Some(result) => result,
    };
    match plan_pack_files(format, result, parsed, Some(reverse_index), bitmap, false) {
        Err(err) => Err(err),
        Ok((writes, present)) => {
            if !prune {
                return Ok(InstallSteps { writes, prune: None });
            }
            let stem = pack_name(&result.pack_checksum);
            let plan = prune_rolled_up_packs(&disk.packs, &geometric.rolled_up_packs, stem.as_str());
            let prune = prune_steps(plan, &result.packed_loose, &present, &disk.midx_pack_names);
            Ok(InstallSteps { writes, prune: Some(prune) })
        },
    }
}

/// Plans the installation of a cruft pack under a pack-file prefix, once it has
/// been validated. `parsed` is what its files parse to.
pub fn install_cruft_pack_at_prefix(
    format: ObjectFormat,
    cruft: &CruftPack,
    parsed: ParsedCruft,
    base: &str,
) -> (ops: Result<Vec<PackOp>, GitError>)
    ensures
        ops is Ok <==> is_valid_cruft(format, *cruft, parsed),
        ops matches Ok(ops) ==> models(ops@) == cruft_ops(base@ + "-"@ + hex(cruft.checksum.raw()), *cruft),
        ops matches Err(err) ==> cruft_fault(format, *cruft, parsed, err),
{
    match validate_cruft_pack(format, cruft, parsed) {
        Err(err) => Err(err),
        Ok(_) => Ok(plan_cruft_files_at_prefix(cruft, base)),
    }
}

/// Whether steps install a validated cruft repack.
pub open spec fn installs_cruft(
    steps: InstallSteps,
    result: CruftRepackResult,
    reverse_index: Seq<u8>,
    prune: bool,
    disk: PruneView,
    loose: Seq<ObjectId>,
) -> bool {
    &&& models(steps.writes@) == cruft_install_ops(result, reverse_index)
    &&& steps.prune is Some == prune
    &&& steps.prune matches Some(prune) ==> prunes(
        prune,
        stems_where(
            disk.packs@,
            |file: PackFile|
                is_pruned_by_cruft(
                    file,
                    superseded_stems_of(result),
                    new_stems(result),
                    text_set(result.retained_pack_stems@),
                ),
        ),
        loose,
        cruft_present(result),
        disk.midx_pack_names@,
    )
}

/// Plans the installation of a validated cruft repack: the reachable pack and
/// the cruft packs are written, then pruning removes the superseded packs and
/// the loose objects now served. `loose` are all loose objects.
pub fn install_cruft_repack_result_validated(
    result: &CruftRepackResult,
    reverse_index: &[u8],
    prune: bool,
    disk: &PruneView,
    loose: &[ObjectId],
) -> (steps: InstallSteps)
    ensures
        installs_cruft(steps, *result, reverse_index@, prune, *disk, loose@),
{
    let writes = plan_cruft_files(result, reverse_index);
    if !prune {
        return InstallSteps { writes, prune: None };
    }
    let (plan, present) = plan_cruft_prune(result, &disk.packs);
    let steps = prune_steps(plan, loose, &present, &disk.midx_pack_names);
    InstallSteps { writes, prune: Some(steps) }
}

/// Plans the installation of a cruft repack, once every output of it has been
/// validated.
pub fn install_cruft_repack_result(
    format: ObjectFormat,
    result: &CruftRepackResult,
    parsed: ParsedCruftResult,
    reverse_index: &[u8],
    prune: bool,
    disk: &PruneView,
    loose: &[ObjectId],
) -> (steps: Result<InstallSteps, GitError>)
    requires
        parsed.cruft@.len() == result.cruft_packs().len(),
        result.expired is Some ==> parsed.expired is Some,
    ensures
        steps is Ok <==> is_valid_cruft_result(format, *result, parsed),
        steps matches Ok(steps) ==> installs_cruft(steps, *result, reverse_index@, prune, *disk, loose@),
        steps matches Err(err) ==> cruft_result_fault(format, *result, parsed, err),
{
    match validate_cruft_repack_result(format, result, parsed) {
        Err(err) => Err(err),
        Ok(_) => Ok(install_cruft_repack_result_validated(result, reverse_index, prune, disk, loose)),
    }
}

/// Plans the installation of a cruft repack together with a copy of what has
/// expired under another prefix. Every output is validated before either
/// destination changes, and the copy is written first, so that a failure there
/// leaves all source packs in place.
pub fn install_cruft_repack_result_with_expire_to(
    format: ObjectFormat,
    result: &CruftRepackResult,
    parsed: ParsedCruftResult,
    reverse_index: &[u8],
    prune: bool,
    disk: &PruneView,
    loose: &[ObjectId],
    expire_base: Option<&str>,
) -> (steps: Result<(Vec<PackOp>, InstallSteps), GitError>)
    requires
        parsed.cruft@.len() == result.cruft_packs().len(),
        result.expired is Some ==> parsed.expired is Some,
    ensures
        steps is Ok <==> is_valid_cruft_result(format, *result, parsed),
        steps matches Ok(steps) ==> {
            &&& models(steps.0@) == match (expire_base, result.expired) {
                (Some(base), Some(expired)) => cruft_ops(
                    base@ + "-"@ + hex(expired.checksum.raw()),
                    expired,
                ),
                _ => Seq::empty(),
            }
            &&& installs_cruft(steps.1, *result, reverse_index@, prune, *disk, loose@)
        },
        steps matches Err(err) ==> cruft_result_fault(format, *result, parsed, err),
{
    match validate_cruft_repack_result(format, result, parsed) {
        Err(err) => Err(err),
        Ok(_) => {
            let mut backup: Vec<PackOp> = Vec::new();
            assert(models(backup@) =~= Seq::empty());
            match expire_base {
                None => {},
                Some(base) => match &result.expired {
                    None => {},
                    Some(expired) => {
                        backup = plan_cruft_files_at_prefix(expired, base);
                    },
                },
            }
            Ok((backup, install_cruft_repack_result_validated(result, reverse_index, prune, disk, loose)))
        },
    }
}

/// Plans the files of the pack that a blob-size filter set apart: they are named
/// by `prefix` and the checksum.
pub fn write_filtered_repack(written: &PackWrite, prefix: &str) -> (ops: Vec<PackOp>)
    ensures
        ({
            let stem = prefix@ + "-"@ + hex(written.checksum.raw());
            models(ops@) == seq![
                Op::Write(stem + ".pack"@, written.pack@),
                Op::Write(stem + ".idx"@, written.index@),
            ]
        }),
{
    let stem = concat3(prefix, "-", written.checksum.to_hex().as_str());
    let mut ops: Vec<PackOp> = Vec::new();
    push_write(&mut ops, stem.as_str(), ".pack", &written.pack);
    push_write(&mut ops, stem.as_str(), ".idx", &written.index);
    assert(models(ops@) =~= seq![
        Op::Write(stem@ + ".pack"@, written.pack@),
        Op::Write(stem@ + ".idx"@, written.index@),
    ]);
    ops
}

/// No repack removes a pack that it has just written: neither an ordinary one,
/// a geometric one nor a cruft one.
pub proof fn law_new_packs_survive_pruning(
    packs: Seq<PackFile>,
    superseded: Set<Seq<char>>,
    new_stem: Seq<char>,
    retained: Set<Seq<char>>,
    promisor: bool,
    written: Set<Seq<char>>,
)
    requires
        written.contains(new_stem),
    ensures
        !stems_where(packs, |file: PackFile| is_pruned(file, superseded, new_stem, retained, promisor)).contains(new_stem),
        !stems_where(packs, |file: PackFile| is_pruned_rollup(file, superseded, new_stem)).contains(new_stem),
        !stems_where(packs, |file: PackFile| is_pruned_by_cruft(file, superseded, written, retained)).contains(new_stem),
{
    lemma_stems_satisfy(packs, |file: PackFile| is_pruned(file, superseded, new_stem, retained, promisor), new_stem);
    lemma_stems_satisfy(packs, |file: PackFile| is_pruned_rollup(file, superseded, new_stem), new_stem);
    lemma_stems_satisfy(packs, |file: PackFile| is_pruned_by_cruft(file, superseded, written, retained), new_stem);
}

proof fn lemma_stems_satisfy(packs: Seq<PackFile>, pred: spec_fn(PackFile) -> bool, stem: Seq<char>)
    ensures
        stems_where(packs, pred).contains(stem) ==> exists|file: PackFile| #[trigger] pred(file) && file.stem@ == stem,
{
    let kept = packs.filter(pred);
    let stems = stems_where(packs, pred);
    if stems.contains(stem) {
        let k = choose|k: int| 0 <= k < stems.len() && stems[k] == stem;
        assert(kept[k].stem@ == stem);
        assert(kept.contains(kept[k]));
        crate::order::lemma_filter_contains(packs, pred, kept[k]);
        assert(pred(kept[k]));
    }
}

/// A loose copy goes only where the new index serves the object.
pub proof fn law_pruned_loose_objects_are_packed(
    steps: PruneSteps,
    removed: Seq<Seq<char>>,
    loose: Seq<ObjectId>,
    present: Set<ObjectId>,
    midx_pack_names: Seq<String>,
    oid: ObjectId,
)
    requires
        prunes(steps, removed, loose, present, midx_pack_names),
        steps.loose@.contains(oid),
    ensures
        present.contains(oid),
        loose.contains(oid),
{
    crate::order::lemma_filter_contains(loose, |oid: ObjectId| present.contains(oid), oid);
}

/// A multi-pack-index that stays names no pack that goes.
pub proof fn law_kept_multi_pack_index_names_kept_packs(
    steps: PruneSteps,
    removed: Seq<Seq<char>>,
    loose: Seq<ObjectId>,
    present: Set<ObjectId>,
    midx_pack_names: Seq<String>,
    i: int,
)
    requires
        prunes(steps, removed, loose, present, midx_pack_names),
        !steps.drop_multi_pack_index,
        0 <= i < midx_pack_names.len(),
    ensures
        !removed.contains(midx_stem(midx_pack_names[i]@)),
{
}

} // verus!
