//! Installing repack results: which files are written and removed, and in what
//! order.

use crate::cruft_split::CruftPack;
use crate::error::GitError;
use crate::filter::lists_text;
use crate::filter::text_set;
use crate::object_id::copy_bytes;
use crate::object_id::ObjectFormat;
use crate::object_id::ObjectId;
use crate::oid_map::OidSet;
use crate::order::oid_less;
use crate::order::sort_oids;
use crate::order::stable_sort;
use crate::order::texts;
use crate::pack_file::checksum_failure;
use crate::pack_file::entry_id_list;
use crate::pack_file::entry_ids;
use crate::pack_file::entry_order;
use crate::pack_file::is_checksummed;
use crate::pack_file::pack_index_entries_match_writer;
use crate::pack_file::pack_name;
use crate::pack_file::pack_stem;
use crate::pack_file::validate_pack_checksum;
use crate::pack_file::PackFile;
use crate::pack_file::PackIndexData;
use crate::pack_file::PackIndexEntry;
use crate::repack::RepackResult;
use crate::text::concat2;
use crate::text::concat3;
use crate::text::hex;
use crate::text::text_eq;
use vstd::prelude::*;
use vstd::string::*;

verus! {

/// A change to a file of the pack directory.
pub enum PackOp {
    /// Write the file, unless it exists.
    Write { name: String, bytes: Vec<u8> },
    /// Write the file, replacing one that exists.
    Replace { name: String, bytes: Vec<u8> },
    /// Remove the file, if it exists.
    Remove { name: String },
}

/// What a change does.
pub enum Op {
    Write(Seq<char>, Seq<u8>),
    Replace(Seq<char>, Seq<u8>),
    Remove(Seq<char>),
}

impl Op {
    /// The file that is changed.
    pub open spec fn name(self) -> Seq<char> {
        match self {
            Op::Write(name, _) => name,
            Op::Replace(name, _) => name,
            Op::Remove(name) => name,
        }
    }
}

impl PackOp {
    pub open spec fn model(self) -> Op {
        match self {
            PackOp::Write { name, bytes } => Op::Write(name@, bytes@),
            PackOp::Replace { name, bytes } => Op::Replace(name@, bytes@),
            PackOp::Remove { name } => Op::Remove(name@),
        }
    }
}

/// What changes do.
pub open spec fn models(ops: Seq<PackOp>) -> Seq<Op> {
    ops.map_values(|op: PackOp| op.model())
}

pub(crate) fn push_write(ops: &mut Vec<PackOp>, stem: &str, extension: &str, bytes: &[u8])
    ensures
        models(final(ops)@) == models(old(ops)@).push(Op::Write(stem@ + extension@, bytes@)),
{
    let ghost before = models(ops@);
    ops.push(PackOp::Write { name: concat2(stem, extension), bytes: copy_bytes(bytes) });
    assert(models(ops@) =~= before.push(Op::Write(stem@ + extension@, bytes@)));
}

fn push_replace(ops: &mut Vec<PackOp>, stem: &str, extension: &str, bytes: &[u8])
    ensures
        models(final(ops)@) == models(old(ops)@).push(Op::Replace(stem@ + extension@, bytes@)),
{
    let ghost before = models(ops@);
    ops.push(PackOp::Replace { name: concat2(stem, extension), bytes: copy_bytes(bytes) });
    assert(models(ops@) =~= before.push(Op::Replace(stem@ + extension@, bytes@)));
}

fn push_remove(ops: &mut Vec<PackOp>, stem: &str, extension: &str)
    ensures
        models(final(ops)@) == models(old(ops)@).push(Op::Remove(stem@ + extension@)),
{
    let ghost before = models(ops@);
    ops.push(PackOp::Remove { name: concat2(stem, extension) });
    assert(models(ops@) =~= before.push(Op::Remove(stem@ + extension@)));
}

/// Whether a result's pack has the checksum that it claims, and its index
/// parses to exactly what the writer recorded.
pub open spec fn is_consistent(
    format: ObjectFormat,
    pack: Seq<u8>,
    checksum: ObjectId,
    entries: Seq<PackIndexEntry>,
    parsed: Result<PackIndexData, GitError>,
) -> bool {
    &&& checksum.spec_format() == format
    &&& is_checksummed(format, pack, checksum)
    &&& parsed matches Ok(index) && index.pack_checksum == checksum && index.entries@ == stable_sort(
        entry_order(),
        entries,
    )
}

/// Why a result is not consistent: the first check that fails, in the order
/// pack, index, index checksum, index contents.
pub open spec fn inconsistency(
    format: ObjectFormat,
    pack: Seq<u8>,
    checksum: ObjectId,
    entries: Seq<PackIndexEntry>,
    parsed: Result<PackIndexData, GitError>,
    context: Seq<char>,
    wrong_checksum: Seq<char>,
    wrong_entries: Seq<char>,
    err: GitError,
) -> bool {
    if !(checksum.spec_format() == format && is_checksummed(format, pack, checksum)) {
        checksum_failure(pack, format, checksum, context, err)
    } else {
        match parsed {
            Err(e) => err == e,
            Ok(index) => if index.pack_checksum != checksum {
                err matches GitError::InvalidFormat(text) && text@ == wrong_checksum
            } else {
                index.entries@ != stable_sort(entry_order(), entries) && (err matches GitError::InvalidFormat(
                    text,
                ) && text@ == wrong_entries)
            },
        }
    }
}

fn check_consistent(
    format: ObjectFormat,
    pack: &[u8],
    checksum: &ObjectId,
    entries: &[PackIndexEntry],
    parsed: Result<PackIndexData, GitError>,
    context: &str,
    wrong_checksum: &str,
    wrong_entries: &str,
) -> (index: Result<PackIndexData, GitError>)
    ensures
        index is Ok <==> is_consistent(format, pack@, *checksum, entries@, parsed),
        index matches Ok(index) ==> parsed == Ok::<PackIndexData, GitError>(index),
        index matches Err(err) ==> inconsistency(
            format,
            pack@,
            *checksum,
            entries@,
            parsed,
            context@,
            wrong_checksum@,
            wrong_entries@,
            err,
        ),
{
    match validate_pack_checksum(pack, format, checksum, context) {
        Err(err) => {
            return Err(err);
        },
        Ok(_) => {},
    }
    match parsed {
        Err(err) => Err(err),
        Ok(index) => {
            if index.pack_checksum != *checksum {
                return Err(GitError::InvalidFormat(String::from_str(wrong_checksum)));
            }
            if !pack_index_entries_match_writer(&index.entries, entries) {
                return Err(GitError::InvalidFormat(String::from_str(wrong_entries)));
            }
            Ok(index)
        },
    }
}

/// The files of a freshly written pack, in the order in which they are written:
/// the pack becomes visible before the index that readers find it through.
pub open spec fn install_ops(
    result: RepackResult,
    reverse_index: Option<Seq<u8>>,
    bitmap: Option<Seq<u8>>,
    promisor: bool,
) -> Seq<Op> {
    let stem = pack_stem(result.pack_checksum);
    seq![Op::Write(stem + ".pack"@, result.pack@)] + (match reverse_index {
        Some(bytes) => seq![Op::Write(stem + ".rev"@, bytes)],
        None => seq![Op::Remove(stem + ".rev"@)],
    }) + seq![Op::Write(stem + ".idx"@, result.idx@)] + (if promisor {
        seq![Op::Write(stem + ".promisor"@, Seq::empty())]
    } else {
        Seq::empty()
    }) + (match bitmap {
        Some(bytes) => seq![Op::Remove(stem + ".bitmap"@), Op::Write(stem + ".bitmap"@, bytes)],
        None => Seq::empty(),
    })
}

/// The bytes of an optional file.
pub open spec fn bytes_of(bytes: Option<Vec<u8>>) -> Option<Seq<u8>> {
    match bytes {
        Some(bytes) => Some(bytes@),
        None => None,
    }
}

/// Plans the installation of a repack result, before anything is pruned.
///
/// The public bytes are validated against what the writer recorded, so that a
/// result that was changed since is rejected before anything is written.
/// `parsed` is what the result's index parses to. The reverse index is dropped
/// where it is not written. A bitmap depends on selection inputs, so an
/// existing one is replaced.
pub fn plan_pack_files(
    format: ObjectFormat,
    result: &RepackResult,
    parsed: Result<PackIndexData, GitError>,
    reverse_index: Option<Vec<u8>>,
    bitmap: Option<Vec<u8>>,
    promisor: bool,
) -> (planned: Result<(Vec<PackOp>, OidSet), GitError>)
    ensures
        planned is Ok <==> is_consistent(
            format,
            result.pack@,
            result.pack_checksum,
            result.index_entries@,
            parsed,
        ),
        planned matches Ok((ops, present)) ==> {
            &&& models(ops@) == install_ops(*result, bytes_of(reverse_index), bytes_of(bitmap), promisor)
            &&& present@ == entry_ids(parsed->Ok_0.entries@).to_set()
        },
        planned matches Err(err) ==> inconsistency(
            format,
            result.pack@,
            result.pack_checksum,
            result.index_entries@,
            parsed,
            "repack"@,
            "repack index checksum does not match the new pack"@,
            "repack index does not match the new pack contents"@,
            err,
        ),
{
    let index = match check_consistent(
        format,
        &result.pack,
        &result.pack_checksum,
        &result.index_entries,
        parsed,
        "repack",
        "repack index checksum does not match the new pack",
        "repack index does not match the new pack contents",
    ) {
        Err(err) => {
            return Err(err);
        },
        Ok(index) => index,
    };
    let stem = pack_name(&result.pack_checksum);
    let mut ops: Vec<PackOp> = Vec::new();
    push_write(&mut ops, stem.as_str(), ".pack", &result.pack);
    match &reverse_index {
        Some(bytes) => {
            push_write(&mut ops, stem.as_str(), ".rev", bytes);
        },
        None => {
            push_remove(&mut ops, stem.as_str(), ".rev");
        },
    }
    push_write(&mut ops, stem.as_str(), ".idx", &result.idx);
    if promisor {
        let empty: Vec<u8> = Vec::new();
        push_write(&mut ops, stem.as_str(), ".promisor", &empty);
    }
    match &bitmap {
        Some(bytes) => {
            push_remove(&mut ops, stem.as_str(), ".bitmap");
            push_write(&mut ops, stem.as_str(), ".bitmap", bytes);
        },
        None => {},
    }
    assert(models(ops@) =~= install_ops(*result, bytes_of(reverse_index), bytes_of(bitmap), promisor));
    let present = crate::pack_file::entry_id_set(&index.entries);
    Ok((ops, present))
}

/// The pack is written before its index, and whatever is removed belongs to the
/// pack being installed.
pub proof fn law_install_writes_pack_before_index(
    result: RepackResult,
    reverse_index: Option<Seq<u8>>,
    bitmap: Option<Seq<u8>>,
    promisor: bool,
    i: int,
)
    requires
        0 <= i < install_ops(result, reverse_index, bitmap, promisor).len(),
    ensures
        ({
            let stem = pack_stem(result.pack_checksum);
            let ops = install_ops(result, reverse_index, bitmap, promisor);
            &&& ops[0] == Op::Write(stem + ".pack"@, result.pack@)
            &&& ops[2] == Op::Write(stem + ".idx"@, result.idx@)
            &&& ops[i] is Remove ==> ops[i].name() == stem + ".rev"@ || ops[i].name() == stem + ".bitmap"@
            &&& !(ops[i] is Replace)
        }),
{
}

/// The removal of a pack and its sidecars.
pub open spec fn removal_ops(stem: Seq<char>) -> Seq<Op> {
    seq![
        Op::Remove(stem + ".pack"@),
        Op::Remove(stem + ".idx"@),
        Op::Remove(stem + ".rev"@),
        Op::Remove(stem + ".mtimes"@),
        Op::Remove(stem + ".bitmap"@),
        Op::Remove(stem + ".promisor"@),
    ]
}

fn push_removal(ops: &mut Vec<PackOp>, stem: &str)
    ensures
        models(final(ops)@) == models(old(ops)@) + removal_ops(stem@),
{
    push_remove(ops, stem, ".pack");
    push_remove(ops, stem, ".idx");
    push_remove(ops, stem, ".rev");
    push_remove(ops, stem, ".mtimes");
    push_remove(ops, stem, ".bitmap");
    push_remove(ops, stem, ".promisor");
    assert(models(ops@) =~= models(old(ops)@) + removal_ops(stem@));
}

/// The removals of the packs with the given stems, in their order.
pub open spec fn all_removals(stems: Seq<Seq<char>>) -> Seq<Op>
    decreases stems.len(),
{
    if stems.len() == 0 {
        Seq::empty()
    } else {
        all_removals(stems.drop_last()) + removal_ops(stems.last())
    }
}

/// Whether pruning removes a pack: it is superseded, is not the pack just
/// written, not retained by policy, has no `.keep` file, and is no promisor pack
/// unless promisor packs are what is being consolidated.
pub open spec fn is_pruned(
    file: PackFile,
    superseded: Set<Seq<char>>,
    keep_stem: Seq<char>,
    retained: Set<Seq<char>>,
    prune_promisor: bool,
) -> bool {
    &&& superseded.contains(file.stem@)
    &&& file.stem@ != keep_stem
    &&& !retained.contains(file.stem@)
    &&& !file.has_keep
    &&& file.has_promisor ==> prune_promisor
}

/// What pruning removes: the stems of the removed packs, and the changes.
pub struct PrunePlan {
    pub removed_stems: Vec<String>,
    pub ops: Vec<PackOp>,
}

/// The stems of the packs that satisfy `pred`, in their order.
pub open spec fn stems_where(files: Seq<PackFile>, pred: spec_fn(PackFile) -> bool) -> Seq<Seq<char>> {
    files.filter(pred).map_values(|file: PackFile| file.stem@)
}

proof fn lemma_stems_where_step(files: Seq<PackFile>, pred: spec_fn(PackFile) -> bool, i: int)
    requires
        0 <= i < files.len(),
    ensures
        stems_where(files.take(i + 1), pred) == if pred(files[i]) {
            stems_where(files.take(i), pred).push(files[i].stem@)
        } else {
            stems_where(files.take(i), pred)
        },
{
    reveal(Seq::filter);
    assert(files.take(i + 1).drop_last() =~= files.take(i));
    let stem_of = |file: PackFile| file.stem@;
    let done = files.take(i).filter(pred);
    assert(done.push(files[i]).map_values(stem_of) =~= done.map_values(stem_of).push(files[i].stem@));
}

/// Plans the removal of superseded packs. `packs` are the packs as they stand
/// on disk now; `keep` is the stem of the pack just written.
pub fn prune_obsolete_pack_paths(
    packs: &[PackFile],
    superseded: &[String],
    keep: &str,
    retained_pack_stems: &[String],
    prune_promisor: bool,
) -> (plan: PrunePlan)
    ensures
        texts(plan.removed_stems@) == stems_where(
            packs@,
            |file: PackFile| is_pruned(file, text_set(superseded@), keep@, text_set(retained_pack_stems@), prune_promisor),
        ),
        models(plan.ops@) == all_removals(texts(plan.removed_stems@)),
{
    let ghost pred = |file: PackFile|
        is_pruned(file, text_set(superseded@), keep@, text_set(retained_pack_stems@), prune_promisor);
    let mut removed_stems: Vec<String> = Vec::new();
    let mut ops: Vec<PackOp> = Vec::new();
    let mut i: usize = 0;
    proof {
        reveal(Seq::filter);
        assert(stems_where(packs@.take(0), pred) =~= texts(removed_stems@));
        assert(models(ops@) =~= all_removals(texts(removed_stems@)));
    }
    while i < packs.len()
        invariant
            i <= packs@.len(),
            pred == (|file: PackFile|
                is_pruned(file, text_set(superseded@), keep@, text_set(retained_pack_stems@), prune_promisor)),
            texts(removed_stems@) == stems_where(packs@.take(i as int), pred),
            models(ops@) == all_removals(texts(removed_stems@)),
        decreases packs@.len() - i,
    {
        let file = &packs[i];
        proof {
            lemma_stems_where_step(packs@, pred, i as int);
        }
        if lists_text(superseded, file.stem.as_str()) && !text_eq(file.stem.as_str(), keep) && !lists_text(
            retained_pack_stems,
            file.stem.as_str(),
        )
            && !file.has_keep && (!file.has_promisor || prune_promisor) {
            let ghost before = texts(removed_stems@);
            push_removal(&mut ops, file.stem.as_str());
            removed_stems.push(file.stem.clone());
            proof {
                assert(texts(removed_stems@) =~= before.push(file.stem@));
                assert(before.push(file.stem@).drop_last() =~= before);
            }
        }
        i += 1;
    }
    assert(packs@.take(i as int) =~= packs@);
    PrunePlan { removed_stems, ops }
}

/// Pruning removes superseded packs only, and never the pack just written, a
/// retained pack, or a pack with a `.keep` file.
pub proof fn law_prune_spares_kept_packs(
    packs: Seq<PackFile>,
    superseded: Set<Seq<char>>,
    keep: Seq<char>,
    retained: Set<Seq<char>>,
    prune_promisor: bool,
    stem: Seq<char>,
)
    requires
        stems_where(packs, |file: PackFile| is_pruned(file, superseded, keep, retained, prune_promisor)).contains(stem),
    ensures
        superseded.contains(stem),
        stem != keep,
        !retained.contains(stem),
        exists|i: int|
            0 <= i < packs.len() && (#[trigger] packs[i]).stem@ == stem && !packs[i].has_keep && (
            packs[i].has_promisor ==> prune_promisor),
{
    let pred = |file: PackFile| is_pruned(file, superseded, keep, retained, prune_promisor);
    let kept = packs.filter(pred);
    let stems = stems_where(packs, pred);
    let k = choose|k: int| 0 <= k < stems.len() && stems[k] == stem;
    assert(kept[k].stem@ == stem);
    assert(kept.contains(kept[k]));
    crate::order::lemma_filter_contains(packs, pred, kept[k]);
    let i = choose|i: int| 0 <= i < packs.len() && packs[i] == kept[k];
    assert(packs[i].stem@ == stem);
}

/// A pack name as a multi-pack-index lists it, without `.idx`.
pub open spec fn midx_stem(name: Seq<char>) -> Seq<char> {
    if name.len() >= 4 && name.skip(name.len() - 4) == ".idx"@ {
        name.take(name.len() - 4)
    } else {
        name
    }
}

/// Whether the name that a multi-pack-index lists is that of a removed pack.
fn names_removed(name: &String, removed_stems: &[String]) -> (names: bool)
    ensures
        names == text_set(removed_stems@).contains(midx_stem(name@)),
{
    proof {
        reveal_strlit(".idx");
    }
    let len: usize = name.as_str().unicode_len();
    if len >= 4 {
        let tail = name.as_str().substring_char(len - 4, len);
        assert(tail@ =~= name@.skip(name@.len() - 4));
        if text_eq(tail, ".idx") {
            let head = name.as_str().substring_char(0, len - 4);
            assert(head@ =~= name@.take(name@.len() - 4));
            return lists_text(removed_stems, head);
        }
    }
    lists_text(removed_stems, name.as_str())
}

/// Whether a multi-pack-index names *any* pack that was removed, and has to be
/// removed with it: a reader that went through it would look for a pack that is
/// gone.
pub fn prune_stale_multi_pack_index(pack_names: &[String], removed_stems: &[String]) -> (stale: bool)
    ensures
        stale == exists|i: int|
            0 <= i < pack_names@.len() && text_set(removed_stems@).contains(
                midx_stem((#[trigger] pack_names@[i])@),
            ),
{
    let mut i: usize = 0;
    while i < pack_names.len()
        invariant
            i <= pack_names@.len(),
            forall|k: int|
                0 <= k < i ==> !text_set(removed_stems@).contains(midx_stem((#[trigger] pack_names@[k])@)),
        decreases pack_names@.len() - i,
    {
        if names_removed(&pack_names[i], removed_stems) {
            assert(text_set(removed_stems@).contains(midx_stem(pack_names@[i as int]@)));
            return true;
        }
        i += 1;
    }
    false
}

/// The loose objects that may be removed: those of the candidates that are
/// actually present in the new pack.
pub fn prune_loose_objects(candidates: &[ObjectId], present: &OidSet) -> (removed: Vec<ObjectId>)
    ensures
        removed@ == candidates@.filter(|oid: ObjectId| present@.contains(oid)),
{
    crate::pack_file::retain_in(candidates, present)
}

/// Whether pruning removes a rolled-up pack: it is not the pack just written,
/// and has no `.keep` file.
pub open spec fn is_pruned_rollup(file: PackFile, rolled_up: Set<Seq<char>>, new_stem: Seq<char>) -> bool {
    rolled_up.contains(file.stem@) && file.stem@ != new_stem && !file.has_keep
}

/// Plans the removal of the packs that a geometric repack rolled up: exactly
/// those, except the pack just written and packs that have got a `.keep` file.
pub fn prune_rolled_up_packs(packs: &[PackFile], rolled_up: &[String], new_stem: &str) -> (plan: PrunePlan)
    ensures
        texts(plan.removed_stems@) == stems_where(
            packs@,
            |file: PackFile| is_pruned_rollup(file, text_set(rolled_up@), new_stem@),
        ),
        models(plan.ops@) == all_removals(texts(plan.removed_stems@)),
{
    let ghost pred = |file: PackFile| is_pruned_rollup(file, text_set(rolled_up@), new_stem@);
    let mut removed_stems: Vec<String> = Vec::new();
    let mut ops: Vec<PackOp> = Vec::new();
    let mut i: usize = 0;
    proof {
        reveal(Seq::filter);
        assert(stems_where(packs@.take(0), pred) =~= texts(removed_stems@));
        assert(models(ops@) =~= all_removals(texts(removed_stems@)));
    }
    while i < packs.len()
        invariant
            i <= packs@.len(),
            pred == (|file: PackFile| is_pruned_rollup(file, text_set(rolled_up@), new_stem@)),
            texts(removed_stems@) == stems_where(packs@.take(i as int), pred),
            models(ops@) == all_removals(texts(removed_stems@)),
        decreases packs@.len() - i,
    {
        let file = &packs[i];
        proof {
            lemma_stems_where_step(packs@, pred, i as int);
        }
        if lists_text(rolled_up, file.stem.as_str()) && !text_eq(file.stem.as_str(), new_stem) && !file.has_keep {
            let ghost before = texts(removed_stems@);
            push_removal(&mut ops, file.stem.as_str());
            removed_stems.push(file.stem.clone());
            proof {
                assert(texts(removed_stems@) =~= before.push(file.stem@));
                assert(before.push(file.stem@).drop_last() =~= before);
            }
        }
        i += 1;
    }
    assert(packs@.take(i as int) =~= packs@);
    PrunePlan { removed_stems, ops }
}

/// What the index and the sidecars of a cruft pack parse to: the index, and the
/// pack checksums that the reverse index and the time table record.
pub struct ParsedCruft {
    pub index: Result<PackIndexData, GitError>,
    pub reverse_checksum: Result<ObjectId, GitError>,
    pub mtimes_checksum: Result<ObjectId, GitError>,
}

/// Whether every component of a cruft pack is about the same pack.
pub open spec fn is_valid_cruft(format: ObjectFormat, cruft: CruftPack, parsed: ParsedCruft) -> bool {
    &&& is_consistent(format, cruft.pack@, cruft.checksum, cruft.index_entries@, parsed.index)
    &&& stable_sort(oid_less(), cruft.oids@) == stable_sort(
        oid_less(),
        entry_ids(parsed.index->Ok_0.entries@),
    )
    &&& parsed.reverse_checksum == Ok::<ObjectId, GitError>(cruft.checksum)
    &&& parsed.mtimes_checksum == Ok::<ObjectId, GitError>(cruft.checksum)
}

/// Why a cruft pack is not valid: the first check that fails, in the order
/// pack, index, object list, reverse index, time table.
pub open spec fn cruft_fault(
    format: ObjectFormat,
    cruft: CruftPack,
    parsed: ParsedCruft,
    err: GitError,
) -> bool {
    if !is_consistent(format, cruft.pack@, cruft.checksum, cruft.index_entries@, parsed.index) {
        inconsistency(
            format,
            cruft.pack@,
            cruft.checksum,
            cruft.index_entries@,
            parsed.index,
            "cruft pack"@,
            "cruft pack index does not match pack contents"@,
            "cruft pack index does not match pack contents"@,
            err,
        )
    } else if stable_sort(oid_less(), cruft.oids@) != stable_sort(
        oid_less(),
        entry_ids(parsed.index->Ok_0.entries@),
    ) {
        err matches GitError::InvalidFormat(text) && text@ == "cruft object list does not match pack index"@
    } else {
        match (parsed.reverse_checksum, parsed.mtimes_checksum) {
            (Err(e), _) => err == e,
            (Ok(reverse), mtimes) => if reverse != cruft.checksum {
                err matches GitError::InvalidFormat(text) && text@
                    == "cruft reverse index does not match pack checksum"@
            } else {
                match mtimes {
                    Err(e) => err == e,
                    Ok(mtimes) => mtimes != cruft.checksum && (err matches GitError::InvalidFormat(text)
                        && text@ == "cruft mtimes does not match pack checksum"@),
                }
            },
        }
    }
}

fn same_oids(a: &[ObjectId], b: &[ObjectId]) -> (same: bool)
    ensures
        same == (a@ == b@),
{
    if a.len() != b.len() {
        return false;
    }
    let mut i: usize = 0;
    while i < a.len()
        invariant
            i <= a@.len() == b@.len(),
            forall|k: int| 0 <= k < i ==> a@[k] == b@[k],
        decreases a@.len() - i,
    {
        if a[i] != b[i] {
            assert(a@[i as int] != b@[i as int]);
            return false;
        }
        i += 1;
    }
    assert(a@ =~= b@);
    true
}

/// Checks every component of a cruft pack against the pack.
pub fn validate_cruft_pack(format: ObjectFormat, cruft: &CruftPack, parsed: ParsedCruft) -> (checked: Result<
    (),
    GitError,
>)
    ensures
        checked is Ok <==> is_valid_cruft(format, *cruft, parsed),
        checked matches Err(err) ==> cruft_fault(format, *cruft, parsed, err),
{
    let ParsedCruft { index, reverse_checksum, mtimes_checksum } = parsed;
    let index = match check_consistent(
        format,
        &cruft.pack,
        &cruft.checksum,
        &cruft.index_entries,
        index,
        "cruft pack",
        "cruft pack index does not match pack contents",
        "cruft pack index does not match pack contents",
    ) {
        Err(err) => {
            return Err(err);
        },
        Ok(index) => index,
    };
    let indexed = sort_oids(&entry_id_list(&index.entries));
    let declared = sort_oids(&cruft.oids);
    if !same_oids(&declared, &indexed) {
        return Err(
            GitError::InvalidFormat(String::from_str("cruft object list does not match pack index")),
        );
    }
    match reverse_checksum {
        Err(err) => {
            return Err(err);
        },
        Ok(reverse) => {
            if reverse != cruft.checksum {
                return Err(
                    GitError::InvalidFormat(
                        String::from_str("cruft reverse index does not match pack checksum"),
                    ),
                );
            }
        },
    }
    match mtimes_checksum {
        Err(err) => Err(err),
        Ok(mtimes) => {
            if mtimes != cruft.checksum {
                return Err(
                    GitError::InvalidFormat(
                        String::from_str("cruft mtimes does not match pack checksum"),
                    ),
                );
            }
            Ok(())
        },
    }
}

/// Outcome of `git repack --cruft`: the reachable pack (if any) plus the cruft
/// packs of surviving unreachable objects.
pub struct CruftRepackResult {
    /// The all-into-one reachable pack, or `None` when nothing is reachable.
    pub reachable: Option<RepackResult>,
    /// The cruft pack of unreachable objects, or `None` when there are none.
    pub cruft: Option<CruftPack>,
    /// Additional cruft packs produced by a size-limited repack.
    pub additional_cruft: Vec<CruftPack>,
    /// Objects removed by expiration, encoded before source packs are pruned.
    pub expired: Option<CruftPack>,
    /// Stems of ordinary packs superseded by the reachable pack.
    pub obsolete_packs: Vec<String>,
    /// Stems of cruft packs whose objects are now in the new cruft packs.
    pub obsolete_cruft_packs: Vec<String>,
    pub retained_pack_stems: Vec<String>,
}

impl CruftRepackResult {
    /// All cruft packs, the first of them first.
    pub open spec fn cruft_packs(self) -> Seq<CruftPack> {
        (match self.cruft {
            Some(cruft) => seq![cruft],
            None => Seq::empty(),
        }) + self.additional_cruft@
    }

    /// All cruft packs, the first of them first.
    pub fn list_cruft_packs(&self) -> (packs: Vec<&CruftPack>)
        ensures
            packs@.len() == self.cruft_packs().len(),
            forall|n: int| 0 <= n < packs@.len() ==> *(#[trigger] packs@[n]) == self.cruft_packs()[n],
    {
        let mut packs: Vec<&CruftPack> = Vec::new();
        let ghost first: int = if self.cruft is Some {
            1
        } else {
            0
        };
        match &self.cruft {
            Some(cruft) => {
                packs.push(cruft);
            },
            None => {},
        }
        let mut i: usize = 0;
        while i < self.additional_cruft.len()
            invariant
                i <= self.additional_cruft@.len(),
                first == if self.cruft is Some {
                    1int
                } else {
                    0
                },
                packs@.len() == first + i,
                forall|n: int| 0 <= n < packs@.len() ==> *(#[trigger] packs@[n]) == self.cruft_packs()[n],
            decreases self.additional_cruft@.len() - i,
        {
            packs.push(&self.additional_cruft[i]);
            i += 1;
        }
        packs
    }
}

/// What the packs of a cruft repack parse to.
pub struct ParsedCruftResult {
    /// The index of the reachable pack; not looked at where there is none.
    pub reachable_index: Result<PackIndexData, GitError>,
    /// One for each cruft pack, in order.
    pub cruft: Vec<ParsedCruft>,
    /// That of the expired pack, where there is one.
    pub expired: Option<ParsedCruft>,
}

/// Whether the reachable pack of a cruft repack, where there is one, is valid.
pub open spec fn is_valid_reachable(
    format: ObjectFormat,
    result: CruftRepackResult,
    parsed: ParsedCruftResult,
) -> bool {
    result.reachable matches Some(reachable) ==> is_consistent(
        format,
        reachable.pack@,
        reachable.pack_checksum,
        reachable.index_entries@,
        parsed.reachable_index,
    )
}

/// Whether the first `n` cruft packs of a cruft repack are valid.
pub open spec fn are_valid_cruft(
    format: ObjectFormat,
    result: CruftRepackResult,
    parsed: ParsedCruftResult,
    n: int,
) -> bool {
    forall|i: int|
        0 <= i < n ==> is_valid_cruft(format, #[trigger] result.cruft_packs()[i], parsed.cruft@[i])
}

/// Whether every output of a cruft repack is valid.
pub open spec fn is_valid_cruft_result(
    format: ObjectFormat,
    result: CruftRepackResult,
    parsed: ParsedCruftResult,
) -> bool {
    &&& is_valid_reachable(format, result, parsed)
    &&& are_valid_cruft(format, result, parsed, result.cruft_packs().len() as int)
    &&& result.expired matches Some(expired) ==> is_valid_cruft(format, expired, parsed.expired->Some_0)
}

/// Why a cruft repack is not valid: the fault of its first invalid output.
pub open spec fn cruft_result_fault(
    format: ObjectFormat,
    result: CruftRepackResult,
    parsed: ParsedCruftResult,
    err: GitError,
) -> bool {
    ||| result.reachable matches Some(reachable) && !is_consistent(
        format,
        reachable.pack@,
        reachable.pack_checksum,
        reachable.index_entries@,
        parsed.reachable_index,
    ) && inconsistency(
        format,
        reachable.pack@,
        reachable.pack_checksum,
        reachable.index_entries@,
        parsed.reachable_index,
        "reachable repack"@,
        "reachable repack index does not match pack contents"@,
        "reachable repack index does not match pack contents"@,
        err,
    )
    ||| is_valid_reachable(format, result, parsed) && exists|i: int|
        0 <= i < result.cruft_packs().len() && !is_valid_cruft(
            format,
            #[trigger] result.cruft_packs()[i],
            parsed.cruft@[i],
        ) && cruft_fault(format, result.cruft_packs()[i], parsed.cruft@[i], err) && are_valid_cruft(
            format,
            result,
            parsed,
            i,
        )
    ||| is_valid_reachable(format, result, parsed) && are_valid_cruft(
        format,
        result,
        parsed,
        result.cruft_packs().len() as int,
    ) && (result.expired matches Some(expired) && !is_valid_cruft(format, expired, parsed.expired->Some_0)
        && cruft_fault(format, expired, parsed.expired->Some_0, err))
}

/// Checks every output of a cruft repack, so that a fault in any of them leaves
/// both the source and any destination untouched.
pub fn validate_cruft_repack_result(
    format: ObjectFormat,
    result: &CruftRepackResult,
    parsed: ParsedCruftResult,
) -> (checked: Result<(), GitError>)
    requires
        parsed.cruft@.len() == result.cruft_packs().len(),
        result.expired is Some ==> parsed.expired is Some,
    ensures
        checked is Ok <==> is_valid_cruft_result(format, *result, parsed),
        checked matches Err(err) ==> cruft_result_fault(format, *result, parsed, err),
{
    let ghost all = parsed;
    let ParsedCruftResult { reachable_index, cruft, expired } = parsed;
    match &result.reachable {
        None => {},
        Some(reachable) => {
            match check_consistent(
                format,
                &reachable.pack,
                &reachable.pack_checksum,
                &reachable.index_entries,
                reachable_index,
                "reachable repack",
                "reachable repack index does not match pack contents",
                "reachable repack index does not match pack contents",
            ) {
                Err(err) => {
                    return Err(err);
                },
                Ok(_) => {},
            }
        },
    }
    let ghost parsed_cruft = cruft@;
    let mut left = cruft;
    let mut done: usize = 0;
    // Taken from the back, so that each is moved out once.
    let mut reversed: Vec<ParsedCruft> = Vec::new();
    while left.len() > 0
        invariant
            left@.len() + reversed@.len() == parsed_cruft.len(),
            left@ == parsed_cruft.take(left@.len() as int),
            forall|k: int|
                0 <= k < reversed@.len() ==> reversed@[k] == parsed_cruft[parsed_cruft.len() - 1 - k],
        decreases left@.len(),
    {
        let ghost n = left@.len();
        match left.pop() {
            Some(one) => {
                assert(one == parsed_cruft[n - 1]);
                reversed.push(one);
                assert(left@ =~= parsed_cruft.take(n - 1));
            },
            None => {},
        }
    }
    let packs = result.list_cruft_packs();
    while done < packs.len()
        invariant
            done <= result.cruft_packs().len() == parsed_cruft.len(),
            forall|n: int| 0 <= n < packs@.len() ==> *(#[trigger] packs@[n]) == result.cruft_packs()[n],
            packs@.len() == result.cruft_packs().len(),
            parsed_cruft == all.cruft@,
            reversed@.len() == parsed_cruft.len() - done,
            result.reachable matches Some(reachable) ==> is_consistent(
                format,
                reachable.pack@,
                reachable.pack_checksum,
                reachable.index_entries@,
                all.reachable_index,
            ),
            forall|k: int|
                0 <= k < reversed@.len() ==> reversed@[k] == parsed_cruft[parsed_cruft.len() - 1 - k],
            forall|k: int|
                0 <= k < done ==> is_valid_cruft(format, #[trigger] result.cruft_packs()[k], parsed_cruft[k]),
            all == parsed,
        decreases result.cruft_packs().len() - done,
    {
        match reversed.pop() {
            Some(one) => {
                assert(one == parsed_cruft[done as int]);
                match validate_cruft_pack(format, packs[done], one) {
                    Err(err) => {
                        assert(!is_valid_cruft(format, result.cruft_packs()[done as int], all.cruft@[done as int]));
                        return Err(err);
                    },
                    Ok(_) => {},
                }
            },
            None => {
                assert(false);
            },
        }
        done += 1;
    }
    match &result.expired {
        None => {},
        Some(pack) => match expired {
            None => {
                assert(false);
            },
            Some(one) => match validate_cruft_pack(format, pack, one) {
                Err(err) => {
                    return Err(err);
                },
                Ok(_) => {},
            },
        },
    }
    Ok(())
}

/// The files of a cruft pack, in the order in which they are written. The time
/// table is replaced: a pack with the same bytes, and so the same name, may
/// have fresher times.
pub open spec fn cruft_ops(stem: Seq<char>, cruft: CruftPack) -> Seq<Op> {
    seq![
        Op::Write(stem + ".pack"@, cruft.pack@),
        Op::Write(stem + ".rev"@, cruft.rev@),
        Op::Replace(stem + ".mtimes"@, cruft.mtimes@),
        Op::Write(stem + ".idx"@, cruft.idx@),
    ]
}

/// Plans the files of a cruft pack under a stem.
fn push_cruft(ops: &mut Vec<PackOp>, stem: &str, cruft: &CruftPack)
    ensures
        models(final(ops)@) == models(old(ops)@) + cruft_ops(stem@, *cruft),
{
    push_write(ops, stem, ".pack", &cruft.pack);
    push_write(ops, stem, ".rev", &cruft.rev);
    push_replace(ops, stem, ".mtimes", &cruft.mtimes);
    push_write(ops, stem, ".idx", &cruft.idx);
    assert(models(ops@) =~= models(old(ops)@) + cruft_ops(stem@, *cruft));
}

/// Plans the installation of a valid cruft pack under a pack-file prefix: its
/// files are named by `base` and the checksum.
pub fn plan_cruft_files_at_prefix(cruft: &CruftPack, base: &str) -> (ops: Vec<PackOp>)
    ensures
        models(ops@) == cruft_ops(base@ + "-"@ + hex(cruft.checksum.raw()), *cruft),
{
    let stem = concat3(base, "-", cruft.checksum.to_hex().as_str());
    let mut ops: Vec<PackOp> = Vec::new();
    push_cruft(&mut ops, stem.as_str(), cruft);
    assert(models(ops@) =~= cruft_ops(stem@, *cruft));
    ops
}

/// The files of the cruft packs of a repack, in their order.
pub open spec fn all_cruft_ops(packs: Seq<CruftPack>) -> Seq<Op>
    decreases packs.len(),
{
    if packs.len() == 0 {
        Seq::empty()
    } else {
        all_cruft_ops(packs.drop_last()) + cruft_ops(pack_stem(packs.last().checksum), packs.last())
    }
}

/// The files that a cruft repack writes: those of the reachable pack first.
pub open spec fn cruft_install_ops(result: CruftRepackResult, reverse_index: Seq<u8>) -> Seq<Op> {
    (match result.reachable {
        Some(reachable) => {
            let stem = pack_stem(reachable.pack_checksum);
            seq![
                Op::Write(stem + ".pack"@, reachable.pack@),
                Op::Write(stem + ".rev"@, reverse_index),
                Op::Write(stem + ".idx"@, reachable.idx@),
            ]
        },
        None => Seq::empty(),
    }) + all_cruft_ops(result.cruft_packs())
}

/// Plans the files that a validated cruft repack writes. `reverse_index` is
/// that of the reachable pack.
pub fn plan_cruft_files(result: &CruftRepackResult, reverse_index: &[u8]) -> (ops: Vec<PackOp>)
    ensures
        models(ops@) == cruft_install_ops(*result, reverse_index@),
{
    let mut ops: Vec<PackOp> = Vec::new();
    match &result.reachable {
        Some(reachable) => {
            let stem = pack_name(&reachable.pack_checksum);
            push_write(&mut ops, stem.as_str(), ".pack", &reachable.pack);
            push_write(&mut ops, stem.as_str(), ".rev", reverse_index);
            push_write(&mut ops, stem.as_str(), ".idx", &reachable.idx);
        },
        None => {},
    }
    let ghost base = models(ops@);
    let mut i: usize = 0;
    assert(base + all_cruft_ops(result.cruft_packs().take(0)) =~= base);
    let packs = result.list_cruft_packs();
    while i < packs.len()
        invariant
            i <= result.cruft_packs().len(),
            forall|n: int| 0 <= n < packs@.len() ==> *(#[trigger] packs@[n]) == result.cruft_packs()[n],
            packs@.len() == result.cruft_packs().len(),
            models(ops@) == base + all_cruft_ops(result.cruft_packs().take(i as int)),
        decreases result.cruft_packs().len() - i,
    {
        assert(result.cruft_packs().take(i + 1).drop_last() =~= result.cruft_packs().take(i as int));
        let stem = pack_name(&packs[i].checksum);
        push_cruft(&mut ops, stem.as_str(), packs[i]);
        assert(models(ops@) =~= base + all_cruft_ops(result.cruft_packs().take(i + 1)));
        i += 1;
    }
    assert(result.cruft_packs().take(i as int) =~= result.cruft_packs());
    assert(models(ops@) =~= cruft_install_ops(*result, reverse_index@));
    ops
}

/// The stems of the packs that a cruft repack writes.
pub open spec fn new_stems(result: CruftRepackResult) -> Set<Seq<char>> {
    result.cruft_packs().map_values(|cruft: CruftPack| pack_stem(cruft.checksum)).to_set().union(
        match result.reachable {
            Some(reachable) => set![pack_stem(reachable.pack_checksum)],
            None => Set::empty(),
        },
    )
}

fn list_new_stems(result: &CruftRepackResult) -> (stems: Vec<String>)
    ensures
        text_set(stems@) == new_stems(*result),
{
    let ghost cruft_stems = result.cruft_packs().map_values(|cruft: CruftPack| pack_stem(cruft.checksum));
    let mut stems: Vec<String> = Vec::new();
    let mut i: usize = 0;
    let packs = result.list_cruft_packs();
    while i < packs.len()
        invariant
            i <= result.cruft_packs().len(),
            forall|n: int| 0 <= n < packs@.len() ==> *(#[trigger] packs@[n]) == result.cruft_packs()[n],
            packs@.len() == result.cruft_packs().len(),
            cruft_stems == result.cruft_packs().map_values(|cruft: CruftPack| pack_stem(cruft.checksum)),
            texts(stems@) == cruft_stems.take(i as int),
        decreases result.cruft_packs().len() - i,
    {
        let ghost before = texts(stems@);
        stems.push(pack_name(&packs[i].checksum));
        proof {
            assert(texts(stems@) =~= before.push(cruft_stems[i as int]));
            assert(cruft_stems.take(i + 1) =~= cruft_stems.take(i as int).push(cruft_stems[i as int]));
        }
        i += 1;
    }
    assert(cruft_stems.take(i as int) =~= cruft_stems);
    let ghost before = texts(stems@);
    match &result.reachable {
        Some(reachable) => {
            stems.push(pack_name(&reachable.pack_checksum));
            proof {
                let stem = pack_stem(reachable.pack_checksum);
                assert(texts(stems@) =~= before.push(stem));
                before.lemma_push_to_set_commute(stem);
            }
        },
        None => {},
    }
    proof {
        assert(stems@.map_values(|path: String| path@) =~= texts(stems@));
        assert(text_set(stems@) =~= new_stems(*result));
    }
    stems
}

/// The packs that a cruft repack supersedes, cruft packs among them.
pub open spec fn superseded_stems_of(result: CruftRepackResult) -> Set<Seq<char>> {
    text_set(result.obsolete_packs@).union(text_set(result.obsolete_cruft_packs@))
}

/// Whether a cruft repack removes a pack: it supersedes it, did not just write
/// it, policy does not retain it, and it is neither a kept nor a promisor pack.
pub open spec fn is_pruned_by_cruft(
    file: PackFile,
    superseded: Set<Seq<char>>,
    written: Set<Seq<char>>,
    retained: Set<Seq<char>>,
) -> bool {
    &&& superseded.contains(file.stem@)
    &&& !written.contains(file.stem@)
    &&& !retained.contains(file.stem@)
    &&& !file.has_keep
    &&& !file.has_promisor
}

/// Plans the removal of the packs that a cruft repack superseded, and tells
/// which objects the new packs serve. `packs` are the packs as they stand on disk
/// now.
pub fn plan_cruft_prune(result: &CruftRepackResult, packs: &[PackFile]) -> (plan: (PrunePlan, OidSet))
    ensures
        texts(plan.0.removed_stems@) == stems_where(
            packs@,
            |file: PackFile|
                is_pruned_by_cruft(
                    file,
                    superseded_stems_of(*result),
                    new_stems(*result),
                    text_set(result.retained_pack_stems@),
                ),
        ),
        models(plan.0.ops@) == all_removals(texts(plan.0.removed_stems@)),
        plan.1@ == cruft_present(*result),
{
    let written = list_new_stems(result);
    let ghost pred = |file: PackFile|
        is_pruned_by_cruft(
                    file,
                    superseded_stems_of(*result),
                    new_stems(*result),
                    text_set(result.retained_pack_stems@),
                );
    let mut removed_stems: Vec<String> = Vec::new();
    let mut ops: Vec<PackOp> = Vec::new();
    let mut i: usize = 0;
    proof {
        reveal(Seq::filter);
        assert(stems_where(packs@.take(0), pred) =~= texts(removed_stems@));
        assert(models(ops@) =~= all_removals(texts(removed_stems@)));
    }
    while i < packs.len()
        invariant
            i <= packs@.len(),
            text_set(written@) == new_stems(*result),
            pred == (|file: PackFile|
                is_pruned_by_cruft(
                    file,
                    superseded_stems_of(*result),
                    new_stems(*result),
                    text_set(result.retained_pack_stems@),
                )),
            texts(removed_stems@) == stems_where(packs@.take(i as int), pred),
            models(ops@) == all_removals(texts(removed_stems@)),
        decreases packs@.len() - i,
    {
        let file = &packs[i];
        proof {
            lemma_stems_where_step(packs@, pred, i as int);
        }
        let superseded = lists_text(&result.obsolete_packs, file.stem.as_str()) || lists_text(
            &result.obsolete_cruft_packs,
            file.stem.as_str(),
        );
        if superseded && !lists_text(&written, file.stem.as_str()) && !lists_text(
            &result.retained_pack_stems,
            file.stem.as_str(),
        ) && !file.has_keep && !file.has_promisor {
            let ghost before = texts(removed_stems@);
            push_removal(&mut ops, file.stem.as_str());
            removed_stems.push(file.stem.clone());
            proof {
                assert(texts(removed_stems@) =~= before.push(file.stem@));
                assert(before.push(file.stem@).drop_last() =~= before);
            }
        }
        i += 1;
    }
    assert(packs@.take(i as int) =~= packs@);
    let mut present = match &result.reachable {
        Some(reachable) => crate::pack_file::entry_id_set(&reachable.index_entries),
        None => OidSet::new(),
    };
    let mut k: usize = 0;
    assert(present@ =~= cruft_present_of(result.reachable, result.cruft_packs().take(0)));
    let packs = result.list_cruft_packs();
    while k < packs.len()
        invariant
            k <= result.cruft_packs().len(),
            forall|n: int| 0 <= n < packs@.len() ==> *(#[trigger] packs@[n]) == result.cruft_packs()[n],
            packs@.len() == result.cruft_packs().len(),
            present@ == cruft_present_of(result.reachable, result.cruft_packs().take(k as int)),
        decreases result.cruft_packs().len() - k,
    {
        assert(result.cruft_packs().take(k + 1).drop_last() =~= result.cruft_packs().take(k as int));
        let oids = &packs[k].oids;
        let ghost before = present@;
        let mut m: usize = 0;
        while m < oids.len()
            invariant
                m <= oids@.len(),
                present@ == before.union(oids@.take(m as int).to_set()),
            decreases oids@.len() - m,
        {
            present.insert(oids[m]);
            proof {
                assert(oids@.take(m + 1) =~= oids@.take(m as int).push(oids@[m as int]));
                oids@.take(m as int).lemma_push_to_set_commute(oids@[m as int]);
                assert(present@ =~= before.union(oids@.take(m + 1).to_set()));
            }
            m += 1;
        }
        assert(oids@.take(m as int) =~= oids@);
        k += 1;
    }
    assert(result.cruft_packs().take(k as int) =~= result.cruft_packs());
    (PrunePlan { removed_stems, ops }, present)
}

/// The objects that the new packs of a cruft repack serve.
pub open spec fn cruft_present(result: CruftRepackResult) -> Set<ObjectId> {
    cruft_present_of(result.reachable, result.cruft_packs())
}

pub open spec fn cruft_present_of(reachable: Option<RepackResult>, packs: Seq<CruftPack>) -> Set<ObjectId>
    decreases packs.len(),
{
    if packs.len() == 0 {
        match reachable {
            Some(reachable) => entry_ids(reachable.index_entries@).to_set(),
            None => Set::empty(),
        }
    } else {
        cruft_present_of(reachable, packs.drop_last()).union(packs.last().oids@.to_set())
    }
}

/// A cruft repack removes packs that it supersedes only, and never a pack that
/// it wrote, a retained pack, or a pack that has a `.keep` or `.promisor` file.
pub proof fn law_cruft_prune_spares(
    packs: Seq<PackFile>,
    superseded: Set<Seq<char>>,
    written: Set<Seq<char>>,
    retained: Set<Seq<char>>,
    stem: Seq<char>,
)
    requires
        stems_where(packs, |file: PackFile| is_pruned_by_cruft(file, superseded, written, retained)).contains(stem),
    ensures
        superseded.contains(stem),
        !written.contains(stem),
        !retained.contains(stem),
        exists|i: int|
            0 <= i < packs.len() && (#[trigger] packs[i]).stem@ == stem && !packs[i].has_keep
                && !packs[i].has_promisor,
{
    let pred = |file: PackFile| is_pruned_by_cruft(file, superseded, written, retained);
    let kept = packs.filter(pred);
    let stems = stems_where(packs, pred);
    let k = choose|k: int| 0 <= k < stems.len() && stems[k] == stem;
    assert(kept[k].stem@ == stem);
    assert(kept.contains(kept[k]));
    crate::order::lemma_filter_contains(packs, pred, kept[k]);
    let i = choose|i: int| 0 <= i < packs.len() && packs[i] == kept[k];
    assert(packs[i].stem@ == stem);
}

} // verus!
