//! What installing and pruning packs does to the files of the pack directory.

use crate::cruft_split::CruftPack;
use crate::error::GitError;
use crate::install_plan::all_cruft_ops;
use crate::install_plan::all_removals;
use crate::install_plan::cruft_install_ops;
use crate::install_plan::cruft_ops;
use crate::install_plan::cruft_present;
use crate::install_plan::cruft_present_of;
use crate::install_plan::install_ops;
use crate::install_plan::is_consistent;
use crate::install_plan::is_pruned;
use crate::install_plan::is_pruned_by_cruft;
use crate::install_plan::is_pruned_rollup;
use crate::install_plan::is_valid_cruft;
use crate::install_plan::removal_ops;
use crate::install_plan::stems_where;
use crate::install_plan::CruftRepackResult;
use crate::install_plan::Op;
use crate::install_plan::ParsedCruft;
use crate::object::digest;
use crate::object_id::ObjectFormat;
use crate::object_id::ObjectId;
use crate::order::is_order;
use crate::order::lemma_filter_contains;
use crate::order::stable_sort;
use crate::pack_file::entry_order;
use crate::pack_file::PackFile;
use crate::pack_file::PackIndexData;
use crate::pack_file::PackIndexEntry;
use crate::repack::prune_outcome;
use crate::repack::RepackResult;
use crate::text::hex;
use vstd::prelude::*;

verus! {

/// Installing a pack writes, under the name that its checksum gives, the pack
/// first, then its reverse index, or where there is none removes an old one,
/// then its index, then the mark of a promisor pack, and last its bitmap in the
/// place of an old one.
pub proof fn law_install_writes_every_file(
    result: RepackResult,
    reverse_index: Option<Seq<u8>>,
    bitmap: Option<Seq<u8>>,
    promisor: bool,
)
    ensures
        ({
            let stem = "pack-"@ + hex(result.pack_checksum.raw());
            let ops = install_ops(result, reverse_index, bitmap, promisor);
            let marks: int = if promisor {
                1
            } else {
                0
            };
            &&& ops.len() == 3 + marks + if bitmap is Some {
                2int
            } else {
                0
            }
            &&& ops[0] == Op::Write(stem + ".pack"@, result.pack@)
            &&& reverse_index matches Some(bytes) ==> ops[1] == Op::Write(stem + ".rev"@, bytes)
            &&& reverse_index is None ==> ops[1] == Op::Remove(stem + ".rev"@)
            &&& ops[2] == Op::Write(stem + ".idx"@, result.idx@)
            &&& promisor ==> ops[3] == Op::Write(stem + ".promisor"@, Seq::empty())
            &&& bitmap matches Some(bytes) ==> ops[3 + marks] == Op::Remove(stem + ".bitmap"@) && ops[4 + marks]
                == Op::Write(stem + ".bitmap"@, bytes)
        }),
{
}

/// Removing packs removes every file of each, and nothing else.
pub proof fn law_removal_takes_every_file(stems: Seq<Seq<char>>, op: Op)
    ensures
        all_removals(stems).contains(op) <==> exists|k: int|
            0 <= k < stems.len() && {
                ||| op == Op::Remove(#[trigger] stems[k] + ".pack"@)
                ||| op == Op::Remove(stems[k] + ".idx"@)
                ||| op == Op::Remove(stems[k] + ".rev"@)
                ||| op == Op::Remove(stems[k] + ".mtimes"@)
                ||| op == Op::Remove(stems[k] + ".bitmap"@)
                ||| op == Op::Remove(stems[k] + ".promisor"@)
            },
    decreases stems.len(),
{
    if stems.len() > 0 {
        let rest = stems.drop_last();
        let last = stems.len() - 1;
        let stem = stems.last();
        law_removal_takes_every_file(rest, op);
        assert(stems[last] == stem);
        lemma_concat_contains(all_removals(rest), removal_ops(stem), op);
        let own = removal_ops(stem);
        assert(own.contains(op) <==> {
            ||| op == Op::Remove(stem + ".pack"@)
            ||| op == Op::Remove(stem + ".idx"@)
            ||| op == Op::Remove(stem + ".rev"@)
            ||| op == Op::Remove(stem + ".mtimes"@)
            ||| op == Op::Remove(stem + ".bitmap"@)
            ||| op == Op::Remove(stem + ".promisor"@)
        }) by {
            assert(own[0] == Op::Remove(stem + ".pack"@));
            assert(own[1] == Op::Remove(stem + ".idx"@));
            assert(own[2] == Op::Remove(stem + ".rev"@));
            assert(own[3] == Op::Remove(stem + ".mtimes"@));
            assert(own[4] == Op::Remove(stem + ".bitmap"@));
            assert(own[5] == Op::Remove(stem + ".promisor"@));
            assert(own.len() == 6);
        }
        if all_removals(rest).contains(op) {
            let k = choose|k: int|
                0 <= k < rest.len() && {
                    ||| op == Op::Remove(#[trigger] rest[k] + ".pack"@)
                    ||| op == Op::Remove(rest[k] + ".idx"@)
                    ||| op == Op::Remove(rest[k] + ".rev"@)
                    ||| op == Op::Remove(rest[k] + ".mtimes"@)
                    ||| op == Op::Remove(rest[k] + ".bitmap"@)
                    ||| op == Op::Remove(rest[k] + ".promisor"@)
                };
            assert(stems[k] == rest[k]);
        }
        if exists|k: int|
            0 <= k < stems.len() && {
                ||| op == Op::Remove(#[trigger] stems[k] + ".pack"@)
                ||| op == Op::Remove(stems[k] + ".idx"@)
                ||| op == Op::Remove(stems[k] + ".rev"@)
                ||| op == Op::Remove(stems[k] + ".mtimes"@)
                ||| op == Op::Remove(stems[k] + ".bitmap"@)
                ||| op == Op::Remove(stems[k] + ".promisor"@)
            } {
            let k = choose|k: int|
                0 <= k < stems.len() && {
                    ||| op == Op::Remove(#[trigger] stems[k] + ".pack"@)
                    ||| op == Op::Remove(stems[k] + ".idx"@)
                    ||| op == Op::Remove(stems[k] + ".rev"@)
                    ||| op == Op::Remove(stems[k] + ".mtimes"@)
                    ||| op == Op::Remove(stems[k] + ".bitmap"@)
                    ||| op == Op::Remove(stems[k] + ".promisor"@)
                };
            if k < last {
                assert(rest[k] == stems[k]);
            }
        }
    }
}

proof fn lemma_concat_contains(a: Seq<Op>, b: Seq<Op>, op: Op)
    ensures
        (a + b).contains(op) <==> a.contains(op) || b.contains(op),
{
    let all = a + b;
    if a.contains(op) {
        let i = choose|i: int| 0 <= i < a.len() && a[i] == op;
        assert(all[i] == op);
    }
    if b.contains(op) {
        let i = choose|i: int| 0 <= i < b.len() && b[i] == op;
        assert(all[a.len() + i] == op);
    }
    if all.contains(op) {
        let i = choose|i: int| 0 <= i < all.len() && all[i] == op;
        if i < a.len() {
            assert(a[i] == op);
        } else {
            assert(b[i - a.len()] == op);
        }
    }
}

proof fn lemma_stem_taken(packs: Seq<PackFile>, pred: spec_fn(PackFile) -> bool, file: PackFile)
    requires
        packs.contains(file),
        pred(file),
    ensures
        stems_where(packs, pred).contains(file.stem@),
{
    lemma_filter_contains(packs, pred, file);
    let kept = packs.filter(pred);
    let k = choose|k: int| 0 <= k < kept.len() && kept[k] == file;
    assert(stems_where(packs, pred)[k] == file.stem@);
}

/// Pruning after a repack removes every superseded pack but for the new one,
/// packs kept by a mark or by name, and promisor packs unless they are to go.
pub proof fn law_prune_takes_superseded_packs(
    packs: Seq<PackFile>,
    superseded: Set<Seq<char>>,
    keep: Seq<char>,
    retained: Set<Seq<char>>,
    prune_promisor: bool,
    file: PackFile,
)
    requires
        packs.contains(file),
        superseded.contains(file.stem@),
        file.stem@ != keep,
        !retained.contains(file.stem@),
        !file.has_keep,
        !file.has_promisor || prune_promisor,
    ensures
        stems_where(packs, |file: PackFile| is_pruned(file, superseded, keep, retained, prune_promisor)).contains(
            file.stem@,
        ),
{
    lemma_stem_taken(packs, |file: PackFile| is_pruned(file, superseded, keep, retained, prune_promisor), file);
}

/// Pruning after a geometric repack removes every pack that was rolled up but
/// for the new one and packs with a keep mark, and no other.
pub proof fn law_prune_takes_rolled_up_packs(
    packs: Seq<PackFile>,
    rolled_up: Set<Seq<char>>,
    new_stem: Seq<char>,
    file: PackFile,
)
    requires
        packs.contains(file),
        forall|i: int| 0 <= i < packs.len() && (#[trigger] packs[i]).stem@ == file.stem@ ==> packs[i] == file,
    ensures
        stems_where(packs, |file: PackFile| is_pruned_rollup(file, rolled_up, new_stem)).contains(file.stem@)
            <==> rolled_up.contains(file.stem@) && file.stem@ != new_stem && !file.has_keep,
{
    let pred = |file: PackFile| is_pruned_rollup(file, rolled_up, new_stem);
    if pred(file) {
        lemma_stem_taken(packs, pred, file);
    }
    let stems = stems_where(packs, pred);
    if stems.contains(file.stem@) {
        let kept = packs.filter(pred);
        let k = choose|k: int| 0 <= k < stems.len() && stems[k] == file.stem@;
        assert(kept.contains(kept[k]));
        lemma_filter_contains(packs, pred, kept[k]);
        let i = choose|i: int| 0 <= i < packs.len() && packs[i] == kept[k];
        assert(packs[i] == file);
    }
}

/// Pruning after a cruft repack removes every superseded pack but for new ones,
/// packs kept by a mark or by name, and promisor packs.
pub proof fn law_cruft_prune_takes_superseded_packs(
    packs: Seq<PackFile>,
    superseded: Set<Seq<char>>,
    written: Set<Seq<char>>,
    retained: Set<Seq<char>>,
    file: PackFile,
)
    requires
        packs.contains(file),
        superseded.contains(file.stem@),
        !written.contains(file.stem@),
        !retained.contains(file.stem@),
        !file.has_keep,
        !file.has_promisor,
    ensures
        stems_where(packs, |file: PackFile| is_pruned_by_cruft(file, superseded, written, retained)).contains(
            file.stem@,
        ),
{
    lemma_stem_taken(packs, |file: PackFile| is_pruned_by_cruft(file, superseded, written, retained), file);
}

proof fn lemma_cruft_ops(packs: Seq<CruftPack>, k: int)
    requires
        0 <= k < packs.len(),
    ensures
        ({
            let stem = "pack-"@ + hex(packs[k].checksum.raw());
            let ops = all_cruft_ops(packs);
            &&& ops.len() == 4 * packs.len()
            &&& ops[4 * k] == Op::Write(stem + ".pack"@, packs[k].pack@)
            &&& ops[4 * k + 1] == Op::Write(stem + ".rev"@, packs[k].rev@)
            &&& ops[4 * k + 2] == Op::Replace(stem + ".mtimes"@, packs[k].mtimes@)
            &&& ops[4 * k + 3] == Op::Write(stem + ".idx"@, packs[k].idx@)
        }),
    decreases packs.len(),
{
    let rest = packs.drop_last();
    if rest.len() > 0 {
        lemma_cruft_ops(rest, if k < rest.len() {
            k
        } else {
            0
        });
    } else {
        assert(all_cruft_ops(rest) =~= Seq::empty());
    }
    let own = cruft_ops(crate::pack_file::pack_stem(packs.last().checksum), packs.last());
    assert(all_cruft_ops(packs) =~= all_cruft_ops(rest) + own);
    assert(own.len() == 4);
    if k < rest.len() {
        assert(rest[k] == packs[k]);
    } else {
        assert(packs[k] == packs.last());
    }
}

/// Installing a cruft repack writes the pack of the reachable objects, if there
/// is one, with its indexes, and then the files of each cruft pack, the times of
/// its objects among them; the index of each pack comes last.
pub proof fn law_cruft_install_writes_every_file(result: CruftRepackResult, reverse_index: Seq<u8>)
    ensures
        ({
            let ops = cruft_install_ops(result, reverse_index);
            let packs = result.cruft_packs();
            let first: int = if result.reachable is Some {
                3
            } else {
                0
            };
            &&& ops.len() == first + 4 * packs.len()
            &&& result.reachable matches Some(reachable) ==> {
                let stem = "pack-"@ + hex(reachable.pack_checksum.raw());
                &&& ops[0] == Op::Write(stem + ".pack"@, reachable.pack@)
                &&& ops[1] == Op::Write(stem + ".rev"@, reverse_index)
                &&& ops[2] == Op::Write(stem + ".idx"@, reachable.idx@)
            }
            &&& forall|k: int|
                #![trigger packs[k]]
                0 <= k < packs.len() ==> {
                    let stem = "pack-"@ + hex(packs[k].checksum.raw());
                    &&& ops[first + 4 * k] == Op::Write(stem + ".pack"@, packs[k].pack@)
                    &&& ops[first + 4 * k + 1] == Op::Write(stem + ".rev"@, packs[k].rev@)
                    &&& ops[first + 4 * k + 2] == Op::Replace(stem + ".mtimes"@, packs[k].mtimes@)
                    &&& ops[first + 4 * k + 3] == Op::Write(stem + ".idx"@, packs[k].idx@)
                }
        }),
{
    let ops = cruft_install_ops(result, reverse_index);
    let packs = result.cruft_packs();
    let behind = all_cruft_ops(packs);
    let first: int = if result.reachable is Some {
        3
    } else {
        0
    };
    if packs.len() == 0 {
        assert(behind =~= Seq::empty());
    } else {
        lemma_cruft_ops(packs, 0);
    }
    assert forall|i: int| 0 <= i < behind.len() implies ops[first + i] == #[trigger] behind[i] by {}
    assert forall|k: int| #![trigger packs[k]] 0 <= k < packs.len() implies {
        let stem = "pack-"@ + hex(packs[k].checksum.raw());
        &&& ops[first + 4 * k] == Op::Write(stem + ".pack"@, packs[k].pack@)
        &&& ops[first + 4 * k + 1] == Op::Write(stem + ".rev"@, packs[k].rev@)
        &&& ops[first + 4 * k + 2] == Op::Replace(stem + ".mtimes"@, packs[k].mtimes@)
        &&& ops[first + 4 * k + 3] == Op::Write(stem + ".idx"@, packs[k].idx@)
    } by {
        lemma_cruft_ops(packs, k);
        assert(ops[first + 4 * k] == behind[4 * k]);
        assert(ops[first + (4 * k + 1)] == behind[4 * k + 1]);
        assert(ops[first + (4 * k + 2)] == behind[4 * k + 2]);
        assert(ops[first + (4 * k + 3)] == behind[4 * k + 3]);
    }
}

proof fn lemma_cruft_present(reachable: Option<RepackResult>, packs: Seq<CruftPack>, oid: ObjectId)
    ensures
        cruft_present_of(reachable, packs).contains(oid) <==> (reachable matches Some(result) && exists|i: int|
            0 <= i < result.index_entries@.len() && (#[trigger] result.index_entries@[i]).oid == oid) || exists|k: int|
            0 <= k < packs.len() && (#[trigger] packs[k]).oids@.contains(oid),
    decreases packs.len(),
{
    if packs.len() == 0 {
        if let Some(result) = reachable {
            let ids = crate::pack_file::entry_ids(result.index_entries@);
            if ids.contains(oid) {
                let i = choose|i: int| 0 <= i < ids.len() && ids[i] == oid;
                assert(result.index_entries@[i].oid == oid);
            }
            if exists|i: int| 0 <= i < result.index_entries@.len() && (#[trigger] result.index_entries@[i]).oid == oid {
                let i = choose|i: int|
                    0 <= i < result.index_entries@.len() && (#[trigger] result.index_entries@[i]).oid == oid;
                assert(ids[i] == oid);
            }
        }
    } else {
        let rest = packs.drop_last();
        let last = packs.len() - 1;
        lemma_cruft_present(reachable, rest, oid);
        assert(packs[last] == packs.last());
        if exists|k: int| 0 <= k < rest.len() && (#[trigger] rest[k]).oids@.contains(oid) {
            let k = choose|k: int| 0 <= k < rest.len() && (#[trigger] rest[k]).oids@.contains(oid);
            assert(packs[k] == rest[k]);
        }
        if exists|k: int| 0 <= k < packs.len() && (#[trigger] packs[k]).oids@.contains(oid) {
            let k = choose|k: int| 0 <= k < packs.len() && (#[trigger] packs[k]).oids@.contains(oid);
            if k < last {
                assert(rest[k] == packs[k]);
            }
        }
    }
}

/// The loose objects that a cruft repack makes superfluous are those that its
/// packs hold.
pub proof fn law_cruft_packs_hold_what_is_pruned(result: CruftRepackResult, oid: ObjectId)
    ensures
        cruft_present(result).contains(oid) <==> (result.reachable matches Some(reachable) && exists|i: int|
            0 <= i < reachable.index_entries@.len() && (#[trigger] reachable.index_entries@[i]).oid == oid) || exists|
            k: int,
        |
            0 <= k < result.cruft_packs().len() && (#[trigger] result.cruft_packs()[k]).oids@.contains(oid),
{
    lemma_cruft_present(result.reachable, result.cruft_packs(), oid);
}

/// A new pack is installed only where it is whole: it begins with the signature
/// of packs, its last bytes are the digest of all before them and the checksum
/// that it goes by, and its index is one of that checksum that lists just the
/// entries that were written, in the order of ids.
pub proof fn law_only_whole_packs_are_installed(
    format: ObjectFormat,
    pack: Seq<u8>,
    checksum: ObjectId,
    entries: Seq<PackIndexEntry>,
    parsed: Result<PackIndexData, GitError>,
)
    ensures
        is_consistent(format, pack, checksum, entries, parsed) <==> {
            &&& checksum.spec_format() == format
            &&& pack.len() >= 12 + format.raw()
            &&& pack.take(4) == seq![80u8, 65, 67, 75]
            &&& pack.skip(pack.len() - format.raw()) == checksum.raw()
            &&& digest(format, pack.take(pack.len() - format.raw())) == checksum.raw()
            &&& parsed matches Ok(index) && index.pack_checksum == checksum && index.entries@ == stable_sort(
                entry_order(),
                entries,
            )
        },
{
}

/// A cruft pack is installed only where it is whole and its list of objects, its
/// reverse index and its table of times are its own.
pub proof fn law_only_whole_cruft_packs_are_installed(format: ObjectFormat, cruft: CruftPack, parsed: ParsedCruft)
    requires
        is_valid_cruft(format, cruft, parsed),
    ensures
        is_consistent(format, cruft.pack@, cruft.checksum, cruft.index_entries@, parsed.index),
        parsed.reverse_checksum == Ok::<ObjectId, GitError>(cruft.checksum),
        parsed.mtimes_checksum == Ok::<ObjectId, GitError>(cruft.checksum),
        forall|oid: ObjectId| #[trigger]
            cruft.oids@.contains(oid) <==> exists|i: int|
                0 <= i < cruft.index_entries@.len() && (#[trigger] cruft.index_entries@[i]).oid == oid,
{
    let entries = cruft.index_entries@;
    let sorted = stable_sort(entry_order(), entries);
    let listed = crate::pack_file::entry_ids(sorted);
    crate::order::lemma_oid_order();
    assert(is_order(entry_order())) by {
        let by_oid = crate::order::oid_less();
        let less = entry_order();
        assert forall|a: PackIndexEntry, b: PackIndexEntry| #[trigger] less(a, b) implies !less(b, a) by {
            assert(by_oid(a.oid, b.oid));
        }
        assert forall|a: PackIndexEntry, b: PackIndexEntry, c: PackIndexEntry| #[trigger] less(a, c)
            implies #[trigger] less(a, b) || less(b, c) by {
            assert(by_oid(a.oid, c.oid));
            assert(by_oid(a.oid, b.oid) || by_oid(b.oid, c.oid));
        }
    }
    assert forall|oid: ObjectId| #[trigger] cruft.oids@.contains(oid) <==> exists|i: int|
        0 <= i < entries.len() && (#[trigger] entries[i]).oid == oid by {
        crate::order::lemma_sort_contains(crate::order::oid_less(), cruft.oids@, oid);
        crate::order::lemma_sort_contains(crate::order::oid_less(), listed, oid);
        if listed.contains(oid) {
            let k = choose|k: int| 0 <= k < listed.len() && listed[k] == oid;
            assert(sorted.contains(sorted[k]));
            crate::order::lemma_sort_contains(entry_order(), entries, sorted[k]);
            let i = choose|i: int| 0 <= i < entries.len() && entries[i] == sorted[k];
            assert(entries[i].oid == oid);
        }
        if exists|i: int| 0 <= i < entries.len() && (#[trigger] entries[i]).oid == oid {
            let i = choose|i: int| 0 <= i < entries.len() && (#[trigger] entries[i]).oid == oid;
            assert(entries.contains(entries[i]));
            crate::order::lemma_sort_contains(entry_order(), entries, entries[i]);
            let k = choose|k: int| 0 <= k < sorted.len() && sorted[k] == entries[i];
            assert(listed[k] == oid);
        }
    }
}

/// Loose objects can all be told from a new pack only where no pack was left out
/// of it and no object is promised.
pub proof fn law_pruning_is_complete_for_all_packs(retained: Seq<String>, promisor: Set<ObjectId>)
    ensures
        prune_outcome(retained, promisor) is Complete <==> retained.len() == 0 && forall|oid: ObjectId|
            !promisor.contains(oid),
{
    if forall|oid: ObjectId| !promisor.contains(oid) {
        assert(promisor =~= Set::empty());
    }
}

} // verus!
