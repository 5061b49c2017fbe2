//! Installing packs that were written in this process.

use crate::error::GitError;
use crate::install::check_pack_formats;
use crate::install::check_written_pack;
use crate::install::format_failure;
use crate::install::has_format;
use crate::install::RawPackInstallOptions;
use crate::install_plan::models;
use crate::install_plan::push_write;
use crate::install_plan::Op;
use crate::install_plan::PackOp;
use crate::object_id::byte_slice_eq;
use crate::object_id::ObjectFormat;
use crate::object_id::ObjectId;
use crate::order::stable_sort;
use crate::pack_file::checksum_failure;
use crate::pack_file::entry_id_list;
use crate::pack_file::entry_ids;
use crate::pack_file::entry_order;
use crate::pack_file::is_checksummed;
use crate::pack_file::pack_name;
use crate::pack_file::pack_stem;
use crate::pack_file::PackIndexData;
use crate::pack_file::PackWrite;
use vstd::prelude::*;

verus! {

/// The index that the contents of a pack give.
pub struct CanonicalIndex {
    pub index: Vec<u8>,
    pub pack_checksum: ObjectId,
    pub object_ids: Vec<ObjectId>,
}

/// What installing a pack writes, in order, and which objects it brings.
pub struct PackInstallResult {
    pub pack_name: String,
    pub writes: Vec<PackOp>,
    pub object_ids: Vec<ObjectId>,
}

/// The files of a pack: the pack before the index that readers find it through.
/// Where both are there already, neither is written again.
pub open spec fn pack_ops(pack: PackWrite, is_installed: bool, promisor: bool) -> Seq<Op> {
    let stem = pack_stem(pack.checksum);
    (if is_installed {
        Seq::empty()
    } else {
        seq![Op::Write(stem + ".pack"@, pack.pack@), Op::Write(stem + ".idx"@, pack.index@)]
    }) + (if promisor {
        seq![Op::Write(stem + ".promisor"@, Seq::empty())]
    } else {
        Seq::empty()
    })
}

/// Plans the files of a pack that needs no check. `is_installed` tells whether
/// its pack and index files are there.
fn install_generated_pack_unchecked(
    pack: &PackWrite,
    object_ids: Vec<ObjectId>,
    is_installed: bool,
    promisor: bool,
) -> (result: PackInstallResult)
    ensures
        result.pack_name@ == pack_stem(pack.checksum),
        models(result.writes@) == pack_ops(*pack, is_installed, promisor),
        result.object_ids == object_ids,
{
    let name = pack_name(&pack.checksum);
    let mut writes: Vec<PackOp> = Vec::new();
    if !is_installed {
        push_write(&mut writes, name.as_str(), ".pack", &pack.pack);
        push_write(&mut writes, name.as_str(), ".idx", &pack.index);
    }
    if promisor {
        let empty: Vec<u8> = Vec::new();
        push_write(&mut writes, name.as_str(), ".promisor", &empty);
    }
    assert(models(writes@) =~= pack_ops(*pack, is_installed, promisor));
    PackInstallResult { pack_name: name, writes, object_ids }
}

/// Whether a written pack may be installed as it is: its ids are of the store's
/// format, its index is the one that its contents give, and both are about the
/// pack.
pub open spec fn is_installable(
    format: ObjectFormat,
    pack: PackWrite,
    canonical: Result<CanonicalIndex, GitError>,
    parsed: Result<PackIndexData, GitError>,
) -> bool {
    &&& has_format(format, pack)
    &&& canonical matches Ok(canonical) && canonical.pack_checksum == pack.checksum && canonical.index@
        == pack.index@
    &&& parsed matches Ok(parsed) && parsed.pack_checksum == pack.checksum
}

/// Why a written pack may not be installed: the first check that fails.
pub open spec fn install_failure(
    format: ObjectFormat,
    pack: PackWrite,
    canonical: Result<CanonicalIndex, GitError>,
    parsed: Result<PackIndexData, GitError>,
    err: GitError,
) -> bool {
    if !has_format(format, pack) {
        format_failure(format, pack, err)
    } else {
        match (canonical, parsed) {
            (Err(failure), _) => err == failure,
            (_, Err(failure)) => err == failure,
            (Ok(canonical), Ok(parsed)) => err matches GitError::InvalidFormat(text) && text@ == if canonical.pack_checksum
                != pack.checksum || parsed.pack_checksum != pack.checksum {
                "pack and index checksums do not match pack write"@
            } else {
                "pack index does not match pack contents"@
            },
        }
    }
}

/// Plans the installation of a pack. `canonical` is what indexing the pack
/// gives, `parsed` what its own index parses to.
pub fn install_pack_with_options(
    format: ObjectFormat,
    pack: &PackWrite,
    canonical: Result<CanonicalIndex, GitError>,
    parsed: Result<PackIndexData, GitError>,
    is_installed: bool,
    options: &RawPackInstallOptions,
) -> (installed: Result<PackInstallResult, GitError>)
    ensures
        installed is Ok <==> is_installable(format, *pack, canonical, parsed),
        installed matches Ok(result) ==> {
            &&& result.pack_name@ == pack_stem(pack.checksum)
            &&& models(result.writes@) == pack_ops(*pack, is_installed, options.promisor)
            &&& result.object_ids == canonical->Ok_0.object_ids
        },
        installed matches Err(err) ==> install_failure(format, *pack, canonical, parsed, err),
{
    match check_pack_formats(format, pack) {
        Err(err) => {
            return Err(err);
        },
        Ok(_) => {},
    }
    let canonical = match canonical {
        Err(err) => {
            return Err(err);
        },
        Ok(canonical) => canonical,
    };
    let parsed = match parsed {
        Err(err) => {
            return Err(err);
        },
        Ok(parsed) => parsed,
    };
    if canonical.pack_checksum != pack.checksum || parsed.pack_checksum != pack.checksum {
        return Err(
            GitError::InvalidFormat(String::from_str("pack and index checksums do not match pack write")),
        );
    }
    if !byte_slice_eq(&pack.index, &canonical.index) {
        return Err(GitError::InvalidFormat(String::from_str("pack index does not match pack contents")));
    }
    Ok(install_generated_pack_unchecked(pack, canonical.object_ids, is_installed, options.promisor))
}

/// Plans the installation of a pack that this process wrote: its trailer and
/// its index are held against what the writer recorded, and its entries are not
/// inflated again.
pub fn install_written_pack_with_options(
    format: ObjectFormat,
    pack: &PackWrite,
    parsed: Result<PackIndexData, GitError>,
    is_installed: bool,
    options: &RawPackInstallOptions,
) -> (installed: Result<PackInstallResult, GitError>)
    ensures
        installed is Ok <==> {
            &&& pack.checksum.spec_format() == format
            &&& is_checksummed(format, pack.pack@, pack.checksum)
            &&& parsed matches Ok(index) && index.pack_checksum == pack.checksum && index.entries@
                == stable_sort(entry_order(), pack.entries@)
        },
        installed matches Ok(result) ==> {
            &&& result.pack_name@ == pack_stem(pack.checksum)
            &&& models(result.writes@) == pack_ops(*pack, is_installed, options.promisor)
            &&& result.object_ids@ == entry_ids(pack.entries@)
        },
        installed matches Err(err) ==> if !(pack.checksum.spec_format() == format && is_checksummed(
            format,
            pack.pack@,
            pack.checksum,
        )) {
            checksum_failure(pack.pack@, format, pack.checksum, "pack write"@, err)
        } else {
            match parsed {
                Err(e) => err == e,
                Ok(index) => err matches GitError::InvalidFormat(text) && text@ == if index.pack_checksum
                    != pack.checksum {
                    "pack write index checksum does not match pack"@
                } else {
                    "pack write index does not match generated entries"@
                },
            }
        },
{
    match check_written_pack(format, pack, parsed) {
        Err(err) => Err(err),
        Ok(_) => Ok(
            install_generated_pack_unchecked(pack, entry_id_list(&pack.entries), is_installed, options.promisor),
        ),
    }
}

} // verus!
