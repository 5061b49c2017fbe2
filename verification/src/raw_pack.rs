//! Packs handed to a destination that takes in raw packs.

use crate::error::GitError;
use crate::install::bundle_failure;
use crate::install::is_met;
use crate::install::verify_bundle_prerequisites;
use crate::install::BundlePrerequisites;
use crate::install::RawPackInstallOptions;
use crate::object::ObjectReader;
use crate::object_id::ObjectId;
use crate::pack_file::PackWrite;
use crate::unpack::BundleReference;
use crate::unpack::BundleUnbundleResult;
use vstd::prelude::*;

verus! {

/// What came of installing a raw pack.
#[derive(Debug, PartialEq, Eq)]
pub struct RawPackInstallResult {
    pub object_ids: Vec<ObjectId>,
}

/// A destination that takes in raw packs.
pub trait RawPackInstaller {
    fn install_raw_pack_with_options(&self, pack: &[u8], options: RawPackInstallOptions) -> Result<
        RawPackInstallResult,
        GitError,
    >;
}

/// Whether a destination can answer so when it is handed a pack, with no limit
/// on its size and no mark for it.
pub open spec fn may_answer<D: RawPackInstaller>(
    destination: &D,
    pack: &[u8],
    answer: Result<RawPackInstallResult, GitError>,
) -> bool {
    call_ensures(
        D::install_raw_pack_with_options,
        (destination, pack, RawPackInstallOptions { promisor: false, max_input_size: None }),
        answer,
    )
}

/// Hands a raw pack to a destination, with the default options.
pub fn install_raw_pack_from_reader<D: RawPackInstaller>(destination: &D, pack: &[u8]) -> (installed: Result<
    RawPackInstallResult,
    GitError,
>)
    ensures
        may_answer(destination, pack, installed),
{
    destination.install_raw_pack_with_options(pack, RawPackInstallOptions::default())
}

/// Hands the pack that was built of reachable objects to a destination; where
/// there was nothing to pack, or the pack could not be built, the destination
/// is not asked.
pub fn install_reachable_pack<D: RawPackInstaller>(
    pack: Result<Option<PackWrite>, GitError>,
    destination: &D,
) -> (installed: Result<Option<RawPackInstallResult>, GitError>)
    ensures
        match pack {
            Err(failure) => installed == Err::<Option<RawPackInstallResult>, GitError>(failure),
            Ok(None) => installed == Ok::<Option<RawPackInstallResult>, GitError>(None),
            Ok(Some(pack)) => exists|bytes: &[u8], answer: Result<RawPackInstallResult, GitError>| #[trigger]
                may_answer(destination, bytes, answer) && bytes@ == pack.pack@ && installed == match answer {
                    Ok(result) => Ok::<Option<RawPackInstallResult>, GitError>(Some(result)),
                    Err(err) => Err(err),
                },
        },
{
    match pack {
        Err(failure) => Err(failure),
        Ok(None) => Ok(None),
        Ok(Some(pack)) => {
            let bytes = pack.pack.as_slice();
            match install_raw_pack_from_reader(destination, bytes) {
                Ok(result) => Ok(Some(result)),
                Err(err) => Err(err),
            }
        },
    }
}

/// Hands the pack of a bundle to a destination once every object that the
/// bundle builds on is there; where one is not, the destination is not asked.
pub fn install_bundle_pack<R: ObjectReader, D: RawPackInstaller>(
    prerequisites: &BundlePrerequisites,
    references: Vec<BundleReference>,
    pack: &[u8],
    prerequisite_reader: &R,
    destination: &D,
) -> (installed: Result<BundleUnbundleResult, GitError>)
    ensures
        ({
            let met = forall|i: int|
                0 <= i < prerequisites.oids@.len() ==> is_met(
                    prerequisite_reader,
                    prerequisites.format,
                    #[trigger] prerequisites.oids@[i],
                );
            &&& !met ==> (installed matches Err(err) && bundle_failure(
                prerequisite_reader,
                prerequisites.format,
                prerequisites.oids@,
                err,
            ))
            &&& met ==> exists|answer: Result<RawPackInstallResult, GitError>| #[trigger]
                may_answer(destination, pack, answer) && installed == match answer {
                    Ok(result) => Ok::<BundleUnbundleResult, GitError>(
                        BundleUnbundleResult { written_objects: result.object_ids, references },
                    ),
                    Err(err) => Err(err),
                }
        }),
{
    match verify_bundle_prerequisites(prerequisites, prerequisite_reader) {
        Err(err) => {
            return Err(err);
        },
        Ok(()) => {},
    }
    match install_raw_pack_from_reader(destination, pack) {
        Ok(result) => Ok(BundleUnbundleResult { written_objects: result.object_ids, references }),
        Err(err) => Err(err),
    }
}

} // verus!
