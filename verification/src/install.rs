//! Receiving and installing packs: what is accepted, what is reported, and what
//! is checked before a pack becomes visible.

use crate::error::GitError;
use crate::error::MissingObjectContext;
use crate::error::NotFoundKind;
use crate::object::digest;
use crate::object::framed;
use crate::object::EncodedObject;
use crate::object::ObjectReader;
use crate::object::ObjectType;
use crate::object_id::ObjectFormat;
use crate::object_id::ObjectId;
use crate::oid_map::OidSet;
use crate::order::stable_sort;
use crate::pack_file::checksum_failure;
use crate::pack_file::entry_order;
use crate::pack_file::has_pack_signature;
use crate::pack_file::is_checksummed;
use crate::pack_file::pack_index_entries_match_writer;
use crate::pack_file::pack_signature;
use crate::pack_file::validate_pack_checksum;
use crate::pack_file::PackIndexData;
use crate::pack_file::PackWrite;
use crate::text::concat2;
use crate::text::concat3;
use crate::text::decimal;
use crate::text::decimal_text;
use crate::text::hex;
use vstd::prelude::*;
use vstd::string::*;

verus! {

/// Receipt is reported whenever at least this many bytes came in since the last
/// report.
pub const PACK_RECEIVE_PROGRESS_BYTES: u64 = 262144;

/// Monotonic receipt and indexing counters for one staged pack installation.
#[derive(Debug, Clone, Copy, PartialEq, Eq, Structural)]
pub struct PackInstallProgress {
    /// Pack bytes received from the input so far.
    pub received_bytes: u64,
    /// Objects fully inflated, resolved, and hashed so far.
    pub indexed_objects: u64,
    /// Total objects declared by the pack header once it is available.
    pub total_objects: u64,
}

impl Default for PackInstallProgress {
    fn default() -> (progress: PackInstallProgress)
        ensures
            progress == (PackInstallProgress { received_bytes: 0, indexed_objects: 0, total_objects: 0 }),
    {
        PackInstallProgress { received_bytes: 0, indexed_objects: 0, total_objects: 0 }
    }
}

#[derive(Debug, Clone, Copy, PartialEq, Eq, Structural)]
pub struct RawPackInstallOptions {
    pub promisor: bool,
    /// Maximum raw pack bytes to accept from the reader. `None` means unlimited,
    /// mirroring unset `fetch.maxInputSize` / `transfer.maxSize`.
    pub max_input_size: Option<u64>,
}

impl Default for RawPackInstallOptions {
    fn default() -> (options: RawPackInstallOptions)
        ensures
            options == (RawPackInstallOptions { promisor: false, max_input_size: None }),
    {
        RawPackInstallOptions { promisor: false, max_input_size: None }
    }
}

/// The number that four bytes spell, most significant first.
pub open spec fn be32(bytes: Seq<u8>, at: int) -> u32 {
    (bytes[at] * 0x100_0000 + bytes[at + 1] * 0x1_0000 + bytes[at + 2] * 0x100 + bytes[at + 3]) as u32
}

/// The number of objects that the header of a pack declares; zero while the
/// header is incomplete, and where it is none.
pub open spec fn declared_objects(received: Seq<u8>) -> u64 {
    if received.len() >= 12 && received.take(4) == pack_signature() {
        be32(received, 8) as u64
    } else {
        0
    }
}

/// The receipt of a pack of unknown length, chunk by chunk.
pub struct PackReceiver {
    max_input_size: Option<u64>,
    bytes: u64,
    last_progress: u64,
    header: Vec<u8>,
    total_objects: u64,
    received: Ghost<Seq<u8>>,
}

/// The reports that a chunk gives rise to: the header as soon as it is
/// complete, and the bytes received where enough came in since `last`.
pub open spec fn receipt_reports(before: Seq<u8>, after: Seq<u8>, last: u64) -> Seq<PackInstallProgress> {
    let total = declared_objects(after);
    let completes = before.len() < 12 && after.len() >= 12 && after.take(4) == pack_signature();
    let last = if completes {
        12
    } else {
        last as int
    };
    (if completes {
        seq![PackInstallProgress { received_bytes: 12, indexed_objects: 0, total_objects: total }]
    } else {
        Seq::empty()
    }) + (if after.len() - last >= PACK_RECEIVE_PROGRESS_BYTES {
        seq![
            PackInstallProgress {
                received_bytes: after.len() as u64,
                indexed_objects: 0,
                total_objects: total,
            },
        ]
    } else {
        Seq::empty()
    })
}

impl PackReceiver {
    /// The bytes received so far.
    pub closed spec fn spec_received(self) -> Seq<u8> {
        self.received@
    }

    /// The bytes that were last reported as received.
    pub closed spec fn spec_last(self) -> u64 {
        self.last_progress
    }

    pub closed spec fn spec_limit(self) -> Option<u64> {
        self.max_input_size
    }

    pub closed spec fn wf(self) -> bool {
        &&& self.bytes == self.received@.len()
        &&& self.header@ == self.received@.take(
            if self.received@.len() < 12 {
                self.received@.len() as int
            } else {
                12
            },
        )
        &&& self.total_objects == declared_objects(self.received@)
        &&& self.last_progress <= self.bytes
        &&& self.received@.len() < 12 ==> self.last_progress == 0
    }

    pub fn new(max_input_size: Option<u64>) -> (receiver: PackReceiver)
        ensures
            receiver.wf(),
            receiver.spec_received() == Seq::<u8>::empty(),
            receiver.spec_last() == 0,
            receiver.spec_limit() == max_input_size,
    {
        let receiver = PackReceiver {
            max_input_size,
            bytes: 0,
            last_progress: 0,
            header: Vec::new(),
            total_objects: 0,
            received: Ghost(Seq::empty()),
        };
        assert(receiver.header@ =~= receiver.received@.take(0));
        receiver
    }

    /// Takes the next chunk, which is to be staged if it is accepted, and tells
    /// what to report.
    pub fn receive(&mut self, chunk: &[u8]) -> (reports: Result<Vec<PackInstallProgress>, GitError>)
        requires
            old(self).wf(),
        ensures
            ({
                let after = old(self).spec_received() + chunk@;
                match reports {
                    Ok(reports) => {
                        &&& after.len() <= u64::MAX
                        &&& old(self).spec_limit() matches Some(limit) ==> after.len() <= limit
                        &&& final(self).wf()
                        &&& final(self).spec_received() == after
                        &&& final(self).spec_limit() == old(self).spec_limit()
                        &&& reports@ == receipt_reports(
                            old(self).spec_received(),
                            after,
                            old(self).spec_last(),
                        )
                        &&& final(self).spec_last() == if reports@.len() > 0 {
                            reports@.last().received_bytes
                        } else {
                            old(self).spec_last()
                        }
                    },
                    Err(err) => *final(self) == *old(self) && if after.len() > u64::MAX {
                        err matches GitError::InvalidFormat(text) && text@ == "pack size overflow"@
                    } else {
                        &&& old(self).spec_limit() matches Some(limit) && after.len() > limit && (
                        err matches GitError::InvalidFormat(text) && text@
                            == "pack exceeds maximum allowed size ("@ + decimal(limit as nat) + ")"@)
                    },
                }
            }),
    {
        let ghost before = self.received@;
        let ghost after = before + chunk@;
        let bytes: u64 = match self.bytes.checked_add(chunk.len() as u64) {
            Some(bytes) => bytes,
            None => {
                return Err(GitError::InvalidFormat(String::from_str("pack size overflow")));
            },
        };
        match self.max_input_size {
            Some(limit) => {
                if bytes > limit {
                    return Err(
                        GitError::InvalidFormat(
                            concat3(
                                "pack exceeds maximum allowed size (",
                                decimal_text(limit).as_str(),
                                ")",
                            ),
                        ),
                    );
                }
            },
            None => {},
        }
        let mut reports: Vec<PackInstallProgress> = Vec::new();
        self.bytes = bytes;
        if self.header.len() < 12 {
            let mut k: usize = 0;
            while k < chunk.len() && self.header.len() < 12
                invariant
                    k <= chunk@.len(),
                    before.len() < 12,
                    after == before + chunk@,
                    self.header@ == after.take(before.len() + k),
                    self.header@.len() <= 12,
                    self.bytes == bytes,
                    self.received@ == before,
                    self.last_progress == old(self).last_progress,
                    self.max_input_size == old(self).max_input_size,
                    self.total_objects == old(self).total_objects,
                decreases chunk@.len() - k,
            {
                self.header.push(chunk[k]);
                assert(after.take(before.len() + k + 1) =~= after.take(before.len() + k as int).push(
                    chunk@[k as int],
                ));
                k += 1;
            }
            if self.header.len() == 12 && has_pack_signature(&self.header) {
                self.total_objects = u32_be_at(&self.header, 8) as u64;
                let report = PackInstallProgress {
                    received_bytes: 12,
                    indexed_objects: 0,
                    total_objects: self.total_objects,
                };
                reports.push(report);
                self.last_progress = 12;
            }
            proof {
                if after.len() >= 12 {
                    assert(self.header@ =~= after.take(12));
                    assert(self.header@.take(4) =~= after.take(4));
                } else {
                    assert(self.header@ =~= after.take(after.len() as int));
                }
            }
        } else {
            proof {
                assert(before.take(12) =~= after.take(12));
                assert(before.take(4) =~= after.take(4));
            }
        }
        self.received = Ghost(after);
        if bytes - self.last_progress >= PACK_RECEIVE_PROGRESS_BYTES {
            self.last_progress = bytes;
            let report = PackInstallProgress {
                received_bytes: bytes,
                indexed_objects: 0,
                total_objects: self.total_objects,
            };
            reports.push(report);
        }
        assert(reports@ =~= receipt_reports(before, after, old(self).last_progress));
        Ok(reports)
    }

    /// The report while the objects of the received pack are indexed.
    pub fn report_indexing(&self, indexed_objects: u64, total_objects: u64) -> (report: PackInstallProgress)
        requires
            self.wf(),
        ensures
            report.received_bytes == self.spec_received().len(),
            report.received_bytes >= self.spec_last(),
            report.indexed_objects == indexed_objects,
            report.total_objects == total_objects,
    {
        PackInstallProgress { received_bytes: self.bytes, indexed_objects, total_objects }
    }

    /// The report at the end of the input.
    pub fn finish(&self) -> (report: PackInstallProgress)
        requires
            self.wf(),
        ensures
            report.received_bytes == self.spec_received().len(),
            report.received_bytes >= self.spec_last(),
            report.indexed_objects == 0,
            report.total_objects == declared_objects(self.spec_received()),
    {
        PackInstallProgress {
            received_bytes: self.bytes,
            indexed_objects: 0,
            total_objects: self.total_objects,
        }
    }
}

fn u32_be_at(bytes: &Vec<u8>, at: usize) -> (value: u32)
    requires
        at + 4 <= bytes@.len(),
    ensures
        value == be32(bytes@, at as int),
{
    assert(at + 4 <= bytes.len());
    (bytes[at] as u32) * 0x100_0000 + (bytes[at + 1] as u32) * 0x1_0000 + (bytes[at + 2] as u32) * 0x100
        + bytes[at + 3] as u32
}

/// Reports never go back: what is reported for a chunk is at least what was
/// reported before, and each report at least the one ahead of it.
pub proof fn law_receipt_is_monotonic(before: Seq<u8>, after: Seq<u8>, last: u64, i: int)
    requires
        before.len() <= after.len() <= u64::MAX,
        last <= before.len(),
        before.len() < 12 ==> last == 0,
        0 <= i < receipt_reports(before, after, last).len(),
    ensures
        ({
            let reports = receipt_reports(before, after, last);
            &&& reports[i].received_bytes >= last
            &&& reports[i].received_bytes <= after.len()
            &&& i > 0 ==> reports[i].received_bytes >= reports[i - 1].received_bytes
        }),
{
}

impl PackReceiver {
    /// What was reported last was received, and nothing is reported before a
    /// header can be complete.
    pub proof fn law_reports_stand_for_received(self)
        requires
            self.wf(),
        ensures
            self.spec_last() <= self.spec_received().len() <= u64::MAX,
            self.spec_received().len() < 12 ==> self.spec_last() == 0,
    {
    }

    /// Whatever a receiver has been through, the reports for its next chunk do
    /// not go back: each is at least what was reported before it.
    pub proof fn law_reports_never_go_back(self, chunk: Seq<u8>, i: int)
        requires
            self.wf(),
            self.spec_received().len() + chunk.len() <= u64::MAX,
            0 <= i < receipt_reports(
                self.spec_received(),
                self.spec_received() + chunk,
                self.spec_last(),
            ).len(),
        ensures
            ({
                let reports = receipt_reports(
                    self.spec_received(),
                    self.spec_received() + chunk,
                    self.spec_last(),
                );
                &&& reports[i].received_bytes >= self.spec_last()
                &&& reports[i].received_bytes <= self.spec_received().len() + chunk.len()
                &&& i > 0 ==> reports[i].received_bytes >= reports[i - 1].received_bytes
            }),
    {
        self.law_reports_stand_for_received();
        law_receipt_is_monotonic(self.spec_received(), self.spec_received() + chunk, self.spec_last(), i);
    }
}

/// An installation whose pack comes in pieces and is known beforehand by its
/// checksum and length.
pub struct RawPackStreamingInstall {
    format: ObjectFormat,
    expected_pack_id: ObjectId,
    expected_pack_size: u64,
    written: u64,
    open: bool,
}

/// Why a stream does not take more bytes.
#[derive(Debug, PartialEq, Eq)]
pub enum StreamError {
    /// The bytes do not belong to the pack.
    InvalidData(String),
    /// The stream was finished before.
    Closed,
}

/// The message for a checksum of another format than the store's.
pub open spec fn format_mismatch(what: Seq<char>, used: ObjectFormat, store: ObjectFormat) -> Seq<char> {
    what + " uses "@ + used.spec_name() + ", store uses "@ + store.spec_name()
}

fn format_mismatch_text(what: &str, used: ObjectFormat, store: ObjectFormat) -> (text: String)
    ensures
        text@ == format_mismatch(what@, used, store),
{
    let head = concat3(what, " uses ", used.name());
    concat3(head.as_str(), ", store uses ", store.name())
}

impl RawPackStreamingInstall {
    pub closed spec fn spec_format(self) -> ObjectFormat {
        self.format
    }

    pub closed spec fn spec_expected_id(self) -> ObjectId {
        self.expected_pack_id
    }

    pub closed spec fn spec_expected_size(self) -> u64 {
        self.expected_pack_size
    }

    pub closed spec fn spec_written(self) -> u64 {
        self.written
    }

    pub closed spec fn is_open(self) -> bool {
        self.open
    }

    /// Starts an installation in a store of the given format.
    pub fn begin(format: ObjectFormat, expected_pack_id: ObjectId, expected_pack_size: u64) -> (stream: Result<
        RawPackStreamingInstall,
        GitError,
    >)
        ensures
            stream is Ok <==> expected_pack_id.spec_format() == format,
            stream matches Ok(stream) ==> {
                &&& stream.spec_format() == format
                &&& stream.spec_expected_id() == expected_pack_id
                &&& stream.spec_expected_size() == expected_pack_size
                &&& stream.spec_written() == 0
                &&& stream.is_open()
            },
            stream matches Err(err) ==> (err matches GitError::InvalidObjectId(text) && text@
                == format_mismatch("pack checksum"@, expected_pack_id.spec_format(), format)),
    {
        if expected_pack_id.format() != format {
            return Err(
                GitError::InvalidObjectId(
                    format_mismatch_text("pack checksum", expected_pack_id.format(), format),
                ),
            );
        }
        Ok(RawPackStreamingInstall { format, expected_pack_id, expected_pack_size, written: 0, open: true })
    }

    pub fn bytes_written(&self) -> (written: u64)
        ensures
            written == self.spec_written(),
    {
        self.written
    }

    /// Whether the stream takes `len` more bytes.
    pub fn check_write(&self, len: usize) -> (checked: Result<(), StreamError>)
        ensures
            checked is Ok <==> self.spec_written() + len <= self.spec_expected_size() && self.is_open(),
            checked matches Err(StreamError::InvalidData(text)) ==> {
                ||| self.spec_written() + len > u64::MAX && text@ == "pack size overflow"@
                ||| self.spec_expected_size() < self.spec_written() + len <= u64::MAX && text@
                    == "raw pack stream exceeds expected size "@ + decimal(
                    self.spec_expected_size() as nat,
                ) + "; got at least "@ + decimal((self.spec_written() + len) as nat)
            },
            checked matches Err(StreamError::Closed) ==> self.spec_written() + len
                <= self.spec_expected_size() && !self.is_open(),
    {
        let next: u64 = match self.written.checked_add(len as u64) {
            Some(next) => next,
            None => {
                return Err(StreamError::InvalidData(String::from_str("pack size overflow")));
            },
        };
        if next > self.expected_pack_size {
            let head = concat3(
                "raw pack stream exceeds expected size ",
                decimal_text(self.expected_pack_size).as_str(),
                "; got at least ",
            );
            return Err(
                StreamError::InvalidData(concat2(head.as_str(), decimal_text(next).as_str())),
            );
        }
        if !self.open {
            return Err(StreamError::Closed);
        }
        Ok(())
    }

    /// Counts bytes that were staged, of those that the stream was asked about.
    pub fn note_written(&mut self, len: usize)
        requires
            old(self).spec_written() + len <= old(self).spec_expected_size(),
        ensures
            final(self).spec_written() == old(self).spec_written() + len,
            final(self).spec_expected_size() == old(self).spec_expected_size(),
            final(self).spec_expected_id() == old(self).spec_expected_id(),
            final(self).spec_format() == old(self).spec_format(),
            final(self).is_open() == old(self).is_open(),
    {
        self.written = self.written + len as u64;
    }

    /// Ends the receipt: the pack must be complete.
    pub fn finish_receipt(&mut self) -> (checked: Result<(), GitError>)
        ensures
            checked is Ok <==> old(self).is_open() && old(self).spec_written() == old(
                self,
            ).spec_expected_size(),
            !final(self).is_open(),
            final(self).spec_expected_id() == old(self).spec_expected_id(),
            final(self).spec_format() == old(self).spec_format(),
            checked matches Err(err) ==> (err matches GitError::InvalidFormat(text) && text@ == if !old(
                self,
            ).is_open() {
                "raw pack stream already finished"@
            } else {
                "raw pack stream length mismatch: expected "@ + decimal(
                    old(self).spec_expected_size() as nat,
                ) + ", got "@ + decimal(old(self).spec_written() as nat)
            }),
    {
        if !self.open {
            return Err(GitError::InvalidFormat(String::from_str("raw pack stream already finished")));
        }
        self.open = false;
        if self.written != self.expected_pack_size {
            let head = concat3(
                "raw pack stream length mismatch: expected ",
                decimal_text(self.expected_pack_size).as_str(),
                ", got ",
            );
            return Err(
                GitError::InvalidFormat(concat2(head.as_str(), decimal_text(self.written).as_str())),
            );
        }
        Ok(())
    }

    /// Checks the checksum that indexing the staged pack found.
    pub fn check_pack_id(&self, built: &ObjectId) -> (checked: Result<(), GitError>)
        ensures
            checked is Ok <==> *built == self.spec_expected_id(),
            checked matches Err(err) ==> (err matches GitError::InvalidFormat(text) && text@
                == "raw pack stream checksum mismatch: expected "@ + hex(self.spec_expected_id().raw())
                + ", got "@ + hex(built.raw())),
    {
        if *built != self.expected_pack_id {
            let head = concat3(
                "raw pack stream checksum mismatch: expected ",
                self.expected_pack_id.to_hex().as_str(),
                ", got ",
            );
            return Err(GitError::InvalidFormat(concat2(head.as_str(), built.to_hex().as_str())));
        }
        Ok(())
    }
}

/// Whether the ids of a written pack are of the store's format.
pub open spec fn has_format(format: ObjectFormat, pack: PackWrite) -> bool {
    &&& pack.checksum.spec_format() == format
    &&& forall|i: int|
        0 <= i < pack.entries@.len() ==> (#[trigger] pack.entries@[i]).oid.spec_format() == format
}

/// Whether `err` names the first id of a written pack that is not of the
/// store's format.
pub open spec fn format_failure(format: ObjectFormat, pack: PackWrite, err: GitError) -> bool {
    err matches GitError::InvalidObjectId(text) && if pack.checksum.spec_format() != format {
        text@ == format_mismatch("pack checksum"@, pack.checksum.spec_format(), format)
    } else {
        exists|i: int|
            0 <= i < pack.entries@.len() && (#[trigger] pack.entries@[i]).oid.spec_format() != format && text@
                == format_mismatch(
                "pack entry "@ + hex(pack.entries@[i].oid.raw()),
                pack.entries@[i].oid.spec_format(),
                format,
            ) && forall|k: int|
                0 <= k < i ==> (#[trigger] pack.entries@[k]).oid.spec_format() == format
    }
}

/// Checks that the ids of a written pack are of the store's format.
pub fn check_pack_formats(format: ObjectFormat, pack: &PackWrite) -> (checked: Result<(), GitError>)
    ensures
        checked is Ok <==> has_format(format, *pack),
        checked matches Err(err) ==> format_failure(format, *pack, err),
{
    if pack.checksum.format() != format {
        return Err(
            GitError::InvalidObjectId(
                format_mismatch_text("pack checksum", pack.checksum.format(), format),
            ),
        );
    }
    let mut i: usize = 0;
    while i < pack.entries.len()
        invariant
            i <= pack.entries@.len(),
            pack.checksum.spec_format() == format,
            forall|k: int|
                0 <= k < i ==> (#[trigger] pack.entries@[k]).oid.spec_format() == format,
        decreases pack.entries@.len() - i,
    {
        let oid = pack.entries[i].oid;
        if oid.format() != format {
            let what = concat2("pack entry ", oid.to_hex().as_str());
            let err = GitError::InvalidObjectId(
                format_mismatch_text(what.as_str(), oid.format(), format),
            );
            assert(pack.entries@[i as int].oid.spec_format() != format);
            return Err(err);
        }
        i += 1;
    }
    Ok(())
}

/// Checks a pack that this process wrote before it is installed, without
/// inflating it again: its trailer, and its index against what the writer
/// recorded. `parsed` is what the index parses to.
pub fn check_written_pack(
    format: ObjectFormat,
    pack: &PackWrite,
    parsed: Result<PackIndexData, GitError>,
) -> (checked: Result<(), GitError>)
    ensures
        checked is Ok <==> {
            &&& pack.checksum.spec_format() == format
            &&& is_checksummed(format, pack.pack@, pack.checksum)
            &&& parsed matches Ok(index) && index.pack_checksum == pack.checksum && index.entries@
                == stable_sort(entry_order(), pack.entries@)
        },
        checked matches Err(err) ==> if !(pack.checksum.spec_format() == format && is_checksummed(
            format,
            pack.pack@,
            pack.checksum,
        )) {
            checksum_failure(pack.pack@, format, pack.checksum, "pack write"@, err)
        } else {
            match parsed {
                Err(e) => err == e,
                Ok(index) => err matches GitError::InvalidFormat(text) && text@ == if index.pack_checksum
                    != pack.checksum {
                    "pack write index checksum does not match pack"@
                } else {
                    "pack write index does not match generated entries"@
                },
            }
        },
{
    match validate_pack_checksum(&pack.pack, format, &pack.checksum, "pack write") {
        Err(err) => {
            return Err(err);
        },
        Ok(_) => {},
    }
    let index = match parsed {
        Err(err) => {
            return Err(err);
        },
        Ok(index) => index,
    };
    if index.pack_checksum != pack.checksum {
        return Err(
            GitError::InvalidFormat(String::from_str("pack write index checksum does not match pack")),
        );
    }
    if !pack_index_entries_match_writer(&index.entries, &pack.entries) {
        return Err(
            GitError::InvalidFormat(
                String::from_str("pack write index does not match generated entries"),
            ),
        );
    }
    Ok(())
}

/// A blob to be written as a pack, under the id that its caller knows it by.
pub struct NamedBlob {
    pub oid: ObjectId,
    pub object: EncodedObject,
}

/// Decides whether a blob is written as a pack of its own: unless the store has
/// it.
pub fn write_blob_as_pack(blob: &NamedBlob, format: ObjectFormat, is_present: bool) -> (written: Result<bool, GitError>)
    ensures
        match written {
            Ok(written) => blob.object.spec_type() == ObjectType::Blob && blob.oid.spec_format() == format && written
                == !is_present,
            Err(err) => if blob.object.spec_type() != ObjectType::Blob {
                err matches GitError::InvalidObject(text) && text@ == "write_blob_as_pack requires a blob object"@
            } else {
                blob.oid.spec_format() != format && (err matches GitError::InvalidObjectId(text) && text@
                    == format_mismatch("object "@ + hex(blob.oid.raw()), blob.oid.spec_format(), format))
            },
        },
{
    if blob.object.object_type() != ObjectType::Blob {
        return Err(GitError::InvalidObject(String::from_str("write_blob_as_pack requires a blob object")));
    }
    if blob.oid.format() != format {
        let what = concat2("object ", blob.oid.to_hex().as_str());
        return Err(GitError::InvalidObjectId(format_mismatch_text(what.as_str(), blob.oid.format(), format)));
    }
    Ok(!is_present)
}

/// Whether a list of blobs may be packed: all are blobs, with ids of the
/// store's format.
pub open spec fn are_packable_blobs(blobs: Seq<NamedBlob>, format: ObjectFormat) -> bool {
    forall|i: int|
        0 <= i < blobs.len() ==> (#[trigger] blobs[i]).object.spec_type() == ObjectType::Blob
            && blobs[i].oid.spec_format() == format
}

/// The positions of the blobs that go into the pack: the first of each id,
/// unless the store has it.
pub open spec fn fresh_blobs(blobs: Seq<NamedBlob>, present: Set<ObjectId>) -> Seq<usize>
    decreases blobs.len(),
{
    if blobs.len() == 0 {
        Seq::empty()
    } else {
        let rest = fresh_blobs(blobs.drop_last(), present);
        let oid = blobs.last().oid;
        if present.contains(oid) || exists|k: int|
            0 <= k < blobs.len() - 1 && (#[trigger] blobs[k]).oid == oid {
            rest
        } else {
            rest.push((blobs.len() - 1) as usize)
        }
    }
}

/// Chooses the blobs that a pack of new blobs takes. `present` holds the ids
/// among them that the store has.
pub fn write_blobs_as_pack(blobs: &[NamedBlob], format: ObjectFormat, present: &OidSet) -> (selected: Result<
    Vec<usize>,
    GitError,
>)
    ensures
        selected is Ok <==> are_packable_blobs(blobs@, format),
        selected matches Ok(selected) ==> selected@ == fresh_blobs(blobs@, present@),
        selected matches Err(err) ==> exists|i: int|
            0 <= i < blobs@.len() && are_packable_blobs(blobs@.take(i), format) && if (
            #[trigger] blobs@[i]).object.spec_type() != ObjectType::Blob {
                err matches GitError::InvalidObject(text) && text@
                    == "write_blobs_as_pack requires blob objects"@
            } else {
                blobs@[i].oid.spec_format() != format && (err matches GitError::InvalidObjectId(text)
                    && text@ == format_mismatch(
                    "object "@ + hex(blobs@[i].oid.raw()),
                    blobs@[i].oid.spec_format(),
                    format,
                ))
            },
{
    let mut seen = OidSet::new();
    let mut selected: Vec<usize> = Vec::new();
    let mut i: usize = 0;
    while i < blobs.len()
        invariant
            i <= blobs@.len(),
            are_packable_blobs(blobs@.take(i as int), format),
            selected@ == fresh_blobs(blobs@.take(i as int), present@),
            forall|oid: ObjectId|
                #[trigger] seen@.contains(oid) <==> exists|k: int|
                    0 <= k < i && (#[trigger] blobs@[k]).oid == oid,
        decreases blobs@.len() - i,
    {
        let ghost done = blobs@.take(i as int);
        let ghost next = blobs@.take(i + 1);
        assert(next.drop_last() =~= done);
        assert(next[i as int] == blobs@[i as int]);
        let blob = &blobs[i];
        if blob.object.object_type() != ObjectType::Blob {
            assert(!are_packable_blobs(blobs@, format));
            return Err(
                GitError::InvalidObject(String::from_str("write_blobs_as_pack requires blob objects")),
            );
        }
        if blob.oid.format() != format {
            let what = concat2("object ", blob.oid.to_hex().as_str());
            assert(!are_packable_blobs(blobs@, format));
            return Err(
                GitError::InvalidObjectId(
                    format_mismatch_text(what.as_str(), blob.oid.format(), format),
                ),
            );
        }
        let oid = blob.oid;
        let fresh = seen.insert(oid);
        proof {
            assert forall|k: int| 0 <= k < i implies (#[trigger] next[k]).oid == blobs@[k].oid by {}
            if !fresh {
                let k = choose|k: int| 0 <= k < i && (#[trigger] blobs@[k]).oid == oid;
                assert(next[k].oid == oid);
            }
        }
        if fresh && !present.contains(&oid) {
            selected.push(i);
        }
        proof {
            assert forall|o: ObjectId| #[trigger] seen@.contains(o) <==> exists|k: int|
                0 <= k < i + 1 && (#[trigger] blobs@[k]).oid == o by {
                assert(blobs@[i as int].oid == oid);
            }
            assert forall|k: int| 0 <= k < next.len() implies (#[trigger] next[k]).object.spec_type()
                == ObjectType::Blob && next[k].oid.spec_format() == format by {
                if k < i {
                    assert(next[k] == done[k]);
                }
            }
        }
        i += 1;
    }
    assert(blobs@.take(i as int) =~= blobs@);
    Ok(selected)
}

/// What a bundle asks of the repository that it is unpacked into.
pub struct BundlePrerequisites {
    pub format: ObjectFormat,
    pub oids: Vec<ObjectId>,
}

/// The digest of the object under a prerequisite's name, none where it is
/// missing, or why it cannot be read.
pub open spec fn prerequisite<R: ObjectReader>(reader: &R, format: ObjectFormat, oid: ObjectId) -> Result<
    Option<Seq<u8>>,
    GitError,
> {
    match reader.object_at(oid) {
        Ok(object) => Ok(Some(digest(format, framed(object.spec_type(), object.body@)))),
        Err(GitError::NotFound(_)) => Ok(None),
        Err(err) => Err(err),
    }
}

/// Whether a prerequisite is there under its own name.
pub open spec fn is_met<R: ObjectReader>(reader: &R, format: ObjectFormat, oid: ObjectId) -> bool {
    prerequisite(reader, format, oid) == Ok::<Option<Seq<u8>>, GitError>(Some(oid.raw()))
        && oid.spec_format() == format
}

/// Whether a prerequisite is missing.
pub open spec fn is_absent<R: ObjectReader>(reader: &R, format: ObjectFormat, oid: ObjectId) -> bool {
    prerequisite(reader, format, oid) == Ok::<Option<Seq<u8>>, GitError>(None)
}

/// Whether each of the first `n` prerequisites is met or missing.
pub open spec fn are_settled<R: ObjectReader>(reader: &R, format: ObjectFormat, oids: Seq<ObjectId>, n: int) -> bool {
    forall|k: int|
        0 <= k < n ==> is_met(reader, format, #[trigger] oids[k]) || is_absent(reader, format, oids[k])
}

/// Whether `err` is why the prerequisites of a bundle are not met.
pub open spec fn bundle_failure<R: ObjectReader>(
    reader: &R,
    format: ObjectFormat,
    oids: Seq<ObjectId>,
    err: GitError,
) -> bool {
    ||| exists|i: int|
        0 <= i < oids.len() && are_settled(reader, format, oids, i) && prerequisite(
            reader,
            format,
            #[trigger] oids[i],
        ) == Err::<Option<Seq<u8>>, GitError>(err)
    ||| exists|i: int|
        0 <= i < oids.len() && are_settled(reader, format, oids, i) && !is_met(
            reader,
            format,
            #[trigger] oids[i],
        ) && (prerequisite(reader, format, oids[i]) matches Ok(Some(actual)) && (
        err matches GitError::InvalidObject(text) && text@ == "bundle prerequisite "@ + hex(
            oids[i].raw(),
        ) + " hashes to "@ + hex(actual)))
    ||| exists|i: int|
        0 <= i < oids.len() && is_absent(reader, format, #[trigger] oids[i])
            && (forall|k: int|
            0 <= k < i ==> is_met(reader, format, #[trigger] oids[k])) && (forall|k: int|
            i <= k < oids.len() ==> is_met(reader, format, #[trigger] oids[k])
                || is_absent(reader, format, oids[k])) && err == GitError::NotFound(
            NotFoundKind::Object {
                oid: oids[i],
                context: Some(MissingObjectContext::PackInstall),
            },
        )
}

/// Checks that every object that a bundle builds on is there. A prerequisite
/// that is unreadable, or is not the object named, is an error at once; of
/// missing ones the first is reported, once all were looked at.
pub fn verify_bundle_prerequisites<R: ObjectReader>(bundle: &BundlePrerequisites, reader: &R) -> (checked: Result<
    (),
    GitError,
>)
    ensures
        checked is Ok <==> forall|i: int|
            0 <= i < bundle.oids@.len() ==> is_met(reader, bundle.format, #[trigger] bundle.oids@[i]),
        checked matches Err(err) ==> bundle_failure(reader, bundle.format, bundle.oids@, err),
{
    let mut missing: Option<usize> = None;
    let mut i: usize = 0;
    while i < bundle.oids.len()
        invariant
            i <= bundle.oids@.len(),
            are_settled(reader, bundle.format, bundle.oids@, i as int),
            match missing {
                None => forall|k: int|
                    0 <= k < i ==> is_met(reader, bundle.format, #[trigger] bundle.oids@[k]),
                Some(first) => {
                    &&& first < i
                    &&& is_absent(reader, bundle.format, bundle.oids@[first as int])
                    &&& forall|k: int|
                        0 <= k < first ==> is_met(reader, bundle.format, #[trigger] bundle.oids@[k])
                    &&& forall|k: int|
                        first <= k < i ==> is_met(reader, bundle.format, #[trigger] bundle.oids@[k])
                            || is_absent(reader, bundle.format, bundle.oids@[k])
                },
            },
        decreases bundle.oids@.len() - i,
    {
        let oid = bundle.oids[i];
        match reader.read_object(&oid) {
            Ok(object) => {
                let actual = object.object_id(bundle.format);
                let same = actual.same(&oid);
                if !same {
                    let head = concat3(
                        "bundle prerequisite ",
                        oid.to_hex().as_str(),
                        " hashes to ",
                    );
                    let err = GitError::InvalidObject(
                        concat2(head.as_str(), actual.to_hex().as_str()),
                    );
                    proof {
                        assert(prerequisite(reader, bundle.format, bundle.oids@[i as int]) == Ok::<
                            Option<Seq<u8>>,
                            GitError,
                        >(Some(actual.raw())));
                    }
                    return Err(err);
                }
                assert(is_met(reader, bundle.format, bundle.oids@[i as int]));
            },
            Err(GitError::NotFound(_)) => {
                assert(is_absent(reader, bundle.format, bundle.oids@[i as int]));
                match missing {
                    None => {
                        missing = Some(i);
                    },
                    Some(_) => {},
                }
            },
            Err(err) => {
                assert(prerequisite(reader, bundle.format, bundle.oids@[i as int]) == Err::<
                    Option<Seq<u8>>,
                    GitError,
                >(err));
                return Err(err);
            },
        }
        i += 1;
    }
    match missing {
        None => Ok(()),
        Some(first) => Err(
            GitError::object_not_found_in(bundle.oids[first], MissingObjectContext::PackInstall),
        ),
    }
}

} // verus!
