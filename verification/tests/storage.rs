use std::sync::Arc;

use sley_odb::alternates::alternate_object_dirs;
use sley_odb::alternates::repository_common_dir;
use sley_odb::alternates::repository_objects_dir;
use sley_odb::database::Alternate;
use sley_odb::error::GitError;
use sley_odb::hex_id::from_hex;
use sley_odb::hex_id::hex_prefix_matches;
use sley_odb::hex_id::object_id_floor_for_hex_prefix;
use sley_odb::hex_id::validate_object_id_prefix;
use sley_odb::hex_id::validate_oid_format;
use sley_odb::install::write_blob_as_pack;
use sley_odb::install::write_blobs_as_pack;
use sley_odb::install::NamedBlob;
use sley_odb::install::PackReceiver;
use sley_odb::install::RawPackInstallOptions;
use sley_odb::install::RawPackStreamingInstall;
use sley_odb::install::StreamError;
use sley_odb::install_plan::PackOp;
use sley_odb::lookup::after_probe;
use sley_odb::lookup::find_pack_containing;
use sley_odb::lookup::read_object_header_raw;
use sley_odb::lookup::read_object_raw;
use sley_odb::lookup::read_ofs_delta_base_from_other_sources;
use sley_odb::lookup::BaseSource;
use sley_odb::lookup::HeaderState;
use sley_odb::lookup::HeaderStep;
use sley_odb::lookup::LookupSource;
use sley_odb::lookup::LookupStep;
use sley_odb::lookup::PackSource;
use sley_odb::lookup::ReadEvent;
use sley_odb::lookup::ReadState;
use sley_odb::lookup::ReadStep;
use sley_odb::loose::framed_loose_header_terminated;
use sley_odb::loose::inflate_header_diagnostic;
use sley_odb::loose::loose_header_declared_size;
use sley_odb::loose::parse_framed_object;
use sley_odb::loose_cache::collect_loose_object_ids;
use sley_odb::loose_cache::object_path;
use sley_odb::loose_cache::FanoutListing;
use sley_odb::loose_cache::LoosePresenceCache;
use sley_odb::loose_cache::PresenceAnswer;
use sley_odb::loose_read::loose_object_bytes;
use sley_odb::loose_read::read_header;
use sley_odb::loose_read::read_object;
use sley_odb::loose_read::verify_object;
use sley_odb::loose_read::LooseObjectIntegrity;
use sley_odb::object::digest_bytes;
use sley_odb::object::EncodedObject;
use sley_odb::object::ObjectContent;
use sley_odb::object::ObjectType;
use sley_odb::object_id::ObjectFormat;
use sley_odb::object_id::ObjectId;
use sley_odb::oid_map::OidSet;
use sley_odb::pack_assemble::assemble_pack_with_verbatim_entries;
use sley_odb::pack_assemble::assemble_pack_with_verbatim_reuse;
use sley_odb::pack_assemble::assemble_pack_with_verbatim_reuses;
use sley_odb::pack_assemble::write_undeltified_pack_entry;
use sley_odb::pack_dir::collect_packed_object_ids;
use sley_odb::pack_dir::collect_packed_object_ids_with_prefix;
use sley_odb::pack_dir::marked_pack_object_ids;
use sley_odb::pack_dir::merge_object_ids;
use sley_odb::pack_dir::object_ids_in_objects_dir;
use sley_odb::pack_dir::resolve_prefix;
use sley_odb::pack_dir::IndexListing;
use sley_odb::pack_dir::IndexRead;
use sley_odb::pack_dir::MarkedIndex;
use sley_odb::pack_dir::MultiPackListing;
use sley_odb::pack_dir::ObjectPrefixResolution;
use sley_odb::pack_file::PackIndexData;
use sley_odb::pack_file::PackIndexEntry;
use sley_odb::pack_file::PackWrite;
use sley_odb::pack_install::install_pack_with_options;
use sley_odb::pack_install::install_written_pack_with_options;
use sley_odb::pack_install::CanonicalIndex;
use sley_odb::pack_order::find_in_pack_registry;
use sley_odb::pack_order::registry_is_current;
use sley_odb::pack_order::scan_pack_registry;
use sley_odb::pack_order::ScannedFile;
use sley_odb::presence::ObjectPresenceChecker;
use sley_odb::presence::PackedStep;
use sley_odb::presence::PresenceSource;
use sley_odb::pack_scan::inflate_pack_member_len;
use sley_odb::pack_scan::pack_entry_delta_base;
use sley_odb::pack_scan::packed_object_storage_info;
use sley_odb::pack_scan::scan_pack_offsets_without_index;
use sley_odb::pack_scan::PackDeltaBase;
use sley_odb::packed_read::collect_loose_object_ids_with_prefix;
use sley_odb::packed_read::find_incremental_midx_pack_containing;
use sley_odb::packed_read::find_midx_pack_containing;
use sley_odb::packed_read::multi_pack_index_failure;
use sley_odb::packed_read::read_packed_object_at_lookup;
use sley_odb::packed_read::read_packed_object_from_other_packs;
use sley_odb::packed_read::reusable_delta_base;
use sley_odb::packed_read::IndexCandidate;
use sley_odb::packed_read::MidxLayer;
use sley_odb::packed_read::MidxPlace;
use sley_odb::packed_read::OffsetSource;
use sley_odb::quarantine::promotion_order;
use sley_odb::quarantine::quarantine_alternates;
use sley_odb::quarantine::Promotion;
use sley_odb::quarantine::PromotionStep;
use sley_odb::registry::pack_index_fanout_range;
use sley_odb::text_file::cache_budget_from_env;
use sley_odb::text_file::read_trimmed_lines;
use sley_odb::text_file::verify_reads_enabled;
use sley_odb::transfer::ReachablePackObject;

fn oid_of(text: &str) -> ObjectId {
    digest_bytes(ObjectFormat::Sha1, text.as_bytes())
}

fn entry(object: EncodedObject) -> ReachablePackObject {
    ReachablePackObject { oid: object.object_id(ObjectFormat::Sha1), object: Arc::new(object) }
}

fn blob_entry(body: &[u8]) -> ReachablePackObject {
    entry(EncodedObject::blob(body.to_vec()))
}

fn sorted(ids: &[ObjectId]) -> Vec<ObjectId> {
    let mut ids = ids.to_vec();
    ids.sort_by_key(|oid| oid.to_hex());
    ids
}

#[test]
fn loose_store_writes_and_reads_object() {
    let format = ObjectFormat::Sha1;
    let object = EncodedObject::blob(b"hello\n".to_vec());
    let oid = object.object_id(format);
    let bytes = loose_object_bytes(&object).expect("test operation should succeed");
    assert_ne!(bytes, b"blob 6\0hello\n");
    let read = read_object(format, &oid, "path", &bytes, true);
    assert_eq!(read.result, Ok((ObjectType::Blob, b"hello\n".to_vec())));
    assert!(read.lines.is_empty());
    assert_eq!(verify_object(format, &oid, "path", &bytes).result, LooseObjectIntegrity::Sound);
    let path = object_path(format, &oid).expect("path");
    assert_eq!((path.fanout.as_str(), path.name.len()), ("ce", 38));
}

#[test]
fn loose_objects_under_a_wrong_name_are_noticed() {
    let format = ObjectFormat::Sha1;
    let object = EncodedObject::blob(b"hello\n".to_vec());
    let actual = object.object_id(format);
    let bytes = loose_object_bytes(&object).expect("compress");
    let wrong = oid_of("wrong");
    assert!(read_object(format, &wrong, "path", &bytes, true).result.is_err());
    // Without verification the name is trusted.
    assert!(read_object(format, &wrong, "path", &bytes, false).result.is_ok());
    assert_eq!(
        verify_object(format, &wrong, "path", &bytes).result,
        LooseObjectIntegrity::HashMismatch { actual }
    );
    assert_eq!(verify_object(format, &actual, "path", &bytes[..4]).result, LooseObjectIntegrity::Corrupt);
    let mut trailing = bytes.clone();
    trailing.push(0);
    assert_eq!(verify_object(format, &actual, "path", &trailing).result, LooseObjectIntegrity::Corrupt);
}

#[test]
fn read_header_detects_corruption_within_gits_header_window() {
    // A zlib data error inside the first bytes of output makes a header read
    // fail, though the header itself ends before the damage.
    let object = EncodedObject::blob(b"content\n".to_vec());
    let oid = object.object_id(ObjectFormat::Sha1);
    let mut bytes = loose_object_bytes(&object).expect("test operation should succeed");
    bytes[10] = 0;
    let err = read_header(&oid, &bytes).result.expect_err("corrupt loose header must fail");
    let text = match err {
        GitError::InvalidObject(text) => text,
        other => panic!("unexpected error {other:?}"),
    };
    assert!(text.contains("unable to unpack") && text.contains(&oid.to_hex()), "unexpected message {text}");
}

#[test]
fn read_header_ignores_corruption_past_gits_header_window() {
    // Incompressible body so the deflate stream is long and a deep byte is well
    // past the header window.
    let body: Vec<u8> = (0..4096u32).map(|i| (i.wrapping_mul(2654435761)) as u8).collect();
    let object = EncodedObject::blob(body.clone());
    let oid = object.object_id(ObjectFormat::Sha1);
    let mut bytes = loose_object_bytes(&object).expect("test operation should succeed");
    let deep = bytes.len() / 2;
    bytes[deep] ^= 0xff;
    let header = read_header(&oid, &bytes)
        .result
        .expect("header-only read must still succeed for deep body corruption");
    assert_eq!(header, (ObjectType::Blob, body.len() as u64));
}

#[test]
fn loose_headers_are_taken_apart() {
    assert!(framed_loose_header_terminated(b"blob 3\0abc"));
    assert!(!framed_loose_header_terminated(b"blob 3"));
    assert_eq!(loose_header_declared_size(b"blob 3\0abc"), Some(3));
    assert_eq!(loose_header_declared_size(b"blob x\0abc"), None);
    assert_eq!(parse_framed_object(b"tree 0\0"), Ok((ObjectType::Tree, Vec::new())));
    let fault = |framed: &[u8]| match parse_framed_object(framed) {
        Err(GitError::InvalidObject(text)) => text,
        _ => panic!("the object is malformed"),
    };
    assert_eq!(fault(b"blob 4\0abc"), "object size mismatch");
    assert_eq!(fault(b"lump 3\0abc"), "unknown object type");
    assert_eq!(fault(b"blob x\0abc"), "invalid object size");
    assert_eq!(fault(b"blob\0abc"), "missing object size");
    assert_eq!(fault(b"blob 3"), "missing object header terminator");
    let broken = std::str::from_utf8(b"blob \xff").expect_err("not a text").to_string();
    assert_eq!(fault(b"blob \xff\0abc"), broken);
    assert!(inflate_header_diagnostic(b"\0\0").is_some());
    assert!(inflate_header_diagnostic(b"\x78\x01").is_none());
}

#[test]
fn present_loose_fanouts_lists_only_existing_two_hex_dirs() {
    let mut cache = LoosePresenceCache::new();
    let oid = from_hex(ObjectFormat::Sha1, b"ab00000000000000000000000000000000000000").expect("id");
    let absent = from_hex(ObjectFormat::Sha1, b"cd00000000000000000000000000000000000000").expect("id");
    assert_eq!(cache.cached_loose_presence(&oid), PresenceAnswer::ListFanouts);
    let directories = ["ab", "0f", "pack", "info", "zz"].iter().map(|name| String::from(*name)).collect();
    cache.present_loose_fanouts(&directories);
    assert_eq!(cache.cached_loose_presence(&oid), PresenceAnswer::ListFanout(0xab));
    // A fanout directory that is not there need not be listed.
    assert_eq!(cache.cached_loose_presence(&absent), PresenceAnswer::Known(false));
    // Only the genuine two-hex directories count, `zz` and the like stand for none.
    let present: Vec<u8> = (0..=255u8)
        .filter(|byte| {
            let digits = format!("{byte:02x}{}", "0".repeat(38));
            let probe = from_hex(ObjectFormat::Sha1, digits.as_bytes()).expect("id");
            cache.cached_loose_presence(&probe) != PresenceAnswer::Known(false)
        })
        .collect();
    assert_eq!(present, vec![0x0f, 0xab]);
    cache.collect_loose_fanout_object_ids(
        ObjectFormat::Sha1,
        0xab,
        &vec![String::from("00000000000000000000000000000000000000"), String::from("tmp_obj_1")],
    );
    assert_eq!(cache.cached_loose_presence(&oid), PresenceAnswer::Known(true));
}

#[test]
fn present_loose_fanouts_empty_when_objects_dir_absent() {
    let mut cache = LoosePresenceCache::new();
    cache.present_loose_fanouts(&Vec::new());
    assert_eq!(cache.cached_loose_presence(&oid_of("anything")), PresenceAnswer::Known(false));
}

#[test]
fn loose_write_into_previously_absent_fanout_is_found_after_cache_built() {
    let mut cache = LoosePresenceCache::new();
    cache.present_loose_fanouts(&Vec::new());
    let oid = oid_of("written later");
    assert_eq!(cache.cached_loose_presence(&oid), PresenceAnswer::Known(false));
    cache.note_loose_write(oid);
    assert_eq!(cache.cached_loose_presence(&oid), PresenceAnswer::Known(true));
    cache.invalidate_cache();
    assert_eq!(cache.cached_loose_presence(&oid), PresenceAnswer::ListFanouts);
    cache.loose_object_ids_cached(OidSet::from_slice(&[oid]));
    assert_eq!(cache.cached_loose_presence(&oid), PresenceAnswer::Known(true));
}

#[test]
fn loose_directories_list_objects_by_their_names() {
    let hex = oid_of("listed").to_hex();
    let listings = vec![
        FanoutListing {
            fanout: hex[..2].to_string(),
            names: vec![hex[2..].to_string(), String::from("tmp_obj_7")],
        },
        FanoutListing { fanout: String::from("pack"), names: vec![hex[4..].to_string()] },
    ];
    assert_eq!(collect_loose_object_ids(ObjectFormat::Sha1, &listings).to_vec(), vec![oid_of("listed")]);
}

fn drive_read(
    alternates: usize,
    mut answer: impl FnMut(&ReadState) -> ReadEvent<u8>,
) -> (Result<Option<u8>, GitError>, Vec<String>) {
    let mut state = ReadState::FindPack;
    let mut trail = Vec::new();
    loop {
        trail.push(match &state {
            ReadState::FindPack => String::from("find"),
            ReadState::ReadPacked => String::from("read packed"),
            ReadState::RescueLoose(_) => String::from("rescue loose"),
            ReadState::RescueOtherPacks(_) => String::from("rescue packs"),
            ReadState::RescueAlternate(i, _) => format!("rescue alternate {i}"),
            ReadState::Loose => String::from("loose"),
            ReadState::Packed(_) => String::from("packed"),
            ReadState::Alternate(i, _) => format!("alternate {i}"),
            ReadState::RetryLoose(_) => String::from("retry loose"),
        });
        let event = answer(&state);
        match read_object_raw(state, event, alternates) {
            ReadStep::Consult(next) => state = next,
            ReadStep::Return(object) => return (Ok(Some(object)), trail),
            ReadStep::Fail(err) => return (Err(err), trail),
            ReadStep::Missing => return (Ok(None), trail),
        }
    }
}

fn missing() -> GitError {
    GitError::NotFound(sley_odb::error::NotFoundKind::Other(String::from("gone")))
}

#[test]
fn loose_copy_is_consulted_when_packed_copy_is_corrupt() {
    let (read, trail) = drive_read(0, |state| match state {
        ReadState::FindPack => ReadEvent::Listed(true),
        ReadState::ReadPacked => ReadEvent::Failed(GitError::InvalidObject(String::from("corrupt"))),
        _ => ReadEvent::Object(9),
    });
    assert_eq!(read, Ok(Some(9)));
    assert_eq!(trail, vec!["find", "read packed", "rescue loose"]);
}

#[test]
fn packed_only_repo_read_does_not_probe_loose_fanout_dirs() {
    let (read, trail) = drive_read(3, |state| match state {
        ReadState::FindPack => ReadEvent::Listed(true),
        _ => ReadEvent::Object(1),
    });
    assert_eq!(read, Ok(Some(1)));
    assert_eq!(trail, vec!["find", "read packed"]);
}

#[test]
fn a_corrupt_packed_copy_without_another_is_reported() {
    let corrupt = || GitError::InvalidObject(String::from("corrupt"));
    let (read, trail) = drive_read(2, |state| match state {
        ReadState::FindPack => ReadEvent::Listed(true),
        ReadState::ReadPacked => ReadEvent::Failed(corrupt()),
        ReadState::RescueOtherPacks(_) => ReadEvent::Absent,
        _ => ReadEvent::Failed(missing()),
    });
    assert_eq!(read, Err(corrupt()));
    assert_eq!(
        trail,
        vec!["find", "read packed", "rescue loose", "rescue packs", "rescue alternate 0", "rescue alternate 1"]
    );
}

#[test]
fn an_object_that_is_nowhere_is_missing() {
    let (read, trail) = drive_read(1, |state| match state {
        ReadState::FindPack => ReadEvent::Listed(false),
        ReadState::Packed(_) => ReadEvent::Absent,
        _ => ReadEvent::Failed(missing()),
    });
    assert_eq!(read, Ok(None));
    assert_eq!(trail.last().map(String::as_str), Some("retry loose"));
    assert!(trail.contains(&String::from("alternate 0")));
}

#[test]
fn read_object_header_prefers_good_pack_over_corrupt_loose() {
    let mut state = HeaderState::Cached;
    let mut asked_loose = false;
    let header = loop {
        let answer = match &state {
            HeaderState::Cached => Ok(None),
            HeaderState::Packed => Ok(Some(7u64)),
            _ => {
                asked_loose = true;
                Err(GitError::InvalidObject(String::from("corrupt loose header")))
            }
        };
        match read_object_header_raw(state, answer, 0) {
            HeaderStep::Consult(next) => state = next,
            HeaderStep::Finished(result) => break result,
        }
    };
    assert_eq!(header, Ok(Some(7)));
    assert!(!asked_loose);
}

#[test]
fn read_object_header_preserves_missing_ref_delta_base_error() {
    let missing_base = EncodedObject::blob(b"missing base".to_vec()).object_id(ObjectFormat::Sha1);
    let base = || GitError::InvalidObject(format!("ref-delta base object {} is missing", missing_base.to_hex()));
    let mut state = HeaderState::Cached;
    let header: Result<Option<u64>, GitError> = loop {
        let answer = match &state {
            HeaderState::Packed => Err(base()),
            _ => Ok(None),
        };
        match read_object_header_raw(state, answer, 1) {
            HeaderStep::Consult(next) => state = next,
            HeaderStep::Finished(result) => break result,
        }
    };
    match &header {
        Err(GitError::InvalidObject(text)) => {
            assert!(text.contains(&format!("ref-delta base object {}", missing_base.to_hex())));
        }
        _ => panic!("an indexed object with no delta base must be corrupt, not absent"),
    }
    assert_eq!(header, Err(base()));
}

#[test]
fn read_object_header_ref_delta_cycle_falls_back_to_loose_copy() {
    let mut state = HeaderState::Cached;
    let header = loop {
        let answer = match &state {
            HeaderState::Packed => Err(GitError::InvalidObject(String::from("delta cycle"))),
            HeaderState::Loose(_) => Ok(Some(3u64)),
            _ => Ok(None),
        };
        match read_object_header_raw(state, answer, 0) {
            HeaderStep::Consult(next) => state = next,
            HeaderStep::Finished(result) => break result,
        }
    };
    assert_eq!(header, Ok(Some(3)));
}

#[test]
fn lookups_ask_loose_packed_alternates_and_loose_again() {
    let mut source = LookupSource::Loose;
    let mut trail = Vec::new();
    let found: Result<Option<u8>, GitError> = loop {
        trail.push(source);
        match after_probe(source, Ok(None), 2) {
            LookupStep::Probe(next) => source = next,
            LookupStep::Finished(result) => break result,
        }
    };
    assert_eq!(found, Ok(None));
    assert_eq!(
        trail,
        vec![
            LookupSource::Loose,
            LookupSource::Packed,
            LookupSource::Alternate(0),
            LookupSource::Alternate(1),
            LookupSource::RetryLoose
        ]
    );
    assert!(matches!(
        after_probe(LookupSource::Packed, Ok(Some(4u8)), 2),
        LookupStep::Finished(Ok(Some(4)))
    ));
}

#[test]
fn loose_ofs_delta_base_recovers_child_from_corrupt_pack_base() {
    let mut source = BaseSource::Cached;
    let found = loop {
        let answer = match source {
            BaseSource::Cached => Ok(None),
            BaseSource::Loose => Ok(Some(5u8)),
            _ => panic!("the loose copy is enough"),
        };
        match read_ofs_delta_base_from_other_sources(source, answer, 0) {
            LookupStep::Probe(next) => source = next,
            LookupStep::Finished(result) => break result,
        }
    };
    assert_eq!(found, Ok(Some(5)));
}

#[test]
fn file_database_finds_pack_added_after_registry_was_cached() {
    let mut source = PackSource::WarmMultiPackIndex;
    let found = loop {
        let answer = match source {
            PackSource::RescannedRegistry => Ok(Some(1u8)),
            _ => Ok(None),
        };
        match find_pack_containing(source, answer, true) {
            LookupStep::Probe(next) => source = next,
            LookupStep::Finished(result) => break result,
        }
    };
    assert_eq!(found, Ok(Some(1)));
}

/// What is on disk when a checker looks.
struct PresenceDisk {
    loose: Vec<ObjectId>,
    midx: Option<Vec<ObjectId>>,
    packs: Vec<Vec<ObjectId>>,
}

/// A checker with what it has loaded, and how often it has read an index.
struct DiskChecker {
    checker: ObjectPresenceChecker,
    scanned: Option<usize>,
    loose: Vec<ObjectId>,
    index_reads: usize,
}

impl DiskChecker {
    fn new(disk: &PresenceDisk) -> DiskChecker {
        DiskChecker {
            checker: ObjectPresenceChecker::new(ObjectFormat::Sha1),
            scanned: None,
            loose: disk.loose.clone(),
            index_reads: 0,
        }
    }

    fn find_packed(&mut self, disk: &PresenceDisk, oid: &ObjectId, rescan: bool) -> bool {
        let mut fresh_packs = false;
        let mut fresh_registry = false;
        loop {
            match self.checker.find_packed(oid, rescan, fresh_packs, fresh_registry) {
                PackedStep::Finished(found) => return found,
                PackedStep::LoadMultiPackIndex => {
                    self.checker.prepare_packs(disk.midx.as_ref().map(|ids| OidSet::from_slice(ids)));
                    fresh_packs = true;
                }
                PackedStep::ScanRegistry => {
                    let changed = self.scanned != Some(disk.packs.len());
                    self.checker.prepare_registry(disk.packs.len(), changed);
                    self.scanned = Some(disk.packs.len());
                    fresh_registry = true;
                }
                PackedStep::LoadIndex(at) => {
                    self.index_reads += 1;
                    self.checker.registry_index(at, OidSet::from_slice(&disk.packs[at]));
                }
            }
        }
    }

    fn check(&mut self, disk: &PresenceDisk, oid: &ObjectId, refresh: bool) -> Result<bool, GitError> {
        let mut answer = None;
        loop {
            match self.checker.contains(oid, answer, 0, refresh) {
                LookupStep::Finished(result) => return result.map(|found| found.is_some()),
                LookupStep::Probe(source) => {
                    let found = match source {
                        PresenceSource::Loose => self.loose.contains(oid),
                        PresenceSource::Packed => self.find_packed(disk, oid, false),
                        PresenceSource::RescannedPacks => self.find_packed(disk, oid, true),
                        PresenceSource::Alternate(_) => false,
                        PresenceSource::RetryLoose => {
                            self.loose = disk.loose.clone();
                            self.loose.contains(oid)
                        }
                    };
                    answer = Some((source, Ok(found.then_some(()))));
                }
            }
        }
    }
}

fn late_blob(text: &str) -> ObjectId {
    let object = EncodedObject::blob(text.as_bytes().to_vec());
    object.object_id(ObjectFormat::Sha1)
}

#[test]
fn object_presence_checker_finds_pack_added_after_registry_was_cached() {
    let first_oid = late_blob("checker first late\n");
    let second_oid = late_blob("checker second late\n");
    let mut disk = PresenceDisk { loose: Vec::new(), midx: None, packs: vec![vec![first_oid]] };
    let mut checker = DiskChecker::new(&disk);
    assert!(checker.check(&disk, &first_oid, true).expect("test operation should succeed"));
    assert!(!checker.check(&disk, &second_oid, true).expect("test operation should succeed"));

    disk.packs.push(vec![second_oid]);
    assert!(checker.check(&disk, &second_oid, true).expect("test operation should succeed"));
}

#[test]
fn object_presence_checker_observes_same_process_loose_write_after_miss() {
    let oid = late_blob("checker loose after miss\n");
    let mut disk = PresenceDisk { loose: Vec::new(), midx: None, packs: Vec::new() };
    let mut checker = DiskChecker::new(&disk);
    assert!(!checker.check(&disk, &oid, true).expect("test operation should succeed"));

    disk.loose.push(oid);
    assert!(checker.check(&disk, &oid, true).expect("test operation should succeed"));
}

#[test]
fn object_presence_checker_can_hold_a_closed_world_snapshot() {
    let oid = late_blob("added after snapshot\n");
    let mut disk = PresenceDisk { loose: Vec::new(), midx: None, packs: Vec::new() };
    let mut checker = DiskChecker::new(&disk);
    assert!(!checker.check(&disk, &oid, false).expect("test operation should succeed"));

    disk.loose.push(oid);
    assert!(!checker.check(&disk, &oid, false).expect("test operation should succeed"));
    assert!(checker.check(&disk, &oid, true).expect("test operation should succeed"));
}

#[test]
fn object_presence_checker_reads_each_index_once_and_the_hit_one_first() {
    let ids: Vec<ObjectId> = ["one\n", "two\n", "three\n"].iter().map(|text| late_blob(text)).collect();
    let disk = PresenceDisk { loose: Vec::new(), midx: None, packs: ids.iter().map(|oid| vec![*oid]).collect() };
    let mut checker = DiskChecker::new(&disk);
    assert!(checker.check(&disk, &ids[1], false).expect("present"));
    assert_eq!(checker.index_reads, 2);
    assert!(checker.check(&disk, &ids[1], false).expect("present"));
    assert!(checker.check(&disk, &ids[0], false).expect("present"));
    assert_eq!(checker.index_reads, 2);
    assert!(!checker.check(&disk, &late_blob("four\n"), false).expect("absent"));
    assert_eq!(checker.index_reads, 3);
}

#[test]
fn object_presence_checker_trusts_the_multi_pack_index() {
    let oid = late_blob("indexed\n");
    let disk = PresenceDisk { loose: Vec::new(), midx: Some(vec![oid]), packs: vec![vec![oid]] };
    let mut checker = DiskChecker::new(&disk);
    assert!(checker.check(&disk, &oid, true).expect("present"));
    assert_eq!(checker.index_reads, 0);
}

#[test]
fn object_presence_checker_refuses_an_id_of_another_format() {
    let disk = PresenceDisk { loose: Vec::new(), midx: None, packs: Vec::new() };
    let mut checker = DiskChecker::new(&disk);
    let oid = ObjectId::null(ObjectFormat::Sha256);
    let expected = format!("object {} uses sha256, store uses sha1", oid.to_hex());
    assert_eq!(checker.check(&disk, &oid, true), Err(GitError::InvalidObjectId(expected)));
}

fn fanout_of(ids: &[ObjectId]) -> [u32; 256] {
    let mut fanout = [0u32; 256];
    for oid in ids {
        for slot in fanout.iter_mut().skip(oid.byte_at(0) as usize) {
            *slot += 1;
        }
    }
    fanout
}

fn listing(ids: &[ObjectId]) -> IndexListing {
    let ids = sorted(ids);
    IndexListing { fanout: fanout_of(&ids), oids: ids }
}

#[test]
fn file_database_resolves_unique_loose_object_prefix() {
    let oid = EncodedObject::blob(b"prefix loose\n".to_vec()).object_id(ObjectFormat::Sha1);
    let hex = oid.to_hex();
    let names = vec![hex[2..].to_string(), String::from("tmp_obj_1")];
    let found = collect_loose_object_ids_with_prefix(ObjectFormat::Sha1, hex[..8].as_bytes(), &names);
    let matches = merge_object_ids(&found, &Vec::new());
    assert_eq!(resolve_prefix(matches), ObjectPrefixResolution::Unique(oid));
    assert!(collect_loose_object_ids_with_prefix(ObjectFormat::Sha1, hex[..1].as_bytes(), &names).is_empty());
    assert_eq!(resolve_prefix(Vec::new()), ObjectPrefixResolution::Missing);
}

#[test]
fn file_database_resolves_unique_packed_object_prefix() {
    let oid = EncodedObject::blob(b"prefix packed\n".to_vec()).object_id(ObjectFormat::Sha1);
    let others: Vec<ObjectId> = (0..50).map(|n| oid_of(&format!("other {n}"))).collect();
    let mut ids = others.clone();
    ids.push(oid);
    let hex = oid.to_hex();
    let digits = hex[..8].as_bytes();
    let floor = object_id_floor_for_hex_prefix(ObjectFormat::Sha1, digits).expect("floor");
    let packs = vec![IndexRead { name: String::from("pack-a.idx"), listing: Ok(listing(&ids)), has_pack: true }];
    let found =
        collect_packed_object_ids_with_prefix(ObjectFormat::Sha1, &None, &Vec::new(), &packs, digits, &floor)
            .expect("collect");
    assert_eq!(resolve_prefix(found.to_vec()), ObjectPrefixResolution::Unique(oid));
    let (from, to) = pack_index_fanout_range(&fanout_of(&ids), oid.byte_at(0));
    assert!(from < to);
}

#[test]
fn file_database_reports_ambiguous_object_prefix() {
    let mut seen: Vec<(String, ObjectId)> = Vec::new();
    let mut collision = None;
    for idx in 0..10_000 {
        let oid = EncodedObject::blob(format!("ambiguous {idx}\n").into_bytes()).object_id(ObjectFormat::Sha1);
        let prefix = oid.to_hex()[..4].to_string();
        if let Some((_, first)) = seen.iter().find(|(known, _)| *known == prefix) {
            collision = Some((prefix, *first, oid));
            break;
        }
        seen.push((prefix, oid));
    }
    let (prefix, first, second) = collision.expect("test should find a 4-hex collision");
    assert!(hex_prefix_matches(&first, prefix.as_bytes()));
    let matches = merge_object_ids(&OidSet::from_slice(&[second]), &vec![OidSet::from_slice(&[first])]);
    assert_eq!(resolve_prefix(matches), ObjectPrefixResolution::Ambiguous(sorted(&[first, second])));
}

#[test]
fn file_database_rejects_too_short_object_prefix() {
    assert!(matches!(
        validate_object_id_prefix(ObjectFormat::Sha1, "abc"),
        Err(GitError::InvalidObjectId(_))
    ));
    assert!(matches!(
        validate_object_id_prefix(ObjectFormat::Sha1, "abcx"),
        Err(GitError::InvalidObjectId(_))
    ));
    assert!(validate_object_id_prefix(ObjectFormat::Sha1, "abcd").is_ok());
    assert!(validate_oid_format(ObjectFormat::Sha256, &oid_of("a")).is_err());
    assert!(from_hex(ObjectFormat::Sha1, b"abcd").is_none());
    let oid = oid_of("round trip");
    assert_eq!(from_hex(ObjectFormat::Sha1, oid.to_hex().as_bytes()), Some(oid));
}

#[test]
fn a_multi_pack_index_stands_for_the_packs_that_it_names() {
    let a = oid_of("a");
    let b = oid_of("b");
    let midx = Some(MultiPackListing { pack_names: vec![String::from("pack-a.idx")], listing: listing(&[a]) });
    let packs = vec![
        IndexRead {
            name: String::from("pack-a.idx"),
            listing: Err(GitError::InvalidFormat(String::from("bad index"))),
            has_pack: true,
        },
        IndexRead { name: String::from("pack-b.idx"), listing: Ok(listing(&[b])), has_pack: true },
    ];
    let collected = collect_packed_object_ids(&midx, &Vec::new(), &packs).expect("collect");
    assert_eq!(sorted(&collected.oids.to_vec()), sorted(&[a, b]));
    let loose = oid_of("loose");
    let hex = loose.to_hex();
    let fanouts = vec![FanoutListing { fanout: hex[..2].to_string(), names: vec![hex[2..].to_string()] }];
    let all = object_ids_in_objects_dir(ObjectFormat::Sha1, &fanouts, &midx, &Vec::new(), &packs).expect("collect");
    assert_eq!(all, sorted(&[a, b, loose]));
    assert!(collect_packed_object_ids(&None, &Vec::new(), &packs).is_err());
    let marked = vec![MarkedIndex { has_pack: true, marked: true, listing: Ok(listing(&[a])) }, MarkedIndex { has_pack: true, marked: false, listing: Ok(listing(&[b])) }];
    assert_eq!(marked_pack_object_ids(&marked).expect("kept").to_vec(), vec![a]);
}

#[test]
fn incoming_pack_quarantine_discards_rejected_and_promotes_accepted_objects() {
    let files = ["pack/a.idx", "pack/a.pack", "ab/cdef"].iter().map(|name| String::from(*name)).collect();
    let order = promotion_order(&files);
    assert_eq!(order.last().map(String::as_str), Some("pack/a.pack"));
    let mut promotion = Promotion::new(3);
    assert_eq!(promotion.step(false), PromotionStep::Move(0));
    promotion.note_moved();
    assert_eq!(promotion.step(true), PromotionStep::Discard(1));
    promotion.note_discarded();
    assert_eq!(promotion.step(false), PromotionStep::Move(2));
    promotion.note_moved();
    assert_eq!(promotion.step(false), PromotionStep::Finished);

    let mut promotion = Promotion::new(3);
    promotion.note_moved();
    promotion.note_moved();
    promotion.note_failed();
    assert_eq!(promotion.step(false), PromotionStep::Return(1));
    promotion.note_returned();
    assert_eq!(promotion.step(false), PromotionStep::Return(0));
    promotion.note_returned();
    assert_eq!(promotion.step(false), PromotionStep::Failed);

    let alternates = vec![Alternate { path: String::from("/one") }, Alternate { path: String::from("/two") }];
    assert_eq!(quarantine_alternates(&alternates), "/one\n/two\n");
}

#[test]
fn alternates_come_from_the_environment_and_the_file() {
    let dirs = alternate_object_dirs("/repo/objects", Some("/env::/more"), Some(b"# comment\n../other\n/abs\n\n"));
    let paths: Vec<&str> = dirs.iter().map(|dir| dir.path.as_str()).collect();
    assert_eq!(paths, vec!["/env", "/more", "/repo/objects/../other", "/abs"]);
}

#[test]
fn file_database_streams_raw_pack_install_to_packfile() {
    let format = ObjectFormat::Sha1;
    let (pack, _) =
        assemble_pack_with_verbatim_entries(format, &[], &[blob_entry(b"streamed raw pack\n")]).expect("pack");
    let checksum = ObjectId::from_raw(format, &pack[pack.len() - 20..]).expect("checksum");
    let mut install = RawPackStreamingInstall::begin(format, checksum, pack.len() as u64).expect("begin");
    for chunk in pack.chunks(5) {
        install.check_write(chunk.len()).expect("test operation should succeed");
        install.note_written(chunk.len());
    }
    assert_eq!(install.bytes_written(), pack.len() as u64);
    assert_eq!(
        install.check_write(1),
        Err(StreamError::InvalidData(format!(
            "raw pack stream exceeds expected size {}; got at least {}",
            pack.len(),
            pack.len() + 1
        )))
    );
    install.finish_receipt().expect("test operation should succeed");
    install.check_pack_id(&checksum).expect("test operation should succeed");
    assert_eq!(install.check_write(0), Err(StreamError::Closed));
    assert!(install.finish_receipt().is_err());

    let bad_id = ObjectId::from_raw(format, &[0x42; 20]).expect("test operation should succeed");
    let mut bad_install = RawPackStreamingInstall::begin(format, bad_id, pack.len() as u64).expect("begin");
    bad_install.note_written(pack.len());
    bad_install.finish_receipt().expect("complete");
    assert!(
        bad_install.check_pack_id(&checksum).is_err(),
        "checksum mismatch should reject the streamed pack"
    );
    let mut short = RawPackStreamingInstall::begin(format, checksum, 100).expect("begin");
    short.note_written(99);
    assert_eq!(
        short.finish_receipt(),
        Err(GitError::InvalidFormat(String::from("raw pack stream length mismatch: expected 100, got 99")))
    );
    assert!(RawPackStreamingInstall::begin(ObjectFormat::Sha256, checksum, 1).is_err());
}

#[test]
fn file_database_installs_unknown_length_raw_pack_from_reader() {
    let (pack, _) = assemble_pack_with_verbatim_entries(
        ObjectFormat::Sha1,
        &[],
        &[blob_entry(b"reader streamed raw pack\n")],
    )
    .expect("pack");
    let mut receiver = PackReceiver::new(None);
    let first = receiver.receive(&pack[..8]).expect("receive");
    assert!(first.is_empty());
    let second = receiver.receive(&pack[8..]).expect("receive");
    assert_eq!(second.len(), 1);
    assert_eq!((second[0].received_bytes, second[0].total_objects), (12, 1));
    let end = receiver.finish();
    assert_eq!((end.received_bytes, end.total_objects), (pack.len() as u64, 1));
    let indexing = receiver.report_indexing(1, 1);
    assert_eq!((indexing.received_bytes, indexing.indexed_objects), (pack.len() as u64, 1));
}

#[test]
fn file_database_rejects_raw_pack_stream_exceeding_max_input_size() {
    let (pack, _) = assemble_pack_with_verbatim_entries(
        ObjectFormat::Sha1,
        &[],
        &[blob_entry(b"bounded raw pack install\n")],
    )
    .expect("pack");
    let mut receiver = PackReceiver::new(Some(32));
    let err = receiver.receive(&pack).expect_err("oversized stream should be rejected");
    assert!(
        matches!(&err, GitError::InvalidFormat(text) | GitError::InvalidObject(text)
            if text.contains("pack exceeds maximum allowed size")),
        "unexpected error: {err:?}"
    );
}

fn written(format: ObjectFormat, body: &[u8]) -> PackWrite {
    let object = EncodedObject::blob(body.to_vec());
    let oid = object.object_id(format);
    let (pack, _) =
        assemble_pack_with_verbatim_entries(format, &[], &[ReachablePackObject { oid, object: Arc::new(object) }])
            .expect("pack");
    let checksum = ObjectId::from_raw(format, &pack[pack.len() - format.raw_len()..]).expect("checksum");
    PackWrite {
        pack,
        index: b"canonical index".to_vec(),
        checksum,
        entries: vec![PackIndexEntry { oid, crc32: 1, offset: 12 }],
    }
}

fn canonical(pack: &PackWrite) -> Result<CanonicalIndex, GitError> {
    Ok(CanonicalIndex {
        index: b"canonical index".to_vec(),
        pack_checksum: pack.checksum,
        object_ids: vec![pack.entries[0].oid],
    })
}

fn parsed(pack: &PackWrite) -> Result<PackIndexData, GitError> {
    let entry = &pack.entries[0];
    Ok(PackIndexData {
        entries: vec![PackIndexEntry { oid: entry.oid, crc32: entry.crc32, offset: entry.offset }],
        pack_checksum: pack.checksum,
    })
}

fn op_names(ops: &[PackOp]) -> Vec<String> {
    ops.iter()
        .map(|op| match op {
            PackOp::Write { name, .. } => name.clone(),
            PackOp::Replace { name, .. } => name.clone(),
            PackOp::Remove { name } => name.clone(),
        })
        .collect()
}

#[test]
fn file_database_rejects_noncanonical_pack_index() {
    let format = ObjectFormat::Sha1;
    let mut pack = written(format, b"bad index crc\n");
    let options = RawPackInstallOptions::default();
    assert!(install_pack_with_options(format, &pack, canonical(&pack), parsed(&pack), false, &options).is_ok());
    pack.index = b"another index".to_vec();
    assert_eq!(
        install_pack_with_options(format, &pack, canonical(&pack), parsed(&pack), false, &options).err(),
        Some(GitError::InvalidFormat(String::from("pack index does not match pack contents")))
    );
    let mut other = parsed(&pack).expect("parsed");
    other.pack_checksum = oid_of("other");
    assert_eq!(
        install_pack_with_options(format, &pack, canonical(&pack), Ok(other), false, &options).err(),
        Some(GitError::InvalidFormat(String::from("pack and index checksums do not match pack write")))
    );
    assert!(matches!(
        install_pack_with_options(ObjectFormat::Sha256, &pack, canonical(&pack), parsed(&pack), false, &options),
        Err(GitError::InvalidObjectId(text)) if text == "pack checksum uses sha1, store uses sha256"
    ));
}

#[test]
fn file_database_installs_sha256_pack_without_loose_objects() {
    let format = ObjectFormat::Sha256;
    let pack = written(format, b"packed only\n");
    let name = format!("pack-{}", pack.checksum.to_hex());
    let options = RawPackInstallOptions::default();
    let result = install_pack_with_options(format, &pack, canonical(&pack), parsed(&pack), false, &options)
        .expect("test operation should succeed");
    assert_eq!(result.pack_name, name);
    assert_eq!(result.object_ids, vec![pack.entries[0].oid]);
    assert_eq!(op_names(&result.writes), vec![format!("{name}.pack"), format!("{name}.idx")]);
    let again = install_written_pack_with_options(format, &pack, parsed(&pack), true, &options).expect("again");
    assert!(again.writes.is_empty());
}

#[test]
fn file_database_installs_raw_promisor_pack_with_sidecar() {
    let format = ObjectFormat::Sha1;
    let pack = written(format, b"promised\n");
    let name = format!("pack-{}", pack.checksum.to_hex());
    let options = RawPackInstallOptions { promisor: true, max_input_size: None };
    let result = install_written_pack_with_options(format, &pack, parsed(&pack), false, &options).expect("install");
    assert_eq!(
        op_names(&result.writes),
        vec![format!("{name}.pack"), format!("{name}.idx"), format!("{name}.promisor")]
    );
    let mut wrong = parsed(&pack).expect("parsed");
    wrong.entries.clear();
    assert_eq!(
        install_written_pack_with_options(format, &pack, Ok(wrong), false, &options).err(),
        Some(GitError::InvalidFormat(String::from("pack write index does not match generated entries")))
    );
}

#[test]
fn blobs_are_written_once_and_only_where_new() {
    let format = ObjectFormat::Sha1;
    let named = |body: &[u8]| {
        let object = EncodedObject::blob(body.to_vec());
        NamedBlob { oid: object.object_id(format), object }
    };
    let blobs = vec![named(b"a"), named(b"b"), named(b"a"), named(b"c")];
    let present = OidSet::from_slice(&[blobs[1].oid]);
    assert_eq!(write_blobs_as_pack(&blobs, format, &present), Ok(vec![0, 3]));
    let tree = EncodedObject::with_content(Vec::new(), ObjectContent::Tree(Vec::new()));
    let bad = vec![NamedBlob { oid: tree.object_id(format), object: tree }];
    assert_eq!(
        write_blobs_as_pack(&bad, format, &present),
        Err(GitError::InvalidObject(String::from("write_blobs_as_pack requires blob objects")))
    );
    assert_eq!(
        write_blob_as_pack(&bad[0], format, false),
        Err(GitError::InvalidObject(String::from("write_blob_as_pack requires a blob object")))
    );
    assert_eq!(write_blob_as_pack(&blobs[0], format, false), Ok(true));
    assert_eq!(write_blob_as_pack(&blobs[0], format, true), Ok(false));
    assert!(matches!(
        write_blob_as_pack(&blobs[0], ObjectFormat::Sha256, false),
        Err(GitError::InvalidObjectId(_))
    ));
}

#[test]
fn packs_are_assembled_from_others_as_they_stand() {
    let format = ObjectFormat::Sha1;
    let first = blob_entry(b"first\n");
    let second = blob_entry(&[b'x'; 300]);
    let (pack, reused) = assemble_pack_with_verbatim_entries(format, &[], &[first.copy()]).expect("pack");
    assert_eq!(reused, 0);
    let (joined, reused) = assemble_pack_with_verbatim_reuse(format, &pack, &[second.copy()]).expect("joined");
    assert_eq!(reused, 1);
    assert_eq!(&joined[..12], b"PACK\0\0\0\x02\0\0\0\x02");
    assert_eq!(&joined[12..pack.len() - 20], &pack[12..pack.len() - 20]);
    let body = &joined[..joined.len() - 20];
    assert_eq!(digest_bytes(format, body).as_bytes(), joined[joined.len() - 20..].to_vec());

    // The first object of the pack ends where the second begins.
    let end = scan_pack_offsets_without_index(format, &joined, 12).expect("scan").expect("entry");
    assert_eq!(end as usize, pack.len() - 20);
    let end = scan_pack_offsets_without_index(format, &joined, end).expect("scan").expect("entry");
    assert_eq!(end as usize, joined.len() - 20);
    assert_eq!(scan_pack_offsets_without_index(format, &joined, 13), Ok(None));

    assert_eq!(
        assemble_pack_with_verbatim_reuses(format, &[&pack[..20]], &[]).err(),
        Some(GitError::InvalidFormat(String::from("reused pack too short")))
    );
    let mut unsigned = pack.clone();
    unsigned[0] = b'Q';
    assert_eq!(
        assemble_pack_with_verbatim_reuse(format, &unsigned, &[]).err(),
        Some(GitError::InvalidFormat(String::from("reused pack has no signature")))
    );
    let mut version = pack.clone();
    version[7] = 9;
    assert_eq!(
        assemble_pack_with_verbatim_reuse(format, &version, &[]).err(),
        Some(GitError::Unsupported(String::from("reused pack version 9")))
    );
    let mut many = pack.clone();
    many[8..12].copy_from_slice(&[0xff; 4]);
    assert_eq!(
        assemble_pack_with_verbatim_reuse(format, &many, &[second]).err(),
        Some(GitError::InvalidFormat(String::from("too many pack objects")))
    );
}

#[test]
fn pack_entries_have_their_size_in_front() {
    let mut out = Vec::new();
    write_undeltified_pack_entry(&mut out, &EncodedObject::blob(vec![b'z'; 300])).expect("entry");
    // Blob, 300 = 12 + 16 * 18.
    assert_eq!(&out[..2], &[0x80 | 0x30 | 12, 18]);
    assert_eq!(inflate_pack_member_len(&out[2..]), Ok(out.len() - 2));
    assert!(inflate_pack_member_len(&out[2..out.len() - 5]).is_err());
    assert_eq!(
        inflate_pack_member_len(&[0xff, 0xff, 0xff]),
        Err(GitError::InvalidObject(String::from("zlib inflate failed: deflate decompression error: incorrect header check")))
    );
}

#[test]
fn object_storage_info_reports_loose_packed_and_delta_metadata() {
    // A whole object and an offset delta on it.
    let format = ObjectFormat::Sha1;
    let base = blob_entry(&[b'a'; 40]);
    let child = oid_of("child");
    let mut pack = b"PACK\0\0\0\x02\0\0\0\x02".to_vec();
    write_undeltified_pack_entry(&mut pack, &base.object).expect("entry");
    let child_offset = pack.len();
    pack.push(0x65);
    pack.push((child_offset - 12) as u8);
    let mut stream = Vec::new();
    write_undeltified_pack_entry(&mut stream, &EncodedObject::blob(b"delta".to_vec())).expect("entry");
    pack.extend_from_slice(&stream[1..]);
    let end = pack.len();
    let checksum = digest_bytes(format, &pack);
    pack.extend_from_slice(&checksum.as_bytes());

    assert!(matches!(pack_entry_delta_base(format, &pack, 12), Ok(None)));
    assert!(matches!(
        pack_entry_delta_base(format, &pack, child_offset as u64),
        Ok(Some(PackDeltaBase::Offset(12)))
    ));
    let index = Some(vec![
        PackIndexEntry { oid: base.oid, crc32: 0, offset: 12 },
        PackIndexEntry { oid: child, crc32: 0, offset: child_offset as u64 },
    ]);
    let zero = ObjectId::null(format);
    let info = packed_object_storage_info(format, 12, &index, &Ok(pack.clone()), "pack-a.pack", &None).expect("base");
    assert_eq!((info.disk_size, info.deltabase), ((child_offset - 12) as u64, zero));
    let info =
        packed_object_storage_info(format, child_offset as u64, &index, &Ok(pack.clone()), "pack-a.pack", &None)
            .expect("child");
    assert_eq!((info.disk_size, info.deltabase), ((end - child_offset) as u64, base.oid));
    // The same is found without the index, but for the id of the base.
    let info = packed_object_storage_info(format, 12, &None, &Ok(pack.clone()), "pack-a.pack", &None).expect("base");
    assert_eq!((info.disk_size, info.deltabase), ((child_offset - 12) as u64, zero));

    let source = OffsetSource::Index(index.expect("index"));
    assert_eq!(reusable_delta_base(format, &pack, child_offset as u64, &source), Ok(Some(base.oid)));
    assert_eq!(reusable_delta_base(format, &pack, 12, &source), Ok(None));
    let nowhere = OffsetSource::Midx { midx: None, pack_name: String::from("pack-a.pack") };
    assert_eq!(
        reusable_delta_base(format, &pack, child_offset as u64, &nowhere),
        Err(GitError::InvalidFormat(String::from("ofs-delta base offset 12 not found")))
    );
}

#[test]
fn packed_objects_are_held_to_their_id_only_when_asked() {
    let format = ObjectFormat::Sha1;
    let object = Arc::new(EncodedObject::blob(b"packed".to_vec()));
    let oid = object.object_id(format);
    let other = oid_of("other");
    let read = |oid: &ObjectId, verify: bool| {
        read_packed_object_at_lookup(format, oid, None, Ok(Arc::clone(&object)), verify)
    };
    assert!(read(&oid, true).is_ok());
    assert!(read(&other, false).is_ok());
    assert_eq!(
        read(&other, true),
        Err(GitError::InvalidObject(format!(
            "pack object id mismatch: index says {}, decoded {}",
            other.to_hex(),
            oid.to_hex()
        )))
    );
    let cached = read_packed_object_at_lookup(format, &oid, Some(Arc::clone(&object)), Err(GitError::Cancelled), true);
    assert!(cached.is_ok());
    assert!(verify_reads_enabled(Some("1")));
    assert!(!verify_reads_enabled(None));
}

fn layer(name: &str, place: Option<(u32, u64)>, is_usable: bool) -> MidxLayer {
    MidxLayer {
        is_usable,
        pack_names: vec![String::from(name)],
        place: place.map(|(pack_int_id, offset)| MidxPlace { pack_int_id, offset }),
    }
}

#[test]
fn file_database_reads_object_from_multi_pack_index() {
    let layers = vec![
        layer("pack-old.idx", Some((0, 12)), true),
        layer("pack-new.idx", Some((0, 34)), true),
        layer("pack-broken.idx", Some((0, 56)), false),
        layer("pack-without.idx", None, true),
    ];
    assert_eq!(
        find_incremental_midx_pack_containing(&layers),
        Ok(Some((String::from("pack-new.pack"), 34)))
    );
    assert_eq!(
        find_midx_pack_containing(Some(layer("pack-main.idx", Some((0, 78)), true)), &layers),
        Ok(Some((String::from("pack-main.pack"), 78)))
    );
    assert_eq!(
        find_midx_pack_containing(Some(layer("pack-main.idx", None, true)), &Vec::new()),
        Ok(None)
    );
    assert_eq!(
        find_midx_pack_containing(Some(layer("pack-main.idx", Some((1, 78)), true)), &layers),
        Err(GitError::InvalidFormat(String::from("multi-pack-index object points past pack table")))
    );
}

#[test]
fn a_multi_pack_index_of_another_hash_is_passed_over() {
    assert_eq!(
        multi_pack_index_failure(
            GitError::InvalidFormat(String::from("multi-pack-index hash id 2 does not match")),
            ObjectFormat::Sha1
        ),
        Ok(String::from("error: multi-pack-index hash version 2 does not match version 1"))
    );
    assert_eq!(
        multi_pack_index_failure(
            GitError::InvalidFormat(String::from("multi-pack-index hash id ")),
            ObjectFormat::Sha256
        ),
        Ok(String::from("error: multi-pack-index hash version 0 does not match version 2"))
    );
    let other = || GitError::InvalidFormat(String::from("multi-pack-index too short"));
    assert_eq!(multi_pack_index_failure(other(), ObjectFormat::Sha1), Err(other()));
}

#[test]
fn other_packs_are_searched_for_a_good_copy() {
    let file = |stem: &str, is_index: bool, offset: Option<u64>| IndexCandidate {
        stem: String::from(stem),
        is_index,
        offset,
    };
    let files = vec![
        file("pack-a", true, Some(12)),
        file("pack-b", false, Some(12)),
        file("pack-c", true, None),
        file("pack-d", true, Some(40)),
    ];
    assert_eq!(read_packed_object_from_other_packs(&files, "pack-a"), vec![3]);
    assert_eq!(read_packed_object_from_other_packs(&files, "pack-x"), vec![0, 3]);
}

#[test]
fn file_database_pack_search_hint_rebuilds_after_pack_added() {
    let pack = |name: &str, seconds: u64| ScannedFile { name: String::from(name), pack: Some((seconds, 0, 10)) };
    let files = vec![
        pack("pack-old.idx", 1),
        ScannedFile { name: String::from("pack-old.pack"), pack: None },
        pack("pack-new.idx", 2),
        ScannedFile { name: String::from("pack-new.pack"), pack: None },
        ScannedFile { name: String::from("pack-orphan.idx"), pack: None },
    ];
    let registry = scan_pack_registry(&files);
    assert_eq!((registry.idx_count, registry.pack_count), (3, 2));
    assert_eq!(registry.packs, vec![String::from("pack-new.idx"), String::from("pack-old.idx")]);
    assert_eq!(find_in_pack_registry(3, None), vec![0, 1, 2]);
    assert_eq!(find_in_pack_registry(3, Some(1)), vec![1, 0, 2]);
    let grown = scan_pack_registry(&vec![pack("pack-old.idx", 1)]);
    assert!(registry_is_current(Some(5), &registry, Some(5), &registry));
    assert!(!registry_is_current(Some(5), &registry, Some(6), &grown));
}

#[test]
fn small_text_files_are_read_leniently() {
    assert_eq!(
        read_trimmed_lines(b" one \n\ntwo\r\n"),
        vec![String::from("one"), String::from("two")]
    );
    assert_eq!(cache_budget_from_env(Some("4096"), 7), 4096);
    assert_eq!(cache_budget_from_env(Some("lots"), 7), 7);
    assert_eq!(cache_budget_from_env(None, 7), 7);
}

#[test]
fn repository_objects_dir_uses_linked_worktree_common_dir() {
    let common = repository_common_dir("/repo/.git/worktrees/linked", None, Some(b"../..\n"));
    assert_eq!(common, "/repo/.git/worktrees/linked/../..");
    assert_eq!(repository_objects_dir(None, &common), "/repo/.git/worktrees/linked/../../objects");
    assert_eq!(repository_common_dir("/repo/.git", None, Some(b"/shared/.git")), "/shared/.git");
    assert_eq!(repository_common_dir("/repo/.git", None, None), "/repo/.git");
    assert_eq!(repository_common_dir("/repo/.git", Some("/env"), Some(b"../..\n")), "/env");
    assert_eq!(repository_objects_dir(Some("/objects"), "/env"), "/objects");
}
