use std::sync::Arc;

use sley_odb::cruft::rescue_and_expire_cruft_objects;
use sley_odb::cruft::CruftObject;
use sley_odb::cruft_repack::build_cruft_packs_from_mtimes;
use sley_odb::cruft_repack::check_unpacked_identity;
use sley_odb::cruft_repack::finish_all_repack;
use sley_odb::cruft_repack::finish_cruft_repack;
use sley_odb::cruft_repack::finish_promisor_repack;
use sley_odb::cruft_repack::install_repack_with_unpacked_unreachable;
use sley_odb::cruft_repack::repack_all_objects;
use sley_odb::cruft_repack::repack_cruft;
use sley_odb::cruft_repack::repack_cruft_with_options_and_max_size;
use sley_odb::cruft_repack::repack_cruft_with_pack_options;
use sley_odb::cruft_repack::repack_cruft_with_pack_options_and_recent_roots;
use sley_odb::cruft_repack::repack_promisor_objects;
use sley_odb::cruft_repack::repack_reachable_objects_unpack_unreachable;
use sley_odb::cruft_repack::CruftPackOptions;
use sley_odb::cruft_repack::CruftRepackInputs;
use sley_odb::cruft_repack::UnpackInstallStep;
use sley_odb::cruft_split::build_one_cruft_pack;
use sley_odb::cruft_split::cruft_mtimes_table;
use sley_odb::cruft_split::CruftPack;
use sley_odb::database::ObjectDatabase;
use sley_odb::error::GitError;
use sley_odb::geometry::compute_geometry_split;
use sley_odb::geometry::geometric_repack_plan;
use sley_odb::geometry::GeometricRepackOptions;
use sley_odb::geometry::GeometryPack;
use sley_odb::geometry_midx::geometric_repack_midx_selection;
use sley_odb::geometry_midx::DirectoryFile;
use sley_odb::geometry_repack::finish_geometric_repack;
use sley_odb::geometry_repack::repack_geometric;
use sley_odb::geometry_repack::repack_geometric_with_options;
use sley_odb::hex_id::from_hex;
use sley_odb::install_plan::CruftRepackResult;
use sley_odb::install_plan::PackOp;
use sley_odb::install_plan::ParsedCruft;
use sley_odb::install_plan::ParsedCruftResult;
use sley_odb::loose_repack::finish_loose_repack;
use sley_odb::loose_repack::repack_loose_objects;
use sley_odb::loose_repack::repack_reachable_loose_objects;
use sley_odb::object::digest_bytes;
use sley_odb::object::CommitLinks;
use sley_odb::object::EncodedObject;
use sley_odb::object::ObjectContent;
use sley_odb::object::ObjectType;
use sley_odb::object::TreeEntry;
use sley_odb::object::TreeEntryKind;
use sley_odb::object::ObjectReader;
use sley_odb::object::ObjectWriter;
use sley_odb::object_id::ObjectFormat;
use sley_odb::object_id::ObjectId;
use sley_odb::object_times::object_mtimes_on_disk;
use sley_odb::object_times::packed_object_mtimes;
use sley_odb::object_times::DatedPack;
use sley_odb::oid_map::OidMap;
use sley_odb::oid_map::OidSet;
use sley_odb::pack_assemble::write_undeltified_pack_entry;
use sley_odb::pack_file::PackFile;
use sley_odb::pack_file::PackIndexData;
use sley_odb::pack_file::PackIndexEntry;
use sley_odb::pack_file::PackWrite;
use sley_odb::pack_order::freshen_packed_object;
use sley_odb::pack_order::FreshenCandidate;
use sley_odb::pack_order::FreshenTarget;
use sley_odb::reachable_repack::repack_reachable_objects_with_blob_limit_to;
use sley_odb::install::BundlePrerequisites;
use sley_odb::install::RawPackInstallOptions;
use sley_odb::transfer::build_reachable_pack;
use sley_odb::unpack::BundleReference;
use sley_odb::raw_pack::install_bundle_pack;
use sley_odb::raw_pack::install_reachable_pack;
use sley_odb::raw_pack::RawPackInstallResult;
use sley_odb::raw_pack::RawPackInstaller;
use sley_odb::reachable_repack::repack_reachable_objects;
use sley_odb::reachable_repack::repack_reachable_objects_with_options;
use sley_odb::reachable_repack::ReachableRepackInputs;
use sley_odb::repack::finish_reachable_repack;
use sley_odb::repack::repack_result;
use sley_odb::repack::reuse_exact_single_pack;
use sley_odb::repack::superseded_stems;
use sley_odb::repack::LooseObjectPruneOutcome;
use sley_odb::repack::RepackInstallOptions;
use sley_odb::repack::RepackOptions;
use sley_odb::repack::RepackResult;
use sley_odb::repack_install::install_cruft_pack_at_prefix;
use sley_odb::repack_install::install_cruft_repack_result;
use sley_odb::repack_install::install_cruft_repack_result_with_expire_to;
use sley_odb::repack_install::install_geometric_repack_result;
use sley_odb::repack_install::install_repack_result;
use sley_odb::repack_install::install_repack_result_with_bitmap_options;
use sley_odb::repack_install::write_filtered_repack;
use sley_odb::repack_install::PruneView;
use sley_odb::transfer::ReachablePackObject;

fn blob(db: &mut ObjectDatabase, body: &[u8]) -> ObjectId {
    db.write_object(EncodedObject::blob(body.to_vec())).expect("write blob")
}

fn commit(db: &mut ObjectDatabase, tree: ObjectId, parents: Vec<ObjectId>, message: &str) -> ObjectId {
    let links = CommitLinks { tree, parents, committer: b"T <t@example.invalid> 1 +0000".to_vec() };
    let body = format!("tree {}\n\n{message}", tree.to_hex()).into_bytes();
    db.write_object(EncodedObject::with_content(body, ObjectContent::Commit(Ok(links)))).expect("write commit")
}

fn empty_tree(db: &mut ObjectDatabase) -> ObjectId {
    db.write_object(EncodedObject::with_content(Vec::new(), ObjectContent::Tree(Vec::new()))).expect("write tree")
}

fn write_commit_graph(db: &mut ObjectDatabase, payload: &[u8]) -> Vec<ObjectId> {
    let blob_oid = blob(db, payload);
    let mut body = b"100644 payload.txt\0".to_vec();
    body.extend_from_slice(&blob_oid.as_bytes());
    let entry = TreeEntry { kind: TreeEntryKind::Blob, name: b"payload.txt".to_vec(), oid: blob_oid };
    let tree_oid = db
        .write_object(EncodedObject::with_content(body, ObjectContent::Tree(vec![Ok(entry)])))
        .expect("write tree");
    let commit_oid = commit(db, tree_oid, Vec::new(), "initial\n");
    vec![commit_oid, tree_oid, blob_oid]
}

fn sorted(ids: &[ObjectId]) -> Vec<ObjectId> {
    let mut ids = ids.to_vec();
    ids.sort_by_key(|oid| oid.to_hex());
    ids
}

fn oids_of(objects: &[ReachablePackObject]) -> Vec<ObjectId> {
    objects.iter().map(|entry| entry.oid).collect()
}

fn cruft_oids(objects: &[CruftObject]) -> Vec<ObjectId> {
    objects.iter().map(|entry| entry.oid).collect()
}

fn read_all(db: &ObjectDatabase, ids: &[ObjectId]) -> Vec<ReachablePackObject> {
    ids.iter()
        .map(|oid| ReachablePackObject { oid: *oid, object: db.read_object(oid).expect("read") })
        .collect()
}

/// A pack of whole objects, and an index file that stands for itself.
fn write_pack(format: ObjectFormat, objects: &[ReachablePackObject]) -> PackWrite {
    let mut pack = b"PACK\0\0\0\x02".to_vec();
    pack.extend_from_slice(&(objects.len() as u32).to_be_bytes());
    let mut entries = Vec::new();
    for entry in objects {
        entries.push(PackIndexEntry { oid: entry.oid, crc32: 0, offset: pack.len() as u64 });
        write_undeltified_pack_entry(&mut pack, &entry.object).expect("write entry");
    }
    let checksum = digest_bytes(format, &pack);
    pack.extend_from_slice(&checksum.as_bytes());
    let mut index = b"index of ".to_vec();
    index.extend_from_slice(&checksum.as_bytes());
    PackWrite { pack, index, checksum, entries }
}

/// What the index file of a pack parses to.
fn parse_index(entries: &[PackIndexEntry], pack_checksum: ObjectId) -> Result<PackIndexData, GitError> {
    let mut entries: Vec<PackIndexEntry> = entries
        .iter()
        .map(|entry| PackIndexEntry { oid: entry.oid, crc32: entry.crc32, offset: entry.offset })
        .collect();
    entries.sort_by_key(|entry| entry.oid.to_hex());
    Ok(PackIndexData { entries, pack_checksum })
}

fn cruft_of(format: ObjectFormat, objects: &[CruftObject]) -> CruftPack {
    let reachable: Vec<ReachablePackObject> = objects
        .iter()
        .map(|entry| ReachablePackObject { oid: entry.oid, object: Arc::clone(&entry.object) })
        .collect();
    let written = write_pack(format, &reachable);
    let (times, oids) = cruft_mtimes_table(&written.entries, objects);
    let mut mtimes = Vec::new();
    for time in &times {
        mtimes.extend_from_slice(&time.to_be_bytes());
    }
    CruftPack {
        pack: written.pack,
        idx: written.index,
        rev: b"rev".to_vec(),
        mtimes,
        checksum: written.checksum,
        oids,
        index_entries: written.entries,
    }
}

fn parse_cruft(cruft: &CruftPack) -> ParsedCruft {
    ParsedCruft {
        index: parse_index(&cruft.index_entries, cruft.checksum),
        reverse_checksum: Ok(cruft.checksum),
        mtimes_checksum: Ok(cruft.checksum),
    }
}

fn plain_pack(stem: &str) -> PackFile {
    PackFile {
        stem: String::from(stem),
        size: 100,
        has_index: true,
        has_keep: false,
        has_promisor: false,
        has_mtimes: false,
    }
}

fn cruft_file(stem: &str, size: u64) -> PackFile {
    PackFile { size, has_mtimes: true, ..plain_pack(stem) }
}

fn no_disk() -> PruneView {
    PruneView { packs: Vec::new(), midx_pack_names: Vec::new() }
}

fn names(ops: &[PackOp]) -> Vec<String> {
    ops.iter()
        .map(|op| match op {
            PackOp::Write { name, .. } => format!("write {name}"),
            PackOp::Replace { name, .. } => format!("replace {name}"),
            PackOp::Remove { name } => format!("remove {name}"),
        })
        .collect()
}

fn times(pairs: &[(ObjectId, u32)]) -> OidMap<u32> {
    let mut map = OidMap::new();
    for (oid, time) in pairs {
        map.insert(*oid, *time);
    }
    map
}

fn cruft_inputs(files: Vec<PackFile>, listings: Vec<Vec<ObjectId>>, mtimes: OidMap<u32>) -> CruftRepackInputs {
    CruftRepackInputs {
        files,
        listings,
        promisor: OidSet::new(),
        present_roots: OidSet::new(),
        mtimes,
        alternates: OidSet::new(),
    }
}

fn repack_all(db: &ObjectDatabase, format: ObjectFormat, files: &[PackFile], ids: &[ObjectId], loose: &[ObjectId]) -> RepackResult {
    let objects = repack_all_objects(db, &OidSet::from_slice(ids))
        .expect("test operation should succeed")
        .expect("repository has objects");
    let written = write_pack(format, &objects);
    let obsolete = superseded_stems(files, &written.checksum);
    repack_result(
        written,
        &objects,
        obsolete,
        loose,
        Vec::new(),
        false,
        LooseObjectPruneOutcome::FollowUpRequired,
    )
}

fn repack_all_objects_consolidates_loose_and_pack(format: ObjectFormat) {
    let mut db = ObjectDatabase::new(format);
    // A pre-existing pack holds one blob; the rest of the graph is loose.
    let packed_oid = blob(&mut db, b"already packed\n");
    let existing = write_pack(format, &read_all(&db, &[packed_oid]));
    let stem = format!("pack-{}", existing.checksum.to_hex());
    let graph = write_commit_graph(&mut db, b"repack payload\n");
    let mut all = graph.clone();
    all.push(packed_oid);

    let result = repack_all(&db, format, &[plain_pack(&stem)], &all, &sorted(&graph));

    assert_eq!(result.object_count, all.len());
    assert_eq!(
        result.index_entries.iter().map(|entry| entry.oid).collect::<Vec<_>>(),
        sorted(&all)
    );
    // The pre-existing pack is reported obsolete.
    assert_eq!(result.obsolete_packs, vec![stem]);
    // Every loose object id is reported as now packed.
    assert_eq!(result.packed_loose, sorted(&graph));
    assert!(!result.packed_loose.contains(&packed_oid));
}

#[test]
fn repack_all_objects_consolidates_loose_and_pack_sha1() {
    repack_all_objects_consolidates_loose_and_pack(ObjectFormat::Sha1);
}

#[test]
fn repack_all_objects_consolidates_loose_and_pack_sha256() {
    repack_all_objects_consolidates_loose_and_pack(ObjectFormat::Sha256);
}

#[test]
fn repack_all_objects_returns_none_for_empty_repository() {
    let db = ObjectDatabase::new(ObjectFormat::Sha1);
    assert!(repack_all_objects(&db, &OidSet::new())
        .expect("test operation should succeed")
        .is_none());
}

fn repack_a_unpacks_unreachable_before_pruning(format: ObjectFormat) {
    let mut db = ObjectDatabase::new(format);
    let graph = write_commit_graph(&mut db, b"reachable graph\n");
    let unreachable = blob(&mut db, b"packed unreachable\n");
    let mut all = graph.clone();
    all.push(unreachable);
    let source = write_pack(format, &read_all(&db, &all));
    let stem = format!("pack-{}", source.checksum.to_hex());
    let files = vec![plain_pack(&stem)];
    let mtimes = packed_object_mtimes(&[DatedPack {
        has_pack: true,
        entries: source.entries,
        per_object: None,
        mtime: 123,
    }]);

    let outcome = repack_reachable_objects_unpack_unreachable(
        &db,
        &files,
        &OidSet::new(),
        &OidSet::new(),
        &mtimes,
        &[graph[0]],
        &RepackOptions::default(),
        None,
        &[],
    )
    .expect("build -A repack");
    assert_eq!(outcome.unpacked_oids(), vec![unreachable]);
    assert_eq!(outcome.unpacked[0].mtime, 123);
    assert_eq!(outcome.obsolete_packs, vec![stem]);

    // The object is loose before its pack goes.
    let written = outcome.unpacked[0].object.object_id(format);
    check_unpacked_identity(&unreachable, &written).expect("same identity");
    assert_eq!(install_repack_with_unpacked_unreachable(&outcome, true, 0), UnpackInstallStep::WriteLoose(0));
    assert_eq!(install_repack_with_unpacked_unreachable(&outcome, true, 1), UnpackInstallStep::PruneObsolete);
    assert_eq!(install_repack_with_unpacked_unreachable(&outcome, false, 1), UnpackInstallStep::Finished);
    let repack = repack_all(&db, format, &files, &graph, &[]);
    let outcome = outcome.with_repack(Some(repack));
    assert_eq!(install_repack_with_unpacked_unreachable(&outcome, true, 0), UnpackInstallStep::WriteLoose(0));
    assert_eq!(install_repack_with_unpacked_unreachable(&outcome, true, 1), UnpackInstallStep::InstallPack);
    assert_eq!(install_repack_with_unpacked_unreachable(&outcome, true, 2), UnpackInstallStep::Finished);
    assert_eq!(
        check_unpacked_identity(&unreachable, &graph[0]),
        Err(GitError::InvalidObject(String::from("unpacked unreachable object changed identity")))
    );
}

#[test]
fn sha1_repack_a_unpacks_unreachable_before_pruning() {
    repack_a_unpacks_unreachable_before_pruning(ObjectFormat::Sha1);
}

#[test]
fn sha256_repack_a_unpacks_unreachable_before_pruning() {
    repack_a_unpacks_unreachable_before_pruning(ObjectFormat::Sha256);
}

#[test]
fn old_unreachable_objects_are_not_unpacked() {
    let mut db = ObjectDatabase::new(ObjectFormat::Sha1);
    let old = blob(&mut db, b"old\n");
    let new = blob(&mut db, b"new\n");
    let wanted = blob(&mut db, b"old but recent\n");
    let loose = blob(&mut db, b"loose as well\n");
    let mtimes = times(&[(old, 10), (new, 11), (wanted, 10), (loose, 11)]);
    let outcome = repack_reachable_objects_unpack_unreachable(
        &db,
        &[],
        &OidSet::new(),
        &OidSet::from_slice(&[loose]),
        &mtimes,
        &[],
        &RepackOptions::default(),
        Some(10),
        &[wanted],
    )
    .expect("build -A repack");
    assert_eq!(outcome.unpacked_oids(), sorted(&[new, wanted]));
}

/// A store in which some objects cannot be read.
struct FaultyStore {
    db: ObjectDatabase,
    faulty: Vec<(ObjectId, &'static str)>,
}

impl ObjectReader for FaultyStore {
    fn object_at(&self, oid: ObjectId) -> Result<std::sync::Arc<EncodedObject>, GitError> {
        self.read_object(&oid)
    }

    fn grafted(&self, _oid: ObjectId) -> bool {
        false
    }

    fn promised(&self, _oid: ObjectId) -> bool {
        false
    }

    fn read_object(&self, oid: &ObjectId) -> Result<std::sync::Arc<EncodedObject>, GitError> {
        match self.faulty.iter().find(|(faulty, _)| faulty == oid) {
            Some((_, text)) => Err(GitError::Io(String::from(*text))),
            None => self.db.read_object(oid),
        }
    }

    fn is_shallow_graft(&self, _oid: &ObjectId) -> bool {
        false
    }

    fn is_promised_object(&self, _oid: &ObjectId) -> bool {
        false
    }
}

#[test]
fn expired_cruft_is_read_before_kept_cruft() {
    let mut db = ObjectDatabase::new(ObjectFormat::Sha1);
    let old = blob(&mut db, b"old\n");
    let new = blob(&mut db, b"new\n");
    let mtimes = || object_mtimes_on_disk(&[], &[(old, 100), (new, 200)]);
    let mut store = FaultyStore { db, faulty: vec![(new, "kept"), (old, "expired")] };
    let inputs = cruft_inputs(Vec::new(), Vec::new(), mtimes());
    let failure = |store: &FaultyStore| repack_cruft(store, &inputs, &[], Some(150)).err();
    assert_eq!(failure(&store), Some(GitError::Io(String::from("expired"))));
    store.faulty.pop();
    assert_eq!(failure(&store), Some(GitError::Io(String::from("kept"))));
}

fn rewriting_cruft_only_object_creates_loose_copy(format: ObjectFormat) {
    let mut db = ObjectDatabase::new(format);
    let oid = blob(&mut db, b"cruft-only object\n");

    let mtimes = object_mtimes_on_disk(&[], &[(oid, 100)]);
    let plan = repack_cruft(&db, &cruft_inputs(Vec::new(), Vec::new(), mtimes), &[], None)
        .expect("build cruft repack");
    assert_eq!(cruft_oids(&plan.cruft), vec![oid]);
    let first = cruft_of(format, &plan.cruft);
    assert_eq!(first.oids, vec![oid]);

    // Cruft packs preserve an mtime per object. Rewriting an object which
    // exists only in such a pack must therefore create a loose copy rather
    // than freshening the pack (and implicitly every object in it).
    let candidates = vec![FreshenCandidate {
        index_name: format!("pack-{}.idx", first.checksum.to_hex()),
        has_mtimes: true,
        has_pack: true,
        lists_object: true,
    }];
    assert_eq!(freshen_packed_object(true, &candidates), FreshenTarget::Nothing);

    // Repacking the same object produces the same pack checksum, but must
    // replace the mutable `.mtimes` sidecar with the fresher loose mtime.
    let stem = format!("pack-{}", first.checksum.to_hex());
    let packed = DatedPack {
        has_pack: true,
        entries: parse_index(&first.index_entries, first.checksum).expect("index").entries,
        per_object: Some(vec![100]),
        mtime: 150,
    };
    let mtimes = object_mtimes_on_disk(&[packed], &[(oid, 200)]);
    let inputs = cruft_inputs(vec![cruft_file(&stem, 50)], vec![vec![oid]], mtimes);
    let plan = repack_cruft(&db, &inputs, &[], None).expect("refresh cruft repack");
    let refreshed = cruft_of(format, &plan.cruft);
    assert_eq!(refreshed.checksum, first.checksum);
    let (table, _) = cruft_mtimes_table(&refreshed.index_entries, &plan.cruft);
    assert_eq!(table, vec![200]);
    let parsed = ParsedCruftResult {
        reachable_index: Err(GitError::Cancelled),
        cruft: vec![parse_cruft(&refreshed)],
        expired: None,
    };
    let result = CruftRepackResult {
        reachable: None,
        cruft: Some(refreshed),
        additional_cruft: Vec::new(),
        expired: None,
        obsolete_packs: Vec::new(),
        obsolete_cruft_packs: vec![stem.clone()],
        retained_pack_stems: Vec::new(),
    };
    let disk = PruneView { packs: vec![cruft_file(&stem, 50)], midx_pack_names: Vec::new() };
    let steps = install_cruft_repack_result(format, &result, parsed, &[], true, &disk, &[oid])
        .expect("install refreshed cruft repack");
    assert_eq!(
        names(&steps.writes),
        vec![
            format!("write {stem}.pack"),
            format!("write {stem}.rev"),
            format!("replace {stem}.mtimes"),
            format!("write {stem}.idx"),
        ]
    );
    let prune = steps.prune.expect("pruning was asked for");
    assert!(prune.packs.removed_stems.is_empty());
    assert_eq!(prune.loose, vec![oid]);
}

#[test]
fn rewriting_sha1_cruft_only_object_creates_loose_copy() {
    rewriting_cruft_only_object_creates_loose_copy(ObjectFormat::Sha1);
}

#[test]
fn rewriting_sha256_cruft_only_object_creates_loose_copy() {
    rewriting_cruft_only_object_creates_loose_copy(ObjectFormat::Sha256);
}

fn expired_cruft_pack_survives_source_pruning(format: ObjectFormat) {
    let mut db = ObjectDatabase::new(format);
    let stale = blob(&mut db, b"stale cruft\n");
    let recent = blob(&mut db, b"recent cruft\n");
    let stem = "pack-initial";
    let inputs = cruft_inputs(
        vec![cruft_file(stem, 80)],
        vec![vec![stale, recent]],
        times(&[(stale, 100), (recent, 200)]),
    );
    let plan = repack_cruft(&db, &inputs, &[], Some(150)).expect("build expiring repack");
    assert_eq!(cruft_oids(&plan.cruft), vec![recent]);
    assert_eq!(cruft_oids(&plan.expired), vec![stale]);
    assert_eq!(plan.superseded.cruft_packs, vec![String::from(stem)]);
    assert!(plan.retained_cruft_pack_stems.is_empty());

    let cruft = cruft_of(format, &plan.cruft);
    let expired = cruft_of(format, &plan.expired);
    let parsed = ParsedCruftResult {
        reachable_index: Err(GitError::Cancelled),
        cruft: vec![parse_cruft(&cruft)],
        expired: Some(parse_cruft(&expired)),
    };
    let expired_hex = expired.checksum.to_hex();
    let parsed_expired = parse_cruft(&expired);
    let result = CruftRepackResult {
        reachable: None,
        cruft: Some(cruft),
        additional_cruft: Vec::new(),
        expired: Some(expired),
        obsolete_packs: plan.superseded.packs,
        obsolete_cruft_packs: plan.superseded.cruft_packs,
        retained_pack_stems: plan.retained_pack_stems,
    };
    let disk = PruneView { packs: vec![cruft_file(stem, 80)], midx_pack_names: Vec::new() };
    let steps = install_cruft_repack_result(format, &result, parsed, &[], true, &disk, &[]).expect("install");
    assert_eq!(steps.prune.expect("prune").packs.removed_stems, vec![String::from(stem)]);

    let pack = result.expired.as_ref().expect("expired pack");
    let ops = install_cruft_pack_at_prefix(format, pack, parsed_expired, "pack").expect("install expired pack");
    assert_eq!(names(&ops)[0], format!("write pack-{expired_hex}.pack"));
    assert_eq!(pack.oids, vec![stale]);
}

#[test]
fn sha1_expired_cruft_pack_survives_source_pruning() {
    expired_cruft_pack_survives_source_pruning(ObjectFormat::Sha1);
}

#[test]
fn sha256_expired_cruft_pack_survives_source_pruning() {
    expired_cruft_pack_survives_source_pruning(ObjectFormat::Sha256);
}

fn on_disk(files: Vec<PackFile>, listings: Vec<Vec<ObjectId>>) -> ReachableRepackInputs<ObjectDatabase> {
    ReachableRepackInputs {
        files,
        listings,
        promisor: OidSet::new(),
        alternates: Vec::new(),
        alternate_packed: Vec::new(),
    }
}

#[test]
fn reachable_repack_reuses_exact_single_pack_bytes() {
    let format = ObjectFormat::Sha1;
    let mut db = ObjectDatabase::new(format);
    let graph = write_commit_graph(&mut db, b"exact pack reuse\n");
    let source = write_pack(format, &read_all(&db, &graph));
    let stem = format!("pack-{}", source.checksum.to_hex());
    let files = vec![plain_pack(&stem)];
    let inputs = on_disk(vec![plain_pack(&stem)], vec![graph.clone()]);
    let plan = repack_reachable_objects_with_options(&db, &inputs, &[graph[0]], &RepackOptions::default())
        .expect("repack exact reachable set");
    assert!(plan.may_reuse);
    let objects = plan.objects.expect("reachable objects exist");

    let result = reuse_exact_single_pack(
        format,
        &files,
        source.index.clone(),
        parse_index(&source.entries, source.checksum).ok(),
        Some(source.pack.clone()),
        &objects,
        &[],
        plan.retained_pack_stems,
        &OidSet::new(),
    )
    .expect("reuse")
    .expect("exact pack");
    assert_eq!(result.pack, source.pack);
    assert_eq!(result.idx, source.index);
    assert_eq!(result.object_count, graph.len());
    assert!(result.obsolete_packs.is_empty());
    assert_eq!(result.loose_object_prune_outcome(), LooseObjectPruneOutcome::Complete);

    let mut damaged = source.pack.clone();
    let last = damaged.len() - 1;
    damaged[last] ^= 1;
    assert!(reuse_exact_single_pack(
        format,
        &files,
        source.index.clone(),
        parse_index(&source.entries, source.checksum).ok(),
        Some(damaged),
        &objects,
        &[],
        Vec::new(),
        &OidSet::new(),
    )
    .is_err());
}

/// Keeps the packs that it is handed, and answers with ids given beforehand.
#[derive(Default)]
struct RecordingInstaller {
    packs: std::cell::RefCell<Vec<Vec<u8>>>,
    installed: std::cell::RefCell<Vec<ObjectId>>,
}

impl RawPackInstaller for RecordingInstaller {
    fn install_raw_pack_with_options(
        &self,
        pack: &[u8],
        _options: RawPackInstallOptions,
    ) -> Result<RawPackInstallResult, GitError> {
        self.packs.borrow_mut().push(pack.to_vec());
        let object_ids = self.installed.borrow().clone();
        Ok(RawPackInstallResult { object_ids })
    }
}

#[test]
fn install_helpers_accept_custom_raw_pack_installer() {
    let format = ObjectFormat::Sha1;
    let mut source = ObjectDatabase::new(format);
    let oid = blob(&mut source, b"custom raw installer\n");
    let installer = RecordingInstaller::default();
    installer.installed.borrow_mut().push(oid);

    let objects = build_reachable_pack(&source, &[oid], &OidSet::new())
        .expect("test operation should succeed")
        .expect("one object is reachable");
    let result = install_reachable_pack(Ok(Some(write_pack(format, &objects))), &installer)
        .expect("test operation should succeed")
        .expect("custom installer should receive pack");

    assert_eq!(result.object_ids, installer.installed.into_inner());
    let packs = installer.packs.into_inner();
    assert_eq!(packs.len(), 1);
    assert!(packs[0].starts_with(b"PACK"));
}

#[test]
fn nothing_is_handed_on_where_there_is_nothing_to_pack() {
    let installer = RecordingInstaller::default();
    assert_eq!(install_reachable_pack(Ok(None), &installer), Ok(None));
    assert!(install_reachable_pack(Err(GitError::Cancelled), &installer).is_err());
    assert!(installer.packs.into_inner().is_empty());
}

#[test]
fn install_bundle_pack_writes_pack_and_returns_refs() {
    let format = ObjectFormat::Sha1;
    let mut source = ObjectDatabase::new(format);
    let oid = blob(&mut source, b"bundle pack object\n");
    let pack = write_pack(format, &read_all(&source, &[oid]));
    let reference = || vec![BundleReference { oid, name: String::from("refs/heads/main") }];
    let reader = ObjectDatabase::new(format);
    let installer = RecordingInstaller::default();
    installer.installed.borrow_mut().push(oid);
    let none = BundlePrerequisites { format, oids: Vec::new() };
    let result = install_bundle_pack(&none, reference(), &pack.pack, &reader, &installer).expect("install");
    assert_eq!(result.written_objects, vec![oid]);
    assert_eq!(result.references, reference());
    assert_eq!(*installer.packs.borrow(), vec![pack.pack.clone()]);

    let unmet = BundlePrerequisites { format, oids: vec![oid] };
    assert!(install_bundle_pack(&unmet, reference(), &pack.pack, &reader, &installer).is_err());
    assert_eq!(installer.packs.into_inner().len(), 1);
}

#[test]
fn a_repack_with_default_options_packs_what_is_reachable() {
    let mut db = ObjectDatabase::new(ObjectFormat::Sha1);
    let graph = write_commit_graph(&mut db, b"default options\n");
    let unreachable = blob(&mut db, b"left behind\n");
    let mut all = graph.clone();
    all.push(unreachable);
    let inputs = on_disk(vec![plain_pack("pack-a")], vec![all]);
    let plan = repack_reachable_objects(&db, &inputs, &[graph[0]]).expect("plan");
    let objects = plan.objects.expect("objects");
    assert_eq!(objects.len(), graph.len());
    assert!(objects.iter().all(|entry| graph.contains(&entry.oid)));
}

#[test]
fn reachable_repack_does_not_reuse_pack_with_unreachable_object() {
    let format = ObjectFormat::Sha1;
    let mut db = ObjectDatabase::new(format);
    let graph = write_commit_graph(&mut db, b"reachable payload\n");
    let unreachable = blob(&mut db, b"unreachable\n");
    let mut all = graph.clone();
    all.push(unreachable);
    let source = write_pack(format, &read_all(&db, &all));
    let stem = format!("pack-{}", source.checksum.to_hex());
    let files = vec![plain_pack(&stem)];
    let inputs = on_disk(vec![plain_pack(&stem)], vec![all]);
    let plan = repack_reachable_objects_with_options(&db, &inputs, &[graph[0]], &RepackOptions::default())
        .expect("repack reachable subset");
    let objects = plan.objects.expect("reachable objects exist");
    assert!(reuse_exact_single_pack(
        format,
        &files,
        source.index.clone(),
        parse_index(&source.entries, source.checksum).ok(),
        Some(source.pack.clone()),
        &objects,
        &[],
        Vec::new(),
        &OidSet::new(),
    )
    .expect("not reused")
    .is_none());
    let written = write_pack(format, &objects);
    let result = finish_reachable_repack(written, &objects, &files, &[], Vec::new(), &OidSet::new());
    assert_eq!(result.object_count, graph.len());
    assert_ne!(result.pack, source.pack);
    assert_eq!(result.obsolete_packs.len(), 1);
}

#[test]
fn reachable_repack_force_rewrite_bypasses_exact_pack_reuse() {
    let format = ObjectFormat::Sha1;
    let mut db = ObjectDatabase::new(format);
    let graph = write_commit_graph(&mut db, b"forced rewrite\n");
    let mut reversed = graph.clone();
    reversed.reverse();
    let source = write_pack(format, &read_all(&db, &reversed));
    let stem = format!("pack-{}", source.checksum.to_hex());
    let options = RepackOptions { force_rewrite: true, ..RepackOptions::default() };
    let inputs = on_disk(vec![plain_pack(&stem)], vec![graph.clone()]);
    let plan = repack_reachable_objects_with_options(&db, &inputs, &[graph[0]], &options)
        .expect("force rewrite reachable set");
    assert!(!plan.may_reuse);
    let objects = plan.objects.expect("reachable objects exist");
    let written = write_pack(format, &objects);
    let result =
        finish_reachable_repack(written, &objects, &[plain_pack(&stem)], &[], plan.retained_pack_stems, &OidSet::new());
    assert_eq!(result.object_count, graph.len());
    assert_ne!(result.pack, source.pack);
    assert_eq!(result.obsolete_packs.len(), 1);
}

#[test]
fn reachable_repack_leaves_kept_packs_alone_and_borrows_what_it_reaches() {
    let format = ObjectFormat::Sha1;
    let mut db = ObjectDatabase::new(format);
    let graph = write_commit_graph(&mut db, b"kept payload\n");
    let mut alternate = ObjectDatabase::new(format);
    let reached = blob(&mut alternate, b"reached\n");
    let stray = blob(&mut alternate, b"stray\n");
    let loose = blob(&mut alternate, b"in no pack\n");
    let entries = [("loose", loose), ("reached", reached)]
        .iter()
        .map(|(name, oid)| Ok(TreeEntry { kind: TreeEntryKind::Blob, name: name.as_bytes().to_vec(), oid: *oid }))
        .collect();
    let tree = db
        .write_object(EncodedObject::with_content(b"borrowing".to_vec(), ObjectContent::Tree(entries)))
        .expect("tree");
    let kept = PackFile { has_keep: true, ..plain_pack("pack-kept") };
    let mut inputs = on_disk(vec![kept], vec![vec![graph[2]]]);
    inputs.alternates.push(alternate);
    inputs.alternate_packed.push(OidSet::from_slice(&[reached, stray]));
    let roots = [graph[0], tree];
    let plan = repack_reachable_objects_with_options(&db, &inputs, &roots, &RepackOptions::default()).expect("plan");
    assert_eq!(plan.retained_pack_stems, vec![String::from("pack-kept")]);
    let oids = oids_of(&plan.objects.expect("objects"));
    assert!(!oids.contains(&graph[2]));
    assert_eq!(sorted(&oids), sorted(&[graph[0], graph[1], tree, reached]));
    let local = RepackOptions { local: true, ..RepackOptions::default() };
    let plan = repack_reachable_objects_with_options(&db, &inputs, &roots, &local).expect("plan");
    assert_eq!(sorted(&oids_of(&plan.objects.expect("objects"))), sorted(&[graph[0], graph[1], tree]));

    let plan = repack_reachable_objects(&db, &inputs, &[]).expect("plan");
    assert!(plan.objects.is_none());
    let plan = repack_reachable_objects(&db, &inputs, &[ObjectId::null(format)]).expect("plan");
    assert!(plan.objects.is_none());
}

#[test]
fn blob_limits_set_large_blobs_apart_unless_they_are_roots() {
    let mut db = ObjectDatabase::new(ObjectFormat::Sha1);
    let large = blob(&mut db, &[b'x'; 64]);
    let root = blob(&mut db, &[b'y'; 64]);
    let entry = TreeEntry { kind: TreeEntryKind::Blob, name: b"large".to_vec(), oid: large };
    let tree = db
        .write_object(EncodedObject::with_content(b"t".to_vec(), ObjectContent::Tree(vec![Ok(entry)])))
        .expect("tree");
    let plan = repack_reachable_objects_with_blob_limit_to(
        &db,
        &on_disk(Vec::new(), Vec::new()),
        &[tree, root],
        &RepackOptions::default(),
        64,
    )
    .expect("plan");
    assert_eq!(oids_of(&plan.filtered_out), vec![large]);
    assert_eq!(sorted(&oids_of(&plan.objects.expect("objects"))), sorted(&[tree, root]));
    assert!(!plan.may_reuse);
}

#[test]
fn install_repack_result_writes_pack_without_pruning_by_default() {
    let format = ObjectFormat::Sha1;
    let mut db = ObjectDatabase::new(format);
    let graph = write_commit_graph(&mut db, b"install no prune\n");
    let result = repack_all(&db, format, &[], &graph, &sorted(&graph));
    let stem = format!("pack-{}", result.pack_checksum.to_hex());
    let parsed = parse_index(&result.index_entries, result.pack_checksum);
    let steps = install_repack_result(format, &result, parsed, false, b"rev".to_vec(), &no_disk())
        .expect("test operation should succeed");
    assert_eq!(
        names(&steps.writes),
        vec![format!("write {stem}.pack"), format!("write {stem}.rev"), format!("write {stem}.idx")]
    );
    // Loose objects survive because prune was not requested.
    assert!(steps.prune.is_none());
}

#[test]
fn install_repack_result_prunes_obsolete_packs_and_loose_objects() {
    let format = ObjectFormat::Sha1;
    let mut db = ObjectDatabase::new(format);
    let packed = blob(&mut db, b"prune packed\n");
    let graph = write_commit_graph(&mut db, b"prune payload\n");
    let mut all = graph.clone();
    all.push(packed);
    let result = repack_all(&db, format, &[plain_pack("pack-existing")], &all, &sorted(&graph));
    let stem = format!("pack-{}", result.pack_checksum.to_hex());
    let disk = PruneView {
        packs: vec![plain_pack("pack-bystander"), plain_pack("pack-existing"), plain_pack(&stem)],
        midx_pack_names: vec![String::from("pack-other.idx"), String::from("pack-existing.idx")],
    };
    let parsed = parse_index(&result.index_entries, result.pack_checksum);
    let steps = install_repack_result(format, &result, parsed, true, Vec::new(), &disk).expect("install");
    let prune = steps.prune.expect("prune");
    // The obsolete pack and its sidecars go; the new pack stays.
    assert_eq!(prune.packs.removed_stems, vec![String::from("pack-existing")]);
    assert_eq!(
        names(&prune.packs.ops),
        ["pack", "idx", "rev", "mtimes", "bitmap", "promisor"]
            .iter()
            .map(|extension| format!("remove pack-existing.{extension}"))
            .collect::<Vec<_>>()
    );
    assert_eq!(prune.loose, sorted(&graph));
    assert!(prune.drop_multi_pack_index);
}

#[test]
fn install_repack_result_preserves_keep_and_promisor_packs() {
    let format = ObjectFormat::Sha1;
    let mut db = ObjectDatabase::new(format);
    let kept = blob(&mut db, b"keep protected\n");
    let promised = blob(&mut db, b"promisor protected\n");
    let graph = write_commit_graph(&mut db, b"new consolidated payload\n");
    let mut all = graph.clone();
    all.push(kept);
    all.push(promised);
    let keep_pack = PackFile { has_keep: true, ..plain_pack("pack-keep") };
    let promisor_pack = PackFile { has_promisor: true, ..plain_pack("pack-promisor") };
    let files = vec![keep_pack.copy(), promisor_pack.copy()];
    let result = repack_all(&db, format, &files, &all, &sorted(&graph));
    assert!(result.obsolete_packs.contains(&String::from("pack-keep")));
    assert!(result.obsolete_packs.contains(&String::from("pack-promisor")));
    let disk = PruneView { packs: files, midx_pack_names: vec![String::from("pack-keep.idx")] };
    let parsed = parse_index(&result.index_entries, result.pack_checksum);
    let steps = install_repack_result(format, &result, parsed, true, Vec::new(), &disk).expect("install");
    let prune = steps.prune.expect("prune");
    assert!(prune.packs.removed_stems.is_empty());
    assert!(prune.packs.ops.is_empty());
    assert!(!prune.drop_multi_pack_index);
    assert_eq!(prune.loose, sorted(&graph));
}

#[test]
fn install_repack_result_keeps_loose_object_absent_from_new_pack() {
    // Safety: a loose object whose id is not in the new pack must survive
    // pruning even if the caller lists it in `packed_loose`.
    let format = ObjectFormat::Sha1;
    let mut db = ObjectDatabase::new(format);
    let graph = write_commit_graph(&mut db, b"safety packed\n");
    let mut result = repack_all(&db, format, &[], &graph, &sorted(&graph));
    let stray = blob(&mut db, b"never packed\n");
    assert!(!result.packed_loose.contains(&stray));
    result.packed_loose.push(stray);
    let parsed = parse_index(&result.index_entries, result.pack_checksum);
    let steps = install_repack_result(format, &result, parsed, true, Vec::new(), &no_disk()).expect("install");
    let prune = steps.prune.expect("prune");
    assert_eq!(prune.loose, sorted(&graph));
}

#[test]
fn install_rejects_results_that_were_changed() {
    let format = ObjectFormat::Sha1;
    let mut db = ObjectDatabase::new(format);
    let graph = write_commit_graph(&mut db, b"tampered\n");
    let result = repack_all(&db, format, &[], &graph, &[]);
    let options = RepackInstallOptions::new(false).with_reverse_index(false).with_bitmap_extensions(true, false);
    let stem = format!("pack-{}", result.pack_checksum.to_hex());
    let parsed = parse_index(&result.index_entries, result.pack_checksum);
    let steps = install_repack_result_with_bitmap_options(
        format,
        &result,
        parsed,
        options,
        Vec::new(),
        Some(b"bitmap".to_vec()),
        &no_disk(),
    )
    .expect("install");
    assert_eq!(
        names(&steps.writes),
        vec![
            format!("write {stem}.pack"),
            format!("remove {stem}.rev"),
            format!("write {stem}.idx"),
            format!("remove {stem}.bitmap"),
            format!("write {stem}.bitmap"),
        ]
    );
    let other = digest_bytes(format, b"other");
    assert_eq!(
        install_repack_result(
            format,
            &result,
            parse_index(&result.index_entries, other),
            false,
            Vec::new(),
            &no_disk()
        )
        .err(),
        Some(GitError::InvalidFormat(String::from("repack index checksum does not match the new pack")))
    );
    assert_eq!(
        install_repack_result(
            format,
            &result,
            parse_index(&result.index_entries[1..], result.pack_checksum),
            false,
            Vec::new(),
            &no_disk()
        )
        .err(),
        Some(GitError::InvalidFormat(String::from("repack index does not match the new pack contents")))
    );
    assert_eq!(
        install_repack_result(format, &result, Err(GitError::Cancelled), false, Vec::new(), &no_disk()).err(),
        Some(GitError::Cancelled)
    );
}

#[test]
fn geometric_follow_reachable_rescues_once_cruft_dependencies() {
    let mut db = ObjectDatabase::new(ObjectFormat::Sha1);
    let tree = empty_tree(&mut db);
    let parent = commit(&mut db, tree, Vec::new(), "once cruft\n");
    let child = commit(&mut db, tree, vec![parent], "reachable again\n");
    let packs = vec![GeometryPack { file: cruft_file("pack-cruft", 100), oids: vec![tree, parent] }];

    let ordinary = repack_geometric(&db, &packs, 2, &[], &[child])
        .expect("ordinary geometric repack")
        .objects
        .expect("pack child");
    assert_eq!(oids_of(&ordinary), vec![child]);

    let followed = repack_geometric_with_options(
        &db,
        &packs,
        2,
        &[],
        &[child],
        GeometricRepackOptions { follow_reachable: true },
    )
    .expect("follow-reachable geometric repack")
    .objects
    .expect("pack followed closure");
    assert_eq!(oids_of(&followed), sorted(&[tree, parent, child]));
}

#[test]
fn geometric_repack_rolls_up_the_small_packs() {
    let format = ObjectFormat::Sha1;
    let mut db = ObjectDatabase::new(format);
    let ids: Vec<ObjectId> = (0..20u8).map(|n| blob(&mut db, &[n])).collect();
    let packs = vec![
        GeometryPack { file: plain_pack("pack-large"), oids: ids[..12].to_vec() },
        GeometryPack { file: plain_pack("pack-small"), oids: ids[12..14].to_vec() },
        GeometryPack { file: plain_pack("pack-tiny"), oids: ids[14..16].to_vec() },
        GeometryPack { file: PackFile { has_keep: true, ..plain_pack("pack-kept") }, oids: vec![ids[16]] },
    ];
    assert_eq!(compute_geometry_split(&[2, 2, 12], 2), 2);
    assert_eq!(compute_geometry_split(&[1, 2, 4], 2), 0);
    let plan = geometric_repack_plan(&packs, 2, &[]);
    assert_eq!((plan.split, plan.pack_count), (2, 3));
    let loose = vec![ids[0], ids[19]];
    let rollup = repack_geometric(&db, &packs, 2, &[], &loose).expect("rollup");
    assert_eq!(rollup.rolled_up_packs, vec![String::from("pack-small"), String::from("pack-tiny")]);
    let objects = rollup.objects.expect("objects");
    // The loose copy of what the large pack serves is left alone.
    assert_eq!(oids_of(&objects), sorted(&[ids[12], ids[13], ids[14], ids[15], ids[19]]));

    let written = write_pack(format, &objects);
    let geometric = finish_geometric_repack(written, &objects, rollup.rolled_up_packs, &loose);
    let result = geometric.result.as_ref().expect("result");
    assert_eq!(result.packed_loose, vec![ids[19]]);
    assert_eq!(result.obsolete_packs, geometric.rolled_up_packs);
    let parsed = parse_index(&result.index_entries, result.pack_checksum);
    let disk = PruneView {
        packs: vec![plain_pack("pack-large"), plain_pack("pack-small"), PackFile { has_keep: true, ..plain_pack("pack-tiny") }],
        midx_pack_names: vec![String::from("pack-large.idx")],
    };
    let steps = install_geometric_repack_result(format, &geometric, parsed, Vec::new(), None, true, &disk)
        .expect("install");
    let prune = steps.prune.expect("prune");
    assert_eq!(prune.packs.removed_stems, vec![String::from("pack-small")]);
    assert_eq!(prune.loose, vec![ids[19]]);
    assert!(!prune.drop_multi_pack_index);

    let nothing = repack_geometric(&db, &packs[..1], 2, &[], &ids[..3]).expect("nothing new to pack");
    assert!(nothing.objects.is_none());
    assert!(nothing.rolled_up_packs.is_empty());
}

#[test]
fn geometric_midx_selection_excludes_cruft_unless_existing_midx_requires_it() {
    let checksum = from_hex(ObjectFormat::Sha1, b"1111111111111111111111111111111111111111").expect("checksum");
    let reachable_name = format!("pack-{}.idx", checksum.to_hex());
    let files = vec![
        DirectoryFile { name: reachable_name.clone(), is_cruft: false },
        DirectoryFile { name: String::from("pack-cruft.idx"), is_cruft: true },
        DirectoryFile { name: String::from("pack-cruft.mtimes"), is_cruft: true },
    ];
    let excluded = geometric_repack_midx_selection(&files, &Vec::new(), Some(&checksum), false, None);
    assert_eq!(excluded.pack_names, vec![reachable_name.clone()]);
    assert_eq!(excluded.preferred_pack_name, Some(reachable_name.clone()));

    let existing = vec![String::from("pack-cruft.idx")];
    let retained = geometric_repack_midx_selection(&files, &Vec::new(), Some(&checksum), false, Some(&existing));
    assert_eq!(retained.pack_names, vec![reachable_name, String::from("pack-cruft.idx")]);
}

#[test]
fn explicit_recent_root_rescues_old_cruft_closure() {
    let mut db = ObjectDatabase::new(ObjectFormat::Sha1);
    let tree = empty_tree(&mut db);
    let root = commit(&mut db, tree, Vec::new(), "hook root\n");
    let survivors = times(&[(tree, 1), (root, 1)]);

    let kept = rescue_and_expire_cruft_objects(&db, &survivors, 100, &[root]);
    assert!(kept.contains_key(&tree));
    assert!(kept.contains_key(&root));
    assert_eq!(kept.len(), 2);
    assert_eq!(rescue_and_expire_cruft_objects(&db, &survivors, 100, &[]).len(), 0);

    let inputs = cruft_inputs(Vec::new(), Vec::new(), times(&[(tree, 1), (root, 1)]));
    let plan = repack_cruft_with_pack_options_and_recent_roots(
        &db,
        &inputs,
        &[],
        &[root],
        Some(100),
        &RepackOptions::default(),
        &CruftPackOptions::default(),
    )
    .expect("plan");
    assert_eq!(cruft_oids(&plan.cruft), sorted(&[tree, root]));
    assert!(plan.expired.is_empty());
}

#[test]
fn local_cruft_repack_excludes_oid_already_present_in_alternate() {
    let mut db = ObjectDatabase::new(ObjectFormat::Sha1);
    let oid = blob(&mut db, b"duplicate unreachable\n");
    let mut inputs = cruft_inputs(Vec::new(), Vec::new(), times(&[(oid, 7)]));
    inputs.alternates.insert(oid);
    let local = RepackOptions { local: true, ..RepackOptions::default() };
    let plan = repack_cruft_with_pack_options(&db, &inputs, &[], None, &local, &CruftPackOptions::default())
        .expect("local cruft repack");
    assert!(plan.cruft.is_empty());
    let plan =
        repack_cruft_with_pack_options(&db, &inputs, &[], None, &RepackOptions::default(), &CruftPackOptions::default())
            .expect("cruft repack");
    assert_eq!(cruft_oids(&plan.cruft), vec![oid]);
}

#[test]
fn cruft_repack_parts_reachable_from_unreachable() {
    let mut db = ObjectDatabase::new(ObjectFormat::Sha1);
    let graph = write_commit_graph(&mut db, b"reachable\n");
    let orphan = blob(&mut db, b"orphan\n");
    let mut pairs: Vec<(ObjectId, u32)> = graph.iter().map(|oid| (*oid, 5)).collect();
    pairs.push((orphan, 5));
    let files = vec![plain_pack("pack-a"), PackFile { has_keep: true, ..plain_pack("pack-kept") }];
    let listings = vec![graph.clone(), vec![graph[2]]];
    let inputs = cruft_inputs(files, listings, times(&pairs));
    let plan = repack_cruft(&db, &inputs, &[graph[0]], None).expect("plan");
    assert_eq!(plan.max_pack_size, None);
    let options = RepackOptions::default();
    let limited = repack_cruft_with_options_and_max_size(&db, &inputs, &[graph[0]], None, &options, Some(4096));
    assert_eq!(limited.expect("plan").max_pack_size, Some(4096));
    assert_eq!(oids_of(&plan.reachable), sorted(&[graph[0], graph[1]]));
    assert_eq!(cruft_oids(&plan.cruft), vec![orphan]);
    assert_eq!(plan.retained_pack_stems, vec![String::from("pack-kept")]);
    assert_eq!(plan.superseded.packs, vec![String::from("pack-a")]);
}

#[test]
fn incremental_repack_skips_loose_copy_already_in_pack() {
    let format = ObjectFormat::Sha1;
    let mut db = ObjectDatabase::new(format);
    let packed = blob(&mut db, b"already packed\n");
    let new = blob(&mut db, b"new reachable loose object\n");
    let loose = sorted(&[packed, new]);
    let present = OidSet::from_slice(&[packed, new]);
    let objects = repack_reachable_loose_objects(
        &db,
        &[packed, new],
        &present,
        &OidSet::new(),
        &loose,
        &OidSet::from_slice(&[packed]),
    )
    .expect("incremental repack")
    .expect("new loose pack");
    assert_eq!(oids_of(&objects), vec![new]);
    let written = write_pack(format, &objects);
    let result = finish_loose_repack(written, &objects, &loose);
    assert_eq!(result.object_count, 1);
    assert_eq!(result.index_entries[0].oid, new);
    assert_eq!(result.packed_loose, vec![new]);
    assert!(result.obsolete_packs.is_empty());

    let all = repack_loose_objects(&db, &loose, &OidSet::from_slice(&[packed])).expect("loose").expect("some");
    assert_eq!(oids_of(&all), vec![new]);
    assert!(repack_loose_objects(&db, &loose, &present).expect("loose").is_none());
}

#[test]
fn incremental_repack_ignores_only_missing_roots() {
    let mut db = ObjectDatabase::new(ObjectFormat::Sha1);
    let present = blob(&mut db, b"reachable loose\n");
    let missing = from_hex(ObjectFormat::Sha1, b"ffffffffffffffffffffffffffffffffffffffff").expect("missing root oid");
    let objects = repack_reachable_loose_objects(
        &db,
        &[missing, present],
        &OidSet::from_slice(&[present]),
        &OidSet::new(),
        &[present],
        &OidSet::new(),
    )
    .expect("stale roots are ignored")
    .expect("reachable loose pack");
    assert_eq!(oids_of(&objects), vec![present]);

    let broken = commit(&mut db, missing, Vec::new(), "broken\n");
    assert!(repack_reachable_loose_objects(
        &db,
        &[broken],
        &OidSet::from_slice(&[broken]),
        &OidSet::new(),
        &[broken],
        &OidSet::new(),
    )
    .is_err());
}

fn pseudo_random_bytes(len: usize, mut seed: u32) -> Vec<u8> {
    let mut bytes = Vec::with_capacity(len);
    for _ in 0..len {
        seed = seed.wrapping_mul(1_664_525).wrapping_add(1_013_904_223);
        bytes.push((seed >> 24) as u8);
    }
    bytes
}

fn build_cruft_packs(
    db: &ObjectDatabase,
    survivors: &[(ObjectId, u32)],
    limit: Option<u64>,
) -> Result<Vec<CruftPack>, GitError> {
    let mut object_mtimes = OidMap::new();
    for (oid, mtime) in survivors {
        object_mtimes.insert(*oid, *mtime);
    }
    let mut options = CruftPackOptions::default();
    options.max_pack_size = limit;
    let mut split = build_cruft_packs_from_mtimes(db, ObjectFormat::Sha1, &object_mtimes, &options)?;
    loop {
        let pack = match split.next_group() {
            Some(group) => cruft_of(ObjectFormat::Sha1, group),
            None => return Ok(split.finish()),
        };
        split.accept(pack)?;
    }
}

#[test]
fn size_limited_cruft_build_uses_encoded_size_and_allows_one_oversized_object() {
    let mut db = ObjectDatabase::new(ObjectFormat::Sha1);
    let first = blob(&mut db, &vec![b'a'; 1024 * 1024]);
    let second = blob(&mut db, &vec![b'b'; 1024 * 1024]);
    let compressible = build_cruft_packs(&db, &[(first, 1), (second, 2)], Some(1024 * 1024))
        .expect("pack compressible cruft objects");
    assert_eq!(compressible.len(), 1);
    assert_eq!(compressible[0].oids.len(), 2);
    assert!(compressible[0].pack.len() < 1024 * 1024);

    let random_first = blob(&mut db, &pseudo_random_bytes(700 * 1024, 11));
    let random_second = blob(&mut db, &pseudo_random_bytes(700 * 1024, 29));
    let split = build_cruft_packs(&db, &[(random_first, 3), (random_second, 4)], Some(1024 * 1024))
        .expect("split incompressible cruft objects");
    assert_eq!(split.len(), 2);
    assert!(split.iter().all(|pack| pack.oids.len() == 1 && pack.pack.len() < 1024 * 1024));

    let oversized = blob(&mut db, &pseudo_random_bytes(2 * 1024 * 1024, 47));
    let oversized_pack = build_cruft_packs(&db, &[(oversized, 5)], Some(1024 * 1024))
        .expect("pack one oversized cruft object");
    assert_eq!(oversized_pack.len(), 1);
    assert_eq!(oversized_pack[0].oids, vec![oversized]);
    assert!(oversized_pack[0].pack.len() > 1024 * 1024);

    assert!(build_cruft_packs(&db, &[], None).expect("nothing").is_empty());
}

#[test]
fn selective_cruft_combination_retains_large_pack_and_rewrites_small_pack() {
    let mut db = ObjectDatabase::new(ObjectFormat::Sha1);
    let small_oid = blob(&mut db, &pseudo_random_bytes(32 * 1024, 1));
    let large_oid = blob(&mut db, &pseudo_random_bytes(128 * 1024, 2));
    let small = cruft_of(
        ObjectFormat::Sha1,
        &[CruftObject { oid: small_oid, mtime: 1, object: db.read_object(&small_oid).expect("read") }],
    );
    let large = cruft_of(
        ObjectFormat::Sha1,
        &[CruftObject { oid: large_oid, mtime: 2, object: db.read_object(&large_oid).expect("read") }],
    );
    let small_size = small.pack.len() as u64;
    let large_size = large.pack.len() as u64;
    assert!(small_size < large_size);
    let threshold = small_size + (large_size - small_size) / 2;
    let inputs = cruft_inputs(
        vec![cruft_file("pack-small", small_size), cruft_file("pack-large", large_size)],
        vec![vec![small_oid], vec![large_oid]],
        times(&[(small_oid, 1), (large_oid, 2)]),
    );
    let plan = repack_cruft_with_pack_options(
        &db,
        &inputs,
        &[],
        None,
        &RepackOptions::default(),
        &CruftPackOptions { combine_cruft_below_size: Some(threshold), ..CruftPackOptions::default() },
    )
    .expect("selective cruft repack");
    assert_eq!(cruft_oids(&plan.cruft), vec![small_oid]);
    assert_eq!(plan.superseded.cruft_packs, vec![String::from("pack-small")]);
    assert_eq!(plan.retained_cruft_pack_stems, vec![String::from("pack-large")]);
}

fn one_blob_cruft(body: &[u8]) -> CruftPack {
    let object = EncodedObject::blob(body.to_vec());
    let oid = object.object_id(ObjectFormat::Sha1);
    cruft_of(ObjectFormat::Sha1, &[CruftObject { oid, mtime: 123, object: Arc::new(object) }])
}

#[test]
fn cruft_prefix_installer_validates_every_component_before_mutation() {
    let format = ObjectFormat::Sha1;
    let body = b"validated cruft\n";
    let valid = one_blob_cruft(body);
    assert!(install_cruft_pack_at_prefix(format, &valid, parse_cruft(&valid), "pack").is_ok());
    let other = digest_bytes(format, b"other");

    let mut bad_pack = one_blob_cruft(body);
    bad_pack.pack[12] ^= 1;
    let parsed = parse_cruft(&bad_pack);
    assert!(install_cruft_pack_at_prefix(format, &bad_pack, parsed, "pack").is_err());

    let mut parsed = parse_cruft(&valid);
    parsed.index = Err(GitError::InvalidFormat(String::from("index checksum mismatch")));
    assert_eq!(
        install_cruft_pack_at_prefix(format, &valid, parsed, "pack").err(),
        Some(GitError::InvalidFormat(String::from("index checksum mismatch")))
    );
    let mut parsed = parse_cruft(&valid);
    parsed.index = parse_index(&valid.index_entries, other);
    assert_eq!(
        install_cruft_pack_at_prefix(format, &valid, parsed, "pack").err(),
        Some(GitError::InvalidFormat(String::from("cruft pack index does not match pack contents")))
    );
    let mut parsed = parse_cruft(&valid);
    parsed.reverse_checksum = Ok(other);
    assert_eq!(
        install_cruft_pack_at_prefix(format, &valid, parsed, "pack").err(),
        Some(GitError::InvalidFormat(String::from("cruft reverse index does not match pack checksum")))
    );
    let mut parsed = parse_cruft(&valid);
    parsed.mtimes_checksum = Ok(other);
    assert_eq!(
        install_cruft_pack_at_prefix(format, &valid, parsed, "pack").err(),
        Some(GitError::InvalidFormat(String::from("cruft mtimes does not match pack checksum")))
    );
    let mut bad_oids = one_blob_cruft(body);
    bad_oids.oids.clear();
    let parsed = parse_cruft(&bad_oids);
    assert_eq!(
        install_cruft_pack_at_prefix(format, &bad_oids, parsed, "pack").err(),
        Some(GitError::InvalidFormat(String::from("cruft object list does not match pack index")))
    );
}

fn expiring_result(expired: CruftPack) -> CruftRepackResult {
    CruftRepackResult {
        reachable: None,
        cruft: None,
        additional_cruft: Vec::new(),
        expired: Some(expired),
        obsolete_packs: vec![String::from("pack-obsolete")],
        obsolete_cruft_packs: Vec::new(),
        retained_pack_stems: Vec::new(),
    }
}

#[test]
fn expire_to_failure_leaves_source_pack_intact() {
    // The backup is a list of its own, done before anything of the source is.
    let format = ObjectFormat::Sha1;
    let cruft = one_blob_cruft(b"expired backup\n");
    let hex = cruft.checksum.to_hex();
    let parsed = ParsedCruftResult {
        reachable_index: Err(GitError::Cancelled),
        cruft: Vec::new(),
        expired: Some(parse_cruft(&cruft)),
    };
    let result = expiring_result(cruft);
    let disk = PruneView { packs: vec![plain_pack("pack-obsolete")], midx_pack_names: Vec::new() };
    let (backup, steps) = install_cruft_repack_result_with_expire_to(
        format,
        &result,
        parsed,
        &[],
        true,
        &disk,
        &[],
        Some("expired"),
    )
    .expect("plan");
    assert_eq!(
        names(&backup),
        vec![
            format!("write expired-{hex}.pack"),
            format!("write expired-{hex}.rev"),
            format!("replace expired-{hex}.mtimes"),
            format!("write expired-{hex}.idx"),
        ]
    );
    assert!(steps.writes.is_empty());
    assert_eq!(steps.prune.expect("prune").packs.removed_stems, vec![String::from("pack-obsolete")]);
}

#[test]
fn invalid_cruft_result_does_not_prune_source_pack() {
    let format = ObjectFormat::Sha1;
    let cruft = one_blob_cruft(b"invalid replacement\n");
    let mut parsed = parse_cruft(&cruft);
    parsed.reverse_checksum = Err(GitError::InvalidFormat(String::from("truncated reverse index")));
    let result = CruftRepackResult {
        reachable: None,
        cruft: Some(cruft),
        additional_cruft: Vec::new(),
        expired: None,
        obsolete_packs: vec![String::from("pack-obsolete")],
        obsolete_cruft_packs: Vec::new(),
        retained_pack_stems: Vec::new(),
    };
    let parsed = ParsedCruftResult {
        reachable_index: Err(GitError::Cancelled),
        cruft: vec![parsed],
        expired: None,
    };
    let disk = PruneView { packs: vec![plain_pack("pack-obsolete")], midx_pack_names: Vec::new() };
    assert_eq!(
        install_cruft_repack_result(format, &result, parsed, &[], true, &disk, &[]).err(),
        Some(GitError::InvalidFormat(String::from("truncated reverse index")))
    );
}

#[test]
fn promisor_packs_are_consolidated_when_there_are_two() {
    let mut db = ObjectDatabase::new(ObjectFormat::Sha1);
    let a = blob(&mut db, b"a");
    let b = blob(&mut db, b"b");
    let first = PackFile { has_promisor: true, ..plain_pack("pack-one") };
    let second = PackFile { has_promisor: true, ..plain_pack("pack-two") };
    let packs = vec![(first, vec![a]), (second, vec![b, a]), (plain_pack("pack-three"), vec![])];
    assert!(repack_promisor_objects(&db, &packs[..1]).expect("one").is_none());
    let objects = repack_promisor_objects(&db, &packs).expect("two").expect("some");
    assert_eq!(oids_of(&objects), sorted(&[a, b]));
    assert_eq!(objects[0].object.object_type(), ObjectType::Blob);
}

#[test]
fn the_latest_copy_dates_an_object() {
    let mut db = ObjectDatabase::new(ObjectFormat::Sha1);
    let a = blob(&mut db, b"a");
    let b = blob(&mut db, b"b");
    let entries = |ids: &[ObjectId]| -> Vec<PackIndexEntry> {
        ids.iter().map(|oid| PackIndexEntry { oid: *oid, crc32: 0, offset: 12 }).collect()
    };
    let packs = vec![
        DatedPack { has_pack: true, entries: entries(&[a, b]), per_object: Some(vec![5]), mtime: 9 },
        DatedPack { has_pack: false, entries: entries(&[a]), per_object: None, mtime: 100 },
    ];
    let mtimes = object_mtimes_on_disk(&packs, &[(a, 7), (b, 8)]);
    assert_eq!(mtimes.get(&a), Some(&7));
    assert_eq!(mtimes.get(&b), Some(&9));
}

#[test]
fn filtered_packs_are_named_by_prefix_and_checksum() {
    let mut db = ObjectDatabase::new(ObjectFormat::Sha1);
    let oid = blob(&mut db, b"large");
    let written = write_pack(ObjectFormat::Sha1, &read_all(&db, &[oid]));
    let hex = written.checksum.to_hex();
    assert_eq!(
        names(&write_filtered_repack(&written, "filtered")),
        vec![format!("write filtered-{hex}.pack"), format!("write filtered-{hex}.idx")]
    );
}

#[test]
fn repack_results_name_what_they_supersede() {
    let format = ObjectFormat::Sha1;
    let mut db = ObjectDatabase::new(format);
    let oid = blob(&mut db, b"one");
    let objects = read_all(&db, &[oid]);
    let promisor = PackFile { has_promisor: true, ..plain_pack("pack-promisor") };
    let packs = vec![(promisor, vec![oid]), (plain_pack("pack-plain"), vec![])];
    let result = finish_promisor_repack(write_pack(format, &objects), &objects, &packs, &[oid]);
    assert_eq!(result.obsolete_packs, vec![String::from("pack-promisor")]);
    assert!(result.promisor);
    let files = vec![plain_pack("pack-a"), plain_pack("pack-b")];
    let result = finish_all_repack(write_pack(format, &objects), &objects, &files, &[oid]);
    assert_eq!(result.obsolete_packs, vec![String::from("pack-a"), String::from("pack-b")]);
    assert_eq!(result.packed_loose, vec![oid]);

    let inputs = cruft_inputs(vec![plain_pack("pack-a")], vec![vec![oid]], times(&[(oid, 3)]));
    let plan = repack_cruft(&db, &inputs, &[oid], None).expect("plan");
    let written = write_pack(format, &plan.reachable);
    let cruft = vec![one_blob_cruft(b"x"), one_blob_cruft(b"y")];
    let result = finish_cruft_repack(plan, Some(written), cruft, None, &[oid]);
    assert_eq!(result.reachable.as_ref().map(|pack| pack.object_count), Some(1));
    assert!(result.cruft.is_some());
    assert_eq!(result.additional_cruft.len(), 1);
    assert_eq!(result.obsolete_packs, vec![String::from("pack-a")]);
}

#[test]
fn cruft_packs_list_their_objects_in_index_order() {
    let format = ObjectFormat::Sha1;
    let mut db = ObjectDatabase::new(format);
    let ids: Vec<ObjectId> = (0..5u8).map(|n| blob(&mut db, &[n, n])).collect();
    let cruft = build_one_cruft_pack(write_pack(format, &read_all(&db, &ids)), Vec::new(), Vec::new());
    assert_eq!(cruft.oids, sorted(&ids));
    assert_eq!(cruft.index_entries[0].oid, ids[0]);
}
