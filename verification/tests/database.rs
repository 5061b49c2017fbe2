use std::sync::Arc;

use sley_odb::bitset::bitset_positions;
use sley_odb::database::implied_empty_tree_object;
use sley_odb::database::is_promised_object;
use sley_odb::database::promisor_object_links;
use sley_odb::database::promisor_objects;
use sley_odb::database::read_shallow_grafts;
use sley_odb::database::ObjectDatabase;
use sley_odb::database::ObjectReplacements;
use sley_odb::error::GitError;
use sley_odb::hex_id::from_hex;
use sley_odb::install::verify_bundle_prerequisites;
use sley_odb::install::BundlePrerequisites;
use sley_odb::install::RawPackInstallOptions;
use sley_odb::lru::cached_object_cost;
use sley_odb::lru::LruCache;
use sley_odb::object::digest_bytes;
use sley_odb::object::CommitLinks;
use sley_odb::object::EncodedObject;
use sley_odb::object::ObjectContent;
use sley_odb::object::ObjectType;
use sley_odb::object::TreeEntry;
use sley_odb::object::TreeEntryKind;
use sley_odb::object::ObjectReader;
use sley_odb::object::ObjectWriter;
use sley_odb::object_id::ObjectFormat;
use sley_odb::object_id::ObjectId;
use sley_odb::oid_map::OidSet;
use sley_odb::repack::bitmap_lookup_cache;
use sley_odb::repack::bitmap_object_cache;
use sley_odb::repack::LooseObjectPruneOutcome;
use sley_odb::repack::RepackBitmapReader;
use sley_odb::repack::RepackResult;
use sley_odb::transfer::ReachablePackObject;
use sley_odb::unpack::install_raw_pack;
use sley_odb::unpack::unbundle_objects;
use sley_odb::unpack::unpack_packfile_objects;
use sley_odb::unpack::BundleReference;
use sley_odb::unpack::PackedEntry;

fn blob_of(byte: u8, len: usize) -> EncodedObject {
    EncodedObject::blob(vec![byte; len])
}

fn cached_blob_of(byte: u8, len: usize) -> Arc<EncodedObject> {
    Arc::new(blob_of(byte, len))
}

#[test]
fn replacement_policy_rejects_cycles() {
    let first = digest_bytes(ObjectFormat::Sha1, b"first");
    let second = digest_bytes(ObjectFormat::Sha1, b"second");
    let replacements = ObjectReplacements::new(vec![(first, second), (second, first)]);
    assert!(matches!(
        replacements.resolve(&first),
        Err(GitError::InvalidObject(message)) if message.contains("replace depth too high")
    ));
}

#[test]
fn replacement_policy_treats_identity_mapping_as_noop() {
    let oid = digest_bytes(ObjectFormat::Sha1, b"identity");
    let replacements = ObjectReplacements::new(vec![(oid, oid)]);
    assert_eq!(replacements.resolve(&oid).expect("identity mapping"), oid);
}

#[test]
fn replacements_are_followed_to_their_end() {
    let a = digest_bytes(ObjectFormat::Sha1, b"a");
    let b = digest_bytes(ObjectFormat::Sha1, b"b");
    let c = digest_bytes(ObjectFormat::Sha1, b"c");
    let replacements = ObjectReplacements::new(vec![(a, b), (b, c)]);
    assert!(!replacements.is_empty());
    assert_eq!(replacements.resolve(&a).expect("chain"), c);
    assert_eq!(replacements.resolve(&b).expect("chain"), c);
    assert_eq!(replacements.resolve(&c).expect("end"), c);
    assert!(ObjectReplacements::new(Vec::new()).is_empty());
}

#[test]
fn injected_replacements_affect_reads_but_not_raw_enumeration() {
    let mut db = ObjectDatabase::new(ObjectFormat::Sha1);
    let original = db
        .write_object(EncodedObject::blob(b"original".to_vec()))
        .expect("write original");
    let replacement = db
        .write_object(EncodedObject::blob(b"replacement".to_vec()))
        .expect("write replacement");
    let replacing = ObjectReplacements::new(vec![(original, replacement)]);

    let target = replacing.resolve(&original).expect("replacement");
    let read = db.read_object(&target).expect("replacement read");
    assert_eq!(read.body, b"replacement");
    assert_eq!((read.object_type(), read.body.len()), (ObjectType::Blob, 11));
    assert!(db.contains(&original));
    assert!(db.contains(&replacement));
    assert_eq!(db.read_object(&original).expect("raw read").body, b"original");
}

#[test]
fn lru_cache_evicts_by_byte_budget_least_recently_used_first() {
    // Budget holds two ~1 KiB objects but not three.
    let one = cached_object_cost(&blob_of(0, 1000));
    let mut cache = LruCache::<u32>::new(one * 2 + 8);
    cache.put(1, cached_blob_of(b'a', 1000));
    cache.put(2, cached_blob_of(b'b', 1000));
    // Touch key 1 so key 2 becomes least-recently-used.
    assert!(cache.get(&1).is_some());
    cache.put(3, cached_blob_of(b'c', 1000));
    // Key 2 (LRU) is evicted; 1 and 3 remain.
    assert!(cache.get(&1).is_some());
    assert!(cache.get(&2).is_none());
    assert!(cache.get(&3).is_some());
}

#[test]
fn a_store_in_memory_has_no_packs_and_no_shallow_commits() {
    let db = ObjectDatabase::new(ObjectFormat::Sha1);
    let oid = EncodedObject::blob(b"x".to_vec()).object_id(ObjectFormat::Sha1);
    assert!(!db.has_shallow_grafts());
    assert_eq!(db.reusable_delta_base(&oid), Ok(None));
    assert!(db.reusable_pack_candidates(&OidSet::from_slice(&[oid])).expect("candidates").is_empty());
}

#[test]
fn lru_cache_drops_as_few_as_make_the_rest_fit() {
    let one = cached_object_cost(&blob_of(0, 100));
    let mut cache = LruCache::<u32>::new(one * 3);
    for key in 1..=3 {
        cache.put(key, cached_blob_of(key as u8, 100));
    }
    cache.put(4, cached_blob_of(4, 100));
    assert!(cache.get(&1).is_none());
    assert!(cache.get(&2).is_some() && cache.get(&3).is_some() && cache.get(&4).is_some());
    cache.put(3, cached_blob_of(3, 10_000));
    assert!(cache.get(&3).is_none());
    assert!(cache.get(&2).is_some() && cache.get(&4).is_some());
}

#[test]
fn lru_cache_keys_objects_by_id() {
    let one = cached_object_cost(&blob_of(0, 100));
    let mut cache = LruCache::<ObjectId>::new(one * 2);
    let ids: Vec<ObjectId> =
        (0..3).map(|byte| EncodedObject::blob(vec![byte]).object_id(ObjectFormat::Sha1)).collect();
    for (oid, byte) in ids.iter().zip([b'a', b'b', b'c']) {
        cache.put(*oid, cached_blob_of(byte, 100));
    }
    assert!(cache.get(&ids[0]).is_none());
    assert_eq!(cache.get(&ids[1]).expect("cached").body[0], b'b');
    cache.remove(&ids[1]);
    assert!(cache.get(&ids[1]).is_none());
    assert_eq!(cache.get(&ids[2]).expect("cached").body[0], b'c');
}

#[test]
fn lru_cache_tells_keys_of_one_group_apart() {
    let mut cache = LruCache::<ObjectId>::new(10_000);
    let hex = "00112233445566778899aabbccddeeff00112233";
    let first = from_hex(ObjectFormat::Sha1, hex.as_bytes()).expect("id");
    let other = "00112233445566778899aabbccddeeff00112234";
    let second = from_hex(ObjectFormat::Sha1, other.as_bytes()).expect("id");
    cache.put(first, cached_blob_of(b'a', 10));
    cache.put(second, cached_blob_of(b'b', 10));
    assert_eq!(cache.get(&first).expect("cached").body[0], b'a');
    assert_eq!(cache.get(&second).expect("cached").body[0], b'b');
    cache.remove(&first);
    assert!(cache.get(&first).is_none());
    assert!(cache.get(&second).is_some());
}

#[test]
fn lru_cache_zero_budget_is_inert() {
    let mut cache = LruCache::<u32>::new(0);
    cache.put(1, cached_blob_of(b'a', 16));
    assert!(cache.get(&1).is_none());
}

#[test]
fn lru_cache_skips_object_larger_than_budget_and_clears_stale_entry() {
    let mut cache = LruCache::<u32>::new(cached_object_cost(&blob_of(0, 100)));
    cache.put(1, cached_blob_of(b'a', 50));
    assert!(cache.get(&1).is_some());
    // An object that cannot fit is not cached, and it evicts the prior entry
    // stored under the same key (so we never serve a stale value for it).
    cache.put(1, cached_blob_of(b'b', 10_000));
    assert!(cache.get(&1).is_none());
    // A subsequent fitting insert under another key still works and accounting
    // is not corrupted by the oversized insert.
    cache.put(2, cached_blob_of(b'c', 50));
    assert!(cache.get(&2).is_some());
}

#[test]
fn lru_cache_replacing_entry_updates_byte_accounting() {
    // Budget holds two 500-byte objects (plus headroom) but not a 500 + a
    // ~1900-byte object.
    let small = cached_object_cost(&blob_of(0, 500));
    let mut cache = LruCache::<u32>::new(small * 2 + 200);
    cache.put(1, cached_blob_of(b'a', 500));
    cache.put(2, cached_blob_of(b'b', 500));
    assert!(cache.get(&1).is_some());
    assert!(cache.get(&2).is_some());
    // Replace key 2 (now MRU after the gets above re-ordered 1 then 2) with a
    // bigger value that still fits the budget alone but makes the running total
    // exceed it; the LRU (key 1) is evicted while the replaced key 2 stays.
    // This exercises the replace-path accounting.
    cache.put(2, cached_blob_of(b'b', 1000));
    assert!(cache.get(&2).is_some());
    assert!(cache.get(&1).is_none());
}

#[test]
fn lru_cache_hands_out_the_stored_handle() {
    let mut cache = LruCache::<u32>::new(10_000);
    let object = cached_blob_of(b'a', 10);
    cache.put(7, Arc::clone(&object));
    let read = cache.get(&7).expect("cached");
    assert!(Arc::ptr_eq(&read, &object));
    cache.remove(&7);
    assert!(cache.get(&7).is_none());
    cache.put(7, object);
    cache.touch(&7);
    cache.clear();
    assert!(cache.get(&7).is_none());
}

#[test]
fn write_and_validate_blob() {
    let mut db = ObjectDatabase::new(ObjectFormat::Sha1);
    let oid = db
        .write_object(EncodedObject::blob(b"hello\n".to_vec()))
        .expect("test operation should succeed");
    assert_eq!(oid.to_hex(), "ce013625030ba8dba906f756967f9e9ca394464a");
    db.validate(&oid).expect("test operation should succeed");
}

#[test]
fn sha256_names_objects_by_their_frame() {
    let oid = EncodedObject::blob(Vec::new()).object_id(ObjectFormat::Sha256);
    assert_eq!(
        oid.to_hex(),
        "473a0f4c3be8a93681a267e3b1e9a7dcda1185436fe141f7749120a303721813"
    );
}

#[test]
fn reading_what_was_never_written_is_a_miss() {
    let db = ObjectDatabase::new(ObjectFormat::Sha1);
    let oid = digest_bytes(ObjectFormat::Sha1, b"nothing");
    let err = db.read_object(&oid).expect_err("missing object");
    assert_eq!(err.not_found_kind().and_then(|kind| kind.object_id()), Some(oid));
    assert!(db.validate(&oid).is_err());
}

#[test]
fn the_empty_tree_is_always_there() {
    let sha1 = from_hex(ObjectFormat::Sha1, b"4b825dc642cb6eb9a060e54bf8d69288fbee4904").expect("id");
    let object = implied_empty_tree_object(ObjectFormat::Sha1, &sha1).expect("empty tree");
    assert_eq!(object.object_type(), ObjectType::Tree);
    assert!(object.body.is_empty());
    let other = digest_bytes(ObjectFormat::Sha1, b"other");
    assert!(implied_empty_tree_object(ObjectFormat::Sha1, &other).is_none());
}

#[test]
fn bundle_prerequisite_verification_reads_existing_objects() {
    let mut db = ObjectDatabase::new(ObjectFormat::Sha1);
    let oid = db
        .write_object(EncodedObject::blob(b"base\n".to_vec()))
        .expect("test operation should succeed");
    let bundle = BundlePrerequisites { format: ObjectFormat::Sha1, oids: vec![oid] };

    verify_bundle_prerequisites(&bundle, &db).expect("test operation should succeed");
}

#[test]
fn bundle_prerequisite_verification_reports_missing_objects() {
    let db = ObjectDatabase::new(ObjectFormat::Sha1);
    let missing = EncodedObject::blob(b"missing\n".to_vec()).object_id(ObjectFormat::Sha1);
    let bundle = BundlePrerequisites { format: ObjectFormat::Sha1, oids: vec![missing] };

    assert!(verify_bundle_prerequisites(&bundle, &db).is_err());
}

#[test]
fn unbundle_objects_writes_pack_entries_and_returns_refs() {
    let prerequisite_reader = ObjectDatabase::new(ObjectFormat::Sha1);
    let mut writer = ObjectDatabase::new(ObjectFormat::Sha1);
    let object = EncodedObject::blob(b"bundle object\n".to_vec());
    let oid = object.object_id(ObjectFormat::Sha1);
    let prerequisites = BundlePrerequisites { format: ObjectFormat::Sha1, oids: Vec::new() };
    let references = vec![BundleReference { oid, name: String::from("refs/heads/main") }];
    let pack = Ok(vec![PackedEntry { oid, object }]);

    let result = unbundle_objects(&prerequisites, references, pack, &prerequisite_reader, &mut writer)
        .expect("test operation should succeed");
    assert_eq!(result.written_objects, vec![oid]);
    assert_eq!(
        result.references,
        vec![BundleReference { oid, name: String::from("refs/heads/main") }]
    );
    assert_eq!(
        *writer.read_object(&oid).expect("test operation should succeed"),
        EncodedObject::blob(b"bundle object\n".to_vec())
    );
}

#[test]
fn unpack_packfile_objects_writes_sha256_pack_entries() {
    let mut writer = ObjectDatabase::new(ObjectFormat::Sha256);
    let object = EncodedObject::blob(b"transport pack object\n".to_vec());
    let oid = object.object_id(ObjectFormat::Sha256);

    let result = unpack_packfile_objects(Ok(vec![PackedEntry { oid, object }]), &mut writer)
        .expect("test operation should succeed");

    assert_eq!(result.written_objects, vec![oid]);
    assert_eq!(
        *writer.read_object(&oid).expect("test operation should succeed"),
        EncodedObject::blob(b"transport pack object\n".to_vec())
    );
}

#[test]
fn unbundle_objects_rejects_missing_prerequisites_before_writing() {
    let prerequisite_reader = ObjectDatabase::new(ObjectFormat::Sha1);
    let mut writer = ObjectDatabase::new(ObjectFormat::Sha1);
    let missing = EncodedObject::blob(b"missing\n".to_vec()).object_id(ObjectFormat::Sha1);
    let object = EncodedObject::blob(b"bundle object\n".to_vec());
    let oid = object.object_id(ObjectFormat::Sha1);
    let prerequisites = BundlePrerequisites { format: ObjectFormat::Sha1, oids: vec![missing] };
    let references = vec![BundleReference { oid, name: String::from("refs/heads/main") }];
    let pack = Ok(vec![PackedEntry { oid, object }]);

    assert!(unbundle_objects(&prerequisites, references, pack, &prerequisite_reader, &mut writer).is_err());
    assert!(!writer.contains(&oid));
}

#[test]
fn unpacking_rejects_an_entry_with_a_wrong_id() {
    let mut writer = ObjectDatabase::new(ObjectFormat::Sha1);
    let object = EncodedObject::blob(b"one\n".to_vec());
    let actual = object.object_id(ObjectFormat::Sha1);
    let claimed = digest_bytes(ObjectFormat::Sha1, b"claimed");
    let err = unpack_packfile_objects(Ok(vec![PackedEntry { oid: claimed, object }]), &mut writer)
        .expect_err("wrong id");
    assert_eq!(
        err,
        GitError::InvalidObject(format!(
            "pack object id mismatch: expected {}, wrote {}",
            claimed.to_hex(),
            actual.to_hex()
        ))
    );
    assert_eq!(
        unpack_packfile_objects(Err(GitError::InvalidFormat(String::from("bad pack"))), &mut writer),
        Err(GitError::InvalidFormat(String::from("bad pack")))
    );
}

#[test]
fn raw_packs_are_unpacked_into_memory_up_to_the_size_limit() {
    let mut db = ObjectDatabase::new(ObjectFormat::Sha1);
    let object = EncodedObject::blob(b"streamed\n".to_vec());
    let oid = object.object_id(ObjectFormat::Sha1);
    let limited = RawPackInstallOptions { promisor: false, max_input_size: Some(10) };
    assert!(install_raw_pack(
        &mut db,
        11,
        Ok(vec![PackedEntry { oid, object: EncodedObject::blob(b"streamed\n".to_vec()) }]),
        &limited
    )
    .is_err());
    assert!(!db.contains(&oid));
    let result = install_raw_pack(&mut db, 10, Ok(vec![PackedEntry { oid, object }]), &limited).expect("fits");
    assert_eq!(result.written_objects, vec![oid]);
    assert!(db.contains(&oid));
}

#[test]
fn bitmap_cache_does_not_retain_blob_bodies() {
    let blob = Arc::new(EncodedObject::blob(vec![b'x'; 1024 * 1024]));
    let oid = blob.object_id(ObjectFormat::Sha1);
    let objects = vec![ReachablePackObject { oid, object: Arc::clone(&blob) }];

    let cache = bitmap_object_cache(&objects);

    assert_eq!(
        Arc::strong_count(&blob),
        2,
        "only the input and caller retain the blob"
    );
    assert_eq!(cache.len(), 1);
    assert_eq!(cache[0].object_type, ObjectType::Blob);
    assert!(cache[0].graph_object.is_none());
}

#[test]
fn repack_result_exposes_cached_types_after_oid_sorting() {
    let blob = Arc::new(EncodedObject::blob(b"blob".to_vec()));
    let commit = Arc::new(EncodedObject::with_content(
        b"commit".to_vec(),
        ObjectContent::Commit(Err(GitError::InvalidObject(String::from("commit has no tree")))),
    ));
    let blob_oid = blob.object_id(ObjectFormat::Sha1);
    let commit_oid = commit.object_id(ObjectFormat::Sha1);
    let objects = vec![
        ReachablePackObject { oid: blob_oid, object: blob },
        ReachablePackObject { oid: commit_oid, object: commit },
    ];
    let result = RepackResult {
        pack: Vec::new(),
        idx: Vec::new(),
        object_count: objects.len(),
        obsolete_packs: Vec::new(),
        packed_loose: Vec::new(),
        retained_pack_stems: Vec::new(),
        promisor: false,
        pack_checksum: blob_oid,
        index_entries: Vec::new(),
        bitmap_cache: bitmap_object_cache(&objects),
        loose_prune_outcome: LooseObjectPruneOutcome::Complete,
    };

    assert_eq!(result.cached_object_type(&blob_oid), Some(ObjectType::Blob));
    assert_eq!(result.cached_object_type(&commit_oid), Some(ObjectType::Commit));
}

#[test]
fn bitmap_reader_serves_retained_objects_before_the_store() {
    let db = ObjectDatabase::new(ObjectFormat::Sha1);
    let tree = EncodedObject::with_content(Vec::new(), ObjectContent::Tree(Vec::new()));
    let oid = tree.object_id(ObjectFormat::Sha1);
    let cache = bitmap_object_cache(&[ReachablePackObject { oid, object: Arc::new(tree) }]);
    let (types, objects) = bitmap_lookup_cache(&cache);
    assert_eq!(types.get(&oid), Some(&ObjectType::Tree));
    let reader = RepackBitmapReader { cached: &objects, fallback: &db };
    assert_eq!(reader.read_object(&oid).expect("retained").object_type(), ObjectType::Tree);
    let other = digest_bytes(ObjectFormat::Sha1, b"other");
    assert!(reader.read_object(&other).is_err());
}

#[test]
fn shallow_grafts_are_read_line_by_line() {
    let a = digest_bytes(ObjectFormat::Sha1, b"a");
    let b = digest_bytes(ObjectFormat::Sha1, b"b");
    let text = format!("{}\n  {}  \nnot an id\n\n", a.to_hex(), b.to_hex());
    let grafts = read_shallow_grafts(text.as_bytes(), ObjectFormat::Sha1);
    assert_eq!(grafts.len(), 2);
    assert!(grafts.contains(&a));
    assert!(grafts.contains(&b));
}

#[test]
fn promisor_objects_are_what_promisor_packs_lead_to() {
    let mut db = ObjectDatabase::new(ObjectFormat::Sha1);
    let blob = digest_bytes(ObjectFormat::Sha1, b"a blob that the remote holds");
    let tree = db
        .write_object(EncodedObject::with_content(
            b"tree".to_vec(),
            ObjectContent::Tree(vec![
                Ok(TreeEntry { kind: TreeEntryKind::Blob, name: b"file".to_vec(), oid: blob }),
                Ok(TreeEntry {
                    kind: TreeEntryKind::Gitlink,
                    name: b"module".to_vec(),
                    oid: digest_bytes(ObjectFormat::Sha1, b"module"),
                }),
            ]),
        ))
        .expect("write tree");
    let commit = db
        .write_object(EncodedObject::with_content(
            b"commit".to_vec(),
            ObjectContent::Commit(Ok(CommitLinks { tree, parents: Vec::new(), committer: Vec::new() })),
        ))
        .expect("write commit");
    let promised = promisor_objects(&db, &[commit]);
    assert!(is_promised_object(true, &promised, &commit));
    assert!(is_promised_object(true, &promised, &tree));
    assert!(is_promised_object(true, &promised, &blob));
    assert!(!is_promised_object(false, &promised, &blob));
    assert!(!is_promised_object(true, &promised, &digest_bytes(ObjectFormat::Sha1, b"stranger")));
    let links = promisor_object_links(&db.read_object(&commit).expect("commit"));
    assert_eq!(links, vec![tree]);
}

#[test]
fn sets_of_ids_keep_insertion_order() {
    let a = digest_bytes(ObjectFormat::Sha1, b"a");
    let b = digest_bytes(ObjectFormat::Sha1, b"b");
    let mut set = OidSet::new();
    assert!(set.is_empty());
    assert!(set.insert(b));
    assert!(set.insert(a));
    assert!(!set.insert(b));
    assert_eq!(set.to_vec(), vec![b, a]);
    assert_eq!(set.position(&a), Some(1));
    let ids: Vec<ObjectId> = vec![a, b, a];
    assert_eq!(OidSet::from_slice(&ids).len(), 2);
    assert_eq!(bitset_positions(&[0b101, 1]), vec![0, 2, 64]);
}
