use sley_odb::database::ObjectDatabase;
use sley_odb::error::GitError;
use sley_odb::error::MissingObjectContext;
use sley_odb::filter::build_and_install_reachable_pack;
use sley_odb::filter::build_and_install_reachable_pack_filtered;
use sley_odb::filter::collect_tree_filter_depths;
use sley_odb::filter::PackObjectFilter;
use sley_odb::filter::TransferPlan;
use sley_odb::hex_id::from_hex;
use sley_odb::loose_repack::prune_unreachable_loose;
use sley_odb::loose_repack::prune_unreachable_loose_tolerating_missing;
use sley_odb::object::digest_bytes;
use sley_odb::object::CommitLinks;
use sley_odb::object::EncodedObject;
use sley_odb::object::ObjectContent;
use sley_odb::object::ObjectType;
use sley_odb::object::TreeEntry;
use sley_odb::object::TreeEntryKind;
use sley_odb::object::ObjectReader;
use sley_odb::object::ObjectWriter;
use sley_odb::object_id::ObjectFormat;
use sley_odb::object_id::ObjectId;
use sley_odb::oid_map::OidSet;
use sley_odb::reachability::collect_reachable_object_ids;
use sley_odb::reachability::collect_reachable_object_ids_excluding;
use sley_odb::reachability::collect_reachable_object_ids_tolerating_missing;
use sley_odb::reachability::collect_reachable_object_ids_tolerating_promised_missing;
use sley_odb::reachability::collect_reachable_object_ids_with_cut;
use sley_odb::sparse::collect_sparse_filter_blobs;
use sley_odb::transfer::build_reachable_pack;
use sley_odb::transfer::write_reachable_pack_to_writer;
use sley_odb::transfer::collect_reachable_objects;
use sley_odb::transfer::collect_reachable_pack_objects_for_write;
use sley_odb::transfer::ReachablePackObject;
use sley_odb::transfer::ReachablePackObjectsForWrite;
use sley_odb::transfer::REACHABLE_PACK_STREAMING_MIN_OBJECTS;

fn blob(db: &mut ObjectDatabase, body: &[u8]) -> ObjectId {
    db.write_object(EncodedObject::blob(body.to_vec())).expect("write blob")
}

fn tree(db: &mut ObjectDatabase, entries: Vec<(TreeEntryKind, &str, ObjectId)>) -> ObjectId {
    let mut body = Vec::new();
    let mut links = Vec::new();
    for (kind, name, oid) in entries {
        body.extend_from_slice(match kind {
            TreeEntryKind::Tree => b"40000 ".as_slice(),
            TreeEntryKind::Blob => b"100644 ".as_slice(),
            TreeEntryKind::Gitlink => b"160000 ".as_slice(),
        });
        body.extend_from_slice(name.as_bytes());
        body.push(0);
        body.extend_from_slice(&oid.as_bytes());
        links.push(Ok(TreeEntry { kind, name: name.as_bytes().to_vec(), oid }));
    }
    db.write_object(EncodedObject::with_content(body, ObjectContent::Tree(links))).expect("write tree")
}

fn commit(db: &mut ObjectDatabase, tree: ObjectId, parents: Vec<ObjectId>, message: &str) -> ObjectId {
    let identity = "Example <example@example.invalid> 0 +0000";
    let mut body = format!("tree {}\n", tree.to_hex());
    for parent in &parents {
        body.push_str(&format!("parent {}\n", parent.to_hex()));
    }
    body.push_str(&format!("author {identity}\ncommitter {identity}\n\n{message}"));
    let links = CommitLinks { tree, parents, committer: identity.as_bytes().to_vec() };
    db.write_object(EncodedObject::with_content(body.into_bytes(), ObjectContent::Commit(Ok(links))))
        .expect("write commit")
}

fn graph(db: &mut ObjectDatabase, payload: &[u8]) -> (ObjectId, ObjectId, ObjectId) {
    let blob_oid = blob(db, payload);
    let tree_oid = tree(db, vec![(TreeEntryKind::Blob, "payload.txt", blob_oid)]);
    let commit_oid = commit(db, tree_oid, Vec::new(), "initial\n");
    (commit_oid, tree_oid, blob_oid)
}

fn ids(objects: &[ReachablePackObject]) -> Vec<ObjectId> {
    objects.iter().map(|entry| entry.oid).collect()
}

#[test]
fn reachable_object_helpers_walk_graph_and_install_pack() {
    let mut source = ObjectDatabase::new(ObjectFormat::Sha1);
    let (commit_oid, tree_oid, blob_oid) = graph(&mut source, b"reachable payload\n");

    let reachable = collect_reachable_object_ids(&source, &[commit_oid]).expect("test operation should succeed");
    assert!(reachable.contains(&commit_oid));
    assert!(reachable.contains(&tree_oid));
    assert!(reachable.contains(&blob_oid));

    let objects = build_reachable_pack(&source, &[commit_oid], &OidSet::new())
        .expect("test operation should succeed")
        .expect("reachable pack should be written");
    assert_eq!(ids(&objects), vec![commit_oid, tree_oid, blob_oid]);
    for entry in &objects {
        assert_eq!(entry.object.object_id(ObjectFormat::Sha1), entry.oid);
    }
}

#[test]
fn reachable_object_helpers_respect_exclusions_and_duplicate_starts() {
    let mut db = ObjectDatabase::new(ObjectFormat::Sha1);
    let (commit_oid, tree_oid, _) = graph(&mut db, b"excluded payload\n");
    let excluded = OidSet::from_slice(&[tree_oid]);

    let objects = collect_reachable_objects(&db, &[commit_oid, commit_oid], &excluded)
        .expect("test operation should succeed");

    assert_eq!(objects.len(), 1);
    assert_eq!(objects[0].object_id(ObjectFormat::Sha1), commit_oid);
}

#[test]
fn build_reachable_pack_returns_raw_pack_and_respects_empty_exclusions() {
    let mut db = ObjectDatabase::new(ObjectFormat::Sha1);
    let oid = blob(&mut db, b"raw reachable pack\n");
    let pack = build_reachable_pack(&db, &[oid], &OidSet::new())
        .expect("test operation should succeed")
        .expect("reachable pack should be built");
    assert_eq!(pack.len(), 1);
    assert_eq!(pack[0].oid, oid);

    let excluded = OidSet::from_slice(&[oid]);
    assert!(build_reachable_pack(&db, &[oid], &excluded)
        .expect("test operation should succeed")
        .is_none());
}

#[test]
fn a_small_pack_is_written_whole_and_in_walk_order() {
    let mut db = ObjectDatabase::new(ObjectFormat::Sha1);
    let (commit_oid, tree_oid, blob_oid) = graph(&mut db, b"written payload\n");
    match write_reachable_pack_to_writer(&db, &[commit_oid], &OidSet::new()).expect("walk") {
        Some(ReachablePackObjectsForWrite::Buffered(objects)) => {
            assert_eq!(ids(&objects), vec![commit_oid, tree_oid, blob_oid]);
        }
        _ => panic!("a small set is buffered"),
    }
    assert!(write_reachable_pack_to_writer(&db, &[], &OidSet::new()).expect("walk").is_none());
    match build_and_install_reachable_pack(&db, &[commit_oid], &OidSet::new()).expect("walk") {
        TransferPlan::Pack(objects) => assert_eq!(ids(&objects), vec![commit_oid, tree_oid, blob_oid]),
        _ => panic!("a transfer without a limit is packed"),
    }
    let nothing = build_and_install_reachable_pack(&db, &[], &OidSet::new()).expect("walk");
    assert!(matches!(nothing, TransferPlan::Empty));
}

#[test]
fn large_reachable_pack_streams_objects_by_id_windows() {
    let mut db = ObjectDatabase::new(ObjectFormat::Sha1);
    let mut roots = Vec::new();
    let shared = "streamed reachable shared payload ".repeat(16);
    for idx in 0..(REACHABLE_PACK_STREAMING_MIN_OBJECTS + 5) {
        roots.push(blob(&mut db, format!("{shared}{idx:04}\n").as_bytes()));
    }
    match collect_reachable_pack_objects_for_write(&db, &roots, &OidSet::new()).expect("collect") {
        ReachablePackObjectsForWrite::Streaming(metadata) => {
            assert_eq!(metadata.len(), roots.len());
            for meta in &metadata {
                assert!(roots.contains(&meta.oid));
                assert_eq!(meta.object_type, ObjectType::Blob);
                assert_eq!(meta.size, shared.len() as u64 + 5);
            }
        }
        ReachablePackObjectsForWrite::Buffered(_) => panic!("large packs are streamed"),
    }
    match collect_reachable_pack_objects_for_write(&db, &roots[..3], &OidSet::new()).expect("collect") {
        ReachablePackObjectsForWrite::Buffered(objects) => assert_eq!(ids(&objects), roots[..3].to_vec()),
        ReachablePackObjectsForWrite::Streaming(_) => panic!("small packs are buffered"),
    }
}

#[test]
fn reachable_object_helpers_follow_tags_and_report_missing_objects() {
    let mut db = ObjectDatabase::new(ObjectFormat::Sha1);
    let blob_oid = blob(&mut db, b"tagged payload\n");
    let body = format!(
        "object {}\ntype blob\ntag v1\ntagger Example <example@example.invalid> 0 +0000\n\ntag message\n",
        blob_oid.to_hex()
    );
    let tag_oid = db
        .write_object(EncodedObject::with_content(body.into_bytes(), ObjectContent::Tag(Ok(blob_oid))))
        .expect("test operation should succeed");

    let reachable = collect_reachable_object_ids(&db, &[tag_oid]).expect("test operation should succeed");
    assert!(reachable.contains(&tag_oid));
    assert!(reachable.contains(&blob_oid));

    let missing = from_hex(ObjectFormat::Sha1, b"aaaaaaaaaaaaaaaaaaaaaaaaaaaaaaaaaaaaaaaa")
        .expect("test operation should succeed");
    let err = match collect_reachable_object_ids(&db, &[missing]) {
        Ok(_) => panic!("missing traversal root should error"),
        Err(err) => err,
    };
    let kind = err.not_found_kind().expect("typed not found");
    assert_eq!(kind.object_id(), Some(missing));
    assert_eq!(kind.missing_object_context(), Some(MissingObjectContext::Traversal));
}

#[test]
fn install_reachable_pack_empty_starts_create_no_pack() {
    let source = ObjectDatabase::new(ObjectFormat::Sha1);
    let result = build_reachable_pack(&source, &[], &OidSet::new()).expect("test operation should succeed");
    assert!(result.is_none());
}

#[test]
fn install_reachable_pack_excluding_skips_fully_excluded_starts() {
    let mut source = ObjectDatabase::new(ObjectFormat::Sha1);
    let oid = blob(&mut source, b"excluded install\n");
    let result = build_reachable_pack(&source, &[oid], &OidSet::from_slice(&[oid]))
        .expect("test operation should succeed");
    assert!(result.is_none());
}

#[test]
fn install_reachable_pack_supports_sha256() {
    let mut source = ObjectDatabase::new(ObjectFormat::Sha256);
    let oid = blob(&mut source, b"sha256 reachable pack\n");
    let pack = build_reachable_pack(&source, &[oid], &OidSet::new())
        .expect("test operation should succeed")
        .expect("sha256 reachable pack should be built");
    assert_eq!(ids(&pack), vec![oid]);
    assert_eq!(pack[0].object.body, b"sha256 reachable pack\n");
}

#[test]
fn walks_stop_at_cuts_and_grafts_but_keep_their_trees() {
    let mut db = ObjectDatabase::new(ObjectFormat::Sha1);
    let (first, first_tree, first_blob) = graph(&mut db, b"first\n");
    let second_blob = blob(&mut db, b"second\n");
    let second_tree = tree(&mut db, vec![(TreeEntryKind::Blob, "file", second_blob)]);
    let second = commit(&mut db, second_tree, vec![first], "second\n");
    let cut = OidSet::from_slice(&[second]);
    let reached = collect_reachable_object_ids_with_cut(&db, &[second], &cut).expect("walk");
    assert_eq!(reached.to_vec(), vec![second, second_tree, second_blob]);
    let all = collect_reachable_object_ids(&db, &[second]).expect("walk");
    assert_eq!(
        all.to_vec(),
        vec![second, second_tree, second_blob, first, first_tree, first_blob]
    );
    let fewer = collect_reachable_object_ids_excluding(&db, &[second], &OidSet::from_slice(&[first])).expect("walk");
    assert_eq!(fewer.to_vec(), vec![second, second_tree, second_blob]);
}

#[test]
fn tolerant_walks_agree_with_strict_ones_when_nothing_is_missing() {
    let mut db = ObjectDatabase::new(ObjectFormat::Sha1);
    let (commit_oid, _, _) = graph(&mut db, b"complete\n");
    let strict = collect_reachable_object_ids(&db, &[commit_oid]).expect("strict");
    let tolerant = collect_reachable_object_ids_tolerating_missing(&db, &[commit_oid]).expect("tolerant");
    let promised = collect_reachable_object_ids_tolerating_promised_missing(&db, &[commit_oid]).expect("tolerant");
    for oid in strict.to_vec() {
        assert!(tolerant.contains(&oid));
        assert!(promised.contains(&oid));
    }
    assert_eq!(strict.len(), tolerant.len());
    assert_eq!(strict.len(), promised.len());

    let gone = digest_bytes(ObjectFormat::Sha1, b"gone");
    let broken = commit(&mut db, gone, Vec::new(), "broken\n");
    assert!(collect_reachable_object_ids(&db, &[broken]).is_err());
    assert!(collect_reachable_object_ids_tolerating_promised_missing(&db, &[broken]).is_err());
    let reached = collect_reachable_object_ids_tolerating_missing(&db, &[broken]).expect("tolerant");
    assert_eq!(reached.to_vec(), vec![broken, gone]);
}

#[test]
fn prune_unreachable_loose_reports_and_deletes_only_unreachable() {
    let mut db = ObjectDatabase::new(ObjectFormat::Sha1);
    let (commit_oid, tree_oid, blob_oid) = graph(&mut db, b"kept\n");
    let orphan = blob(&mut db, b"orphan\n");
    let mut loose = vec![commit_oid, tree_oid, blob_oid, orphan];
    loose.sort_by_key(|oid| oid.to_hex());
    let pruned = prune_unreachable_loose(&db, &[commit_oid], &loose).expect("prune");
    assert_eq!(pruned, vec![orphan]);
    let mut everything = prune_unreachable_loose(&db, &[], &loose).expect("prune");
    assert_eq!(everything.len(), 4);
    everything.dedup();
    assert_eq!(everything, loose);
}

#[test]
fn prune_unreachable_loose_ignores_gitlink_targets() {
    let mut db = ObjectDatabase::new(ObjectFormat::Sha1);
    let foreign = digest_bytes(ObjectFormat::Sha1, b"a commit of another repository");
    let tree_oid = tree(&mut db, vec![(TreeEntryKind::Gitlink, "module", foreign)]);
    let commit_oid = commit(&mut db, tree_oid, Vec::new(), "module\n");
    let orphan = blob(&mut db, b"orphan\n");
    let pruned = prune_unreachable_loose(&db, &[commit_oid], &[commit_oid, tree_oid, orphan]).expect("prune");
    assert_eq!(pruned, vec![orphan]);
    let gone = digest_bytes(ObjectFormat::Sha1, b"gone");
    let broken = commit(&mut db, gone, Vec::new(), "broken\n");
    assert!(prune_unreachable_loose(&db, &[broken], &[orphan]).is_err());
    assert_eq!(
        prune_unreachable_loose_tolerating_missing(&db, &[broken], &[orphan, broken]).expect("prune"),
        vec![orphan]
    );
}

fn sent(plan: TransferPlan) -> Vec<ObjectId> {
    match plan {
        TransferPlan::Empty => Vec::new(),
        TransferPlan::Loose(objects) => ids(&objects),
        TransferPlan::Pack(objects) => ids(&objects),
    }
}

#[test]
fn a_path_filter_searches_a_shared_tree_at_every_path() {
    let mut db = ObjectDatabase::new(ObjectFormat::Sha1);
    let file = blob(&mut db, b"shared file\n");
    let shared = tree(&mut db, vec![(TreeEntryKind::Blob, "f", file)]);
    let root = tree(&mut db, vec![(TreeEntryKind::Tree, "a", shared), (TreeEntryKind::Tree, "b", shared)]);
    let tip = commit(&mut db, root, Vec::new(), "tip\n");
    let objects = build_reachable_pack(&db, &[tip], &OidSet::new()).expect("walk").expect("objects");
    let listed = |path: &str| {
        collect_sparse_filter_blobs(&db, &objects, &[String::from(path)]).expect("search").to_vec()
    };
    assert_eq!(listed("b/f"), vec![file]);
    assert_eq!(listed("a/f"), vec![file]);
    assert!(listed("c/f").is_empty());
    assert!(listed("f").is_empty());
    assert!(listed("b").is_empty());
}

#[test]
fn filters_spare_wanted_objects() {
    let mut db = ObjectDatabase::new(ObjectFormat::Sha1);
    let small = blob(&mut db, b"small");
    let large = blob(&mut db, &[b'x'; 100]);
    let inner = tree(&mut db, vec![(TreeEntryKind::Blob, "large", large)]);
    let root = tree(
        &mut db,
        vec![(TreeEntryKind::Tree, "dir", inner), (TreeEntryKind::Blob, "small", small)],
    );
    let tip = commit(&mut db, root, Vec::new(), "tip\n");
    let none = OidSet::new();
    let all = build_and_install_reachable_pack_filtered(&db, &[tip], &none, None, None).expect("plan");
    assert_eq!(sent(all), vec![tip, root, inner, large, small]);
    let plan =
        build_and_install_reachable_pack_filtered(&db, &[tip], &none, Some(PackObjectFilter::BlobNone), None)
            .expect("plan");
    assert_eq!(sent(plan), vec![tip, root, inner]);
    let plan =
        build_and_install_reachable_pack_filtered(&db, &[tip, large], &none, Some(PackObjectFilter::BlobNone), None)
            .expect("plan");
    assert_eq!(sent(plan), vec![tip, root, inner, large]);
    let plan = build_and_install_reachable_pack_filtered(
        &db,
        &[tip],
        &none,
        Some(PackObjectFilter::BlobLimit(100)),
        None,
    )
    .expect("plan");
    assert_eq!(sent(plan), vec![tip, root, inner, small]);
    let plan =
        build_and_install_reachable_pack_filtered(&db, &[tip], &none, Some(PackObjectFilter::TreeDepth(1)), None)
            .expect("plan");
    assert_eq!(sent(plan), vec![tip, root]);
    let plan = build_and_install_reachable_pack_filtered(
        &db,
        &[tip],
        &none,
        Some(PackObjectFilter::SparsePathSet(vec![String::from("dir/large")])),
        None,
    )
    .expect("plan");
    assert_eq!(sent(plan), vec![tip, root, inner, large]);
}

#[test]
fn depth_search_stops_at_the_last_listed_faulty_tree() {
    let mut db = ObjectDatabase::new(ObjectFormat::Sha1);
    let small = blob(&mut db, b"small\n");
    let first = tree(&mut db, vec![(TreeEntryKind::Blob, "one", small)]);
    let second = tree(&mut db, vec![(TreeEntryKind::Blob, "two", small)]);
    let entries = vec![(TreeEntryKind::Tree, "a", first), (TreeEntryKind::Tree, "b", second)];
    let root = tree(&mut db, entries.clone());
    let tip = commit(&mut db, root, Vec::new(), "tip\n");
    let objects: Vec<ReachablePackObject> = [tip, root, first, second]
        .iter()
        .map(|oid| ReachablePackObject { oid: *oid, object: db.read_object(oid).expect("read") })
        .collect();
    let depths = collect_tree_filter_depths(&db, &objects).expect("depths");
    assert_eq!(depths.get(&root), Some(&0));
    assert_eq!(depths.get(&second), Some(&1));

    let mut partial = ObjectDatabase::new(ObjectFormat::Sha1);
    assert_eq!(tree(&mut partial, entries), root);
    let failure = collect_tree_filter_depths(&partial, &objects).err();
    assert!(failure.is_some());
    assert_eq!(failure, partial.read_object(&second).err());
    assert_ne!(failure, partial.read_object(&first).err());
}

#[test]
fn small_transfers_are_unpacked() {
    let mut db = ObjectDatabase::new(ObjectFormat::Sha1);
    let (tip, _, _) = graph(&mut db, b"few\n");
    let none = OidSet::new();
    assert!(matches!(
        build_and_install_reachable_pack_filtered(&db, &[tip], &none, None, Some(4)),
        Ok(TransferPlan::Loose(objects)) if objects.len() == 3
    ));
    assert!(matches!(
        build_and_install_reachable_pack_filtered(&db, &[tip], &none, None, Some(3)),
        Ok(TransferPlan::Pack(objects)) if objects.len() == 3
    ));
    assert!(matches!(
        build_and_install_reachable_pack_filtered(&db, &[], &none, None, Some(3)),
        Ok(TransferPlan::Empty)
    ));
}

#[test]
fn malformed_objects_stop_a_walk() {
    let mut db = ObjectDatabase::new(ObjectFormat::Sha1);
    let bad = db
        .write_object(EncodedObject::with_content(
            b"junk".to_vec(),
            ObjectContent::Commit(Err(GitError::InvalidObject(String::from("no tree")))),
        ))
        .expect("write");
    assert_eq!(
        collect_reachable_object_ids(&db, &[bad]).err(),
        Some(GitError::InvalidObject(String::from("no tree")))
    );
}
