use sley_odb::bitmap::bitmap_cascade_pseudo_merges;
use sley_odb::bitmap::bitmap_reachable;
use sley_odb::bitmap::LoadedPackBitmap;
use sley_odb::bitmap_build::bitmap_next_commit_index;
use sley_odb::bitmap_build::build_midx_bitmap;
use sley_odb::bitmap_build::build_pack_bitmap;
use sley_odb::bitmap_build::commit_identity_timestamp;
use sley_odb::bitmap_build::BitmapBuild;
use sley_odb::bitmap_build::BitmapPlan;
use sley_odb::bitmap_load::assemble_loaded_bitmap;
use sley_odb::bitmap_load::bitmap_candidates;
use sley_odb::bitmap_load::list_midx_bit_order;
use sley_odb::bitmap_load::list_pack_bit_order;
use sley_odb::bitmap_load::load_incremental_midx_bitmap;
use sley_odb::bitmap_load::load_pack_bitmap;
use sley_odb::bitmap_load::midx_has_bad_ridx_chunk;
use sley_odb::bitmap_load::ridx_chunk_enabled;
use sley_odb::bitmap_load::BitmapEntryData;
use sley_odb::bitmap_load::BitmapProbe;
use sley_odb::bitmap_load::BitmapSearch;
use sley_odb::bitmap_load::PackBitmapData;
use sley_odb::bitmap_load::ProbeOutcome;
use sley_odb::bitmap_load::PseudoMergeData;
use sley_odb::bitset::bitset_and_not;
use sley_odb::bitset::bitset_get;
use sley_odb::bitset::bitset_is_subset;
use sley_odb::bitset::bitset_or;
use sley_odb::bitset::bitset_positions;
use sley_odb::bitset::bitset_set;
use sley_odb::bitset::bitset_xor;
use sley_odb::bitset::empty_bitset;
use sley_odb::bitset::resize_bitset;
use sley_odb::bitset::word_count_for;
use sley_odb::database::ObjectDatabase;
use sley_odb::error::GitError;
use sley_odb::lineage::bitmap_num_maximal_commits;
use sley_odb::midx::build_multi_pack_index_layer;
use sley_odb::midx::midx_bitmapped_pack_ranges;
use sley_odb::midx::pack_file_name;
use sley_odb::midx::MultiPackIndexEntry;
use sley_odb::midx::MultiPackIndexEvent;
use sley_odb::midx::MultiPackIndexLayerError;
use sley_odb::midx::MultiPackIndexLayerOptions;
use sley_odb::midx::PackListing;
use sley_odb::midx::PackRead;
use sley_odb::midx_layer::finish_multi_pack_index_layer;
use sley_odb::midx_layer::layer_is_unchanged;
use sley_odb::midx_layer::list_reverse_positions;
use sley_odb::midx_layer::midx_checksum;
use sley_odb::bitmap_load::incremental_bit_order;
use sley_odb::bitmap_load::load_midx_bitmap;
use sley_odb::bitmap_load::load_pack_bitmap_file;
use sley_odb::bitmap_load::MidxBitmapLoad;
use sley_odb::midx::pack_index_has_large_offset_area;
use sley_odb::midx::MissingMidxBitmapPolicy;
use sley_odb::midx::MultiPackIndexBitmapInputs;
use sley_odb::midx::MultiPackIndexData;
use sley_odb::midx::MultiPackIndexEntryLayerOptions;
use sley_odb::midx_layer::build_multi_pack_index_layer_from_entries;
use sley_odb::midx_layer::build_selected_multi_pack_index_layer;
use sley_odb::midx_layer::midx_bitmap_name_hash_cache;
use sley_odb::midx_layer::NameHashes;
use sley_odb::object::digest_bytes;
use sley_odb::object::CommitLinks;
use sley_odb::object::EncodedObject;
use sley_odb::object::ObjectContent;
use sley_odb::object::ObjectType;
use sley_odb::object::TreeEntry;
use sley_odb::object::TreeEntryKind;
use sley_odb::object::ObjectWriter;
use sley_odb::object_id::ObjectFormat;
use sley_odb::object_id::ObjectId;
use sley_odb::oid_map::OidSet;
use sley_odb::pack_file::PackIndexData;
use sley_odb::pack_file::PackIndexEntry;
use sley_odb::reachability::collect_reachable_object_ids;

struct Graph {
    db: ObjectDatabase,
    first: ObjectId,
    second: ObjectId,
    first_tree: ObjectId,
    second_tree: ObjectId,
    blob: ObjectId,
    other: ObjectId,
}

fn tree(db: &mut ObjectDatabase, name: &str, links: &[ObjectId]) -> ObjectId {
    let entries = links
        .iter()
        .map(|oid| Ok(TreeEntry { kind: TreeEntryKind::Blob, name: b"file".to_vec(), oid: *oid }))
        .collect();
    db.write_object(EncodedObject::with_content(name.as_bytes().to_vec(), ObjectContent::Tree(entries)))
        .expect("tree")
}

fn commit(db: &mut ObjectDatabase, tree: ObjectId, parents: Vec<ObjectId>, seconds: u32) -> ObjectId {
    let committer = format!("T <t@example.invalid> {seconds} +0000").into_bytes();
    let body = format!("commit {} {seconds} {}", tree.to_hex(), parents.len()).into_bytes();
    db.write_object(EncodedObject::with_content(
        body,
        ObjectContent::Commit(Ok(CommitLinks { tree, parents, committer })),
    ))
    .expect("commit")
}

fn graph() -> Graph {
    let mut db = ObjectDatabase::new(ObjectFormat::Sha1);
    let blob = db.write_object(EncodedObject::blob(b"blob".to_vec())).expect("blob");
    let other = db.write_object(EncodedObject::blob(b"other".to_vec())).expect("blob");
    let first_tree = tree(&mut db, "first", &[blob]);
    let second_tree = tree(&mut db, "second", &[blob, other]);
    let first = commit(&mut db, first_tree, Vec::new(), 1);
    let second = commit(&mut db, second_tree, vec![first], 2);
    Graph { db, first, second, first_tree, second_tree, blob, other }
}

fn entries(ids: &[ObjectId]) -> Vec<PackIndexEntry> {
    let mut entries: Vec<PackIndexEntry> = ids
        .iter()
        .enumerate()
        .map(|(i, oid)| PackIndexEntry { oid: *oid, crc32: 0, offset: 12 + 10 * i as u64 })
        .collect();
    entries.sort_by_key(|entry| entry.oid.to_hex());
    entries
}

fn words(positions: &[u32], count: usize) -> Vec<u64> {
    let mut words = empty_bitset(word_count_for(count));
    for position in positions {
        bitset_set(&mut words, *position);
    }
    words
}

/// What a bitmap file with a plan's contents parses to.
fn stored(plan: &BitmapPlan, checksum: ObjectId) -> PackBitmapData {
    let count = plan.object_types.len();
    let of_type = |wanted: ObjectType| {
        let positions: Vec<u32> =
            (0..count as u32).filter(|i| plan.object_types[*i as usize] == wanted).collect();
        Ok(words(&positions, count))
    };
    PackBitmapData {
        pack_checksum: checksum,
        commits: of_type(ObjectType::Commit),
        trees: of_type(ObjectType::Tree),
        blobs: of_type(ObjectType::Blob),
        tags: of_type(ObjectType::Tag),
        entries: plan
            .entries
            .iter()
            .map(|entry| BitmapEntryData {
                object_position: entry.index_pos,
                xor_offset: 0,
                words: Ok(words(&entry.positions, count)),
            })
            .collect(),
        pseudo_merges: Vec::new(),
    }
}

fn load(graph: &Graph) -> LoadedPackBitmap {
    let order =
        vec![graph.second, graph.first, graph.second_tree, graph.first_tree, graph.other, graph.blob];
    let index = entries(&order);
    assert_eq!(list_pack_bit_order(&index), order);
    let types = [
        ObjectType::Commit,
        ObjectType::Commit,
        ObjectType::Tree,
        ObjectType::Tree,
        ObjectType::Blob,
        ObjectType::Blob,
    ];
    let headers: Vec<Result<Option<ObjectType>, GitError>> = types.iter().map(|kind| Ok(Some(*kind))).collect();
    let plan = match build_pack_bitmap(&graph.db, &index, &headers, &OidSet::new(), &[]).expect("build") {
        BitmapBuild::Plan(plan) => plan,
        _ => panic!("the pack is closed"),
    };
    assert_eq!(plan.object_types, types.to_vec());
    assert_eq!(plan.entries.len(), 2);
    assert_eq!(plan.entries[0].pack_pos, 0);
    assert_eq!(plan.entries[0].positions, vec![0, 1, 2, 3, 4, 5]);
    assert_eq!(plan.entries[1].pack_pos, 1);
    assert_eq!(plan.entries[1].positions, vec![1, 3, 5]);
    let lookup: Vec<ObjectId> = index.iter().map(|entry| entry.oid).collect();
    assemble_loaded_bitmap(&stored(&plan, digest_bytes(ObjectFormat::Sha1, b"pack")), order, &lookup).expect("load")
}

#[test]
fn install_repack_bitmap_uses_retained_objects_and_writes_valid_index() {
    let graph = graph();
    let bitmap = load(&graph);
    assert_eq!(bitmap.object_count(), 6);
    assert_eq!(bitmap.pack_position(&graph.blob), Some(5));
    assert_eq!(bitmap.oid_at(5), Some(&graph.blob));
    assert_eq!(bitmap.oid_at(6), None);
    let stored = bitmap.bitmap_for_commit(&graph.first).expect("the commit tip should receive a bitmap");
    assert_eq!(bitset_positions(stored), vec![1, 3, 5]);
    assert_eq!(bitmap.bitmapped_commits().len(), 2);
    assert_eq!(bitset_positions(bitmap.type_words(ObjectType::Tree)), vec![2, 3]);
}

#[test]
fn stored_bitmaps_answer_what_a_walk_would() {
    let mut graph = graph();
    let bitmap = load(&graph);
    let mut wants = bitmap_reachable(&bitmap, &graph.db, &[graph.second], true).expect("wants");
    assert_eq!(bitset_positions(&wants.words), vec![0, 1, 2, 3, 4, 5]);
    assert!(wants.extended.is_empty());
    let haves = bitmap_reachable(&bitmap, &graph.db, &[graph.first], true).expect("haves");
    wants.subtract(&haves);
    assert_eq!(bitset_positions(&wants.words), vec![0, 2, 4]);

    // A commit that is not in the pack is walked, down to what is.
    let newer = commit(&mut graph.db, graph.first_tree, vec![graph.first], 3);
    let walked = bitmap_reachable(&bitmap, &graph.db, &[newer], true).expect("walk");
    assert_eq!(bitset_positions(&walked.words), vec![1, 3, 5]);
    assert_eq!(walked.extended, vec![(newer, ObjectType::Commit)]);
    let commits = bitmap_reachable(&bitmap, &graph.db, &[newer], false).expect("walk");
    assert!(bitset_get(&commits.words, 1));
    let missing = digest_bytes(ObjectFormat::Sha1, b"missing");
    assert!(bitmap_reachable(&bitmap, &graph.db, &[missing], true).is_err());
}

#[test]
fn a_walk_with_a_bitmap_finds_what_a_plain_walk_finds() {
    let mut graph = graph();
    let bitmap = load(&graph);
    let newer = commit(&mut graph.db, graph.first_tree, vec![graph.first], 3);
    for roots in [vec![graph.second], vec![newer], vec![newer, graph.second, graph.blob], Vec::new()] {
        let walked = bitmap_reachable(&bitmap, &graph.db, &roots, true).expect("walk");
        let mut found: Vec<ObjectId> = bitset_positions(&walked.words)
            .iter()
            .map(|position| *bitmap.oid_at(*position).expect("an object"))
            .collect();
        for (oid, _) in &walked.extended {
            assert!(bitmap.pack_position(oid).is_none());
            assert!(!found.contains(oid));
            found.push(*oid);
        }
        let mut plain = collect_reachable_object_ids(&graph.db, &roots).expect("walk").to_vec();
        found.sort_by_key(ObjectId::as_bytes);
        plain.sort_by_key(ObjectId::as_bytes);
        assert_eq!(found, plain);
    }
}

#[test]
fn a_bitmap_is_not_planned_for_an_open_pack() {
    let graph = graph();
    let index = entries(&[graph.first, graph.first_tree]);
    let headers = vec![Ok(Some(ObjectType::Commit)), Ok(Some(ObjectType::Tree))];
    assert!(matches!(
        build_pack_bitmap(&graph.db, &index, &headers, &OidSet::new(), &[]),
        Ok(BitmapBuild::Missing(oid)) if oid == graph.blob
    ));
    assert!(matches!(
        build_pack_bitmap(&graph.db, &[], &[], &OidSet::new(), &[]),
        Ok(BitmapBuild::Nothing)
    ));
}

#[test]
fn an_empty_body_met_as_a_tree_has_no_entries() {
    let mut db = ObjectDatabase::new(ObjectFormat::Sha1);
    let empty = db.write_object(EncodedObject::blob(Vec::new())).expect("blob");
    let full = db.write_object(EncodedObject::blob(b"no tree".to_vec())).expect("blob");
    let on_empty = commit(&mut db, empty, Vec::new(), 1);
    let on_full = commit(&mut db, full, Vec::new(), 2);
    let headers = || vec![Ok(Some(ObjectType::Commit)), Ok(Some(ObjectType::Blob))];
    match build_pack_bitmap(&db, &entries(&[on_empty, empty]), &headers(), &OidSet::new(), &[]).expect("build") {
        BitmapBuild::Plan(plan) => assert_eq!(plan.entries[0].positions, vec![0, 1]),
        _ => panic!("the pack is closed"),
    }
    assert!(build_pack_bitmap(&db, &entries(&[on_full, full]), &headers(), &OidSet::new(), &[]).is_err());
}

#[test]
fn pseudo_merges_cascade() {
    let graph = graph();
    let mut bitmap = load(&graph);
    let merge = |commits: &[u32], reached: &[u32]| sley_odb::bitmap::LoadedPseudoMerge {
        commits: std::sync::Arc::new(words(commits, 6)),
        bitmap: std::sync::Arc::new(words(reached, 6)),
    };
    bitmap.pseudo_merges.push(merge(&[0], &[0, 2]));
    bitmap.pseudo_merges.push(merge(&[1], &[0, 1]));
    let mut marked = words(&[1], 6);
    let (satisfied, cascades) = bitmap_cascade_pseudo_merges(&bitmap, &mut marked);
    assert_eq!(bitset_positions(&marked), vec![0, 1, 2]);
    assert_eq!((satisfied, cascades), (2, 1));
    assert_eq!(bitmap.pseudo_merge_count(), 2);
    assert!(bitmap.pseudo_merge_words(2).is_none());
}

#[test]
fn damaged_bitmaps_are_refused() {
    let checksum = digest_bytes(ObjectFormat::Sha1, b"pack");
    let oid = digest_bytes(ObjectFormat::Sha1, b"one");
    let data = |position: u32| PackBitmapData {
        pack_checksum: checksum,
        commits: Ok(words(&[0], 1)),
        trees: Ok(words(&[], 1)),
        blobs: Ok(words(&[], 1)),
        tags: Ok(words(&[], 1)),
        entries: vec![BitmapEntryData { object_position: position, xor_offset: 0, words: Ok(words(&[0], 1)) }],
        pseudo_merges: vec![PseudoMergeData { commits: Ok(words(&[0], 1)), bitmap: Ok(words(&[0], 1)) }],
    };
    assert!(assemble_loaded_bitmap(&data(0), vec![oid], &[oid]).is_ok());
    assert!(assemble_loaded_bitmap(&data(1), vec![oid], &[oid]).is_err());
    let mut bad = data(0);
    bad.trees = Err(GitError::InvalidFormat(String::from("bad ewah")));
    assert!(matches!(
        assemble_loaded_bitmap(&bad, vec![oid], &[oid]),
        Err(GitError::InvalidFormat(text)) if text == "bad ewah"
    ));
}

#[test]
fn incremental_bitmaps_are_built_in_memory() {
    let graph = graph();
    let order =
        vec![graph.second, graph.first, graph.second_tree, graph.first_tree, graph.other, graph.blob];
    let types = vec![
        Some(ObjectType::Commit),
        Some(ObjectType::Commit),
        Some(ObjectType::Tree),
        Some(ObjectType::Tree),
        Some(ObjectType::Blob),
        Some(ObjectType::Blob),
    ];
    let loaded = load_incremental_midx_bitmap(&graph.db, order, &types).expect("load").expect("closed");
    let words = loaded.bitmap_for_commit(&graph.first).expect("bitmap");
    assert_eq!(bitset_positions(words), vec![1, 3, 5]);
}

#[test]
fn bitmap_files_are_tried_in_order() {
    assert!(matches!(
        load_pack_bitmap(BitmapProbe::Incremental, ProbeOutcome::Absent, 2),
        BitmapSearch::Try(BitmapProbe::MultiPack)
    ));
    assert!(matches!(
        load_pack_bitmap(BitmapProbe::MultiPack, ProbeOutcome::Absent, 2),
        BitmapSearch::Try(BitmapProbe::Pack(0))
    ));
    assert!(matches!(load_pack_bitmap(BitmapProbe::Pack(0), ProbeOutcome::Found, 2), BitmapSearch::Use));
    assert!(matches!(load_pack_bitmap(BitmapProbe::Pack(1), ProbeOutcome::Absent, 2), BitmapSearch::GiveUp));
    let names: Vec<String> =
        ["pack-b.bitmap", "pack-a.idx", "pack-a.bitmap"].iter().map(|name| String::from(*name)).collect();
    assert_eq!(bitmap_candidates(&names), vec![String::from("pack-a.bitmap"), String::from("pack-b.bitmap")]);
    assert!(ridx_chunk_enabled(None));
    assert!(!midx_has_bad_ridx_chunk(b"short", ObjectFormat::Sha1));
}

#[test]
fn selection_dates_and_spacing() {
    assert_eq!(commit_identity_timestamp(b"T <t@example.invalid> 1234 +0000"), 1234);
    assert_eq!(commit_identity_timestamp(b"T <t@example.invalid> -5 +0000"), -5);
    assert_eq!(commit_identity_timestamp(b"nothing"), 0);
    assert_eq!(bitmap_next_commit_index(100), 0);
    assert_eq!(bitmap_next_commit_index(150), 50);
    assert_eq!(bitmap_next_commit_index(5000), 100);
}

#[test]
fn bit_sets_are_sets_of_positions() {
    let mut a = words(&[1, 70], 128);
    let b = words(&[2, 70], 128);
    assert!(!bitset_is_subset(&a, &b));
    assert!(bitset_is_subset(&words(&[70], 128), &b));
    bitset_or(&mut a, &b);
    assert_eq!(bitset_positions(&a), vec![1, 2, 70]);
    bitset_xor(&mut a, &b);
    assert_eq!(bitset_positions(&a), vec![1]);
    bitset_or(&mut a, &b);
    bitset_and_not(&mut a, &b);
    assert_eq!(bitset_positions(&a), vec![1]);
    assert_eq!(resize_bitset(&b, 1), vec![4]);
    assert_eq!(word_count_for(65), 2);
}

#[test]
fn maximal_commits_are_selected_or_where_lineages_meet() {
    let mut graph = graph();
    let side = commit(&mut graph.db, graph.first_tree, vec![graph.first], 5);
    // The two lineages meet in the first commit.
    assert_eq!(bitmap_num_maximal_commits(&graph.db, &[graph.second, side]), Ok(3));
    assert_eq!(bitmap_num_maximal_commits(&graph.db, &[graph.second]), Ok(1));
    assert_eq!(bitmap_num_maximal_commits(&graph.db, &[graph.first, graph.second]), Ok(2));
    assert_eq!(bitmap_num_maximal_commits(&graph.db, &[]), Ok(0));
    let missing = digest_bytes(ObjectFormat::Sha1, b"missing");
    assert!(bitmap_num_maximal_commits(&graph.db, &[missing]).is_err());
}

fn listed(ids: &[ObjectId]) -> PackRead {
    PackRead::Listed(PackListing { entries: entries(ids), large_offsets: false })
}

#[test]
fn layer_deduplicates_objects_and_prefers_named_pack() {
    let oid = EncodedObject::blob(b"a".to_vec()).object_id(ObjectFormat::Sha1);
    let mut options = MultiPackIndexLayerOptions::new(
        ObjectFormat::Sha1,
        vec![String::from("pack-one.idx"), String::from("pack-two.idx")],
    );
    options.preferred_pack_name = Some(String::from("pack-two.pack"));
    let outcome = match build_multi_pack_index_layer(&options, &vec![listed(&[oid]), listed(&[oid])], &vec![0, 0]) {
        Ok(outcome) => outcome,
        Err(_) => panic!("build layer"),
    };
    assert_eq!(outcome.objects.len(), 1);
    assert_eq!(outcome.objects[0].oid, oid);
    assert_eq!(outcome.objects[0].pack_int_id, 1);
    assert_eq!(outcome.preferred_pack, Some(1));
    assert!(outcome.events.is_empty());
}

#[test]
fn unknown_preferred_pack_is_an_event_not_terminal_output() {
    let oid = EncodedObject::blob(b"a".to_vec()).object_id(ObjectFormat::Sha1);
    let mut options = MultiPackIndexLayerOptions::new(ObjectFormat::Sha1, vec![String::from("pack-one.idx")]);
    options.preferred_pack_name = Some(String::from("missing.pack"));
    let outcome = match build_multi_pack_index_layer(&options, &vec![listed(&[oid])], &vec![0]) {
        Ok(outcome) => outcome,
        Err(_) => panic!("build layer"),
    };
    assert_eq!(outcome.preferred_pack, None);
    assert_eq!(
        outcome.events,
        vec![MultiPackIndexEvent::UnknownPreferredPack(String::from("missing.pack"))]
    );
    let err = build_multi_pack_index_layer(&options, &vec![PackRead::Missing], &vec![0]);
    assert!(matches!(err, Err(MultiPackIndexLayerError::CouldNotLoadPack)));
}

#[test]
fn unchanged_sha256_layer_does_not_resolve_bitmap_inputs() {
    let body = b"a multi-pack index".to_vec();
    let checksum = digest_bytes(ObjectFormat::Sha256, &body);
    let mut midx = body;
    midx.extend_from_slice(&checksum.as_bytes());
    assert!(layer_is_unchanged(true, Some(&midx), &midx, false, false));
    assert!(!layer_is_unchanged(false, Some(&midx), &midx, false, false));
    assert!(!layer_is_unchanged(true, None, &midx, false, false));
    let found = midx_checksum(ObjectFormat::Sha256, &midx).expect("checksum");
    assert_eq!(found.format(), ObjectFormat::Sha256);
    assert_eq!(found, checksum);
    let outcome = finish_multi_pack_index_layer(ObjectFormat::Sha256, midx, Some(0), false, true, None, None);
    assert!(outcome.unchanged);
    assert!(outcome.bitmap.is_none());
    assert_eq!(outcome.checksum, checksum);
}

#[test]
fn a_written_layer_carries_its_sidecars() {
    let body = b"a multi-pack index".to_vec();
    let checksum = digest_bytes(ObjectFormat::Sha1, &body);
    let mut midx = body;
    midx.extend_from_slice(&checksum.as_bytes());
    let outcome =
        finish_multi_pack_index_layer(ObjectFormat::Sha1, midx, None, true, false, Some(vec![1]), Some(vec![2]));
    assert_eq!(outcome.checksum, checksum);
    assert_eq!(outcome.bitmap, Some(vec![1]));
    assert_eq!(outcome.reverse_index, Some(vec![2]));
    assert!(outcome.wrote_bitmap && !outcome.unchanged);
}

#[test]
fn the_bits_of_a_multi_pack_index_follow_its_packs() {
    let graph = graph();
    let place = |oid: ObjectId, pack_int_id: u32, offset: u64| MultiPackIndexEntry {
        oid,
        pack_int_id,
        offset,
        force_large_offset: false,
    };
    let mut objects = vec![
        place(graph.first, 1, 12),
        place(graph.first_tree, 0, 12),
        place(graph.blob, 0, 50),
    ];
    objects.sort_by_key(|entry| entry.oid.to_hex());
    assert_eq!(
        list_midx_bit_order(&objects, Some(1)),
        vec![graph.first, graph.first_tree, graph.blob]
    );
    assert_eq!(
        list_midx_bit_order(&objects, Some(0)),
        vec![graph.first_tree, graph.blob, graph.first]
    );
    let reverse = list_reverse_positions(&objects, 1);
    assert_eq!(objects[reverse[0] as usize].oid, graph.first);
    let ranges = midx_bitmapped_pack_ranges(2, &objects, 1);
    assert_eq!((ranges[0].bitmap_pos, ranges[0].bitmap_nr), (1, 2));
    assert_eq!((ranges[1].bitmap_pos, ranges[1].bitmap_nr), (0, 1));
    let headers = vec![Ok(Some(ObjectType::Commit)), Ok(Some(ObjectType::Tree)), Ok(Some(ObjectType::Blob))];
    assert!(matches!(
        build_midx_bitmap(&graph.db, &objects, 1, &headers, &OidSet::new(), &[]),
        Ok(BitmapBuild::Plan(plan)) if plan.entries.len() == 1 && plan.entries[0].positions == vec![0, 1, 2]
    ));
    assert_eq!(pack_file_name("pack-a.idx"), "pack-a.pack");
}

fn midx_data(graph: &Graph, reverse: Option<Vec<u32>>) -> MultiPackIndexData {
    let mut objects: Vec<MultiPackIndexEntry> = [graph.first, graph.first_tree, graph.blob]
        .iter()
        .enumerate()
        .map(|(i, oid)| MultiPackIndexEntry {
            oid: *oid,
            pack_int_id: 0,
            offset: 12 + 10 * i as u64,
            force_large_offset: false,
        })
        .collect();
    objects.sort_by_key(|entry| entry.oid.to_hex());
    MultiPackIndexData {
        pack_names: vec![String::from("pack-a.idx")],
        objects,
        reverse_index: reverse,
        checksum: digest_bytes(ObjectFormat::Sha1, b"midx"),
    }
}

fn one_commit_bitmap(graph: &Graph, data: &MultiPackIndexData) -> PackBitmapData {
    let position = data.objects.iter().position(|entry| entry.oid == graph.first).expect("commit") as u32;
    PackBitmapData {
        pack_checksum: data.checksum,
        commits: Ok(words(&[0], 3)),
        trees: Ok(words(&[1], 3)),
        blobs: Ok(words(&[2], 3)),
        tags: Ok(words(&[], 3)),
        entries: vec![BitmapEntryData { object_position: position, xor_offset: 0, words: Ok(words(&[0, 1, 2], 3)) }],
        pseudo_merges: Vec::new(),
    }
}

#[test]
fn multi_pack_bitmaps_are_loaded_with_their_reverse_index() {
    let graph = graph();
    let mut data = midx_data(&graph, None);
    let reverse = list_reverse_positions(&data.objects, 0);
    data.reverse_index = Some(reverse.clone());
    let bitmap = one_commit_bitmap(&graph, &data);
    let loaded = match load_midx_bitmap(b"midx", ObjectFormat::Sha1, &Ok(data), true, &None, &Some(bitmap)) {
        MidxBitmapLoad::Loaded(loaded) => loaded,
        _ => panic!("the bitmap fits its index"),
    };
    assert_eq!(loaded.oid_at(0), Some(&graph.first));
    assert_eq!(bitset_positions(loaded.bitmap_for_commit(&graph.first).expect("bitmap")), vec![0, 1, 2]);

    // Without the chunk the order of bits comes from the separate file.
    let data = midx_data(&graph, None);
    let bitmap = one_commit_bitmap(&graph, &data);
    assert!(matches!(
        load_midx_bitmap(b"midx", ObjectFormat::Sha1, &Ok(data), false, &Some(reverse), &Some(bitmap)),
        MidxBitmapLoad::Loaded(_)
    ));
    let data = midx_data(&graph, None);
    let mut other = one_commit_bitmap(&graph, &data);
    other.pack_checksum = digest_bytes(ObjectFormat::Sha1, b"another index");
    assert!(matches!(
        load_midx_bitmap(b"midx", ObjectFormat::Sha1, &Ok(data), false, &Some(vec![0, 1, 2]), &Some(other)),
        MidxBitmapLoad::Unavailable
    ));
    let wrong = Err(GitError::InvalidFormat(String::from("multi-pack-index reverse-index chunk is the wrong size")));
    assert!(matches!(
        load_midx_bitmap(b"midx", ObjectFormat::Sha1, &wrong, true, &None, &None),
        MidxBitmapLoad::BadReverseIndex
    ));
}

#[test]
fn pack_bitmaps_are_loaded_only_for_their_pack() {
    let graph = graph();
    let order = vec![graph.first, graph.first_tree, graph.blob];
    let index = entries(&order);
    let checksum = digest_bytes(ObjectFormat::Sha1, b"midx");
    let position = index.iter().position(|entry| entry.oid == graph.first).expect("commit") as u32;
    let mut parsed = one_commit_bitmap(&graph, &midx_data(&graph, None));
    parsed.entries[0].object_position = position;
    let index = PackIndexData { entries: index, pack_checksum: checksum };
    let loaded = load_pack_bitmap_file(&index, &parsed).expect("load").expect("fits");
    assert_eq!(loaded.pack_position(&graph.blob), Some(2));
    parsed.pack_checksum = digest_bytes(ObjectFormat::Sha1, b"other");
    assert!(matches!(load_pack_bitmap_file(&index, &parsed), Ok(None)));
}

#[test]
fn layers_of_an_incremental_index_follow_each_other_in_bit_order() {
    let graph = graph();
    let mut first = midx_data(&graph, None);
    first.reverse_index = Some(list_reverse_positions(&first.objects, 0));
    let mut second = midx_data(&graph, Some(vec![0]));
    second.objects = vec![MultiPackIndexEntry {
        oid: graph.other,
        pack_int_id: 0,
        offset: 12,
        force_large_offset: false,
    }];
    let layers = vec![first, second];
    assert_eq!(
        incremental_bit_order(&layers),
        Some(vec![graph.first, graph.first_tree, graph.blob, graph.other])
    );
    assert_eq!(incremental_bit_order(&Vec::new()), None);
}

#[test]
fn layers_from_entries_record_pack_ranges_with_a_bitmap() {
    let graph = graph();
    let data = midx_data(&graph, None);
    let options = MultiPackIndexEntryLayerOptions {
        format: ObjectFormat::Sha1,
        version: 1,
        pack_names: data.pack_names,
        objects: data.objects,
        write_bitmap: true,
        preferred_pack: Some(0),
    };
    let write = build_multi_pack_index_layer_from_entries(&options);
    let ranges = write.bitmapped_packs.expect("ranges");
    assert_eq!((ranges[0].bitmap_pos, ranges[0].bitmap_nr), (0, 3));
}

#[test]
fn layers_without_closure_get_an_empty_bitmap_where_that_is_asked_for() {
    let graph = graph();
    let mut objects = midx_data(&graph, None).objects;
    objects.retain(|entry| entry.oid != graph.blob);
    let headers = || vec![Ok(Some(ObjectType::Commit)), Ok(Some(ObjectType::Tree))];
    let mut inputs = MultiPackIndexBitmapInputs::default();
    inputs.missing_closure = MissingMidxBitmapPolicy::WriteEmpty;
    let bitmap =
        match build_selected_multi_pack_index_layer(&graph.db, &objects, None, &inputs, &headers(), &Vec::new()) {
            Ok(bitmap) => bitmap,
            Err(_) => panic!("an empty bitmap was asked for"),
        };
    assert_eq!(bitmap.plan.object_types, vec![ObjectType::Commit, ObjectType::Tree]);
    assert!(bitmap.plan.entries.is_empty());
    inputs.missing_closure = MissingMidxBitmapPolicy::Error;
    assert!(matches!(
        build_selected_multi_pack_index_layer(&graph.db, &objects, None, &inputs, &headers(), &Vec::new()),
        Err(MultiPackIndexLayerError::BitmapUnavailable)
    ));
    let whole = midx_data(&graph, None).objects;
    let headers = vec![Ok(Some(ObjectType::Commit)), Ok(Some(ObjectType::Tree)), Ok(Some(ObjectType::Blob))];
    let bitmap = match build_selected_multi_pack_index_layer(&graph.db, &whole, None, &inputs, &headers, &Vec::new()) {
        Ok(bitmap) => bitmap,
        Err(_) => panic!("the layer is closed"),
    };
    assert_eq!(bitmap.plan.entries[0].positions, vec![0, 1, 2]);
}

#[test]
fn name_hashes_come_from_the_first_pack_that_has_them() {
    let graph = graph();
    let objects = midx_data(&graph, None).objects;
    let hashes = vec![
        NameHashes { entries: entries(&[graph.blob]), cache: vec![7] },
        NameHashes { entries: entries(&[graph.blob, graph.first_tree]), cache: vec![8, 8] },
    ];
    let cache = midx_bitmap_name_hash_cache(&hashes, &objects);
    for (entry, hash) in objects.iter().zip(&cache) {
        let expected = if entry.oid == graph.blob {
            7
        } else if entry.oid == graph.first_tree {
            8
        } else {
            0
        };
        assert_eq!(*hash, expected);
    }
}

#[test]
fn wide_offsets_show_in_the_length_of_an_index() {
    let mut index = vec![255u8, 116, 79, 99];
    index.resize(1032, 0);
    index.resize(1032 + 40, 0);
    assert!(!pack_index_has_large_offset_area(&index, ObjectFormat::Sha1));
    index.push(0);
    assert!(pack_index_has_large_offset_area(&index, ObjectFormat::Sha1));
    index[0] = 0;
    assert!(!pack_index_has_large_offset_area(&index, ObjectFormat::Sha1));
}
