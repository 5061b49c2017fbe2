//! What each partial-clone filter sends, in terms of the objects themselves.

use crate::error::GitError;
use crate::filter::are_least_depths;
use crate::filter::deeper;
use crate::filter::filter_inputs;
use crate::filter::ids_of;
use crate::filter::is_filtered;
use crate::filter::keeps;
use crate::filter::levels_closed;
use crate::filter::occurs_at;
use crate::filter::root_trees;
use crate::filter::subtrees;
use crate::filter::text_set;
use crate::filter::tree_children;
use crate::filter::PackObjectFilter;
use crate::object::ObjectContent;
use crate::object::ObjectReader;
use crate::object::TreeEntry;
use crate::object::TreeEntryKind;
use crate::object_id::ObjectId;
use crate::order::lemma_filter_contains;
use crate::sparse::commit_trees;
use crate::sparse::entry_path;
use crate::sparse::is_at_listed_path;
use crate::sparse::is_commit_tree;
use crate::sparse::lists_entry;
use crate::sparse::lossy_text;
use crate::sparse::places_closed;
use crate::sparse::stands_at;
use crate::sparse::tree_entries;
use crate::transfer::ReachablePackObject;
use crate::walk_laws::lemma_push_contains;
use vstd::prelude::*;
use vstd::utf8::*;

verus! {

/// The depths and the listed ids that a filter went by.
proof fn lemma_inputs<R: ObjectReader>(
    reader: &R,
    objects: Seq<ReachablePackObject>,
    wanted: Set<ObjectId>,
    filter: PackObjectFilter,
    kept: Seq<ReachablePackObject>,
) -> (inputs: (Map<ObjectId, u32>, Set<ObjectId>))
    requires
        is_filtered(reader, objects, wanted, filter, kept),
    ensures
        filter_inputs(reader, objects, filter, inputs.0, inputs.1),
        forall|entry: ReachablePackObject| #[trigger]
            kept.contains(entry) <==> objects.contains(entry) && keeps(filter, wanted, inputs.0, inputs.1, entry),
{
    let (depths, listed) = choose|depths: Map<ObjectId, u32>, listed: Set<ObjectId>|
        #![trigger filter_inputs(reader, objects, filter, depths, listed)]
        filter_inputs(reader, objects, filter, depths, listed) && kept == objects.filter(
            |entry: ReachablePackObject| keeps(filter, wanted, depths, listed, entry),
        );
    let keep = |entry: ReachablePackObject| keeps(filter, wanted, depths, listed, entry);
    assert forall|entry: ReachablePackObject| #[trigger] kept.contains(entry) <==> objects.contains(entry)
        && keeps(filter, wanted, depths, listed, entry) by {
        lemma_filter_contains(objects, keep, entry);
    }
    (depths, listed)
}

/// Without blobs, exactly the objects that are wanted or no blobs are sent.
pub proof fn law_blob_none_sends_all_but_blobs<R: ObjectReader>(
    reader: &R,
    objects: Seq<ReachablePackObject>,
    wanted: Set<ObjectId>,
    kept: Seq<ReachablePackObject>,
)
    requires
        is_filtered(reader, objects, wanted, PackObjectFilter::BlobNone, kept),
    ensures
        forall|entry: ReachablePackObject| #[trigger]
            kept.contains(entry) <==> objects.contains(entry) && (wanted.contains(entry.oid)
                || !(entry.object.content is Blob)),
{
    let inputs = lemma_inputs(reader, objects, wanted, PackObjectFilter::BlobNone, kept);
}

/// Under a limit, exactly the objects that are wanted, no blobs, or of fewer
/// bytes than the limit are sent.
pub proof fn law_blob_limit_sends_small_blobs<R: ObjectReader>(
    reader: &R,
    objects: Seq<ReachablePackObject>,
    wanted: Set<ObjectId>,
    limit: u64,
    kept: Seq<ReachablePackObject>,
)
    requires
        is_filtered(reader, objects, wanted, PackObjectFilter::BlobLimit(limit), kept),
    ensures
        forall|entry: ReachablePackObject| #[trigger]
            kept.contains(entry) <==> objects.contains(entry) && (wanted.contains(entry.oid)
                || !(entry.object.content is Blob) || entry.object.body@.len() < limit),
{
    let inputs = lemma_inputs(reader, objects, wanted, PackObjectFilter::BlobLimit(limit), kept);
}

/// A filter takes objects out and leaves the others in their order: `at` gives
/// the place that each object sent had.
pub proof fn law_filter_keeps_order<R: ObjectReader>(
    reader: &R,
    objects: Seq<ReachablePackObject>,
    wanted: Set<ObjectId>,
    filter: PackObjectFilter,
    kept: Seq<ReachablePackObject>,
) -> (at: Seq<int>)
    requires
        is_filtered(reader, objects, wanted, filter, kept),
    ensures
        at.len() == kept.len(),
        forall|k: int| 0 <= k < at.len() ==> 0 <= #[trigger] at[k] < objects.len() && objects[at[k]] == kept[k],
        forall|j: int, k: int| 0 <= j < k < at.len() ==> #[trigger] at[j] < #[trigger] at[k],
{
    let (depths, listed) = choose|depths: Map<ObjectId, u32>, listed: Set<ObjectId>|
        #![trigger filter_inputs(reader, objects, filter, depths, listed)]
        filter_inputs(reader, objects, filter, depths, listed) && kept == objects.filter(
            |entry: ReachablePackObject| keeps(filter, wanted, depths, listed, entry),
        );
    lemma_filter_places(objects, |entry: ReachablePackObject| keeps(filter, wanted, depths, listed, entry))
}

proof fn lemma_filter_places(
    objects: Seq<ReachablePackObject>,
    keep: spec_fn(ReachablePackObject) -> bool,
) -> (at: Seq<int>)
    ensures
        at.len() == objects.filter(keep).len(),
        forall|k: int|
            0 <= k < at.len() ==> 0 <= #[trigger] at[k] < objects.len() && objects[at[k]] == objects.filter(keep)[k],
        forall|j: int, k: int| 0 <= j < k < at.len() ==> #[trigger] at[j] < #[trigger] at[k],
    decreases objects.len(),
{
    reveal(Seq::filter);
    if objects.len() == 0 {
        Seq::empty()
    } else {
        let rest = lemma_filter_places(objects.drop_last(), keep);
        if keep(objects.last()) {
            rest.push(objects.len() - 1)
        } else {
            rest
        }
    }
}

proof fn lemma_available(objects: Seq<ReachablePackObject>, oid: ObjectId)
    ensures
        ids_of(objects).to_set().contains(oid) <==> exists|k: int|
            0 <= k < objects.len() && (#[trigger] objects[k]).oid == oid,
{
    let ids = ids_of(objects);
    if ids.contains(oid) {
        let k = choose|k: int| 0 <= k < ids.len() && ids[k] == oid;
        assert(objects[k].oid == oid);
    }
    if exists|k: int| 0 <= k < objects.len() && (#[trigger] objects[k]).oid == oid {
        let k = choose|k: int| 0 <= k < objects.len() && (#[trigger] objects[k]).oid == oid;
        assert(ids[k] == oid);
    }
}

proof fn lemma_root_trees(objects: Seq<ReachablePackObject>, available: Set<ObjectId>, tree: ObjectId)
    requires
        root_trees(objects, available) is Ok,
    ensures
        root_trees(objects, available)->Ok_0.contains(tree) <==> is_commit_tree(objects, tree) && available.contains(
            tree,
        ),
    decreases objects.len(),
{
    if objects.len() > 0 {
        let rest = objects.drop_last();
        let last = objects.len() - 1;
        lemma_root_trees(rest, available, tree);
        let before = root_trees(rest, available)->Ok_0;
        assert(objects[last] == objects.last());
        if let ObjectContent::Commit(Ok(commit)) = objects.last().object.content {
            lemma_push_contains(before, commit.tree, tree);
        }
        if is_commit_tree(rest, tree) {
            let i = choose|i: int|
                0 <= i < rest.len() && ((#[trigger] rest[i]).object.content matches ObjectContent::Commit(Ok(commit))
                    && commit.tree == tree);
            assert(objects[i] == rest[i]);
        }
        if is_commit_tree(objects, tree) {
            let i = choose|i: int|
                0 <= i < objects.len() && ((#[trigger] objects[i]).object.content matches ObjectContent::Commit(
                    Ok(commit),
                ) && commit.tree == tree);
            if i < last {
                assert(rest[i] == objects[i]);
            }
        }
    }
}

proof fn lemma_subtrees(entries: Seq<Result<TreeEntry, GitError>>, available: Set<ObjectId>, tree: ObjectId)
    requires
        subtrees(entries, available) is Ok,
    ensures
        subtrees(entries, available)->Ok_0.contains(tree) <==> available.contains(tree) && exists|i: int|
            0 <= i < entries.len() && (#[trigger] entries[i]) is Ok && entries[i]->Ok_0.kind == TreeEntryKind::Tree
                && entries[i]->Ok_0.oid == tree,
    decreases entries.len(),
{
    if entries.len() > 0 {
        let rest = entries.drop_last();
        let last = entries.len() - 1;
        lemma_subtrees(rest, available, tree);
        let before = subtrees(rest, available)->Ok_0;
        assert(entries[last] == entries.last());
        lemma_push_contains(before, entries.last()->Ok_0.oid, tree);
        if exists|i: int|
            0 <= i < rest.len() && (#[trigger] rest[i]) is Ok && rest[i]->Ok_0.kind == TreeEntryKind::Tree
                && rest[i]->Ok_0.oid == tree {
            let i = choose|i: int|
                0 <= i < rest.len() && (#[trigger] rest[i]) is Ok && rest[i]->Ok_0.kind == TreeEntryKind::Tree
                    && rest[i]->Ok_0.oid == tree;
            assert(entries[i] == rest[i]);
        }
        if exists|i: int|
            0 <= i < entries.len() && (#[trigger] entries[i]) is Ok && entries[i]->Ok_0.kind == TreeEntryKind::Tree
                && entries[i]->Ok_0.oid == tree {
            let i = choose|i: int|
                0 <= i < entries.len() && (#[trigger] entries[i]) is Ok && entries[i]->Ok_0.kind
                    == TreeEntryKind::Tree && entries[i]->Ok_0.oid == tree;
            if i < last {
                assert(rest[i] == entries[i]);
            }
        }
    }
}

/// Whether the object `from` is a tree with an entry for the tree `to`.
spec fn has_subtree<R: ObjectReader>(reader: &R, from: ObjectId, to: ObjectId) -> bool {
    reader.object_at(from) matches Ok(object) && (object.content matches ObjectContent::Tree(entries) && exists|
        i: int,
    |
        0 <= i < entries@.len() && (#[trigger] entries@[i]) is Ok && entries@[i]->Ok_0.kind == TreeEntryKind::Tree
            && entries@[i]->Ok_0.oid == to)
}

/// Whether `path` leads from the tree of a commit among `objects` through trees
/// among them, each an entry of the one before it.
spec fn is_tree_path<R: ObjectReader>(reader: &R, objects: Seq<ReachablePackObject>, path: Seq<ObjectId>) -> bool {
    &&& path.len() > 0
    &&& is_commit_tree(objects, path[0])
    &&& forall|i: int| 0 <= i < path.len() ==> ids_of(objects).to_set().contains(#[trigger] path[i])
    &&& forall|i: int, j: int|
        #![trigger path[i], path[j]]
        0 <= i && j == i + 1 && j < path.len() ==> has_subtree(reader, path[i], path[j])
}

/// The depth of the last tree of a path of `len` trees.
spec fn path_depth(len: nat) -> u32 {
    if len > u32::MAX {
        u32::MAX
    } else {
        (len - 1) as u32
    }
}

proof fn lemma_path_occurs<R: ObjectReader>(reader: &R, objects: Seq<ReachablePackObject>, path: Seq<ObjectId>)
    requires
        is_tree_path(reader, objects, path),
        root_trees(objects, ids_of(objects).to_set()) is Ok,
        forall|tree: ObjectId, depth: u32| #[trigger]
            occurs_at(
                tree_children(reader, ids_of(objects).to_set()),
                root_trees(objects, ids_of(objects).to_set())->Ok_0.to_set(),
                tree,
                depth,
            ) ==> tree_children(reader, ids_of(objects).to_set())(tree) is Ok,
    ensures
        occurs_at(
            tree_children(reader, ids_of(objects).to_set()),
            root_trees(objects, ids_of(objects).to_set())->Ok_0.to_set(),
            path.last(),
            path_depth(path.len()),
        ),
    decreases path.len(),
{
    let available = ids_of(objects).to_set();
    let children = tree_children(reader, available);
    let roots = root_trees(objects, available)->Ok_0.to_set();
    let last = path.len() - 1;
    assert(path[last] == path.last());
    lemma_available(objects, path[last]);
    if last == 0 {
        lemma_root_trees(objects, available, path[0]);
        assert(roots.contains(path[0]));
    } else {
        let rest = path.drop_last();
        assert(rest.last() == path[last - 1]);
        assert forall|i: int| 0 <= i < rest.len() implies ids_of(objects).to_set().contains(#[trigger] rest[i]) by {
            assert(path[i] == rest[i]);
        }
        assert forall|i: int, j: int|
            #![trigger rest[i], rest[j]]
            0 <= i && j == i + 1 && j < rest.len() implies has_subtree(reader, rest[i], rest[j]) by {
            assert(path[i] == rest[i] && path[j] == rest[j]);
        }
        lemma_path_occurs(reader, objects, rest);
        let from = rest.last();
        let depth = path_depth(rest.len());
        assert(children(from) is Ok);
        assert(has_subtree(reader, path[last - 1], path[last]));
        if let ObjectContent::Tree(entries) = reader.object_at(from)->Ok_0.content {
            lemma_subtrees(entries@, available, path[last]);
        }
        let kids = children(from)->Ok_0;
        assert(kids.contains(path[last]));
        let i = choose|i: int| 0 <= i < kids.len() && kids[i] == path[last];
        assert(deeper(depth) == path_depth(path.len()));
        assert forall|levels: Set<(ObjectId, u32)>| #[trigger] levels_closed(children, roots, levels)
            implies levels.contains((path.last(), path_depth(path.len()))) by {
            assert(levels.contains((from, depth)));
            assert(levels.contains((children(from)->Ok_0[i], deeper(depth))));
        }
    }
}

proof fn lemma_occurs_has_path<R: ObjectReader>(
    reader: &R,
    objects: Seq<ReachablePackObject>,
    tree: ObjectId,
    depth: u32,
) -> (path: Seq<ObjectId>)
    requires
        root_trees(objects, ids_of(objects).to_set()) is Ok,
        occurs_at(
            tree_children(reader, ids_of(objects).to_set()),
            root_trees(objects, ids_of(objects).to_set())->Ok_0.to_set(),
            tree,
            depth,
        ),
    ensures
        is_tree_path(reader, objects, path),
        path.last() == tree,
        path_depth(path.len()) == depth,
{
    let available = ids_of(objects).to_set();
    let children = tree_children(reader, available);
    let roots = root_trees(objects, available)->Ok_0.to_set();
    let levels = Set::new(
        |level: (ObjectId, u32)|
            exists|path: Seq<ObjectId>| #[trigger]
                is_tree_path(reader, objects, path) && path.last() == level.0 && path_depth(path.len()) == level.1,
    );
    assert forall|root: ObjectId| #[trigger] roots.contains(root) implies levels.contains((root, 0u32)) by {
        lemma_root_trees(objects, available, root);
        lemma_available(objects, root);
        let path = seq![root];
        assert(path[0] == root && path.last() == root);
        assert(is_tree_path(reader, objects, path));
    }
    assert forall|from: ObjectId, depth: u32, i: int|
        #![trigger levels.contains((from, depth)), children(from)->Ok_0[i]]
        levels.contains((from, depth)) && children(from) is Ok && 0 <= i < children(from)->Ok_0.len()
        implies levels.contains((children(from)->Ok_0[i], deeper(depth))) by {
        let path = choose|path: Seq<ObjectId>| #[trigger]
            is_tree_path(reader, objects, path) && path.last() == from && path_depth(path.len()) == depth;
        let to = children(from)->Ok_0[i];
        assert(children(from)->Ok_0.contains(to));
        if let ObjectContent::Tree(entries) = reader.object_at(from)->Ok_0.content {
            lemma_subtrees(entries@, available, to);
        }
        lemma_available(objects, to);
        assert(has_subtree(reader, from, to));
        let longer = path.push(to);
        assert(longer.last() == to);
        assert forall|k: int| 0 <= k < longer.len() implies ids_of(objects).to_set().contains(
            #[trigger] longer[k],
        ) by {
            if k < path.len() {
                assert(longer[k] == path[k]);
            }
        }
        assert forall|k: int, m: int|
            #![trigger longer[k], longer[m]]
            0 <= k && m == k + 1 && m < longer.len() implies has_subtree(reader, longer[k], longer[m]) by {
            assert(longer[k] == path[k]);
            if m < path.len() {
                assert(longer[m] == path[m]);
            }
        }
        assert(longer[0] == path[0]);
        assert(is_tree_path(reader, objects, longer));
        assert(path_depth(longer.len()) == deeper(depth));
    }
    assert(levels_closed(children, roots, levels));
    assert(levels.contains((tree, depth)));
    choose|path: Seq<ObjectId>| #[trigger]
        is_tree_path(reader, objects, path) && path.last() == tree && path_depth(path.len()) == depth
}

/// Under a depth limit commits and tags are sent, and of blobs only those that
/// are wanted.
pub proof fn law_tree_depth_sends_no_blobs<R: ObjectReader>(
    reader: &R,
    objects: Seq<ReachablePackObject>,
    wanted: Set<ObjectId>,
    limit: u32,
    kept: Seq<ReachablePackObject>,
)
    requires
        is_filtered(reader, objects, wanted, PackObjectFilter::TreeDepth(limit), kept),
    ensures
        forall|entry: ReachablePackObject| #[trigger]
            kept.contains(entry) ==> objects.contains(entry) && (wanted.contains(entry.oid)
                || !(entry.object.content is Blob)),
        forall|entry: ReachablePackObject| #[trigger]
            objects.contains(entry) && (wanted.contains(entry.oid) || entry.object.content is Commit
                || entry.object.content is Tag) ==> kept.contains(entry),
{
    let inputs = lemma_inputs(reader, objects, wanted, PackObjectFilter::TreeDepth(limit), kept);
    assert forall|entry: ReachablePackObject| #[trigger]
        objects.contains(entry) && (wanted.contains(entry.oid) || entry.object.content is Commit
            || entry.object.content is Tag) implies kept.contains(entry) by {
        assert(keeps(PackObjectFilter::TreeDepth(limit), wanted, inputs.0, inputs.1, entry));
    }
}

/// Under a depth limit a tree is sent where a path of at most `limit` trees
/// among the objects ends at it, beginning at the tree of a commit among them
/// and going from a tree to a tree that one of its entries names.
pub proof fn law_shallow_tree_is_sent<R: ObjectReader>(
    reader: &R,
    objects: Seq<ReachablePackObject>,
    wanted: Set<ObjectId>,
    limit: u32,
    kept: Seq<ReachablePackObject>,
    entry: ReachablePackObject,
    path: Seq<ObjectId>,
)
    requires
        is_filtered(reader, objects, wanted, PackObjectFilter::TreeDepth(limit), kept),
        objects.contains(entry),
        entry.object.content is Tree,
        0 < path.len() <= limit,
        path.last() == entry.oid,
        (exists|c: int|
            0 <= c < objects.len() && ((#[trigger] objects[c]).object.content matches ObjectContent::Commit(Ok(commit))
                && commit.tree == path[0])),
        forall|i: int|
            #![trigger path[i]]
            0 <= i < path.len() ==> exists|k: int| 0 <= k < objects.len() && (#[trigger] objects[k]).oid == path[i],
        forall|i: int|
            #![trigger path[i]]
            0 <= i < path.len() - 1 ==> (reader.object_at(path[i]) matches Ok(object) && (
            object.content matches ObjectContent::Tree(entries) && exists|k: int|
                0 <= k < entries@.len() && (#[trigger] entries@[k]) is Ok && entries@[k]->Ok_0.kind
                    == TreeEntryKind::Tree && entries@[k]->Ok_0.oid == path[i + 1])),
    ensures
        kept.contains(entry),
{
    let filter = PackObjectFilter::TreeDepth(limit);
    let inputs = lemma_inputs(reader, objects, wanted, filter, kept);
    assert(is_tree_path(reader, objects, path)) by {
        assert forall|i: int| 0 <= i < path.len() implies ids_of(objects).to_set().contains(#[trigger] path[i]) by {
            lemma_available(objects, path[i]);
        }
        assert(is_commit_tree(objects, path[0]));
    }
    lemma_shallow(reader, objects, limit, inputs.0, entry.oid);
    assert(keeps(filter, wanted, inputs.0, inputs.1, entry));
}

/// Under a depth limit no other tree is sent, unless it is wanted: such a path
/// of at most `limit` trees ends at each that is.
pub proof fn law_sent_tree_is_shallow<R: ObjectReader>(
    reader: &R,
    objects: Seq<ReachablePackObject>,
    wanted: Set<ObjectId>,
    limit: u32,
    kept: Seq<ReachablePackObject>,
    entry: ReachablePackObject,
) -> (path: Seq<ObjectId>)
    requires
        is_filtered(reader, objects, wanted, PackObjectFilter::TreeDepth(limit), kept),
        kept.contains(entry),
        entry.object.content is Tree,
        !wanted.contains(entry.oid),
    ensures
        objects.contains(entry),
        0 < path.len() <= limit,
        path.last() == entry.oid,
        (exists|c: int|
            0 <= c < objects.len() && ((#[trigger] objects[c]).object.content matches ObjectContent::Commit(Ok(commit))
                && commit.tree == path[0])),
        forall|i: int|
            #![trigger path[i]]
            0 <= i < path.len() ==> exists|k: int| 0 <= k < objects.len() && (#[trigger] objects[k]).oid == path[i],
        forall|i: int|
            #![trigger path[i]]
            0 <= i < path.len() - 1 ==> (reader.object_at(path[i]) matches Ok(object) && (
            object.content matches ObjectContent::Tree(entries) && exists|k: int|
                0 <= k < entries@.len() && (#[trigger] entries@[k]) is Ok && entries@[k]->Ok_0.kind
                    == TreeEntryKind::Tree && entries@[k]->Ok_0.oid == path[i + 1])),
{
    let filter = PackObjectFilter::TreeDepth(limit);
    let inputs = lemma_inputs(reader, objects, wanted, filter, kept);
    assert(keeps(filter, wanted, inputs.0, inputs.1, entry));
    lemma_shallow(reader, objects, limit, inputs.0, entry.oid);
    let path = choose|path: Seq<ObjectId>|
        0 < path.len() <= limit && #[trigger] path.last() == entry.oid && is_tree_path(reader, objects, path);
    assert(is_commit_tree(objects, path[0]));
    assert forall|i: int|
        #![trigger path[i]]
        0 <= i < path.len() implies exists|k: int| 0 <= k < objects.len() && (#[trigger] objects[k]).oid == path[i] by {
        lemma_available(objects, path[i]);
    }
    assert forall|i: int|
        #![trigger path[i]]
        0 <= i < path.len() - 1 implies (reader.object_at(path[i]) matches Ok(object) && (
    object.content matches ObjectContent::Tree(entries) && exists|k: int|
        0 <= k < entries@.len() && (#[trigger] entries@[k]) is Ok && entries@[k]->Ok_0.kind == TreeEntryKind::Tree
            && entries@[k]->Ok_0.oid == path[i + 1])) by {
        assert(has_subtree(reader, path[i], path[i + 1]));
    }
    path
}

proof fn lemma_shallow<R: ObjectReader>(
    reader: &R,
    objects: Seq<ReachablePackObject>,
    limit: u32,
    depths: Map<ObjectId, u32>,
    tree: ObjectId,
)
    requires
        root_trees(objects, ids_of(objects).to_set()) is Ok,
        are_least_depths(
            tree_children(reader, ids_of(objects).to_set()),
            root_trees(objects, ids_of(objects).to_set())->Ok_0.to_set(),
            depths,
        ),
        forall|tree: ObjectId| #[trigger]
            depths.contains_key(tree) ==> tree_children(reader, ids_of(objects).to_set())(tree) is Ok,
    ensures
        depths.contains_key(tree) && depths[tree] < limit <==> exists|path: Seq<ObjectId>|
            0 < path.len() <= limit && #[trigger] path.last() == tree && is_tree_path(reader, objects, path),
{
    let available = ids_of(objects).to_set();
    let children = tree_children(reader, available);
    let roots = root_trees(objects, available)->Ok_0.to_set();
    if depths.contains_key(tree) && depths[tree] < limit {
        assert(occurs_at(children, roots, tree, depths[tree]));
        let path = lemma_occurs_has_path(reader, objects, tree, depths[tree]);
        assert(0 < path.len() <= limit && path.last() == tree);
    }
    if exists|path: Seq<ObjectId>|
        0 < path.len() <= limit && #[trigger] path.last() == tree && is_tree_path(reader, objects, path) {
        let path = choose|path: Seq<ObjectId>|
            0 < path.len() <= limit && #[trigger] path.last() == tree && is_tree_path(reader, objects, path);
        lemma_path_occurs(reader, objects, path);
        assert(occurs_at(children, roots, tree, path_depth(path.len())));
    }
}

/// Whether the tree `from` at the path `above` has an entry for the tree `to`
/// at the path `below`.
spec fn has_place<R: ObjectReader>(
    reader: &R,
    from: ObjectId,
    above: Seq<char>,
    to: ObjectId,
    below: Seq<char>,
) -> bool {
    exists|i: int|
        0 <= i < tree_entries(reader, from).len() && (#[trigger] tree_entries(reader, from)[i]) is Ok
            && tree_entries(reader, from)[i]->Ok_0.kind == TreeEntryKind::Tree && tree_entries(
            reader,
            from,
        )[i]->Ok_0.oid == to && entry_path(above, tree_entries(reader, from)[i]->Ok_0.name@) == below
}

/// Whether `trees` leads from the tree of a commit among `objects` from tree to
/// tree, at the paths `at`.
spec fn is_descent<R: ObjectReader>(
    reader: &R,
    objects: Seq<ReachablePackObject>,
    trees: Seq<ObjectId>,
    at: Seq<Seq<char>>,
) -> bool {
    &&& trees.len() > 0
    &&& at.len() == trees.len()
    &&& at[0].len() == 0
    &&& is_commit_tree(objects, trees[0])
    &&& forall|i: int|
        #![trigger trees[i]]
        0 <= i < trees.len() - 1 ==> has_place(reader, trees[i], at[i], trees[i + 1], at[i + 1])
}

proof fn lemma_descent_stands<R: ObjectReader>(
    reader: &R,
    objects: Seq<ReachablePackObject>,
    trees: Seq<ObjectId>,
    at: Seq<Seq<char>>,
)
    requires
        is_descent(reader, objects, trees, at),
    ensures
        stands_at(reader, commit_trees(objects), trees.last(), at.last()),
    decreases trees.len(),
{
    let roots = commit_trees(objects);
    let last = trees.len() - 1;
    if last == 0 {
        assert(at[0] =~= Seq::<char>::empty());
        assert(roots.contains(trees[0]));
    } else {
        let above = trees.drop_last();
        let at_above = at.drop_last();
        assert forall|i: int|
            #![trigger above[i]]
            0 <= i < above.len() - 1 implies has_place(reader, above[i], at_above[i], above[i + 1], at_above[i + 1]) by {
            assert(above[i] == trees[i]);
        }
        assert(above[0] == trees[0] && at_above[0] == at[0]);
        lemma_descent_stands(reader, objects, above, at_above);
        let from = trees[last - 1];
        let path = at[last - 1];
        assert(above.last() == from && at_above.last() == path);
        assert(has_place(reader, from, path, trees[last - 1 + 1], at[last - 1 + 1]));
        let entries = tree_entries(reader, from);
        let i = choose|i: int|
            0 <= i < entries.len() && (#[trigger] entries[i]) is Ok && entries[i]->Ok_0.kind == TreeEntryKind::Tree
                && entries[i]->Ok_0.oid == trees[last] && entry_path(path, entries[i]->Ok_0.name@) == at[last];
        assert forall|places: Set<(ObjectId, Seq<char>)>| #[trigger] places_closed(reader, roots, places)
            implies places.contains((trees.last(), at.last())) by {
            assert(places.contains((from, path)));
            assert(tree_entries(reader, from)[i] is Ok);
        }
    }
}

proof fn lemma_stands_has_descent<R: ObjectReader>(
    reader: &R,
    objects: Seq<ReachablePackObject>,
    tree: ObjectId,
    path: Seq<char>,
) -> (descent: (Seq<ObjectId>, Seq<Seq<char>>))
    requires
        stands_at(reader, commit_trees(objects), tree, path),
    ensures
        is_descent(reader, objects, descent.0, descent.1),
        descent.0.last() == tree,
        descent.1.last() == path,
{
    let roots = commit_trees(objects);
    let places = Set::new(
        |place: (ObjectId, Seq<char>)|
            exists|trees: Seq<ObjectId>, at: Seq<Seq<char>>| #[trigger]
                is_descent(reader, objects, trees, at) && trees.last() == place.0 && at.last() == place.1,
    );
    assert forall|root: ObjectId| #[trigger] roots.contains(root) implies places.contains(
        (root, Seq::<char>::empty()),
    ) by {
        let trees = seq![root];
        let at = seq![Seq::<char>::empty()];
        assert(is_descent(reader, objects, trees, at));
        assert(trees.last() == root && at.last() == Seq::<char>::empty());
    }
    assert forall|from: ObjectId, above: Seq<char>, i: int|
        #![trigger places.contains((from, above)), tree_entries(reader, from)[i]]
        places.contains((from, above)) && 0 <= i < tree_entries(reader, from).len() implies match tree_entries(
        reader,
        from,
    )[i] {
        Ok(entry) => entry.kind == TreeEntryKind::Tree ==> places.contains(
            (entry.oid, entry_path(above, entry.name@)),
        ),
        Err(_) => true,
    } by {
        let (trees, at) = choose|trees: Seq<ObjectId>, at: Seq<Seq<char>>| #[trigger]
            is_descent(reader, objects, trees, at) && trees.last() == from && at.last() == above;
        let entry = tree_entries(reader, from)[i];
        if entry is Ok && entry->Ok_0.kind == TreeEntryKind::Tree {
            let to = entry->Ok_0.oid;
            let below = entry_path(above, entry->Ok_0.name@);
            let longer = trees.push(to);
            let at_longer = at.push(below);
            assert(has_place(reader, from, above, to, below));
            assert forall|k: int|
                #![trigger longer[k]]
                0 <= k < longer.len() - 1 implies has_place(
                reader,
                longer[k],
                at_longer[k],
                longer[k + 1],
                at_longer[k + 1],
            ) by {
                assert(longer[k] == trees[k] && at_longer[k] == at[k]);
            }
            assert(longer[0] == trees[0] && at_longer[0] == at[0]);
            assert(is_descent(reader, objects, longer, at_longer));
            assert(longer.last() == to && at_longer.last() == below);
        }
    }
    assert(places_closed(reader, roots, places));
    assert(places.contains((tree, path)));
    let (trees, at) = choose|trees: Seq<ObjectId>, at: Seq<Seq<char>>| #[trigger]
        is_descent(reader, objects, trees, at) && trees.last() == tree && at.last() == path;
    (trees, at)
}

pub proof fn lemma_listed_text(paths: Seq<String>, text: Seq<char>)
    ensures
        text_set(paths).contains(text) <==> exists|p: int| 0 <= p < paths.len() && (#[trigger] paths[p])@ == text,
{
    let all = paths.map_values(|path: String| path@);
    if all.contains(text) {
        let p = choose|p: int| 0 <= p < all.len() && all[p] == text;
        assert(paths[p]@ == text);
    }
    if exists|p: int| 0 <= p < paths.len() && (#[trigger] paths[p])@ == text {
        let p = choose|p: int| 0 <= p < paths.len() && (#[trigger] paths[p])@ == text;
        assert(all[p] == text);
    }
}

/// Under a list of paths, all but blobs are sent, and a blob only where it is
/// wanted or one of the objects at a listed path.
pub proof fn law_sparse_filter_takes_out_blobs_only<R: ObjectReader>(
    reader: &R,
    objects: Seq<ReachablePackObject>,
    wanted: Set<ObjectId>,
    paths: Vec<String>,
    kept: Seq<ReachablePackObject>,
)
    requires
        is_filtered(reader, objects, wanted, PackObjectFilter::SparsePathSet(paths), kept),
    ensures
        forall|entry: ReachablePackObject| #[trigger] kept.contains(entry) ==> objects.contains(entry),
        forall|entry: ReachablePackObject| #[trigger]
            objects.contains(entry) && (wanted.contains(entry.oid) || !(entry.object.content is Blob))
                ==> kept.contains(entry),
{
    let filter = PackObjectFilter::SparsePathSet(paths);
    let inputs = lemma_inputs(reader, objects, wanted, filter, kept);
    assert forall|entry: ReachablePackObject| #[trigger]
        objects.contains(entry) && (wanted.contains(entry.oid) || !(entry.object.content is Blob))
        implies kept.contains(entry) by {
        assert(keeps(filter, wanted, inputs.0, inputs.1, entry));
    }
}

/// Under a list of paths, a blob is sent where an entry for it, in a tree that
/// `trees` leads down to from the tree of a commit among the objects, stands at
/// a listed path: the names of the entries on the way, with slashes between
/// them. `at` gives the path of each of the trees.
pub proof fn law_listed_blob_is_sent<R: ObjectReader>(
    reader: &R,
    objects: Seq<ReachablePackObject>,
    wanted: Set<ObjectId>,
    paths: Vec<String>,
    kept: Seq<ReachablePackObject>,
    entry: ReachablePackObject,
    trees: Seq<ObjectId>,
    at: Seq<Seq<char>>,
)
    requires
        is_filtered(reader, objects, wanted, PackObjectFilter::SparsePathSet(paths), kept),
        objects.contains(entry),
        trees.len() > 0 && at.len() == trees.len(),
        at[0].len() == 0,
        (exists|c: int|
            0 <= c < objects.len() && ((#[trigger] objects[c]).object.content matches ObjectContent::Commit(Ok(commit))
                && commit.tree == trees[0])),
        forall|i: int|
            #![trigger trees[i]]
            0 <= i < trees.len() - 1 ==> (reader.object_at(trees[i]) matches Ok(object) && (
            object.content matches ObjectContent::Tree(entries) && exists|k: int|
                0 <= k < entries@.len() && (#[trigger] entries@[k]) is Ok && entries@[k]->Ok_0.kind
                    == TreeEntryKind::Tree && entries@[k]->Ok_0.oid == trees[i + 1] && if at[i].len() == 0 {
                        at[i + 1] == if valid_utf8(entries@[k]->Ok_0.name@) {
                            decode_utf8(entries@[k]->Ok_0.name@)
                        } else {
                            lossy_text(entries@[k]->Ok_0.name@)
                        }
                    } else {
                        at[i + 1] == at[i] + "/"@ + if valid_utf8(entries@[k]->Ok_0.name@) {
                            decode_utf8(entries@[k]->Ok_0.name@)
                        } else {
                            lossy_text(entries@[k]->Ok_0.name@)
                        }
                    })),
        reader.object_at(trees.last()) matches Ok(object) && (object.content matches ObjectContent::Tree(entries)
            && exists|k: int, p: int|
            0 <= k < entries@.len() && (#[trigger] entries@[k]) is Ok && entries@[k]->Ok_0.kind != TreeEntryKind::Tree
                && entries@[k]->Ok_0.oid == entry.oid && 0 <= p < paths@.len() && (#[trigger] paths@[p])@ == if at.last().len() == 0 {
                    if valid_utf8(entries@[k]->Ok_0.name@) {
                        decode_utf8(entries@[k]->Ok_0.name@)
                    } else {
                        lossy_text(entries@[k]->Ok_0.name@)
                    }
                } else {
                    at.last() + "/"@ + if valid_utf8(entries@[k]->Ok_0.name@) {
                        decode_utf8(entries@[k]->Ok_0.name@)
                    } else {
                        lossy_text(entries@[k]->Ok_0.name@)
                    }
                }),
    ensures
        kept.contains(entry),
{
    let filter = PackObjectFilter::SparsePathSet(paths);
    let inputs = lemma_inputs(reader, objects, wanted, filter, kept);
    assert forall|i: int|
        #![trigger trees[i]]
        0 <= i < trees.len() - 1 implies has_place(reader, trees[i], at[i], trees[i + 1], at[i + 1]) by {
        let entries = tree_entries(reader, trees[i]);
        assert(exists|k: int|
            0 <= k < entries.len() && (#[trigger] entries[k]) is Ok && entries[k]->Ok_0.kind == TreeEntryKind::Tree
                && entries[k]->Ok_0.oid == trees[i + 1] && entry_path(at[i], entries[k]->Ok_0.name@) == at[i + 1]);
    }
    assert(is_commit_tree(objects, trees[0]));
    assert(is_descent(reader, objects, trees, at));
    lemma_descent_stands(reader, objects, trees, at);
    let entries = tree_entries(reader, trees.last());
    let (k, p) = choose|k: int, p: int|
        0 <= k < entries.len() && (#[trigger] entries[k]) is Ok && entries[k]->Ok_0.kind != TreeEntryKind::Tree
            && entries[k]->Ok_0.oid == entry.oid && 0 <= p < paths@.len() && (#[trigger] paths@[p])@ == entry_path(
            at.last(),
            entries[k]->Ok_0.name@,
        );
    lemma_listed_text(paths@, entry_path(at.last(), entries[k]->Ok_0.name@));
    assert(lists_entry(reader, text_set(paths@), trees.last(), at.last(), k, entry.oid));
    assert(is_at_listed_path(reader, commit_trees(objects), text_set(paths@), entry.oid));
    assert(keeps(filter, wanted, inputs.0, inputs.1, entry));
}

/// Under a list of paths no other blob is sent, unless it is wanted: an entry
/// for each that is stands at a listed path, below the trees that `descent`
/// gives with the path of each.
pub proof fn law_sent_blob_is_listed<R: ObjectReader>(
    reader: &R,
    objects: Seq<ReachablePackObject>,
    wanted: Set<ObjectId>,
    paths: Vec<String>,
    kept: Seq<ReachablePackObject>,
    entry: ReachablePackObject,
) -> (descent: (Seq<ObjectId>, Seq<Seq<char>>))
    requires
        is_filtered(reader, objects, wanted, PackObjectFilter::SparsePathSet(paths), kept),
        kept.contains(entry),
        entry.object.content is Blob,
        !wanted.contains(entry.oid),
    ensures
        objects.contains(entry),
        descent.0.len() > 0 && descent.1.len() == descent.0.len(),
        descent.1[0].len() == 0,
        (exists|c: int|
            0 <= c < objects.len() && ((#[trigger] objects[c]).object.content matches ObjectContent::Commit(Ok(commit))
                && commit.tree == descent.0[0])),
        forall|i: int|
            #![trigger descent.0[i]]
            0 <= i < descent.0.len() - 1 ==> (reader.object_at(descent.0[i]) matches Ok(object) && (
            object.content matches ObjectContent::Tree(entries) && exists|k: int|
                0 <= k < entries@.len() && (#[trigger] entries@[k]) is Ok && entries@[k]->Ok_0.kind
                    == TreeEntryKind::Tree && entries@[k]->Ok_0.oid == descent.0[i + 1] && if descent.1[i].len() == 0 {
                        descent.1[i + 1] == if valid_utf8(entries@[k]->Ok_0.name@) {
                            decode_utf8(entries@[k]->Ok_0.name@)
                        } else {
                            lossy_text(entries@[k]->Ok_0.name@)
                        }
                    } else {
                        descent.1[i + 1] == descent.1[i] + "/"@ + if valid_utf8(entries@[k]->Ok_0.name@) {
                            decode_utf8(entries@[k]->Ok_0.name@)
                        } else {
                            lossy_text(entries@[k]->Ok_0.name@)
                        }
                    })),
        reader.object_at(descent.0.last()) matches Ok(object) && (object.content matches ObjectContent::Tree(entries)
            && exists|k: int, p: int|
            0 <= k < entries@.len() && (#[trigger] entries@[k]) is Ok && entries@[k]->Ok_0.kind != TreeEntryKind::Tree
                && entries@[k]->Ok_0.oid == entry.oid && 0 <= p < paths@.len() && (#[trigger] paths@[p])@ == if descent.1.last().len() == 0 {
                    if valid_utf8(entries@[k]->Ok_0.name@) {
                        decode_utf8(entries@[k]->Ok_0.name@)
                    } else {
                        lossy_text(entries@[k]->Ok_0.name@)
                    }
                } else {
                    descent.1.last() + "/"@ + if valid_utf8(entries@[k]->Ok_0.name@) {
                        decode_utf8(entries@[k]->Ok_0.name@)
                    } else {
                        lossy_text(entries@[k]->Ok_0.name@)
                    }
                }),
{
    let filter = PackObjectFilter::SparsePathSet(paths);
    let inputs = lemma_inputs(reader, objects, wanted, filter, kept);
    assert(keeps(filter, wanted, inputs.0, inputs.1, entry));
    let roots = commit_trees(objects);
    let listed = text_set(paths@);
    assert(is_at_listed_path(reader, roots, listed, entry.oid));
    let (tree, path, k) = choose|tree: ObjectId, path: Seq<char>, k: int|
        stands_at(reader, roots, tree, path) && #[trigger] lists_entry(reader, listed, tree, path, k, entry.oid);
    let descent = lemma_stands_has_descent(reader, objects, tree, path);
    let trees = descent.0;
    let at = descent.1;
    assert forall|i: int|
        #![trigger trees[i]]
        0 <= i < trees.len() - 1 implies exists|k: int|
        0 <= k < tree_entries(reader, trees[i]).len() && (#[trigger] tree_entries(reader, trees[i])[k]) is Ok
            && tree_entries(reader, trees[i])[k]->Ok_0.kind == TreeEntryKind::Tree && tree_entries(
            reader,
            trees[i],
        )[k]->Ok_0.oid == trees[i + 1] && entry_path(at[i], tree_entries(reader, trees[i])[k]->Ok_0.name@) == at[i
            + 1] by {
        assert(has_place(reader, trees[i], at[i], trees[i + 1], at[i + 1]));
    }
    assert(is_commit_tree(objects, trees[0]));
    let text = entry_path(path, tree_entries(reader, tree)[k]->Ok_0.name@);
    lemma_listed_text(paths@, text);
    let p = choose|p: int| 0 <= p < paths@.len() && (#[trigger] paths@[p])@ == text;
    assert(tree_entries(reader, tree)[k] is Ok && paths@[p]@ == text);
    descent
}

} // verus!
