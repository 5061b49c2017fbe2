//! Partial-clone filters: which reachable objects a transfer leaves out.

use crate::error::GitError;
use crate::object::ObjectContent;
use crate::object::ObjectReader;
use crate::object::ObjectType;
use crate::object::TreeEntry;
use crate::object::TreeEntryKind;
use crate::object_id::ObjectId;
use crate::oid_map::OidMap;
use crate::oid_map::OidSet;
use crate::reachability::strict_walk;
use crate::sparse::collect_sparse_filter_blobs;
use crate::sparse::commit_trees;
use crate::sparse::is_at_listed_path;
use crate::sparse::scan_commits;
use crate::text::text_eq;
use crate::transfer::collect_reachable_pack_objects;
use crate::transfer::pack_objects;
use crate::transfer::ReachablePackObject;
use vstd::prelude::*;

verus! {

/// A partial-clone object filter applied while building a transfer pack.
///
/// Directly wanted tips are always packed; a filter only drops objects reached
/// through the walk.
#[derive(Debug, PartialEq, Eq)]
pub enum PackObjectFilter {
    /// `blob:none`: omit every blob reached through tree traversal.
    BlobNone,
    /// `blob:limit=<n>`: omit traversed blobs whose body is at least `n` bytes.
    BlobLimit(u64),
    /// `tree:<n>`: keep only trees shallower than `n`, and omit traversed blobs.
    TreeDepth(u32),
    /// `sparse:oid=<blob>`: keep only blobs whose repo path is listed.
    SparsePathSet(Vec<String>),
}

/// One more than `depth`, as far as that can be counted.
pub open spec fn deeper(depth: u32) -> u32 {
    if depth == u32::MAX {
        depth
    } else {
        (depth + 1) as u32
    }
}

/// The trees that a tree's entries name among `available`, or the error of its
/// first malformed entry.
pub open spec fn subtrees(
    entries: Seq<Result<TreeEntry, GitError>>,
    available: Set<ObjectId>,
) -> Result<Seq<ObjectId>, GitError>
    decreases entries.len(),
{
    if entries.len() == 0 {
        Ok(Seq::empty())
    } else {
        match subtrees(entries.drop_last(), available) {
            Err(err) => Err(err),
            Ok(trees) => match entries.last() {
                Err(err) => Err(err),
                Ok(entry) => if entry.kind == TreeEntryKind::Tree && available.contains(entry.oid) {
                    Ok(trees.push(entry.oid))
                } else {
                    Ok(trees)
                },
            },
        }
    }
}

proof fn lemma_subtrees_prefix(
    entries: Seq<Result<TreeEntry, GitError>>,
    available: Set<ObjectId>,
    n: int,
)
    requires
        0 <= n <= entries.len(),
        subtrees(entries.take(n), available) is Err,
    ensures
        subtrees(entries, available) == subtrees(entries.take(n), available),
    decreases entries.len() - n,
{
    if n < entries.len() {
        assert(entries.take(n + 1).drop_last() =~= entries.take(n));
        lemma_subtrees_prefix(entries, available, n + 1);
    } else {
        assert(entries.take(n) =~= entries);
    }
}

proof fn lemma_subtrees_available(entries: Seq<Result<TreeEntry, GitError>>, available: Set<ObjectId>)
    ensures
        subtrees(entries, available) matches Ok(trees) ==> forall|i: int|
            0 <= i < trees.len() ==> available.contains(#[trigger] trees[i]),
    decreases entries.len(),
{
    if entries.len() > 0 {
        lemma_subtrees_available(entries.drop_last(), available);
    }
}

/// The trees one level below a tree, among `available`.
pub open spec fn tree_children<R: ObjectReader>(
    reader: &R,
    available: Set<ObjectId>,
) -> spec_fn(ObjectId) -> Result<Seq<ObjectId>, GitError> {
    |tree: ObjectId|
        match reader.object_at(tree) {
            Err(err) => Err(err),
            Ok(object) => match object.content {
                ObjectContent::Tree(entries) => subtrees(entries@, available),
                _ => Ok(Seq::empty()),
            },
        }
}

/// The trees of the commits among `objects`, as far as they are available, or
/// the error of the first commit that does not decode.
pub open spec fn root_trees(
    objects: Seq<ReachablePackObject>,
    available: Set<ObjectId>,
) -> Result<Seq<ObjectId>, GitError>
    decreases objects.len(),
{
    if objects.len() == 0 {
        Ok(Seq::empty())
    } else {
        match root_trees(objects.drop_last(), available) {
            Err(err) => Err(err),
            Ok(trees) => match objects.last().object.content {
                ObjectContent::Commit(Err(err)) => Err(err),
                ObjectContent::Commit(Ok(commit)) => if available.contains(commit.tree) {
                    Ok(trees.push(commit.tree))
                } else {
                    Ok(trees)
                },
                _ => Ok(trees),
            },
        }
    }
}

proof fn lemma_root_trees_prefix(objects: Seq<ReachablePackObject>, available: Set<ObjectId>, n: int)
    requires
        0 <= n <= objects.len(),
        root_trees(objects.take(n), available) is Err,
    ensures
        root_trees(objects, available) == root_trees(objects.take(n), available),
    decreases objects.len() - n,
{
    if n < objects.len() {
        assert(objects.take(n + 1).drop_last() =~= objects.take(n));
        lemma_root_trees_prefix(objects, available, n + 1);
    } else {
        assert(objects.take(n) =~= objects);
    }
}

/// Whether `levels` pairs every root with depth zero and, with each tree and
/// depth that it pairs, every child of the tree with the next depth.
pub open spec fn levels_closed(
    children: spec_fn(ObjectId) -> Result<Seq<ObjectId>, GitError>,
    roots: Set<ObjectId>,
    levels: Set<(ObjectId, u32)>,
) -> bool {
    &&& forall|root: ObjectId| #[trigger] roots.contains(root) ==> levels.contains((root, 0u32))
    &&& forall|tree: ObjectId, depth: u32, i: int|
        #![trigger levels.contains((tree, depth)), children(tree)->Ok_0[i]]
        levels.contains((tree, depth)) && children(tree) is Ok && 0 <= i < children(tree)->Ok_0.len()
            ==> levels.contains((children(tree)->Ok_0[i], deeper(depth)))
}

/// Whether `tree` occurs `depth` levels below a root.
pub open spec fn occurs_at(
    children: spec_fn(ObjectId) -> Result<Seq<ObjectId>, GitError>,
    roots: Set<ObjectId>,
    tree: ObjectId,
    depth: u32,
) -> bool {
    forall|levels: Set<(ObjectId, u32)>|
        #[trigger] levels_closed(children, roots, levels) ==> levels.contains((tree, depth))
}

/// Whether `depths` gives each tree that occurs below a root the least depth at
/// which it does.
pub open spec fn are_least_depths(
    children: spec_fn(ObjectId) -> Result<Seq<ObjectId>, GitError>,
    roots: Set<ObjectId>,
    depths: Map<ObjectId, u32>,
) -> bool {
    &&& forall|tree: ObjectId|
        #[trigger] depths.contains_key(tree) ==> occurs_at(children, roots, tree, depths[tree])
    &&& forall|tree: ObjectId, depth: u32|
        #[trigger] occurs_at(children, roots, tree, depth) ==> depths.contains_key(tree) && depths[tree] <= depth
}

/// How far the depths of `items` can still fall.
spec fn potential(items: Seq<ObjectId>, depths: Map<ObjectId, u32>) -> nat
    decreases items.len(),
{
    if items.len() == 0 {
        0
    } else {
        potential(items.drop_last(), depths) + slack(items.last(), depths)
    }
}

spec fn slack(oid: ObjectId, depths: Map<ObjectId, u32>) -> nat {
    if depths.contains_key(oid) {
        depths[oid] as nat
    } else {
        0x1_0000_0000
    }
}

proof fn lemma_potential_update(items: Seq<ObjectId>, depths: Map<ObjectId, u32>, oid: ObjectId, depth: u32)
    requires
        items.no_duplicates(),
    ensures
        items.contains(oid) ==> potential(items, depths.insert(oid, depth)) + slack(oid, depths)
            == potential(items, depths) + depth,
        !items.contains(oid) ==> potential(items, depths.insert(oid, depth)) == potential(items, depths),
    decreases items.len(),
{
    if items.len() > 0 {
        let rest = items.drop_last();
        lemma_potential_update(rest, depths, oid, depth);
        if items.last() == oid {
            assert(!rest.contains(oid)) by {
                if rest.contains(oid) {
                    let i = choose|i: int| 0 <= i < rest.len() && rest[i] == oid;
                    assert(items[i] == items[items.len() - 1]);
                }
            }
            assert(items[items.len() - 1] == oid);
        } else if items.contains(oid) {
            let i = choose|i: int| 0 <= i < items.len() && items[i] == oid;
            assert(rest[i] == oid);
        } else {
            assert forall|i: int| 0 <= i < rest.len() implies rest[i] != oid by {
                assert(items[i] != oid);
            }
        }
    }
}

/// What holds of the depth search in progress.
spec fn depth_search(
    children: spec_fn(ObjectId) -> Result<Seq<ObjectId>, GitError>,
    roots: Set<ObjectId>,
    stack: Seq<(ObjectId, u32)>,
    depths: Map<ObjectId, u32>,
) -> bool {
    &&& forall|i: int|
        0 <= i < stack.len() ==> occurs_at(children, roots, (#[trigger] stack[i]).0, stack[i].1)
    &&& forall|tree: ObjectId|
        #[trigger] depths.contains_key(tree) ==> occurs_at(children, roots, tree, depths[tree])
    &&& forall|tree: ObjectId| #[trigger] depths.contains_key(tree) ==> children(tree) is Ok
    &&& forall|root: ObjectId| #[trigger] roots.contains(root) ==> covered(stack, depths, root, 0)
    &&& forall|tree: ObjectId, i: int|
        #![trigger depths.contains_key(tree), children(tree)->Ok_0[i]]
        depths.contains_key(tree) && 0 <= i < children(tree)->Ok_0.len()
            ==> covered(stack, depths, children(tree)->Ok_0[i], deeper(depths[tree]))
}

spec fn covered(stack: Seq<(ObjectId, u32)>, depths: Map<ObjectId, u32>, tree: ObjectId, depth: u32) -> bool {
    ||| depths.contains_key(tree) && depths[tree] <= depth
    ||| exists|k: int| 0 <= k < stack.len() && (#[trigger] stack[k]).0 == tree && stack[k].1 <= depth
}

proof fn lemma_search_done(
    children: spec_fn(ObjectId) -> Result<Seq<ObjectId>, GitError>,
    roots: Set<ObjectId>,
    depths: Map<ObjectId, u32>,
)
    requires
        depth_search(children, roots, Seq::empty(), depths),
    ensures
        are_least_depths(children, roots, depths),
{
    let levels = Set::new(
        |pair: (ObjectId, u32)| depths.contains_key(pair.0) && depths[pair.0] <= pair.1,
    );
    assert forall|tree: ObjectId, depth: u32, i: int|
        #![trigger levels.contains((tree, depth)), children(tree)->Ok_0[i]]
        levels.contains((tree, depth)) && children(tree) is Ok && 0 <= i < children(tree)->Ok_0.len()
        implies levels.contains((children(tree)->Ok_0[i], deeper(depth))) by {
        assert(depths.contains_key(tree));
        assert(covered(Seq::empty(), depths, children(tree)->Ok_0[i], deeper(depths[tree])));
    }
    assert forall|root: ObjectId| #[trigger] roots.contains(root) implies levels.contains((root, 0u32)) by {
        assert(covered(Seq::empty(), depths, root, 0));
    }
    assert(levels_closed(children, roots, levels));
    assert forall|tree: ObjectId, depth: u32| #[trigger] occurs_at(children, roots, tree, depth)
        implies depths.contains_key(tree) && depths[tree] <= depth by {
        assert(levels.contains((tree, depth)));
    }
}

/// Taking the top of the stack off without using it keeps everything covered,
/// where its tree has a depth no greater already.
proof fn lemma_search_skip(
    children: spec_fn(ObjectId) -> Result<Seq<ObjectId>, GitError>,
    roots: Set<ObjectId>,
    stack: Seq<(ObjectId, u32)>,
    depths: Map<ObjectId, u32>,
)
    requires
        depth_search(children, roots, stack, depths),
        stack.len() > 0,
        depths.contains_key(stack.last().0),
        depths[stack.last().0] <= stack.last().1,
    ensures
        depth_search(children, roots, stack.drop_last(), depths),
{
    let rest = stack.drop_last();
    assert forall|tree: ObjectId, depth: u32| covered(stack, depths, tree, depth)
        implies #[trigger] covered(rest, depths, tree, depth) by {
        if !(depths.contains_key(tree) && depths[tree] <= depth) {
            let k = choose|k: int|
                0 <= k < stack.len() && (#[trigger] stack[k]).0 == tree && stack[k].1 <= depth;
            assert(k < stack.len() - 1);
            assert(rest[k] == stack[k]);
        }
    }
    assert forall|i: int| 0 <= i < rest.len() implies occurs_at(
        children,
        roots,
        (#[trigger] rest[i]).0,
        rest[i].1,
    ) by {
        assert(rest[i] == stack[i]);
    }
    assert forall|root: ObjectId| #[trigger] roots.contains(root) implies covered(rest, depths, root, 0) by {
        assert(covered(stack, depths, root, 0));
    }
    assert forall|tree: ObjectId, i: int|
        #![trigger depths.contains_key(tree), children(tree)->Ok_0[i]]
        depths.contains_key(tree) && 0 <= i < children(tree)->Ok_0.len()
        implies covered(rest, depths, children(tree)->Ok_0[i], deeper(depths[tree])) by {
        assert(covered(stack, depths, children(tree)->Ok_0[i], deeper(depths[tree])));
    }
}

/// Giving the tree on top of the stack its lower depth, and stacking its
/// children, keeps everything covered.
proof fn lemma_search_visit(
    children: spec_fn(ObjectId) -> Result<Seq<ObjectId>, GitError>,
    roots: Set<ObjectId>,
    stack: Seq<(ObjectId, u32)>,
    depths: Map<ObjectId, u32>,
    next: Seq<(ObjectId, u32)>,
)
    requires
        depth_search(children, roots, stack, depths),
        stack.len() > 0,
        depths.contains_key(stack.last().0) ==> stack.last().1 < depths[stack.last().0],
        children(stack.last().0) is Ok,
        next == stack.drop_last() + children(stack.last().0)->Ok_0.map_values(
            |child: ObjectId| (child, deeper(stack.last().1)),
        ),
    ensures
        depth_search(children, roots, next, depths.insert(stack.last().0, stack.last().1)),
{
    let (top, depth) = stack.last();
    let rest = stack.drop_last();
    let kids = children(top)->Ok_0;
    let after = depths.insert(top, depth);
    assert(stack[stack.len() - 1] == (top, depth));
    assert(occurs_at(children, roots, top, depth));
    assert forall|t: ObjectId, d: u32| covered(stack, depths, t, d)
        implies #[trigger] covered(next, after, t, d) by {
        if depths.contains_key(t) && depths[t] <= d {
            assert(after.contains_key(t) && after[t] <= d);
        } else {
            let k = choose|k: int|
                0 <= k < stack.len() && (#[trigger] stack[k]).0 == t && stack[k].1 <= d;
            if k < stack.len() - 1 {
                assert(next[k] == stack[k]);
            } else {
                assert(after.contains_key(t) && after[t] <= d);
            }
        }
    }
    assert forall|i: int| 0 <= i < next.len() implies occurs_at(
        children,
        roots,
        (#[trigger] next[i]).0,
        next[i].1,
    ) by {
        if i < rest.len() {
            assert(next[i] == stack[i]);
        } else {
            let k = i - rest.len();
            assert(next[i] == (kids[k], deeper(depth)));
            assert forall|levels: Set<(ObjectId, u32)>| #[trigger] levels_closed(children, roots, levels)
                implies levels.contains((kids[k], deeper(depth))) by {
                assert(levels.contains((top, depth)));
                assert(children(top)->Ok_0[k] == kids[k]);
            }
        }
    }
    assert forall|root: ObjectId| #[trigger] roots.contains(root) implies covered(next, after, root, 0) by {
        assert(covered(stack, depths, root, 0));
    }
    assert forall|tree: ObjectId, i: int|
        #![trigger after.contains_key(tree), children(tree)->Ok_0[i]]
        after.contains_key(tree) && 0 <= i < children(tree)->Ok_0.len()
        implies covered(next, after, children(tree)->Ok_0[i], deeper(after[tree])) by {
        if tree == top {
            assert(next[rest.len() + i] == (kids[i], deeper(depth)));
        } else {
            assert(depths.contains_key(tree));
            assert(covered(stack, depths, children(tree)->Ok_0[i], deeper(depths[tree])));
        }
    }
}

/// The trees of `entries` among `available`.
fn collect_subtrees(
    entries: &Vec<Result<TreeEntry, GitError>>,
    available: &OidSet,
) -> (trees: Result<Vec<ObjectId>, GitError>)
    ensures
        match trees {
            Ok(trees) => subtrees(entries@, available@) == Ok::<Seq<ObjectId>, GitError>(trees@),
            Err(err) => subtrees(entries@, available@) == Err::<Seq<ObjectId>, GitError>(err),
        },
{
    let mut trees: Vec<ObjectId> = Vec::new();
    let mut i: usize = 0;
    while i < entries.len()
        invariant
            i <= entries@.len(),
            subtrees(entries@.take(i as int), available@) == Ok::<Seq<ObjectId>, GitError>(trees@),
        decreases entries@.len() - i,
    {
        assert(entries@.take(i + 1).drop_last() =~= entries@.take(i as int));
        match &entries[i] {
            Err(err) => {
                let err = err.copy();
                proof {
                    lemma_subtrees_prefix(entries@, available@, i + 1);
                }
                return Err(err);
            },
            Ok(entry) => {
                if entry.kind == TreeEntryKind::Tree && available.contains(&entry.oid) {
                    trees.push(entry.oid);
                }
            },
        }
        i += 1;
    }
    assert(entries@.take(i as int) =~= entries@);
    Ok(trees)
}

/// The ids of `objects`.
pub open spec fn ids_of(objects: Seq<ReachablePackObject>) -> Seq<ObjectId> {
    objects.map_values(|entry: ReachablePackObject| entry.oid)
}

/// Whether `err` is what expanding some tree below the roots yields.
pub open spec fn fails_below(
    children: spec_fn(ObjectId) -> Result<Seq<ObjectId>, GitError>,
    roots: Set<ObjectId>,
    err: GitError,
) -> bool {
    exists|tree: ObjectId, depth: u32|
        #[trigger] occurs_at(children, roots, tree, depth)
            && children(tree) == Err::<Seq<ObjectId>, GitError>(err)
}

/// `trees`, each with `depth`.
pub open spec fn at_depth(trees: Seq<ObjectId>, depth: u32) -> Seq<(ObjectId, u32)> {
    trees.map_values(|tree: ObjectId| (tree, depth))
}

/// What a search through `stack`, its last tree first, comes to within `steps`
/// trees: the depths it ends with, or the error of the first tree that does not
/// expand. A tree whose known depth is no greater is passed over.
pub open spec fn search_result(
    children: spec_fn(ObjectId) -> Result<Seq<ObjectId>, GitError>,
    stack: Seq<(ObjectId, u32)>,
    depths: Map<ObjectId, u32>,
    steps: nat,
) -> Option<Result<Map<ObjectId, u32>, GitError>>
    decreases steps,
{
    if stack.len() == 0 {
        Some(Ok(depths))
    } else if steps == 0 {
        None
    } else {
        let (tree, depth) = stack.last();
        if depths.contains_key(tree) && depths[tree] <= depth {
            search_result(children, stack.drop_last(), depths, (steps - 1) as nat)
        } else {
            match children(tree) {
                Err(err) => Some(Err(err)),
                Ok(kids) => search_result(
                    children,
                    stack.drop_last() + at_depth(kids, deeper(depth)),
                    depths.insert(tree, depth),
                    (steps - 1) as nat,
                ),
            }
        }
    }
}

/// Whether `err` is the first that a search from `roots`, the last of them
/// first, meets.
pub open spec fn fails_first(
    children: spec_fn(ObjectId) -> Result<Seq<ObjectId>, GitError>,
    roots: Seq<ObjectId>,
    err: GitError,
) -> bool {
    exists|steps: nat|
        #[trigger] search_result(children, at_depth(roots, 0), Map::empty(), steps) == Some(
            Err::<Map<ObjectId, u32>, GitError>(err),
        )
}

/// The set of the ids of `objects`.
pub fn oids_of(objects: &[ReachablePackObject]) -> (oids: OidSet)
    ensures
        oids@ == ids_of(objects@).to_set(),
{
    let mut oids = OidSet::new();
    let ghost all = ids_of(objects@);
    let mut i: usize = 0;
    while i < objects.len()
        invariant
            i <= objects@.len(),
            all == ids_of(objects@),
            oids@ == all.take(i as int).to_set(),
        decreases objects@.len() - i,
    {
        oids.insert(objects[i].oid);
        proof {
            assert(all.take(i + 1) =~= all.take(i as int).push(all[i as int]));
            all.take(i as int).lemma_push_to_set_commute(all[i as int]);
        }
        i += 1;
    }
    assert(all.take(i as int) =~= all);
    oids
}

/// How deep each tree among `objects` lies below the tree of a commit among
/// them, along the shallowest path through trees among them.
pub fn collect_tree_filter_depths<R: ObjectReader>(
    reader: &R,
    objects: &[ReachablePackObject],
) -> (depths: Result<OidMap<u32>, GitError>)
    ensures
        ({
            let available = ids_of(objects@).to_set();
            let children = tree_children(reader, available);
            match (depths, root_trees(objects@, available)) {
                (Ok(depths), Ok(roots)) => are_least_depths(children, roots.to_set(), depths@)
                    && forall|tree: ObjectId| #[trigger] depths@.contains_key(tree) ==> children(tree) is Ok,
                (Ok(_), Err(_)) => false,
                (Err(err), Err(e)) => err == e,
                (Err(err), Ok(roots)) => fails_below(children, roots.to_set(), err) && fails_first(
                    children,
                    roots,
                    err,
                ),
            }
        }),
{
    let available = oids_of(objects);
    let ghost children = tree_children(reader, available@);
    let mut stack: Vec<(ObjectId, u32)> = Vec::new();
    let ghost mut found: Seq<ObjectId> = Seq::empty();
    let mut i: usize = 0;
    while i < objects.len()
        invariant
            i <= objects@.len(),
            available@ == ids_of(objects@).to_set(),
            root_trees(objects@.take(i as int), available@) == Ok::<Seq<ObjectId>, GitError>(found),
            stack@ == found.map_values(|tree: ObjectId| (tree, 0u32)),
            forall|k: int| 0 <= k < found.len() ==> available@.contains(#[trigger] found[k]),
        decreases objects@.len() - i,
    {
        assert(objects@.take(i + 1).drop_last() =~= objects@.take(i as int));
        match &objects[i].object.content {
            ObjectContent::Commit(Err(err)) => {
                let err = err.copy();
                proof {
                    lemma_root_trees_prefix(objects@, available@, i + 1);
                }
                return Err(err);
            },
            ObjectContent::Commit(Ok(commit)) => {
                if available.contains(&commit.tree) {
                    stack.push((commit.tree, 0u32));
                    proof {
                        found = found.push(commit.tree);
                        assert(stack@ =~= found.map_values(|tree: ObjectId| (tree, 0u32)));
                    }
                }
            },
            _ => {},
        }
        i += 1;
    }
    assert(objects@.take(i as int) =~= objects@);
    let ghost roots = found.to_set();
    let mut depths: OidMap<u32> = OidMap::new();
    let available_len: usize = available.len();
    let ghost first = stack@;
    let ghost mut steps: nat = 0;
    proof {
        assert(first =~= at_depth(found, 0));
        assert forall|k: int| 0 <= k < stack@.len() implies occurs_at(
            children,
            roots,
            (#[trigger] stack@[k]).0,
            stack@[k].1,
        ) by {
            assert(roots.contains(found[k]));
        }
        assert forall|root: ObjectId| #[trigger] roots.contains(root) implies covered(stack@, depths@, root, 0) by {
            let k = choose|k: int| 0 <= k < found.len() && found[k] == root;
            assert(stack@[k] == (root, 0u32));
        }
        assert forall|k: int| 0 <= k < stack@.len() implies available@.contains((#[trigger] stack@[k]).0) by {
            assert(stack@[k].0 == found[k]);
        }
    }
    while stack.len() > 0
        invariant
            children == tree_children(reader, available@),
            available@ == ids_of(objects@).to_set(),
            available.items().no_duplicates(),
            root_trees(objects@, available@) == Ok::<Seq<ObjectId>, GitError>(found),
            roots == found.to_set(),
            depth_search(children, roots, stack@, depths@),
            first == at_depth(found, 0),
            forall|more: nat| #[trigger]
                search_result(children, stack@, depths@, more) == search_result(
                    children,
                    first,
                    Map::empty(),
                    steps + more,
                ),
            forall|k: int| 0 <= k < stack@.len() ==> available@.contains((#[trigger] stack@[k]).0),
        decreases potential(available.items(), depths@), stack@.len(),
    {
        let ghost before = stack@;
        let ghost depths_before = depths@;
        let (tree_oid, depth) = match stack.pop() {
            Some(top) => top,
            None => {
                return Ok(depths);
            },
        };
        assert(before.last() == (tree_oid, depth));
        assert(before[before.len() - 1] == (tree_oid, depth));
        assert(stack@ == before.drop_last());
        let known = match depths.get(&tree_oid) {
            Some(old_depth) => *old_depth <= depth,
            None => false,
        };
        if known {
            proof {
                lemma_search_skip(children, roots, before, depths@);
                assert forall|more: nat| #[trigger]
                    search_result(children, stack@, depths@, more) == search_result(
                        children,
                        first,
                        Map::empty(),
                        steps + 1 + more,
                    ) by {
                    assert(search_result(children, before, depths@, more + 1) == search_result(
                        children,
                        stack@,
                        depths@,
                        more,
                    ));
                }
                steps = steps + 1;
            }
            continue ;
        }
        proof {
            assert(available.items().contains(tree_oid));
            lemma_potential_update(available.items(), depths@, tree_oid, depth);
        }
        depths.insert(tree_oid, depth);
        let tree = match reader.read_object(&tree_oid) {
            Err(err) => {
                proof {
                    assert(occurs_at(children, roots, tree_oid, depth));
                    assert(children(tree_oid) == Err::<Seq<ObjectId>, GitError>(err));
                    assert(fails_below(children, roots, err));
                    assert(search_result(children, before, depths_before, 1) == Some(
                        Err::<Map<ObjectId, u32>, GitError>(err),
                    ));
                    assert(fails_first(children, found, err));
                }
                return Err(err);
            },
            Ok(tree) => tree,
        };
        let child_depth: u32 = if depth == u32::MAX {
            depth
        } else {
            depth + 1
        };
        let kids = match &tree.content {
            ObjectContent::Tree(entries) => match collect_subtrees(entries, &available) {
                Err(err) => {
                    proof {
                        assert(occurs_at(children, roots, tree_oid, depth));
                        assert(children(tree_oid) == Err::<Seq<ObjectId>, GitError>(err));
                        assert(fails_below(children, roots, err));
                        assert(search_result(children, before, depths_before, 1) == Some(
                            Err::<Map<ObjectId, u32>, GitError>(err),
                        ));
                        assert(fails_first(children, found, err));
                    }
                    return Err(err);
                },
                Ok(kids) => {
                    proof {
                        lemma_subtrees_available(entries@, available@);
                    }
                    kids
                },
            },
            _ => Vec::new(),
        };
        assert(children(tree_oid) == Ok::<Seq<ObjectId>, GitError>(kids@));
        let mut j: usize = 0;
        while j < kids.len()
            invariant
                j <= kids@.len(),
                child_depth == deeper(depth),
                stack@ == before.drop_last() + kids@.take(j as int).map_values(
                    |child: ObjectId| (child, deeper(depth)),
                ),
            decreases kids@.len() - j,
        {
            stack.push((kids[j], child_depth));
            proof {
                let f = |child: ObjectId| (child, deeper(depth));
                assert(kids@.take(j + 1).map_values(f) =~= kids@.take(j as int).map_values(f).push(
                    (kids@[j as int], deeper(depth)),
                ));
                assert(stack@ =~= before.drop_last() + kids@.take(j + 1).map_values(f));
            }
            j += 1;
        }
        proof {
            assert(kids@.take(j as int) =~= kids@);
            assert(children(tree_oid)->Ok_0.map_values(|child: ObjectId| (child, deeper(before.last().1)))
                =~= kids@.map_values(|child: ObjectId| (child, deeper(depth))));
            lemma_search_visit(children, roots, before, depths_before, stack@);
            assert(stack@ =~= before.drop_last() + at_depth(kids@, deeper(depth)));
            assert forall|more: nat| #[trigger]
                search_result(children, stack@, depths@, more) == search_result(
                    children,
                    first,
                    Map::empty(),
                    steps + 1 + more,
                ) by {
                assert(search_result(children, before, depths_before, more + 1) == search_result(
                    children,
                    stack@,
                    depths@,
                    more,
                ));
            }
            steps = steps + 1;
            assert forall|k: int| 0 <= k < stack@.len() implies available@.contains((#[trigger] stack@[k]).0) by {
                if k < before.len() - 1 {
                    assert(stack@[k] == before[k]);
                } else {
                    assert(stack@[k].0 == kids@[k - (before.len() - 1)]);
                }
            }
        }
    }
    proof {
        assert(stack@ =~= Seq::empty());
        lemma_search_done(children, roots, depths@);
    }
    Ok(depths)
}

/// The texts of `paths`.
pub open spec fn text_set(paths: Seq<String>) -> Set<Seq<char>> {
    paths.map_values(|path: String| path@).to_set()
}

/// Whether `text` is one of `texts`.
pub fn lists_text(texts: &[String], text: &str) -> (listed: bool)
    ensures
        listed == text_set(texts@).contains(text@),
{
    let ghost all = texts@.map_values(|path: String| path@);
    let mut i: usize = 0;
    while i < texts.len()
        invariant
            i <= texts@.len(),
            all == texts@.map_values(|path: String| path@),
            forall|k: int| 0 <= k < i ==> all[k] != text@,
        decreases texts@.len() - i,
    {
        if text_eq(texts[i].as_str(), text) {
            assert(all[i as int] == text@);
            return true;
        }
        i += 1;
    }
    false
}

/// Whether a filter keeps an object. `depths` and `listed` are what the tree
/// and the path filter look at.
pub open spec fn keeps(
    filter: PackObjectFilter,
    wanted: Set<ObjectId>,
    depths: Map<ObjectId, u32>,
    listed: Set<ObjectId>,
    entry: ReachablePackObject,
) -> bool {
    ||| wanted.contains(entry.oid)
    ||| match filter {
        PackObjectFilter::BlobNone => entry.object.spec_type() != ObjectType::Blob,
        PackObjectFilter::BlobLimit(limit) => entry.object.spec_type() != ObjectType::Blob
            || entry.object.body@.len() < limit,
        PackObjectFilter::TreeDepth(depth) => match entry.object.spec_type() {
            ObjectType::Blob => false,
            ObjectType::Tree => depths.contains_key(entry.oid) && depths[entry.oid] < depth,
            _ => true,
        },
        PackObjectFilter::SparsePathSet(_) => entry.object.spec_type() != ObjectType::Blob
            || listed.contains(entry.oid),
    }
}

fn keep_object(
    filter: &PackObjectFilter,
    wanted: &OidSet,
    depths: &OidMap<u32>,
    listed: &OidSet,
    entry: &ReachablePackObject,
) -> (keep: bool)
    ensures
        keep == keeps(*filter, wanted@, depths@, listed@, *entry),
{
    if wanted.contains(&entry.oid) {
        return true;
    }
    let object_type = entry.object.object_type();
    match filter {
        PackObjectFilter::BlobNone => object_type != ObjectType::Blob,
        PackObjectFilter::BlobLimit(limit) => object_type != ObjectType::Blob
            || (entry.object.body.len() as u64) < *limit,
        PackObjectFilter::TreeDepth(depth) => match object_type {
            ObjectType::Blob => false,
            ObjectType::Tree => match depths.get(&entry.oid) {
                Some(tree_depth) => *tree_depth < *depth,
                None => false,
            },
            _ => true,
        },
        PackObjectFilter::SparsePathSet(_) => object_type != ObjectType::Blob
            || listed.contains(&entry.oid),
    }
}

/// Whether `kept` is what `filter` leaves of `objects`, in their order.
pub open spec fn is_filtered<R: ObjectReader>(
    reader: &R,
    objects: Seq<ReachablePackObject>,
    wanted: Set<ObjectId>,
    filter: PackObjectFilter,
    kept: Seq<ReachablePackObject>,
) -> bool {
    exists|depths: Map<ObjectId, u32>, listed: Set<ObjectId>|
        #![trigger filter_inputs(reader, objects, filter, depths, listed)]
        filter_inputs(reader, objects, filter, depths, listed) && kept == objects.filter(
            |entry: ReachablePackObject| keeps(filter, wanted, depths, listed, entry),
        )
}

/// Whether `depths` and `listed` are what the filter is to look at.
pub open spec fn filter_inputs<R: ObjectReader>(
    reader: &R,
    objects: Seq<ReachablePackObject>,
    filter: PackObjectFilter,
    depths: Map<ObjectId, u32>,
    listed: Set<ObjectId>,
) -> bool {
    let available = ids_of(objects).to_set();
    &&& filter is TreeDepth ==> root_trees(objects, available) is Ok && are_least_depths(
        tree_children(reader, available),
        root_trees(objects, available)->Ok_0.to_set(),
        depths,
    ) && forall|tree: ObjectId| #[trigger]
        depths.contains_key(tree) ==> tree_children(reader, available)(tree) is Ok
    &&& filter matches PackObjectFilter::SparsePathSet(paths) ==> scan_commits(reader, objects) is Ok && forall|
        oid: ObjectId,
    | #[trigger]
        listed.contains(oid) <==> is_at_listed_path(reader, commit_trees(objects), text_set(paths@), oid)
}

/// Whether `err` is why `filter` cannot be applied to `objects`.
pub open spec fn filter_fails<R: ObjectReader>(
    reader: &R,
    objects: Seq<ReachablePackObject>,
    filter: PackObjectFilter,
    err: GitError,
) -> bool {
    let available = ids_of(objects).to_set();
    match filter {
        PackObjectFilter::TreeDepth(_) => match root_trees(objects, available) {
            Err(e) => err == e,
            Ok(roots) => {
                &&& fails_below(tree_children(reader, available), roots.to_set(), err)
                &&& fails_first(tree_children(reader, available), roots, err)
            },
        },
        PackObjectFilter::SparsePathSet(_) => scan_commits(reader, objects) == Err::<Seq<ObjectId>, GitError>(err),
        _ => false,
    }
}

/// Drops from `objects` what `filter` omits. Objects in `wanted` always stay.
pub fn filter_pack_objects<R: ObjectReader>(
    reader: &R,
    objects: &Vec<ReachablePackObject>,
    wanted: &OidSet,
    filter: &PackObjectFilter,
) -> (kept: Result<Vec<ReachablePackObject>, GitError>)
    ensures
        match kept {
            Ok(kept) => is_filtered(reader, objects@, wanted@, *filter, kept@),
            Err(err) => filter_fails(reader, objects@, *filter, err),
        },
{
    let mut depths: OidMap<u32> = OidMap::new();
    let mut listed = OidSet::new();
    match filter {
        PackObjectFilter::TreeDepth(_) => match collect_tree_filter_depths(reader, objects) {
            Err(err) => {
                return Err(err);
            },
            Ok(found) => {
                depths = found;
            },
        },
        PackObjectFilter::SparsePathSet(paths) => match collect_sparse_filter_blobs(reader, objects, paths) {
            Err(err) => {
                return Err(err);
            },
            Ok(found) => {
                listed = found;
            },
        },
        _ => {},
    }
    let ghost keep = |entry: ReachablePackObject| keeps(*filter, wanted@, depths@, listed@, entry);
    let mut kept: Vec<ReachablePackObject> = Vec::new();
    let mut i: usize = 0;
    assert(objects@.take(0).filter(keep) =~= Seq::empty()) by {
        reveal(Seq::filter);
    }
    while i < objects.len()
        invariant
            i <= objects@.len(),
            keep == (|entry: ReachablePackObject| keeps(*filter, wanted@, depths@, listed@, entry)),
            kept@ == objects@.take(i as int).filter(keep),
        decreases objects@.len() - i,
    {
        proof {
            reveal(Seq::filter);
            assert(objects@.take(i + 1).drop_last() =~= objects@.take(i as int));
        }
        if keep_object(filter, wanted, &depths, &listed, &objects[i]) {
            kept.push(objects[i].copy());
        }
        i += 1;
    }
    proof {
        assert(objects@.take(i as int) =~= objects@);
        assert(filter_inputs(reader, objects@, *filter, depths@, listed@));
    }
    Ok(kept)
}

/// What becomes of the objects of a transfer.
pub enum TransferPlan {
    /// There is nothing to send.
    Empty,
    /// The objects are few: each is written loose.
    Loose(Vec<ReachablePackObject>),
    /// The objects go into one pack, in this order.
    Pack(Vec<ReachablePackObject>),
}

impl TransferPlan {
    /// The objects that are sent.
    pub open spec fn sent(self) -> Seq<ReachablePackObject> {
        match self {
            TransferPlan::Empty => Seq::empty(),
            TransferPlan::Loose(objects) => objects@,
            TransferPlan::Pack(objects) => objects@,
        }
    }
}

/// Decides what a transfer of everything reachable from `starts` without
/// entering `excluded` sends, and how: with a filter, what it keeps; below
/// `unpack_limit` objects, loose instead of packed.
pub fn build_and_install_reachable_pack_filtered<R: ObjectReader>(
    source: &R,
    starts: &[ObjectId],
    excluded: &OidSet,
    filter: Option<PackObjectFilter>,
    unpack_limit: Option<usize>,
) -> (plan: Result<TransferPlan, GitError>)
    ensures
        match (plan, strict_walk(source, starts@, excluded@, Set::empty())) {
            (Err(err), Err(e)) => err == e,
            (Ok(_), Err(_)) => false,
            (Err(err), Ok(ids)) => filter is Some && filter_fails(
                source,
                pack_objects(source, ids),
                filter->Some_0,
                err,
            ),
            (Ok(plan), Ok(ids)) => {
                &&& match filter {
                    None => plan.sent() == pack_objects(source, ids),
                    Some(filter) => is_filtered(
                        source,
                        pack_objects(source, ids),
                        starts@.to_set(),
                        filter,
                        plan.sent(),
                    ),
                }
                &&& plan is Empty <==> plan.sent().len() == 0
                &&& plan is Loose <==> plan.sent().len() > 0 && unpack_limit is Some
                    && plan.sent().len() < unpack_limit->Some_0
            },
        },
{
    let wanted = OidSet::from_slice(starts);
    let mut objects = match collect_reachable_pack_objects(source, starts, excluded) {
        Err(err) => {
            return Err(err);
        },
        Ok(objects) => objects,
    };
    match &filter {
        None => {},
        Some(filter) => match filter_pack_objects(source, &objects, &wanted, filter) {
            Err(err) => {
                return Err(err);
            },
            Ok(kept) => {
                objects = kept;
            },
        },
    }
    if objects.len() == 0 {
        assert(objects@ =~= Seq::empty());
        return Ok(TransferPlan::Empty);
    }
    match unpack_limit {
        Some(limit) => {
            if objects.len() < limit {
                Ok(TransferPlan::Loose(objects))
            } else {
                Ok(TransferPlan::Pack(objects))
            }
        },
        None => Ok(TransferPlan::Pack(objects)),
    }
}

/// Decides what a transfer without a filter sends: all of it, in one pack.
pub fn build_and_install_reachable_pack<R: ObjectReader>(source: &R, starts: &[ObjectId], excluded: &OidSet) -> (plan:
    Result<TransferPlan, GitError>)
    ensures
        match strict_walk(source, starts@, excluded@, Set::empty()) {
            Err(failure) => plan matches Err(err) && err == failure,
            Ok(ids) => if ids.len() == 0 {
                plan matches Ok(TransferPlan::Empty)
            } else {
                plan matches Ok(TransferPlan::Pack(objects)) && objects@ == pack_objects(source, ids)
            },
        },
{
    build_and_install_reachable_pack_filtered(source, starts, excluded, None, None)
}

/// Directly wanted objects are sent whatever the filter.
pub proof fn law_filter_keeps_wanted<R: ObjectReader>(
    reader: &R,
    objects: Seq<ReachablePackObject>,
    wanted: Set<ObjectId>,
    filter: PackObjectFilter,
    kept: Seq<ReachablePackObject>,
    entry: ReachablePackObject,
)
    requires
        is_filtered(reader, objects, wanted, filter, kept),
        objects.contains(entry),
        wanted.contains(entry.oid),
    ensures
        kept.contains(entry),
{
    let (depths, listed) = choose|depths: Map<ObjectId, u32>, listed: Set<ObjectId>|
        #![trigger filter_inputs(reader, objects, filter, depths, listed)]
        filter_inputs(reader, objects, filter, depths, listed) && kept == objects.filter(
            |entry: ReachablePackObject| keeps(filter, wanted, depths, listed, entry),
        );
    let keep = |entry: ReachablePackObject| keeps(filter, wanted, depths, listed, entry);
    broadcast use vstd::seq_lib::group_filter_ensures;

    let i = choose|i: int| 0 <= i < objects.len() && objects[i] == entry;
    assert(keep(objects[i]));
    assert(objects.filter(keep).contains(objects[i]));
}

} // verus!
