//! The objects that stand at listed paths.

use crate::error::GitError;
use crate::filter::lists_text;
use crate::filter::text_set;
use crate::object::ObjectContent;
use crate::object::ObjectReader;
use crate::object::TreeEntry;
use crate::object::TreeEntryKind;
use crate::object_id::all_ids;
use crate::object_id::lemma_all_ids_finite;
use crate::object_id::ObjectId;
use crate::oid_map::OidSet;
use crate::text::concat2;
use crate::text::concat3;
use crate::text::has_prefix;
use crate::text::starts_with;
use crate::text::text_eq;
use crate::transfer::ReachablePackObject;
use crate::walk::lemma_unseen_shrinks;
use crate::walk::unseen;
use vstd::prelude::*;
use vstd::string::*;
use vstd::utf8::*;

verus! {

/// What `String::from_utf8_lossy` makes of bytes that are not UTF-8.
pub uninterp spec fn lossy_text(bytes: Seq<u8>) -> Seq<char>;

/// The text that a file name in a tree reads as.
pub open spec fn name_text(bytes: Seq<u8>) -> Seq<char> {
    if valid_utf8(bytes) {
        decode_utf8(bytes)
    } else {
        lossy_text(bytes)
    }
}

/// Calls `String::from_utf8_lossy`: bytes that are UTF-8 read as the text that
/// they are the form of. What others read as depends on them alone; how they
/// are replaced is not stated.
#[verifier::external_body]
fn read_lossy(bytes: &[u8]) -> (text: String)
    ensures
        text@ == if valid_utf8(bytes@) {
            decode_utf8(bytes@)
        } else {
            lossy_text(bytes@)
        },
{
    String::from_utf8_lossy(bytes).into_owned()
}

/// The path of the entry `name` of the tree at `prefix`.
pub open spec fn entry_path(prefix: Seq<char>, name: Seq<u8>) -> Seq<char> {
    if prefix.len() == 0 {
        name_text(name)
    } else {
        prefix + "/"@ + name_text(name)
    }
}

fn join_path(prefix: &str, name: &[u8]) -> (path: String)
    ensures
        path@ == entry_path(prefix@, name@),
{
    let name = read_lossy(name);
    if prefix.is_empty() {
        name
    } else {
        concat3(prefix, "/", name.as_str())
    }
}

/// The entries of a tree; none where it does not read or is no tree.
pub open spec fn tree_entries<R: ObjectReader>(reader: &R, tree: ObjectId) -> Seq<Result<TreeEntry, GitError>> {
    match reader.object_at(tree) {
        Ok(object) => match object.content {
            ObjectContent::Tree(entries) => entries@,
            _ => Seq::empty(),
        },
        Err(_) => Seq::empty(),
    }
}

/// Whether `places` holds every root at the empty path and, with each tree and
/// path that it holds, every tree below it at its path.
pub open spec fn places_closed<R: ObjectReader>(
    reader: &R,
    roots: Set<ObjectId>,
    places: Set<(ObjectId, Seq<char>)>,
) -> bool {
    &&& forall|root: ObjectId| #[trigger] roots.contains(root) ==> places.contains((root, Seq::<char>::empty()))
    &&& forall|tree: ObjectId, path: Seq<char>, i: int|
        #![trigger places.contains((tree, path)), tree_entries(reader, tree)[i]]
        places.contains((tree, path)) && 0 <= i < tree_entries(reader, tree).len() ==> match tree_entries(
            reader,
            tree,
        )[i] {
            Ok(entry) => entry.kind == TreeEntryKind::Tree ==> places.contains(
                (entry.oid, entry_path(path, entry.name@)),
            ),
            Err(_) => true,
        }
}

/// Whether a tree stands at a path below one of the roots.
pub open spec fn stands_at<R: ObjectReader>(
    reader: &R,
    roots: Set<ObjectId>,
    tree: ObjectId,
    path: Seq<char>,
) -> bool {
    forall|places: Set<(ObjectId, Seq<char>)>| #[trigger]
        places_closed(reader, roots, places) ==> places.contains((tree, path))
}

/// Whether the entry at a position of a tree that stands at a path names an
/// object other than a tree, at a listed path.
pub open spec fn lists_entry<R: ObjectReader>(
    reader: &R,
    listed: Set<Seq<char>>,
    tree: ObjectId,
    path: Seq<char>,
    i: int,
    oid: ObjectId,
) -> bool {
    &&& 0 <= i < tree_entries(reader, tree).len()
    &&& tree_entries(reader, tree)[i] matches Ok(entry) && entry.kind != TreeEntryKind::Tree && entry.oid == oid
        && listed.contains(entry_path(path, entry.name@))
}

/// Whether an object other than a tree stands at a listed path below one of the
/// roots.
pub open spec fn is_at_listed_path<R: ObjectReader>(
    reader: &R,
    roots: Set<ObjectId>,
    listed: Set<Seq<char>>,
    oid: ObjectId,
) -> bool {
    exists|tree: ObjectId, path: Seq<char>, i: int|
        stands_at(reader, roots, tree, path) && #[trigger] lists_entry(reader, listed, tree, path, i, oid)
}

/// Whether a tree is that of a commit among `objects`.
pub open spec fn is_commit_tree(objects: Seq<ReachablePackObject>, tree: ObjectId) -> bool {
    exists|i: int|
        0 <= i < objects.len() && ((#[trigger] objects[i]).object.content matches ObjectContent::Commit(Ok(commit))
            && commit.tree == tree)
}

/// The trees of the commits among `objects`.
pub open spec fn commit_trees(objects: Seq<ReachablePackObject>) -> Set<ObjectId> {
    Set::new(|tree: ObjectId| is_commit_tree(objects, tree))
}

/// Whether something below a path can be listed.
spec fn is_open(listed: Set<Seq<char>>, path: Seq<char>) -> bool {
    path.len() == 0 || exists|text: Seq<char>| #[trigger] listed.contains(text) && has_prefix(text, path + "/"@)
}

proof fn lemma_slash()
    ensures
        "/"@.len() == 1,
{
    reveal_strlit("/");
}

/// Nothing below a path that is not open is listed or open.
proof fn lemma_closed_below(listed: Set<Seq<char>>, path: Seq<char>, name: Seq<u8>)
    requires
        !is_open(listed, path),
    ensures
        !listed.contains(entry_path(path, name)),
        !is_open(listed, entry_path(path, name)),
{
    lemma_slash();
    let below = entry_path(path, name);
    let lead = path + "/"@;
    assert(below == lead + name_text(name));
    if listed.contains(below) {
        assert(below.take(lead.len() as int) =~= lead);
        assert(has_prefix(below, lead));
    }
    if is_open(listed, below) {
        assert(below.len() > 0);
        let text = choose|text: Seq<char>| #[trigger] listed.contains(text) && has_prefix(text, below + "/"@);
        assert(text.take((below + "/"@).len() as int) == below + "/"@);
        assert(text.take(lead.len() as int) =~= (below + "/"@).take(lead.len() as int));
        assert((below + "/"@).take(lead.len() as int) =~= lead);
        assert(has_prefix(text, lead));
    }
}

/// The beginnings of a text.
spec fn beginnings(text: Seq<char>) -> Set<Seq<char>> {
    vstd::set_lib::set_int_range(0, text.len() as int + 1).map(|n: int| text.take(n))
}

/// The beginnings of texts, and the empty text.
spec fn all_beginnings(texts: Seq<Seq<char>>) -> Set<Seq<char>>
    decreases texts.len(),
{
    if texts.len() == 0 {
        set![Seq::<char>::empty()]
    } else {
        all_beginnings(texts.drop_last()).union(beginnings(texts.last()))
    }
}

proof fn lemma_beginnings_finite(texts: Seq<Seq<char>>)
    ensures
        all_beginnings(texts).finite(),
        all_beginnings(texts).contains(Seq::<char>::empty()),
        forall|k: int, n: int|
            #![trigger texts[k].take(n)]
            0 <= k < texts.len() && 0 <= n <= texts[k].len() ==> all_beginnings(texts).contains(texts[k].take(n)),
    decreases texts.len(),
{
    if texts.len() > 0 {
        let rest = texts.drop_last();
        let last = texts.last();
        lemma_beginnings_finite(rest);
        let range = vstd::set_lib::set_int_range(0, last.len() as int + 1);
        vstd::set_lib::lemma_int_range(0, last.len() as int + 1);
        range.lemma_map_finite(|n: int| last.take(n));
        assert forall|k: int, n: int|
            #![trigger texts[k].take(n)]
            0 <= k < texts.len() && 0 <= n <= texts[k].len() implies all_beginnings(texts).contains(
            texts[k].take(n),
        ) by {
            if k < rest.len() {
                assert(rest[k] == texts[k]);
                assert(all_beginnings(rest).contains(rest[k].take(n)));
            } else {
                assert(range.contains(n));
                assert(beginnings(last).contains(last.take(n)));
            }
        }
    }
}

/// The places that a search can take in.
spec fn all_places(texts: Seq<Seq<char>>) -> Set<(ObjectId, Seq<char>)> {
    let paths = all_beginnings(texts);
    all_ids().map(|oid: ObjectId| paths.map(|path: Seq<char>| (oid, path))).flatten()
}

proof fn lemma_places_finite(texts: Seq<Seq<char>>)
    ensures
        all_places(texts).finite(),
        forall|oid: ObjectId, path: Seq<char>|
            is_open(texts.to_set(), path) ==> #[trigger] all_places(texts).contains((oid, path)),
{
    lemma_all_ids_finite();
    lemma_beginnings_finite(texts);
    lemma_slash();
    let paths = all_beginnings(texts);
    let row = |oid: ObjectId| paths.map(|path: Seq<char>| (oid, path));
    all_ids().lemma_map_finite(row);
    let rows = all_ids().map(row);
    assert forall|r: Set<(ObjectId, Seq<char>)>| rows.contains(r) implies #[trigger] r.finite() by {
        let oid = choose|oid: ObjectId| all_ids().contains(oid) && row(oid) == r;
        paths.lemma_map_finite(|path: Seq<char>| (oid, path));
    }
    rows.lemma_flatten_finite();
    assert forall|oid: ObjectId, path: Seq<char>|
        is_open(texts.to_set(), path) implies #[trigger] all_places(texts).contains((oid, path)) by {
        if path.len() == 0 {
            assert(path =~= Seq::<char>::empty());
        } else {
            let text = choose|text: Seq<char>| #[trigger]
                texts.to_set().contains(text) && has_prefix(text, path + "/"@);
            let k = choose|k: int| 0 <= k < texts.len() && texts[k] == text;
            let n = path.len() as int;
            assert(text.take((path + "/"@).len() as int) == path + "/"@);
            assert(texts[k].take(n) =~= (path + "/"@).take(n));
            assert((path + "/"@).take(n) =~= path);
        }
        assert(paths.contains(path));
        assert(row(oid).contains((oid, path)));
        assert(all_ids().contains(oid));
        assert(rows.contains(row(oid)));
    }
}

/// Places that a search has taken in: the trees at each path.
struct Places {
    rows: Vec<(String, OidSet)>,
}

spec fn holds(rows: Seq<(String, OidSet)>, place: (ObjectId, Seq<char>)) -> bool {
    exists|k: int| 0 <= k < rows.len() && (#[trigger] rows[k]).0@ == place.1 && rows[k].1@.contains(place.0)
}

/// Whether each path has one row.
spec fn is_distinct(rows: Seq<(String, OidSet)>) -> bool {
    forall|j: int, k: int|
        #![trigger rows[j], rows[k]]
        0 <= j < rows.len() && 0 <= k < rows.len() && rows[j].0@ == rows[k].0@ ==> j == k
}

impl View for Places {
    type V = Set<(ObjectId, Seq<char>)>;

    closed spec fn view(&self) -> Set<(ObjectId, Seq<char>)> {
        Set::new(|place: (ObjectId, Seq<char>)| holds(self.rows@, place))
    }
}

impl Places {
    spec fn wf(self) -> bool {
        is_distinct(self.rows@)
    }

    fn new() -> (places: Places)
        ensures
            places.wf(),
            places@ == Set::<(ObjectId, Seq<char>)>::empty(),
    {
        let places = Places { rows: Vec::new() };
        assert(places@ =~= Set::<(ObjectId, Seq<char>)>::empty());
        places
    }

    /// Takes in a place; says whether it is new.
    fn insert(&mut self, oid: ObjectId, path: &String) -> (fresh: bool)
        requires
            old(self).wf(),
        ensures
            final(self).wf(),
            fresh == !old(self)@.contains((oid, path@)),
            final(self)@ == old(self)@.insert((oid, path@)),
    {
        let ghost before = self.rows@;
        let mut i: usize = 0;
        while i < self.rows.len()
            invariant
                i <= self.rows@.len(),
                self.rows@ == before,
                self == old(self),
                is_distinct(before),
                forall|k: int| 0 <= k < i ==> (#[trigger] self.rows@[k]).0@ != path@,
            decreases self.rows@.len() - i,
        {
            if text_eq(self.rows[i].0.as_str(), path.as_str()) {
                let (text, mut oids) = self.rows.swap_remove(i);
                let ghost known = oids@;
                let fresh = oids.insert(oid);
                self.rows.push((text, oids));
                proof {
                    let after = self.rows@;
                    let n = before.len() as int;
                    let at = i as int;
                    assert(after[n - 1].0@ == path@ && after[n - 1].1@ == known.insert(oid));
                    assert(forall|k: int| 0 <= k < n - 1 && k != at ==> after[k] == before[k]);
                    assert(at < n - 1 ==> after[at] == before[n - 1]);
                    assert forall|place: (ObjectId, Seq<char>)|
                        holds(after, place) == (holds(before, place) || place == (oid, path@)) by {
                        if holds(before, place) {
                            let k = choose|k: int|
                                0 <= k < n && (#[trigger] before[k]).0@ == place.1 && before[k].1@.contains(place.0);
                            if k == at {
                                assert(after[n - 1].1@.contains(place.0));
                            } else if k == n - 1 {
                                assert(after[at] == before[k]);
                            } else {
                                assert(after[k] == before[k]);
                            }
                        }
                        if holds(after, place) {
                            let k = choose|k: int|
                                0 <= k < n && (#[trigger] after[k]).0@ == place.1 && after[k].1@.contains(place.0);
                            if k == n - 1 {
                                if place.0 != oid {
                                    assert(before[at].1@.contains(place.0));
                                }
                            } else if k == at {
                                assert(before[n - 1] == after[k]);
                            } else {
                                assert(before[k] == after[k]);
                            }
                        }
                        if place == (oid, path@) {
                            assert(after[n - 1].1@.contains(place.0));
                        }
                    }
                    assert(self@ =~= old(self)@.insert((oid, path@)));
                    if holds(before, (oid, path@)) {
                        let k = choose|k: int|
                            0 <= k < n && (#[trigger] before[k]).0@ == path@ && before[k].1@.contains(oid);
                        assert(before[at].0@ == path@);
                        assert(k == at);
                    } else {
                        assert(!before[at].1@.contains(oid));
                    }
                    assert forall|j: int, k: int|
                        #![trigger after[j], after[k]]
                        0 <= j < n && 0 <= k < n && after[j].0@ == after[k].0@ implies j == k by {
                        let a = if j == n - 1 {
                            at
                        } else if j == at {
                            n - 1
                        } else {
                            j
                        };
                        let b = if k == n - 1 {
                            at
                        } else if k == at {
                            n - 1
                        } else {
                            k
                        };
                        assert(before[a].0@ == after[j].0@ && before[b].0@ == after[k].0@);
                    }
                }
                return fresh;
            }
            i += 1;
        }
        let mut oids = OidSet::new();
        oids.insert(oid);
        self.rows.push((path.clone(), oids));
        proof {
            let after = self.rows@;
            let n = before.len() as int;
            assert(after[n].0@ == path@ && after[n].1@ == Set::<ObjectId>::empty().insert(oid));
            assert forall|place: (ObjectId, Seq<char>)|
                holds(after, place) == (holds(before, place) || place == (oid, path@)) by {
                if holds(before, place) {
                    let k = choose|k: int|
                        0 <= k < n && (#[trigger] before[k]).0@ == place.1 && before[k].1@.contains(place.0);
                    assert(after[k] == before[k]);
                }
                if holds(after, place) {
                    let k = choose|k: int|
                        0 <= k < n + 1 && (#[trigger] after[k]).0@ == place.1 && after[k].1@.contains(place.0);
                    if k < n {
                        assert(before[k] == after[k]);
                    }
                }
                if place == (oid, path@) {
                    assert(after[n].1@.contains(place.0));
                }
            }
            assert(self@ =~= old(self)@.insert((oid, path@)));
            assert(!holds(before, (oid, path@)));
        }
        true
    }
}

fn opens(paths: &[String], path: &str) -> (open: bool)
    ensures
        open == is_open(text_set(paths@), path@),
{
    if path.is_empty() {
        return true;
    }
    assert(path@.len() > 0);
    let lead = concat2(path, "/");
    let ghost texts = paths@.map_values(|path: String| path@);
    let mut i: usize = 0;
    while i < paths.len()
        invariant
            i <= paths@.len(),
            lead@ == path@ + "/"@,
            texts == paths@.map_values(|path: String| path@),
            forall|k: int| 0 <= k < i ==> !has_prefix(#[trigger] texts[k], lead@),
        decreases paths@.len() - i,
    {
        if starts_with(paths[i].as_str(), lead.as_str()) {
            assert(texts[i as int] == paths@[i as int]@);
            assert(text_set(paths@).contains(texts[i as int]));
            return true;
        }
        i += 1;
    }
    proof {
        if is_open(text_set(paths@), path@) {
            let text = choose|text: Seq<char>| #[trigger]
                text_set(paths@).contains(text) && has_prefix(text, path@ + "/"@);
            let k = choose|k: int| 0 <= k < texts.len() && texts[k] == text;
            assert(!has_prefix(texts[k], lead@));
        }
    }
    false
}

/// Whether a search has taken an entry of the tree at a path into account.
spec fn entry_handled(
    listed: Set<Seq<char>>,
    places: Set<(ObjectId, Seq<char>)>,
    found: Set<ObjectId>,
    path: Seq<char>,
    entry: Result<TreeEntry, GitError>,
) -> bool {
    match entry {
        Err(_) => true,
        Ok(entry) => {
            let at = entry_path(path, entry.name@);
            if entry.kind == TreeEntryKind::Tree {
                is_open(listed, at) ==> places.contains((entry.oid, at))
            } else {
                listed.contains(at) ==> found.contains(entry.oid)
            }
        },
    }
}

/// Whether a search has taken the first `n` entries of the tree at a path into
/// account.
spec fn place_handled<R: ObjectReader>(
    reader: &R,
    listed: Set<Seq<char>>,
    places: Set<(ObjectId, Seq<char>)>,
    found: Set<ObjectId>,
    place: (ObjectId, Seq<char>),
    n: int,
) -> bool {
    forall|i: int|
        0 <= i < n ==> entry_handled(listed, places, found, place.1, #[trigger] tree_entries(reader, place.0)[i])
}

/// What holds of a search: the places taken in stand there and are open, what
/// was found is at a listed path, and each place is pending or handled.
spec fn is_search<R: ObjectReader>(
    reader: &R,
    roots: Set<ObjectId>,
    listed: Set<Seq<char>>,
    places: Set<(ObjectId, Seq<char>)>,
    pending: Seq<(ObjectId, Seq<char>)>,
    found: Set<ObjectId>,
) -> bool {
    &&& forall|place: (ObjectId, Seq<char>)| #[trigger]
        places.contains(place) ==> stands_at(reader, roots, place.0, place.1) && is_open(listed, place.1) && (
        pending.contains(place) || place_handled(
            reader,
            listed,
            places,
            found,
            place,
            tree_entries(reader, place.0).len() as int,
        ))
    &&& forall|i: int| 0 <= i < pending.len() ==> places.contains(#[trigger] pending[i])
    &&& forall|oid: ObjectId| #[trigger] found.contains(oid) ==> is_at_listed_path(reader, roots, listed, oid)
}

/// A search with nothing pending has found all that is at a listed path.
proof fn lemma_search_done<R: ObjectReader>(
    reader: &R,
    roots: Set<ObjectId>,
    listed: Set<Seq<char>>,
    places: Set<(ObjectId, Seq<char>)>,
    found: Set<ObjectId>,
    oid: ObjectId,
)
    requires
        is_search(reader, roots, listed, places, Seq::empty(), found),
        forall|root: ObjectId| #[trigger] roots.contains(root) ==> places.contains((root, Seq::<char>::empty())),
    ensures
        found.contains(oid) <==> is_at_listed_path(reader, roots, listed, oid),
{
    let all = Set::new(|place: (ObjectId, Seq<char>)| places.contains(place) || !is_open(listed, place.1));
    assert(places_closed(reader, roots, all)) by {
        assert forall|tree: ObjectId, path: Seq<char>, i: int|
            #![trigger all.contains((tree, path)), tree_entries(reader, tree)[i]]
            all.contains((tree, path)) && 0 <= i < tree_entries(reader, tree).len() implies match tree_entries(
            reader,
            tree,
        )[i] {
            Ok(entry) => entry.kind == TreeEntryKind::Tree ==> all.contains(
                (entry.oid, entry_path(path, entry.name@)),
            ),
            Err(_) => true,
        } by {
            if let Ok(entry) = tree_entries(reader, tree)[i] {
                if is_open(listed, path) {
                    assert(places.contains((tree, path)));
                    assert(entry_handled(listed, places, found, path, tree_entries(reader, tree)[i]));
                } else {
                    lemma_closed_below(listed, path, entry.name@);
                }
            }
        }
    }
    if is_at_listed_path(reader, roots, listed, oid) {
        let (tree, path, i) = choose|tree: ObjectId, path: Seq<char>, i: int|
            stands_at(reader, roots, tree, path) && #[trigger] lists_entry(reader, listed, tree, path, i, oid);
        assert(all.contains((tree, path)));
        let entry = tree_entries(reader, tree)[i]->Ok_0;
        if !is_open(listed, path) {
            lemma_closed_below(listed, path, entry.name@);
        }
        assert(places.contains((tree, path)));
        assert(entry_handled(listed, places, found, path, tree_entries(reader, tree)[i]));
    }
}

/// A tree below one that stands at a path stands at its own.
proof fn lemma_stands_below<R: ObjectReader>(
    reader: &R,
    roots: Set<ObjectId>,
    tree: ObjectId,
    path: Seq<char>,
    i: int,
)
    requires
        stands_at(reader, roots, tree, path),
        0 <= i < tree_entries(reader, tree).len(),
        tree_entries(reader, tree)[i] matches Ok(entry) && entry.kind == TreeEntryKind::Tree,
    ensures
        ({
            let entry = tree_entries(reader, tree)[i]->Ok_0;
            stands_at(reader, roots, entry.oid, entry_path(path, entry.name@))
        }),
{
    let entry = tree_entries(reader, tree)[i]->Ok_0;
    assert forall|places: Set<(ObjectId, Seq<char>)>| #[trigger]
        places_closed(reader, roots, places) implies places.contains((entry.oid, entry_path(path, entry.name@))) by {
        assert(places.contains((tree, path)));
        assert(tree_entries(reader, tree)[i] is Ok);
    }
}

spec fn pending_views(pending: Seq<(ObjectId, String)>) -> Seq<(ObjectId, Seq<char>)> {
    pending.map_values(|place: (ObjectId, String)| (place.0, place.1@))
}

/// Takes the entry at a position of the tree at a path into account.
fn handle_entry<R: ObjectReader>(
    reader: &R,
    Ghost(roots): Ghost<Set<ObjectId>>,
    paths: &[String],
    Ghost(tree): Ghost<ObjectId>,
    path: &String,
    entry: &TreeEntry,
    Ghost(i): Ghost<int>,
    places: &mut Places,
    pending: &mut Vec<(ObjectId, String)>,
    found: &mut OidSet,
)
    requires
        old(places).wf(),
        stands_at(reader, roots, tree, path@),
        0 <= i < tree_entries(reader, tree).len(),
        tree_entries(reader, tree)[i] matches Ok(listed) && listed == *entry,
        forall|oid: ObjectId| #[trigger]
            old(found)@.contains(oid) ==> is_at_listed_path(reader, roots, text_set(paths@), oid),
    ensures
        final(places).wf(),
        entry_handled(
            text_set(paths@),
            final(places)@,
            final(found)@,
            path@,
            tree_entries(reader, tree)[i],
        ),
        old(places)@.subset_of(final(places)@),
        old(found)@.subset_of(final(found)@),
        forall|oid: ObjectId| #[trigger]
            final(found)@.contains(oid) ==> is_at_listed_path(reader, roots, text_set(paths@), oid),
        (final(places)@ == old(places)@ && final(pending)@ == old(pending)@) || exists|place: (ObjectId, String)|
            {
                &&& #[trigger] old(pending)@.push(place) == final(pending)@
                &&& final(places)@ == old(places)@.insert((place.0, place.1@))
                &&& !old(places)@.contains((place.0, place.1@))
                &&& stands_at(reader, roots, place.0, place.1@)
                &&& is_open(text_set(paths@), place.1@)
            },
{
    let ghost listed = text_set(paths@);
    let at = join_path(path.as_str(), &entry.name);
    if entry.kind == TreeEntryKind::Tree {
        if opens(paths, at.as_str()) {
            proof {
                lemma_stands_below(reader, roots, tree, path@, i);
            }
            if places.insert(entry.oid, &at) {
                let ghost place = (entry.oid, at);
                pending.push((entry.oid, at));
                assert(old(pending)@.push(place) == pending@);
            } else {
                assert(places@ =~= old(places)@);
            }
        }
    } else if lists_text(paths, at.as_str()) {
        assert(lists_entry(reader, listed, tree, path@, i, entry.oid));
        found.insert(entry.oid);
    }
}

/// The objects other than trees that stand at a listed path below one of the
/// roots.
fn collect_listed<R: ObjectReader>(reader: &R, roots: &OidSet, paths: &[String]) -> (found: OidSet)
    ensures
        forall|oid: ObjectId| #[trigger]
            found@.contains(oid) <==> is_at_listed_path(reader, roots@, text_set(paths@), oid),
{
    let ghost listed = text_set(paths@);
    let ghost texts = paths@.map_values(|path: String| path@);
    let ghost universe = all_places(texts);
    let mut places = Places::new();
    let mut pending: Vec<(ObjectId, String)> = Vec::new();
    let mut found = OidSet::new();
    proof {
        lemma_places_finite(texts);
        assert(texts.to_set() == listed);
    }
    let top = String::new();
    assert(top@ =~= Seq::<char>::empty());
    let mut r: usize = 0;
    let count: usize = roots.len();
    while r < count
        invariant
            r <= count,
            count == roots.items().len(),
            places.wf(),
            listed == text_set(paths@),
            top@ == Seq::<char>::empty(),
            is_search(reader, roots@, listed, places@, pending_views(pending@), found@),
            forall|k: int| 0 <= k < r ==> places@.contains((#[trigger] roots.items()[k], Seq::<char>::empty())),
        decreases count - r,
    {
        let root = roots.get(r);
        let ghost before = pending_views(pending@);
        let ghost taken = places@;
        let ghost place = (root, Seq::<char>::empty());
        let fresh = places.insert(root, &top);
        pending.push((root, top.clone()));
        proof {
            let after = pending_views(pending@);
            assert(after =~= before.push(place));
            assert(stands_at(reader, roots@, root, Seq::<char>::empty()));
            assert forall|p: (ObjectId, Seq<char>)| #[trigger] places@.contains(p) implies stands_at(
                reader,
                roots@,
                p.0,
                p.1,
            ) && is_open(listed, p.1) && (after.contains(p) || place_handled(
                reader,
                listed,
                places@,
                found@,
                p,
                tree_entries(reader, p.0).len() as int,
            )) by {
                assert(after[before.len() as int] == place);
                if taken.contains(p) && before.contains(p) {
                    let k = choose|k: int| 0 <= k < before.len() && before[k] == p;
                    assert(after[k] == p);
                }
            }
            assert forall|k: int| 0 <= k < after.len() implies places@.contains(#[trigger] after[k]) by {
                if k < before.len() {
                    assert(after[k] == before[k]);
                }
            }
        }
        r += 1;
    }
    proof {
        assert forall|root: ObjectId| #[trigger] roots@.contains(root) implies places@.contains(
            (root, Seq::<char>::empty()),
        ) by {
            let k = choose|k: int| 0 <= k < roots.items().len() && roots.items()[k] == root;
            assert(places@.contains((roots.items()[k], Seq::<char>::empty())));
        }
    }
    while pending.len() > 0
        invariant
            places.wf(),
            listed == text_set(paths@),
            texts == paths@.map_values(|path: String| path@),
            texts.to_set() == listed,
            universe == all_places(texts),
            is_search(reader, roots@, listed, places@, pending_views(pending@), found@),
            forall|root: ObjectId| #[trigger]
                roots@.contains(root) ==> places@.contains((root, Seq::<char>::empty())),
        decreases universe.difference(places@).len(), pending@.len(),
    {
        let ghost before = pending_views(pending@);
        let ghost taken = places@;
        let (tree, path) = match pending.pop() {
            Some(place) => place,
            None => {
                assert(false);
                return found;
            },
        };
        let ghost rest = pending_views(pending@);
        let ghost place = (tree, path@);
        assert(rest =~= before.drop_last());
        assert(before.last() == place);
        assert(places@.contains(before[before.len() - 1]));
        match reader.read_object(&tree) {
            Err(_) => {
                assert(tree_entries(reader, tree) =~= Seq::empty());
            },
            Ok(object) => match &object.content {
                ObjectContent::Tree(entries) => {
                    let mut i: usize = 0;
                    proof {
                        assert(rest.take(rest.len() as int) =~= rest);
                        assert forall|k: int| 0 <= k < rest.len() implies places@.contains(#[trigger] rest[k]) by {
                            assert(rest[k] == before[k]);
                        }
                    }
                    while i < entries.len()
                        invariant
                            i <= entries@.len(),
                            entries@ == tree_entries(reader, tree),
                            places.wf(),
                            listed == text_set(paths@),
                            stands_at(reader, roots@, tree, path@),
                            taken.subset_of(places@),
                            place_handled(reader, listed, places@, found@, (tree, path@), i as int),
                            forall|oid: ObjectId| #[trigger]
                                found@.contains(oid) ==> is_at_listed_path(reader, roots@, listed, oid),
                            is_progress(reader, roots@, listed, taken, rest, places@, pending_views(pending@)),
                            forall|p: (ObjectId, Seq<char>)| #[trigger]
                                taken.contains(p) && !before.contains(p) ==> place_handled(
                                    reader,
                                    listed,
                                    places@,
                                    found@,
                                    p,
                                    tree_entries(reader, p.0).len() as int,
                                ),
                        decreases entries@.len() - i,
                    {
                        let ghost known = places@;
                        let ghost had = found@;
                        let ghost queue = pending@;
                        match &entries[i] {
                            Err(_) => {},
                            Ok(entry) => {
                                handle_entry(
                                    reader,
                                    Ghost(roots@),
                                    paths,
                                    Ghost(tree),
                                    &path,
                                    entry,
                                    Ghost(i as int),
                                    &mut places,
                                    &mut pending,
                                    &mut found,
                                );
                            },
                        }
                        proof {
                            lemma_handled_stays(reader, listed, known, had, places@, found@);
                            if pending@ != queue {
                                let added = choose|added: (ObjectId, String)| {
                                    &&& #[trigger] queue.push(added) == pending@
                                    &&& places@ == known.insert((added.0, added.1@))
                                    &&& !known.contains((added.0, added.1@))
                                    &&& stands_at(reader, roots@, added.0, added.1@)
                                    &&& is_open(listed, added.1@)
                                };
                                lemma_progress(reader, roots@, listed, taken, rest, known, queue, added);
                            }
                        }
                        i += 1;
                    }
                },
                _ => {
                    assert(tree_entries(reader, tree) =~= Seq::empty());
                },
            },
        }
        proof {
            lemma_places_finite(texts);
            let after = pending_views(pending@);
            assert(place_handled(
                reader,
                listed,
                places@,
                found@,
                place,
                tree_entries(reader, tree).len() as int,
            ));
            assert forall|p: (ObjectId, Seq<char>)| #[trigger] places@.contains(p) implies stands_at(
                reader,
                roots@,
                p.0,
                p.1,
            ) && is_open(listed, p.1) && (after.contains(p) || place_handled(
                reader,
                listed,
                places@,
                found@,
                p,
                tree_entries(reader, p.0).len() as int,
            )) by {
                if taken.contains(p) && before.contains(p) && p != place {
                    let k = choose|k: int| 0 <= k < before.len() && before[k] == p;
                    assert(rest[k] == p);
                    assert(after.take(rest.len() as int)[k] == after[k]);
                }
            }
            let left = universe.difference(taken);
            vstd::set_lib::lemma_len_subset(left, universe);
            if forall|p: (ObjectId, Seq<char>)| #[trigger] places@.contains(p) ==> taken.contains(p) {
                assert(places@ =~= taken);
                assert(after =~= rest);
            } else {
                let new = choose|p: (ObjectId, Seq<char>)| #[trigger] places@.contains(p) && !taken.contains(p);
                assert(is_open(listed, new.1));
                assert(universe.contains((new.0, new.1)));
                assert(left.contains(new));
                let now = universe.difference(places@);
                assert(now.subset_of(left.remove(new)));
                vstd::set_lib::lemma_len_subset(now, left.remove(new));
            }
        }
    }
    proof {
        assert(pending_views(pending@) =~= Seq::empty());
        assert forall|oid: ObjectId| #[trigger] found@.contains(oid) <==> is_at_listed_path(
            reader,
            roots@,
            listed,
            oid,
        ) by {
            lemma_search_done(reader, roots@, listed, places@, found@, oid);
        }
    }
    found
}

/// What was handled stays so as more is taken in and found.
proof fn lemma_handled_stays<R: ObjectReader>(
    reader: &R,
    listed: Set<Seq<char>>,
    places: Set<(ObjectId, Seq<char>)>,
    found: Set<ObjectId>,
    more_places: Set<(ObjectId, Seq<char>)>,
    more_found: Set<ObjectId>,
)
    requires
        places.subset_of(more_places),
        found.subset_of(more_found),
    ensures
        forall|place: (ObjectId, Seq<char>), n: int| #[trigger]
            place_handled(reader, listed, places, found, place, n) ==> place_handled(
                reader,
                listed,
                more_places,
                more_found,
                place,
                n,
            ),
{
    assert forall|place: (ObjectId, Seq<char>), n: int| #[trigger]
        place_handled(reader, listed, places, found, place, n) implies place_handled(
        reader,
        listed,
        more_places,
        more_found,
        place,
        n,
    ) by {
        assert forall|i: int| 0 <= i < n implies entry_handled(
            listed,
            more_places,
            more_found,
            place.1,
            #[trigger] tree_entries(reader, place.0)[i],
        ) by {
            assert(entry_handled(listed, places, found, place.1, tree_entries(reader, place.0)[i]));
        }
    }
}

/// Whether a search that stood at `taken` and `rest` has since only taken in
/// places that stand there and are open, all of them pending.
spec fn is_progress<R: ObjectReader>(
    reader: &R,
    roots: Set<ObjectId>,
    listed: Set<Seq<char>>,
    taken: Set<(ObjectId, Seq<char>)>,
    rest: Seq<(ObjectId, Seq<char>)>,
    places: Set<(ObjectId, Seq<char>)>,
    pending: Seq<(ObjectId, Seq<char>)>,
) -> bool {
    &&& pending.len() >= rest.len()
    &&& pending.take(rest.len() as int) == rest
    &&& places == taken ==> pending == rest
    &&& forall|i: int| 0 <= i < pending.len() ==> places.contains(#[trigger] pending[i])
    &&& forall|place: (ObjectId, Seq<char>)| #[trigger]
        places.contains(place) && !taken.contains(place) ==> pending.contains(place) && stands_at(
            reader,
            roots,
            place.0,
            place.1,
        ) && is_open(listed, place.1)
}

proof fn lemma_progress<R: ObjectReader>(
    reader: &R,
    roots: Set<ObjectId>,
    listed: Set<Seq<char>>,
    taken: Set<(ObjectId, Seq<char>)>,
    rest: Seq<(ObjectId, Seq<char>)>,
    places: Set<(ObjectId, Seq<char>)>,
    pending: Seq<(ObjectId, String)>,
    added: (ObjectId, String),
)
    requires
        is_progress(reader, roots, listed, taken, rest, places, pending_views(pending)),
        taken.subset_of(places),
        !places.contains((added.0, added.1@)),
        stands_at(reader, roots, added.0, added.1@),
        is_open(listed, added.1@),
    ensures
        is_progress(
            reader,
            roots,
            listed,
            taken,
            rest,
            places.insert((added.0, added.1@)),
            pending_views(pending.push(added)),
        ),
{
    let before = pending_views(pending);
    let after = pending_views(pending.push(added));
    let place = (added.0, added.1@);
    let more = places.insert(place);
    assert(after =~= before.push(place));
    assert(after.take(rest.len() as int) =~= before.take(rest.len() as int));
    assert(more.contains(place) && !taken.contains(place));
    assert forall|i: int| 0 <= i < after.len() implies more.contains(#[trigger] after[i]) by {
        if i < before.len() {
            assert(after[i] == before[i]);
        }
    }
    assert forall|p: (ObjectId, Seq<char>)| #[trigger] more.contains(p) && !taken.contains(p) implies after.contains(p)
        && stands_at(reader, roots, p.0, p.1) && is_open(listed, p.1) by {
        if p == place {
            assert(after[before.len() as int] == place);
        } else {
            assert(places.contains(p));
            let k = choose|k: int| 0 <= k < before.len() && before[k] == p;
            assert(after[k] == p);
        }
    }
}

/// One step of the reading of trees.
#[verifier::ext_equal]
pub enum ScanStep {
    /// Read the tree and what is below it.
    Tree(ObjectId),
    /// Pass over an entry that is no tree.
    File,
    /// Stop: an entry does not decode.
    Malformed(GitError),
}

pub open spec fn scan_step(entry: Result<TreeEntry, GitError>) -> ScanStep {
    match entry {
        Err(err) => ScanStep::Malformed(err),
        Ok(entry) => if entry.kind == TreeEntryKind::Tree {
            ScanStep::Tree(entry.oid)
        } else {
            ScanStep::File
        },
    }
}

/// The reading of every tree below some, each once and its entries in order: the
/// last step of `steps` is taken next. Fails where a tree does not read or an
/// entry does not decode.
pub open spec fn scan_trees<R: ObjectReader>(reader: &R, steps: Seq<ScanStep>, seen: Seq<ObjectId>) -> Result<
    Seq<ObjectId>,
    GitError,
>
    decreases unseen(seen).len(), steps.len(),
{
    if steps.len() == 0 {
        Ok(seen)
    } else {
        let rest = steps.drop_last();
        match steps.last() {
            ScanStep::Malformed(err) => Err(err),
            ScanStep::File => scan_trees(reader, rest, seen),
            ScanStep::Tree(oid) => if seen.contains(oid) {
                scan_trees(reader, rest, seen)
            } else {
                match reader.object_at(oid) {
                    Err(err) => Err(err),
                    Ok(object) => {
                        proof {
                            lemma_unseen_shrinks(seen, oid);
                        }
                        match object.content {
                            ObjectContent::Tree(entries) => scan_trees(
                                reader,
                                rest + entries@.map_values(
                                    |entry: Result<TreeEntry, GitError>| scan_step(entry),
                                ).reverse(),
                                seen.push(oid),
                            ),
                            _ => scan_trees(reader, rest, seen.push(oid)),
                        }
                    },
                }
            },
        }
    }
}

/// The reading of every tree of each commit in turn. A commit that does not
/// decode stops it.
pub open spec fn scan_commits<R: ObjectReader>(reader: &R, objects: Seq<ReachablePackObject>) -> Result<
    Seq<ObjectId>,
    GitError,
>
    decreases objects.len(),
{
    if objects.len() == 0 {
        Ok(Seq::empty())
    } else {
        match scan_commits(reader, objects.drop_last()) {
            Err(err) => Err(err),
            Ok(seen) => match objects.last().object.content {
                ObjectContent::Commit(Err(err)) => Err(err),
                ObjectContent::Commit(Ok(commit)) => scan_trees(reader, seq![ScanStep::Tree(commit.tree)], seen),
                _ => Ok(seen),
            },
        }
    }
}

proof fn lemma_scan_commits_prefix<R: ObjectReader>(reader: &R, objects: Seq<ReachablePackObject>, n: int)
    requires
        0 <= n <= objects.len(),
        scan_commits(reader, objects.take(n)) is Err,
    ensures
        scan_commits(reader, objects) == scan_commits(reader, objects.take(n)),
    decreases objects.len() - n,
{
    if n < objects.len() {
        assert(objects.take(n + 1).drop_last() =~= objects.take(n));
        lemma_scan_commits_prefix(reader, objects, n + 1);
    } else {
        assert(objects.take(n) =~= objects);
    }
}

/// A step to be taken.
enum PendingStep {
    Tree(ObjectId),
    File,
    Malformed(GitError),
}

impl PendingStep {
    spec fn model(self) -> ScanStep {
        match self {
            PendingStep::Tree(oid) => ScanStep::Tree(oid),
            PendingStep::File => ScanStep::File,
            PendingStep::Malformed(err) => ScanStep::Malformed(err),
        }
    }
}

spec fn models(steps: Seq<PendingStep>) -> Seq<ScanStep> {
    steps.map_values(|step: PendingStep| step.model())
}

fn scan_from_tree<R: ObjectReader>(reader: &R, tree: ObjectId, seen: &mut OidSet) -> (scanned: Result<(), GitError>)
    ensures
        match scanned {
            Ok(_) => scan_trees(reader, seq![ScanStep::Tree(tree)], old(seen).items()) == Ok::<
                Seq<ObjectId>,
                GitError,
            >(final(seen).items()),
            Err(err) => scan_trees(reader, seq![ScanStep::Tree(tree)], old(seen).items()) == Err::<
                Seq<ObjectId>,
                GitError,
            >(err),
        },
{
    let ghost goal = scan_trees(reader, seq![ScanStep::Tree(tree)], seen.items());
    let mut steps: Vec<PendingStep> = Vec::new();
    steps.push(PendingStep::Tree(tree));
    assert(models(steps@) =~= seq![ScanStep::Tree(tree)]);
    while steps.len() > 0
        invariant
            goal == scan_trees(reader, seq![ScanStep::Tree(tree)], old(seen).items()),
            goal == scan_trees(reader, models(steps@), seen.items()),
        decreases unseen(seen.items()).len(), steps@.len(),
    {
        let ghost before = models(steps@);
        let step = match steps.pop() {
            Some(step) => step,
            None => {
                return Ok(());
            },
        };
        assert(models(steps@) =~= before.drop_last());
        assert(before.last() == step.model());
        match step {
            PendingStep::Malformed(err) => {
                assert(goal == Err::<Seq<ObjectId>, GitError>(err));
                return Err(err);
            },
            PendingStep::File => {},
            PendingStep::Tree(oid) => {
                if !seen.contains(&oid) {
                    assert(!seen.items().contains(oid));
                    proof {
                        lemma_unseen_shrinks(seen.items(), oid);
                    }
                    match reader.read_object(&oid) {
                        Err(err) => {
                            assert(goal == Err::<Seq<ObjectId>, GitError>(err));
                            return Err(err);
                        },
                        Ok(object) => {
                            seen.insert(oid);
                            match &object.content {
                                ObjectContent::Tree(entries) => {
                                    push_entries(&mut steps, entries);
                                },
                                _ => {},
                            }
                        },
                    }
                } else {
                    assert(seen.items().contains(oid));
                }
            },
        }
    }
    assert(models(steps@) =~= Seq::empty());
    Ok(())
}

/// Adds the steps of the entries of a tree, the first entry next.
fn push_entries(steps: &mut Vec<PendingStep>, entries: &Vec<Result<TreeEntry, GitError>>)
    ensures
        models(final(steps)@) == models(old(steps)@) + entries@.map_values(
            |entry: Result<TreeEntry, GitError>| scan_step(entry),
        ).reverse(),
{
    let ghost before = models(steps@);
    let ghost added = entries@.map_values(|entry: Result<TreeEntry, GitError>| scan_step(entry)).reverse();
    let mut i: usize = entries.len();
    assert(models(steps@) =~= before + added.take(0));
    while i > 0
        invariant
            i <= entries@.len(),
            added == entries@.map_values(|entry: Result<TreeEntry, GitError>| scan_step(entry)).reverse(),
            models(steps@) == before + added.take(entries@.len() - i),
        decreases i,
    {
        i -= 1;
        let next = match &entries[i] {
            Err(err) => PendingStep::Malformed(err.copy()),
            Ok(entry) => if entry.kind == TreeEntryKind::Tree {
                PendingStep::Tree(entry.oid)
            } else {
                PendingStep::File
            },
        };
        let ghost done = models(steps@);
        steps.push(next);
        proof {
            let k = entries@.len() - i - 1;
            assert(added[k] == scan_step(entries@[i as int]));
            assert(next.model() == added[k]);
            assert(models(steps@) =~= done.push(next.model()));
            assert(added.take(k + 1) =~= added.take(k).push(added[k]));
            assert(models(steps@) =~= before + added.take(k + 1));
        }
    }
    assert(added.take(entries@.len() as int) =~= added);
}

/// The objects other than trees that stand at a listed path below the tree of a
/// commit among `objects`. A tree that stands at several paths is searched at
/// each of them. Every tree is read, and one that does not read, an entry that
/// does not decode, or a commit that does not, fails the whole.
pub fn collect_sparse_filter_blobs<R: ObjectReader>(
    reader: &R,
    objects: &[ReachablePackObject],
    paths: &[String],
) -> (blobs: Result<OidSet, GitError>)
    ensures
        match scan_commits(reader, objects@) {
            Err(failure) => blobs matches Err(err) && err == failure,
            Ok(_) => blobs matches Ok(blobs) && forall|oid: ObjectId| #[trigger]
                blobs@.contains(oid) <==> is_at_listed_path(
                    reader,
                    commit_trees(objects@),
                    text_set(paths@),
                    oid,
                ),
        },
{
    let mut seen = OidSet::new();
    let mut roots = OidSet::new();
    let mut i: usize = 0;
    while i < objects.len()
        invariant
            i <= objects@.len(),
            scan_commits(reader, objects@.take(i as int)) == Ok::<Seq<ObjectId>, GitError>(seen.items()),
            forall|tree: ObjectId| #[trigger]
                roots@.contains(tree) <==> is_commit_tree(objects@.take(i as int), tree),
        decreases objects@.len() - i,
    {
        let ghost known = roots@;
        assert(objects@.take(i + 1).drop_last() =~= objects@.take(i as int));
        match &objects[i].object.content {
            ObjectContent::Commit(Err(err)) => {
                let err = err.copy();
                proof {
                    lemma_scan_commits_prefix(reader, objects@, i + 1);
                }
                return Err(err);
            },
            ObjectContent::Commit(Ok(commit)) => {
                roots.insert(commit.tree);
                match scan_from_tree(reader, commit.tree, &mut seen) {
                    Err(err) => {
                        proof {
                            lemma_scan_commits_prefix(reader, objects@, i + 1);
                        }
                        return Err(err);
                    },
                    Ok(_) => {},
                }
            },
            _ => {},
        }
        proof {
            let done = objects@.take(i as int);
            let more = objects@.take(i + 1);
            assert forall|tree: ObjectId| #[trigger] roots@.contains(tree) <==> is_commit_tree(more, tree) by {
                assert(known.contains(tree) <==> is_commit_tree(done, tree));
                if is_commit_tree(done, tree) {
                    let k = choose|k: int|
                        0 <= k < done.len() && ((#[trigger] done[k]).object.content matches ObjectContent::Commit(
                            Ok(commit),
                        ) && commit.tree == tree);
                    assert(more[k] == done[k]);
                }
                if is_commit_tree(more, tree) {
                    let k = choose|k: int|
                        0 <= k < more.len() && ((#[trigger] more[k]).object.content matches ObjectContent::Commit(
                            Ok(commit),
                        ) && commit.tree == tree);
                    if k < i {
                        assert(done[k] == more[k]);
                    }
                }
                assert(more[i as int] == objects@[i as int]);
            }
        }
        i += 1;
    }
    proof {
        assert(objects@.take(i as int) =~= objects@);
        assert(roots@ =~= commit_trees(objects@));
    }
    Ok(collect_listed(reader, &roots, paths))
}

} // verus!
