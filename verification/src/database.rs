//! An object database in memory, and the policies that go with any database.

use crate::error::GitError;
use crate::error::MissingObjectContext;
use crate::error::NotFoundKind;
use crate::hex_id::from_hex;
use crate::hex_id::is_hex_id;
use crate::hex_id::unhex;
use crate::object::digest;
use crate::object::framed;
use crate::object::share;
use crate::object::EncodedObject;
use crate::object::ObjectContent;
use crate::object::ObjectReader;
use crate::object::ObjectType;
use crate::object::ObjectWriter;
use crate::object::TreeEntry;
use crate::object_id::ObjectFormat;
use crate::object_id::ObjectId;
use crate::oid_map::OidMap;
use crate::oid_map::OidSet;
use crate::reachability::copy_oids;
use crate::reachability::stored;
use crate::packed_read::has_id;
use crate::text::concat2;
use crate::text::concat3;
use crate::text::hex;
use crate::text_file::newline_parts;
use crate::text_file::read_trimmed_lines;
use crate::text_file::trimmed_lines;
use crate::walk::law_walk_visits_closure;
use crate::walk::reaches;
use crate::walk::walk;
use crate::walk::Expand;
use crate::walk::Schedule;
use crate::walk::Visit;
use std::sync::Arc;
use vstd::prelude::*;
use vstd::string::*;
use vstd::utf8::*;

verus! {

/// Whether an object is the tree without entries.
pub open spec fn is_empty_tree(object: EncodedObject) -> bool {
    object.body@.len() == 0 && (object.content matches ObjectContent::Tree(entries) && entries@.len() == 0)
}

/// Whether an id is that of the tree without entries, which every database has.
pub open spec fn is_empty_tree_id(format: ObjectFormat, oid: ObjectId) -> bool {
    oid.spec_format() == format && oid.raw() == digest(format, framed(ObjectType::Tree, Seq::empty()))
}

/// The tree without entries, if an id is that of it.
pub fn implied_empty_tree_object(format: ObjectFormat, oid: &ObjectId) -> (object: Option<Arc<EncodedObject>>)
    ensures
        object is Some <==> is_empty_tree_id(format, *oid),
        object matches Some(object) ==> is_empty_tree(*object),
{
    let object = EncodedObject { body: Vec::new(), content: ObjectContent::Tree(Vec::new()) };
    let actual = object.object_id(format);
    assert(object.body@ =~= Seq::empty());
    if actual.same(oid) {
        Some(Arc::new(object))
    } else {
        None
    }
}

/// An object database in memory.
pub struct ObjectDatabase {
    format: ObjectFormat,
    objects: OidMap<Arc<EncodedObject>>,
    promisor: bool,
    empty_tree: Arc<EncodedObject>,
    log: Ghost<Seq<EncodedObject>>,
    given: Ghost<Seq<Result<ObjectId, GitError>>>,
}

/// The error of a read that finds nothing.
pub open spec fn read_miss(oid: ObjectId) -> GitError {
    GitError::NotFound(NotFoundKind::Object { oid, context: Some(MissingObjectContext::Read) })
}

impl ObjectDatabase {
    pub closed spec fn spec_format(self) -> ObjectFormat {
        self.format
    }

    /// The objects that were written, by their id.
    pub closed spec fn stored(self) -> Map<ObjectId, Arc<EncodedObject>> {
        self.objects@
    }

    pub closed spec fn is_promisor(self) -> bool {
        self.promisor
    }

    /// The tree without entries.
    pub closed spec fn spec_empty_tree(self) -> Arc<EncodedObject> {
        self.empty_tree
    }

    /// The empty tree is one, and every object is stored under its own id.
    pub open spec fn wf(self) -> bool {
        &&& is_empty_tree(*self.spec_empty_tree())
        &&& forall|oid: ObjectId| #[trigger]
            self.stored().contains_key(oid) ==> has_id(*self.stored()[oid], self.spec_format(), oid)
    }

    pub fn new(format: ObjectFormat) -> (db: ObjectDatabase)
        ensures
            db.wf(),
            db.spec_format() == format,
            db.stored() == Map::<ObjectId, Arc<EncodedObject>>::empty(),
            !db.is_promisor(),
            db.received() == Seq::<EncodedObject>::empty(),
            db.answers() == Seq::<Result<ObjectId, GitError>>::empty(),
    {
        let empty_tree = Arc::new(
            EncodedObject { body: Vec::new(), content: ObjectContent::Tree(Vec::new()) },
        );
        ObjectDatabase {
            format,
            objects: OidMap::new(),
            promisor: false,
            empty_tree,
            log: Ghost(Seq::empty()),
            given: Ghost(Seq::empty()),
        }
    }

    pub fn with_promisor(self, promisor: bool) -> (db: ObjectDatabase)
        ensures
            db.wf() == self.wf(),
            db.spec_format() == self.spec_format(),
            db.stored() == self.stored(),
            db.is_promisor() == promisor,
            db.received() == self.received(),
            db.answers() == self.answers(),
    {
        let ghost stored = self.stored();
        let db = ObjectDatabase {
            format: self.format,
            objects: self.objects,
            promisor,
            empty_tree: self.empty_tree,
            log: self.log,
            given: self.given,
        };
        assert(db.stored() == stored);
        db
    }

    /// Whether the object was written.
    pub fn contains(&self, oid: &ObjectId) -> (found: bool)
        ensures
            found == self.stored().contains_key(*oid),
    {
        self.objects.contains_key(oid)
    }

    /// Checks that what is stored under an id has that id.
    pub fn validate(&self, oid: &ObjectId) -> (valid: Result<(), GitError>)
        ensures
            match self.object_at(*oid) {
                Err(failure) => valid matches Err(err) && err == failure,
                Ok(object) => {
                    let actual = digest(self.spec_format(), framed(object.spec_type(), object.body@));
                    &&& valid is Ok <==> oid.spec_format() == self.spec_format() && oid.raw() == actual
                    &&& valid matches Err(err) ==> (err matches GitError::InvalidObject(text) && text@
                        == "object id mismatch: expected "@ + hex(oid.raw()) + ", got "@ + hex(actual))
                },
            },
    {
        match self.read_object(oid) {
            Err(err) => Err(err),
            Ok(object) => {
                let actual = object.object_id(self.format);
                if actual.same(oid) {
                    Ok(())
                } else {
                    let expected = oid.to_hex();
                    let got = actual.to_hex();
                    Err(
                        GitError::InvalidObject(
                            concat2(
                                concat3("object id mismatch: expected ", expected.as_str(), ", got ").as_str(),
                                got.as_str(),
                            ),
                        ),
                    )
                }
            },
        }
    }
}

impl ObjectReader for ObjectDatabase {
    closed spec fn object_at(&self, oid: ObjectId) -> Result<Arc<EncodedObject>, GitError> {
        if self.objects@.contains_key(oid) {
            Ok(self.objects@[oid])
        } else if is_empty_tree_id(self.format, oid) {
            Ok(self.empty_tree)
        } else {
            Err(read_miss(oid))
        }
    }

    closed spec fn grafted(&self, oid: ObjectId) -> bool {
        false
    }

    closed spec fn promised(&self, oid: ObjectId) -> bool {
        false
    }

    fn read_object(&self, oid: &ObjectId) -> (read: Result<Arc<EncodedObject>, GitError>) {
        match self.objects.get(oid) {
            Some(object) => Ok(share(object)),
            None => {
                if implied_empty_tree_object(self.format, oid).is_some() {
                    Ok(share(&self.empty_tree))
                } else {
                    Err(GitError::object_not_found_in(*oid, MissingObjectContext::Read))
                }
            },
        }
    }

    fn is_shallow_graft(&self, _oid: &ObjectId) -> (shallow: bool) {
        false
    }

    fn is_promised_object(&self, _oid: &ObjectId) -> (promised: bool) {
        false
    }
}

impl ObjectDatabase {
    /// What a read returns: the object that was written under the id, the tree
    /// without entries under its own id, else that there is none.
    pub proof fn law_read_returns_what_is_stored(&self, oid: ObjectId)
        ensures
            self.object_at(oid) == if self.stored().contains_key(oid) {
                Ok::<Arc<EncodedObject>, GitError>(self.stored()[oid])
            } else if is_empty_tree_id(self.spec_format(), oid) {
                Ok(self.spec_empty_tree())
            } else {
                Err(read_miss(oid))
            },
            !self.grafted(oid),
            !self.promised(oid),
    {
    }

    /// Whatever a read returns has the id that was asked for.
    pub proof fn law_reads_are_valid(&self, oid: ObjectId)
        requires
            self.wf(),
            self.object_at(oid) is Ok,
        ensures
            has_id(*self.object_at(oid)->Ok_0, self.spec_format(), oid),
    {
        if self.stored().contains_key(oid) {
            assert(has_id(*self.stored()[oid], self.spec_format(), oid));
        } else {
            assert(self.spec_empty_tree().body@ =~= Seq::empty());
        }
    }

    /// An object that was not there before reads back as it was written, and
    /// every other read is as it was.
    pub proof fn law_write_is_read_back(
        before: ObjectDatabase,
        after: ObjectDatabase,
        written: ObjectId,
        object: EncodedObject,
        other: ObjectId,
    )
        requires
            after.spec_format() == before.spec_format(),
            after.spec_empty_tree() == before.spec_empty_tree(),
            !before.stored().contains_key(written),
            after.stored().dom() == before.stored().dom().insert(written),
            *after.stored()[written] == object,
            forall|o: ObjectId| #[trigger]
                before.stored().contains_key(o) ==> after.stored()[o] == before.stored()[o],
        ensures
            after.object_at(written) is Ok,
            *after.object_at(written)->Ok_0 == object,
            other != written ==> after.object_at(other) == before.object_at(other),
    {
        assert(after.stored().contains_key(written));
        assert(after.stored().dom().contains(other) == (before.stored().dom().contains(other) || other == written));
    }
}

impl ObjectWriter for ObjectDatabase {
    closed spec fn received(&self) -> Seq<EncodedObject> {
        self.log@
    }

    closed spec fn answers(&self) -> Seq<Result<ObjectId, GitError>> {
        self.given@
    }

    /// The object is stored under its id, unless there is one already.
    open spec fn takes(
        before: &ObjectDatabase,
        after: &ObjectDatabase,
        object: EncodedObject,
        written: Result<ObjectId, GitError>,
    ) -> bool {
        &&& before.wf() ==> after.wf()
        &&& after.spec_format() == before.spec_format()
        &&& after.is_promisor() == before.is_promisor()
        &&& after.spec_empty_tree() == before.spec_empty_tree()
        &&& written matches Ok(oid) && oid.spec_format() == before.spec_format() && oid.raw() == digest(
            before.spec_format(),
            framed(object.spec_type(), object.body@),
        ) && if before.stored().contains_key(oid) {
            after.stored() == before.stored()
        } else {
            after.stored().dom() == before.stored().dom().insert(oid) && *after.stored()[oid] == object
                && forall|other: ObjectId| #[trigger]
                before.stored().contains_key(other) ==> after.stored()[other] == before.stored()[other]
        }
    }

    fn write_object(&mut self, object: EncodedObject) -> (written: Result<ObjectId, GitError>)
    {
        let oid = object.object_id(self.format);
        self.log = Ghost(self.log@.push(object));
        self.given = Ghost(self.given@.push(Ok(oid)));
        if !self.objects.contains_key(&oid) {
            self.objects.insert(oid, Arc::new(object));
        }
        proof {
            assert(self.objects@.dom() =~= old(self).objects@.dom().insert(oid));
            if old(self).wf() {
                assert forall|o: ObjectId| #[trigger] self.stored().contains_key(o) implies has_id(
                    *self.stored()[o],
                    self.spec_format(),
                    o,
                ) by {
                    assert(self.objects@.dom().contains(o));
                    if old(self).stored().contains_key(o) {
                        assert(has_id(*old(self).stored()[o], old(self).spec_format(), o));
                    }
                }
            }
        }
        Ok(oid)
    }
}

/// Which objects stand in for others.
///
/// The map is independent of refs, config and environment: whoever sets the
/// database up decides whether replacements apply.
pub struct ObjectReplacements {
    replacements: OidMap<ObjectId>,
}

/// The pairs of a list as a map, the last of several for an object deciding.
pub open spec fn replacement_map(pairs: Seq<(ObjectId, ObjectId)>) -> Map<ObjectId, ObjectId>
    decreases pairs.len(),
{
    if pairs.len() == 0 {
        Map::empty()
    } else {
        replacement_map(pairs.drop_last()).insert(pairs.last().0, pairs.last().1)
    }
}

/// What stands in for an object after at most `left` steps: where a step leads
/// nowhere, or back to itself, the chain ends. A chain that comes back to an
/// object that it passed, or is longer, is rejected.
pub open spec fn resolved(
    map: Map<ObjectId, ObjectId>,
    current: ObjectId,
    passed: Set<ObjectId>,
    left: nat,
) -> Option<ObjectId>
    decreases left,
{
    if left == 0 {
        if map.contains_key(current) {
            None
        } else {
            Some(current)
        }
    } else if passed.contains(current) {
        None
    } else if !map.contains_key(current) || map[current] == current {
        Some(current)
    } else {
        resolved(map, map[current], passed.insert(current), (left - 1) as nat)
    }
}

impl ObjectReplacements {
    pub closed spec fn view(self) -> Map<ObjectId, ObjectId> {
        self.replacements@
    }

    pub fn new(pairs: Vec<(ObjectId, ObjectId)>) -> (replacements: ObjectReplacements)
        ensures
            replacements.view() == replacement_map(pairs@),
    {
        let mut replacements: OidMap<ObjectId> = OidMap::new();
        let mut i: usize = 0;
        while i < pairs.len()
            invariant
                i <= pairs@.len(),
                replacements@ == replacement_map(pairs@.take(i as int)),
            decreases pairs@.len() - i,
        {
            assert(pairs@.take(i + 1).drop_last() =~= pairs@.take(i as int));
            replacements.insert(pairs[i].0, pairs[i].1);
            i += 1;
        }
        assert(pairs@.take(i as int) =~= pairs@);
        ObjectReplacements { replacements }
    }

    pub fn is_empty(&self) -> (empty: bool)
        ensures
            empty == (self.view() == Map::<ObjectId, ObjectId>::empty()),
    {
        let count: usize = self.replacements.len();
        proof {
            let keys = self.replacements.keys();
            if count == 0 {
                assert(self.view() =~= Map::<ObjectId, ObjectId>::empty());
            } else {
                assert(keys.contains(keys[0]));
                assert(self.view().contains_key(keys[0]));
                assert(!Map::<ObjectId, ObjectId>::empty().contains_key(keys[0]));
            }
        }
        count == 0
    }

    /// Follows a chain of replacements, rejecting cycles and chains of more
    /// than five links.
    pub fn resolve(&self, oid: &ObjectId) -> (target: Result<ObjectId, GitError>)
        ensures
            match resolved(self.view(), *oid, Set::empty(), 5) {
                Some(end) => target == Ok::<ObjectId, GitError>(end),
                None => target matches Err(GitError::InvalidObject(text)) && text@
                    == "replace depth too high for object "@ + hex(oid.raw()),
            },
    {
        let mut current = *oid;
        let mut passed = OidSet::new();
        let mut left: u8 = 5;
        assert(passed@ =~= Set::empty());
        while left > 0
            invariant
                left <= 5,
                resolved(self.view(), *oid, Set::empty(), 5) == resolved(
                    self.view(),
                    current,
                    passed@,
                    left as nat,
                ),
            decreases left,
        {
            if !passed.insert(current) {
                return Err(self.too_deep(oid));
            }
            match self.replacements.get(&current) {
                None => {
                    return Ok(current);
                },
                Some(next) => {
                    if *next == current {
                        return Ok(current);
                    }
                    current = *next;
                },
            }
            left -= 1;
        }
        if self.replacements.contains_key(&current) {
            return Err(self.too_deep(oid));
        }
        Ok(current)
    }

    fn too_deep(&self, oid: &ObjectId) -> (err: GitError)
        ensures
            err matches GitError::InvalidObject(text) && text@ == "replace depth too high for object "@ + hex(
                oid.raw(),
            ),
    {
        let name = oid.to_hex();
        GitError::InvalidObject(concat2("replace depth too high for object ", name.as_str()))
    }
}

/// What stands in for an object has no stand-in of its own but itself, and an
/// object without a replacement stands for itself.
pub proof fn law_resolution_ends(map: Map<ObjectId, ObjectId>, oid: ObjectId, passed: Set<ObjectId>, left: nat)
    requires
        !passed.contains(oid) || left == 0,
    ensures
        resolved(map, oid, passed, left) matches Some(end) ==> !map.contains_key(end) || map[end] == end,
        !map.contains_key(oid) ==> resolved(map, oid, passed, left) == Some(oid),
    decreases left,
{
    if left > 0 && !passed.contains(oid) && map.contains_key(oid) && map[oid] != oid {
        let next = map[oid];
        if !passed.insert(oid).contains(next) || left == 1 {
            law_resolution_ends(map, next, passed.insert(oid), (left - 1) as nat);
        }
    }
}

/// A replacement cycle of two objects is rejected, from either of them.
pub proof fn law_two_cycle_is_rejected(map: Map<ObjectId, ObjectId>, a: ObjectId, b: ObjectId)
    requires
        a != b,
        map.contains_key(a),
        map.contains_key(b),
        map[a] == b,
        map[b] == a,
    ensures
        resolved(map, a, Set::empty(), 5) is None,
{
    reveal_with_fuel(resolved, 4);
}

/// Where another object directory is.
#[derive(Debug, PartialEq, Eq)]
pub struct Alternate {
    pub path: String,
}

/// What a partial clone may lack.
#[derive(Debug, PartialEq, Eq)]
pub struct PartialClonePolicy {
    pub promisor_remote: Option<String>,
    pub allow_missing_promised_objects: bool,
}

/// The ids that lines spell, as far as they do.
pub open spec fn ids_of_lines(format: ObjectFormat, lines: Seq<Seq<char>>, oid: ObjectId) -> bool {
    exists|i: int|
        0 <= i < lines.len() && is_hex_id(format, encode_utf8(#[trigger] lines[i])) && oid.spec_format() == format
            && oid.raw() == unhex(encode_utf8(lines[i]))
}

/// The commits at which history is cut: the ids that the lines of a `shallow`
/// file spell. Other lines, and a file that is not a text, give none.
pub fn read_shallow_grafts(contents: &[u8], format: ObjectFormat) -> (grafts: OidSet)
    ensures
        forall|oid: ObjectId| #[trigger]
            grafts@.contains(oid) ==> valid_utf8(contents@) && ids_of_lines(
                format,
                trimmed_lines(newline_parts(contents@)),
                oid,
            ),
        valid_utf8(contents@) ==> forall|i: int|
            0 <= i < trimmed_lines(newline_parts(contents@)).len() && is_hex_id(
                format,
                encode_utf8(#[trigger] trimmed_lines(newline_parts(contents@))[i]),
            ) ==> exists|oid: ObjectId| #[trigger]
                grafts@.contains(oid) && oid.spec_format() == format && oid.raw() == unhex(
                    encode_utf8(trimmed_lines(newline_parts(contents@))[i]),
                ),
{
    let lines = read_trimmed_lines(contents);
    let ghost texts = lines@.map_values(|line: String| line@);
    let mut grafts = OidSet::new();
    let mut i: usize = 0;
    while i < lines.len()
        invariant
            i <= lines@.len(),
            texts == lines@.map_values(|line: String| line@),
            forall|oid: ObjectId| #[trigger] grafts@.contains(oid) ==> ids_of_lines(format, texts, oid),
            forall|k: int|
                0 <= k < i && is_hex_id(format, encode_utf8(#[trigger] texts[k])) ==> exists|oid: ObjectId| #[trigger]
                    grafts@.contains(oid) && oid.spec_format() == format && oid.raw() == unhex(
                        encode_utf8(texts[k]),
                    ),
        decreases lines@.len() - i,
    {
        let ghost held = grafts@;
        assert(texts[i as int] == lines@[i as int]@);
        match from_hex(format, lines[i].as_str().as_bytes()) {
            Some(oid) => {
                grafts.insert(oid);
                proof {
                    assert(ids_of_lines(format, texts, oid)) by {
                        assert(is_hex_id(format, encode_utf8(texts[i as int])));
                    }
                    assert(grafts@.contains(oid));
                }
            },
            None => {},
        }
        proof {
            assert forall|k: int| 0 <= k < i + 1 && is_hex_id(format, encode_utf8(#[trigger] texts[k])) implies exists|
                oid: ObjectId,
            | #[trigger] grafts@.contains(oid) && oid.spec_format() == format && oid.raw() == unhex(
                encode_utf8(texts[k]),
            ) by {
                if k < i {
                    let oid = choose|oid: ObjectId| #[trigger]
                        held.contains(oid) && oid.spec_format() == format && oid.raw() == unhex(
                            encode_utf8(texts[k]),
                        );
                    assert(grafts@.contains(oid));
                }
            }
        }
        i += 1;
    }
    proof {
        if valid_utf8(contents@) {
            assert(texts == trimmed_lines(newline_parts(contents@)));
        }
    }
    grafts
}

/// The ids that an object names, gitlinks included, as far as its body decodes.
pub open spec fn promisor_links(object: EncodedObject) -> Seq<ObjectId> {
    match object.content {
        ObjectContent::Commit(Ok(commit)) => seq![commit.tree] + commit.parents@,
        ObjectContent::Tree(entries) => entry_ids(entries@),
        ObjectContent::Tag(Ok(target)) => seq![target],
        _ => Seq::empty(),
    }
}

/// The ids of the well-formed entries of a tree.
pub open spec fn entry_ids(entries: Seq<Result<TreeEntry, GitError>>) -> Seq<ObjectId>
    decreases entries.len(),
{
    if entries.len() == 0 {
        Seq::empty()
    } else {
        let rest = entry_ids(entries.drop_last());
        match entries.last() {
            Ok(entry) => rest.push(entry.oid),
            Err(_) => rest,
        }
    }
}

/// The ids that an object names, gitlinks included, as far as its body decodes.
pub fn promisor_object_links(object: &EncodedObject) -> (links: Vec<ObjectId>)
    ensures
        links@ == promisor_links(*object),
{
    match &object.content {
        ObjectContent::Commit(Ok(commit)) => {
            let mut links: Vec<ObjectId> = Vec::new();
            links.push(commit.tree);
            let mut parents = copy_oids(&commit.parents);
            links.append(&mut parents);
            assert(links@ =~= seq![commit.tree] + commit.parents@);
            links
        },
        ObjectContent::Tree(entries) => {
            let mut links: Vec<ObjectId> = Vec::new();
            let mut i: usize = 0;
            assert(entries@.take(0) =~= Seq::empty());
            while i < entries.len()
                invariant
                    i <= entries@.len(),
                    links@ == entry_ids(entries@.take(i as int)),
                decreases entries@.len() - i,
            {
                assert(entries@.take(i + 1).drop_last() =~= entries@.take(i as int));
                match &entries[i] {
                    Ok(entry) => {
                        links.push(entry.oid);
                    },
                    Err(_) => {},
                }
                i += 1;
            }
            assert(entries@.take(i as int) =~= entries@);
            links
        },
        ObjectContent::Tag(Ok(target)) => {
            let mut links: Vec<ObjectId> = Vec::new();
            links.push(*target);
            assert(links@ =~= seq![*target]);
            links
        },
        _ => Vec::new(),
    }
}

/// The links that make an object promised: those of objects that read.
pub open spec fn promisor_graph<R: ObjectReader>(reader: &R) -> Schedule {
    |oid: ObjectId|
        match reader.object_at(oid) {
            Ok(object) => Ok(promisor_links(*object)),
            Err(_) => Ok(Seq::<ObjectId>::empty()),
        }
}

struct PromisorGraph<'a, R> {
    reader: &'a R,
}

impl<'a, R: ObjectReader> Expand for PromisorGraph<'a, R> {
    closed spec fn object_of(&self, oid: ObjectId) -> Option<Arc<EncodedObject>> {
        stored(self.reader, oid)
    }

    closed spec fn schedule(&self) -> Schedule {
        promisor_graph(self.reader)
    }

    fn expand(&self, oid: &ObjectId) -> (visit: Result<Visit, GitError>) {
        match self.reader.read_object(oid) {
            Err(_) => Ok(Visit { object: None, scheduled: Vec::new() }),
            Ok(object) => {
                let scheduled = promisor_object_links(&object);
                Ok(Visit { object: Some(object), scheduled })
            },
        }
    }
}

/// The objects that a promisor remote promises: those of its packs, here and in
/// the alternates, and all that they name, as far as it can be read.
pub fn promisor_objects<R: ObjectReader>(reader: &R, seeds: &[ObjectId]) -> (promised: OidSet)
    ensures
        forall|oid: ObjectId| #[trigger]
            promised@.contains(oid) <==> reaches(promisor_graph(reader), Set::empty(), seeds@.to_set(), oid),
{
    let graph = PromisorGraph { reader };
    let none = OidSet::new();
    assert(none@ =~= Set::empty());
    proof {
        law_walk_visits_closure(promisor_graph(reader), Set::empty(), seeds@);
    }
    match walk(&graph, copy_oids(seeds), &none) {
        Ok(walked) => {
            proof {
                assert forall|oid: ObjectId| #[trigger] walked.seen@.contains(oid) <==> reaches(
                    promisor_graph(reader),
                    Set::empty(),
                    seeds@.to_set(),
                    oid,
                ) by {
                    assert(walked.seen@.contains(oid) == walked.seen.items().contains(oid));
                }
            }
            walked.seen
        },
        Err(err) => {
            proof {
                let g = promisor_graph(reader);
                let oid = choose|oid: ObjectId| #[trigger]
                    reaches(g, Set::empty(), seeds@.to_set(), oid) && !Set::<ObjectId>::empty().contains(oid)
                        && g(oid) == Err::<Seq<ObjectId>, GitError>(err);
                assert(g(oid) is Ok);
            }
            OidSet::new()
        },
    }
}

/// Whether an object may be missing because it is promised: only where the
/// repository has a promisor remote.
pub fn is_promised_object(promisor_remote_present: bool, promised: &OidSet, oid: &ObjectId) -> (is: bool)
    ensures
        is == (promisor_remote_present && promised@.contains(*oid)),
{
    promisor_remote_present && promised.contains(oid)
}

} // verus!
