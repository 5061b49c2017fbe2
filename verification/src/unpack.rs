//! Writing the objects of packs and bundles to a store.

use crate::database::ObjectDatabase;
use crate::error::GitError;
use crate::install::bundle_failure;
use crate::install::is_met;
use crate::install::verify_bundle_prerequisites;
use crate::install::BundlePrerequisites;
use crate::install::RawPackInstallOptions;
use crate::object::digest;
use crate::object::framed;
use crate::object::EncodedObject;
use crate::object::ObjectReader;
use crate::object::ObjectWriter;
use crate::object_id::ObjectFormat;
use crate::object_id::ObjectId;
use crate::text::concat3;
use crate::text::decimal;
use crate::text::decimal_text;
use crate::text::hex;
use std::sync::Arc;
use vstd::prelude::*;
use vstd::string::*;

verus! {

/// An object of a pack and the id that the pack gives it.
pub struct PackedEntry {
    pub oid: ObjectId,
    pub object: EncodedObject,
}

/// The ids of the objects that were written, in order.
#[derive(Debug, PartialEq, Eq)]
pub struct PackUnpackResult {
    pub written_objects: Vec<ObjectId>,
}

pub open spec fn entry_oids(entries: Seq<PackedEntry>) -> Seq<ObjectId> {
    entries.map_values(|entry: PackedEntry| entry.oid)
}

pub open spec fn entry_objects(entries: Seq<PackedEntry>) -> Seq<EncodedObject> {
    entries.map_values(|entry: PackedEntry| entry.object)
}

/// Whether `err` says that a store gave an object another id than its source.
pub open spec fn is_id_mismatch(err: GitError, source: Seq<char>, expected: ObjectId, actual: ObjectId) -> bool {
    err matches GitError::InvalidObject(text) && text@ == source + " object id mismatch: expected "@ + hex(
        expected.raw(),
    ) + ", wrote "@ + hex(actual.raw())
}

/// Checks that a store gave an object the id that its source gives it.
pub fn check_written_id(source: &str, expected: &ObjectId, actual: &ObjectId) -> (checked: Result<(), GitError>)
    ensures
        checked is Ok <==> *expected == *actual,
        checked is Ok <==> expected.spec_format() == actual.spec_format() && expected.raw() == actual.raw(),
        checked matches Err(err) ==> is_id_mismatch(err, source@, *expected, *actual),
{
    if actual.same(expected) {
        return Ok(());
    }
    let want = expected.to_hex();
    let got = actual.to_hex();
    let first = concat3(source, " object id mismatch: expected ", want.as_str());
    Err(GitError::InvalidObject(concat3(first.as_str(), ", wrote ", got.as_str())))
}

/// The entries with the last one first, so that the first can be taken off.
fn reversed_entries(entries: Vec<PackedEntry>) -> (out: Vec<PackedEntry>)
    ensures
        out@ == entries@.reverse(),
{
    let ghost all = entries@;
    let mut entries = entries;
    let mut out: Vec<PackedEntry> = Vec::with_capacity(entries.len());
    while entries.len() > 0
        invariant
            entries@.len() <= all.len(),
            entries@ == all.take(entries@.len() as int),
            out@ == all.skip(entries@.len() as int).reverse(),
        decreases entries@.len(),
    {
        match entries.pop() {
            Some(entry) => {
                out.push(entry);
                assert(entries@ =~= all.take(entries@.len() as int));
                assert(out@ =~= all.skip(entries@.len() as int).reverse());
            },
            None => {},
        }
    }
    assert(all.skip(0) =~= all);
    out
}

/// The answers of a store that gives each object of a pack the id that the pack
/// gives it.
pub open spec fn right_answers(entries: Seq<PackedEntry>) -> Seq<Result<ObjectId, GitError>> {
    entries.map_values(|entry: PackedEntry| Ok::<ObjectId, GitError>(entry.oid))
}

/// Whether `err` is why a store's answer for an object ends it: the store failed,
/// or gave the object another id than its source.
pub open spec fn is_refusal(
    answer: Result<ObjectId, GitError>,
    source: Seq<char>,
    expected: ObjectId,
    err: GitError,
) -> bool {
    match answer {
        Err(failure) => err == failure,
        Ok(actual) => !(actual.spec_format() == expected.spec_format() && actual.raw() == expected.raw())
            && is_id_mismatch(err, source, expected, actual),
    }
}

/// Whether handing the objects of a pack to a store ended with the one at `n`:
/// those before were answered rightly, and the answer for it is refused.
pub open spec fn stops_at<W: ObjectWriter>(
    before: &W,
    after: &W,
    entries: Seq<PackedEntry>,
    source: Seq<char>,
    err: GitError,
    n: int,
) -> bool {
    &&& 0 <= n < entries.len()
    &&& after.received() == before.received() + entry_objects(entries).take(n + 1)
    &&& after.answers().len() == before.answers().len() + n + 1
    &&& after.answers().drop_last() == before.answers() + right_answers(entries).take(n)
    &&& is_refusal(after.answers().last(), source, entries[n].oid, err)
}

/// Whether `states` are those that a store goes through as it takes objects of a
/// pack in order and answers for them.
pub open spec fn is_run<W: ObjectWriter>(
    states: Seq<W>,
    entries: Seq<PackedEntry>,
    answers: Seq<Result<ObjectId, GitError>>,
) -> bool {
    &&& states.len() == answers.len() + 1
    &&& answers.len() <= entries.len()
    &&& forall|i: int|
        0 <= i < answers.len() ==> W::takes(&states[i], &states[i + 1], entries[i].object, #[trigger] answers[i])
}

/// Whether a store comes from one state to another by taking objects of a pack.
pub open spec fn takes_entries<W: ObjectWriter>(before: &W, after: &W, entries: Seq<PackedEntry>) -> bool {
    exists|states: Seq<W>| #[trigger]
        is_run(states, entries, after.answers().skip(before.answers().len() as int)) && states[0] == *before
            && states.last() == *after
}

/// Whether `written` is what handing the objects of a pack to a store in order
/// comes to. It succeeds if and only if every answer is the id that the pack
/// gives the object; else it ends with the first that is not.
pub open spec fn writes_entries<W: ObjectWriter>(
    before: &W,
    after: &W,
    entries: Seq<PackedEntry>,
    source: Seq<char>,
    written: Result<PackUnpackResult, GitError>,
) -> bool {
    &&& takes_entries(before, after, entries)
    &&& written is Ok <==> after.answers() == before.answers() + right_answers(entries)
    &&& match written {
        Ok(result) => {
            &&& result.written_objects@ == entry_oids(entries)
            &&& after.received() == before.received() + entry_objects(entries)
        },
        Err(err) => exists|n: int| #[trigger] stops_at(before, after, entries, source, err, n),
    }
}

/// Writes the objects of a pack in order. A store that fails, or gives an
/// object another id than the pack, ends it; what was handed over before stays
/// with the store.
pub fn write_pack_objects<W: ObjectWriter>(entries: Vec<PackedEntry>, writer: &mut W, source: &str) -> (written: Result<
    PackUnpackResult,
    GitError,
>)
    ensures
        writes_entries(old(writer), final(writer), entries@, source@, written),
{
    let ghost all = entries@;
    let ghost before = writer.received();
    let ghost said = writer.answers();
    let ghost right = right_answers(entries@);
    let ghost mut states: Seq<W> = seq![*writer];
    let mut rest = reversed_entries(entries);
    let mut written_objects: Vec<ObjectId> = Vec::new();
    let ghost mut done: int = 0;
    proof {
        assert(all.skip(0) =~= all);
        assert(before + entry_objects(all).take(0) =~= before);
        assert(said + right.take(0) =~= said);
        assert(is_run(states, all, right.take(0)));
        assert(written_objects@ =~= entry_oids(all).take(0));
    }
    while rest.len() > 0
        invariant
            0 <= done <= all.len(),
            all == entries@,
            before == old(writer).received(),
            said == old(writer).answers(),
            right == right_answers(all),
            writer.answers() == said + right.take(done),
            is_run(states, all, right.take(done)),
            states[0] == *old(writer),
            states.last() == *writer,
            rest@ == all.skip(done).reverse(),
            written_objects@ == entry_oids(all).take(done),
            writer.received() == before + entry_objects(all).take(done),
        decreases rest@.len(),
    {
        let ghost held = rest@;
        match rest.pop() {
            None => {},
            Some(entry) => {
                assert(entry == all[done]) by {
                    assert(held.last() == all.skip(done)[0]);
                }
                let PackedEntry { oid, object } = entry;
                let outcome = writer.write_object(object);
                let ghost run = states;
                proof {
                    states = states.push(*writer);
                    let answers = right.take(done).push(outcome);
                    assert(is_run(states, all, answers)) by {
                        assert forall|i: int| 0 <= i < answers.len() implies W::takes(
                            &states[i],
                            &states[i + 1],
                            all[i].object,
                            #[trigger] answers[i],
                        ) by {
                            if i < done {
                                assert(right.take(done)[i] == answers[i]);
                                assert(states[i] == run[i] && states[i + 1] == run[i + 1]);
                            } else {
                                assert(states[i] == run.last());
                            }
                        }
                    }
                    assert(writer.answers().skip(said.len() as int) =~= answers);
                    assert(takes_entries(old(writer), writer, all));
                    assert(rest@ =~= all.skip(done + 1).reverse());
                    assert(entry_objects(all).take(done + 1) =~= entry_objects(all).take(done).push(object));
                    assert(writer.received() =~= before + entry_objects(all).take(done + 1));
                    assert(writer.answers().drop_last() =~= said + right.take(done));
                    assert(writer.answers().last() == outcome);
                    if outcome != Ok::<ObjectId, GitError>(oid) {
                        assert(writer.answers()[said.len() + done] == outcome);
                        assert((said + right)[said.len() + done] == right[done]);
                        assert(writer.answers() != said + right);
                    }
                }
                match outcome {
                    Err(err) => {
                        assert(stops_at(old(writer), writer, all, source@, err, done));
                        return Err(err);
                    },
                    Ok(actual) => {
                        match check_written_id(source, &oid, &actual) {
                            Err(err) => {
                                assert(stops_at(old(writer), writer, all, source@, err, done));
                                return Err(err);
                            },
                            Ok(()) => {},
                        }
                        written_objects.push(actual);
                        proof {
                            assert(right.take(done + 1) =~= right.take(done).push(outcome));
                            assert(writer.answers() =~= said + right.take(done + 1));
                            assert(written_objects@ =~= entry_oids(all).take(done + 1));
                            done = done + 1;
                        }
                    },
                }
            },
        }
    }
    proof {
        assert(entry_oids(all).take(done) =~= entry_oids(all));
        assert(entry_objects(all).take(done) =~= entry_objects(all));
        assert(right.take(done) =~= right);
        assert(writer.answers().skip(said.len() as int) =~= right);
        assert(takes_entries(old(writer), writer, all));
    }
    Ok(PackUnpackResult { written_objects })
}

/// Writes the objects of a pack, if the pack was read.
pub fn unpack_packfile_objects<W: ObjectWriter>(pack: Result<Vec<PackedEntry>, GitError>, writer: &mut W) -> (written:
    Result<PackUnpackResult, GitError>)
    ensures
        match pack {
            Err(failure) => written == Err::<PackUnpackResult, GitError>(failure) && *final(writer) == *old(writer),
            Ok(entries) => writes_entries(old(writer), final(writer), entries@, "pack"@, written),
        },
{
    match pack {
        Err(err) => Err(err),
        Ok(entries) => write_pack_objects(entries, writer, "pack"),
    }
}

/// A ref that a bundle brings.
#[derive(Debug, PartialEq, Eq)]
pub struct BundleReference {
    pub oid: ObjectId,
    pub name: String,
}

/// What a bundle came to.
#[derive(Debug, PartialEq, Eq)]
pub struct BundleUnbundleResult {
    pub written_objects: Vec<ObjectId>,
    pub references: Vec<BundleReference>,
}

/// Writes the objects of a bundle, whose prerequisites must all be there:
/// where one is not, nothing is written.
pub fn unbundle_objects<R: ObjectReader, W: ObjectWriter>(
    prerequisites: &BundlePrerequisites,
    references: Vec<BundleReference>,
    pack: Result<Vec<PackedEntry>, GitError>,
    prerequisite_reader: &R,
    writer: &mut W,
) -> (unbundled: Result<BundleUnbundleResult, GitError>)
    ensures
        ({
            let met = forall|i: int|
                0 <= i < prerequisites.oids@.len() ==> is_met(
                    prerequisite_reader,
                    prerequisites.format,
                    #[trigger] prerequisites.oids@[i],
                );
            &&& !met || pack is Err ==> *final(writer) == *old(writer)
            &&& !met ==> (unbundled matches Err(err) && bundle_failure(
                prerequisite_reader,
                prerequisites.format,
                prerequisites.oids@,
                err,
            ))
            &&& met && pack is Err ==> (unbundled matches Err(err) && err == pack->Err_0)
            &&& met && pack is Ok ==> exists|written: Result<PackUnpackResult, GitError>| #[trigger]
                writes_entries(old(writer), final(writer), pack->Ok_0@, "bundle"@, written) && unbundled
                    == match written {
                    Ok(result) => Ok::<BundleUnbundleResult, GitError>(
                        BundleUnbundleResult { written_objects: result.written_objects, references },
                    ),
                    Err(err) => Err(err),
                }
        }),
{
    match verify_bundle_prerequisites(prerequisites, prerequisite_reader) {
        Err(err) => {
            return Err(err);
        },
        Ok(()) => {},
    }
    let entries = match pack {
        Err(err) => {
            return Err(err);
        },
        Ok(entries) => entries,
    };
    match write_pack_objects(entries, writer, "bundle") {
        Err(err) => Err(err),
        Ok(result) => Ok(
            BundleUnbundleResult { written_objects: result.written_objects, references },
        ),
    }
}

/// Whether a pack of a length may be taken in.
pub fn check_pack_size(len: usize, options: &RawPackInstallOptions) -> (checked: Result<(), GitError>)
    ensures
        match options.max_input_size {
            Some(limit) => if len > limit {
                checked matches Err(GitError::InvalidFormat(text)) && text@
                    == "pack exceeds maximum allowed size ("@ + decimal(limit as nat) + ")"@
            } else {
                checked is Ok
            },
            None => checked is Ok,
        },
{
    match options.max_input_size {
        Some(limit) => {
            if len as u64 > limit {
                return Err(
                    GitError::InvalidFormat(
                        concat3("pack exceeds maximum allowed size (", decimal_text(limit).as_str(), ")"),
                    ),
                );
            }
            Ok(())
        },
        None => Ok(()),
    }
}

/// Whether each object of a pack has the id that the pack gives it.
pub open spec fn are_named(format: ObjectFormat, entries: Seq<PackedEntry>) -> bool {
    forall|i: int|
        0 <= i < entries.len() ==> (#[trigger] entries[i]).oid.spec_format() == format && entries[i].oid.raw()
            == digest(format, framed(entries[i].object.spec_type(), entries[i].object.body@))
}

/// Whether every object that a store has and did not have before is one of a
/// pack, under the id that the pack gives it.
pub open spec fn are_from(
    stored: Map<ObjectId, Arc<EncodedObject>>,
    before: Map<ObjectId, Arc<EncodedObject>>,
    entries: Seq<PackedEntry>,
) -> bool {
    forall|oid: ObjectId| #[trigger]
        stored.contains_key(oid) ==> before.contains_key(oid) || exists|i: int|
            0 <= i < entries.len() && (#[trigger] entries[i]).oid == oid && entries[i].object == *stored[oid]
}

/// Whether `err` names the first entry of a pack whose object has another id.
pub open spec fn is_first_misnamed(format: ObjectFormat, entries: Seq<PackedEntry>, err: GitError) -> bool {
    exists|i: int, actual: ObjectId|
        #![trigger is_id_mismatch(err, "pack"@, entries[i].oid, actual)]
        0 <= i < entries.len() && are_named(format, entries.take(i)) && actual.spec_format() == format && actual.raw()
            == digest(format, framed(entries[i].object.spec_type(), entries[i].object.body@)) && !(
        entries[i].oid.spec_format() == format && entries[i].oid.raw() == actual.raw()) && is_id_mismatch(
            err,
            "pack"@,
            entries[i].oid,
            actual,
        )
}

/// Takes a pack into a database in memory. Where the pack is within the limit,
/// reads, and names its objects rightly, every one of them is written; each is
/// then found under its id.
pub fn install_raw_pack(
    db: &mut ObjectDatabase,
    pack_len: usize,
    pack: Result<Vec<PackedEntry>, GitError>,
    options: &RawPackInstallOptions,
) -> (installed: Result<PackUnpackResult, GitError>)
    ensures
        final(db).spec_format() == old(db).spec_format(),
        ({
            let fits = options.max_input_size matches Some(limit) ==> pack_len <= limit;
            &&& installed is Ok <==> fits && pack is Ok && are_named(old(db).spec_format(), pack->Ok_0@)
            &&& !fits || pack is Err ==> final(db).stored() == old(db).stored()
            &&& installed matches Ok(result) ==> {
                &&& result.written_objects@ == entry_oids(pack->Ok_0@)
                &&& forall|i: int|
                    0 <= i < pack->Ok_0@.len() ==> final(db).stored().contains_key(
                        (#[trigger] pack->Ok_0@[i]).oid,
                    )
                &&& are_from(final(db).stored(), old(db).stored(), pack->Ok_0@)
            }
            &&& installed matches Err(err) ==> if !fits {
                err matches GitError::InvalidFormat(text) && text@ == "pack exceeds maximum allowed size ("@ + decimal(
                    options.max_input_size->Some_0 as nat,
                ) + ")"@
            } else {
                match pack {
                    Err(failure) => err == failure,
                    Ok(entries) => is_first_misnamed(old(db).spec_format(), entries@, err),
                }
            }
        }),
        forall|oid: ObjectId| #[trigger]
            old(db).stored().contains_key(oid) ==> final(db).stored().contains_key(oid) && final(db).stored()[oid]
                == old(db).stored()[oid],
{
    match check_pack_size(pack_len, options) {
        Err(err) => {
            return Err(err);
        },
        Ok(()) => {},
    }
    let ghost read = pack is Ok;
    let ghost all = pack->Ok_0@;
    let written = unpack_packfile_objects(pack, db);
    proof {
        if read {
            lemma_installed(*old(db), *db, all, written);
        }
    }
    written
}

/// What a database in memory holds after it has taken the first `k` objects of a
/// pack, and what it answered for them.
proof fn lemma_database_run(
    states: Seq<ObjectDatabase>,
    entries: Seq<PackedEntry>,
    answers: Seq<Result<ObjectId, GitError>>,
    k: int,
)
    requires
        is_run(states, entries, answers),
        0 <= k <= answers.len(),
    ensures
        states[k].spec_format() == states[0].spec_format(),
        forall|o: ObjectId| #[trigger]
            states[0].stored().contains_key(o) ==> states[k].stored().contains_key(o) && states[k].stored()[o]
                == states[0].stored()[o],
        forall|i: int|
            0 <= i < k ==> ((#[trigger] answers[i]) matches Ok(oid) && states[k].stored().contains_key(oid)
                && oid.spec_format() == states[0].spec_format() && oid.raw() == digest(
                states[0].spec_format(),
                framed(entries[i].object.spec_type(), entries[i].object.body@),
            )),
        forall|o: ObjectId| #[trigger]
            states[k].stored().contains_key(o) ==> states[0].stored().contains_key(o) || exists|i: int|
                0 <= i < k && #[trigger] answers[i] == Ok::<ObjectId, GitError>(o) && entries[i].object
                    == *states[k].stored()[o],
    decreases k,
{
    if k > 0 {
        lemma_database_run(states, entries, answers, k - 1);
        let before = states[k - 1];
        let after = states[k - 1 + 1];
        let object = entries[k - 1].object;
        assert(ObjectDatabase::takes(&states[k - 1], &states[k - 1 + 1], object, answers[k - 1]));
        let given = answers[k - 1]->Ok_0;
        assert forall|o: ObjectId| #[trigger] before.stored().contains_key(o) implies after.stored().contains_key(o)
            && after.stored()[o] == before.stored()[o] by {
            if !before.stored().contains_key(given) {
                assert(after.stored().dom().contains(o));
            }
        }
        assert(after.stored().contains_key(given)) by {
            if !before.stored().contains_key(given) {
                assert(after.stored().dom().contains(given));
            }
        }
        assert forall|o: ObjectId| #[trigger] after.stored().contains_key(o) implies states[0].stored().contains_key(
            o,
        ) || exists|i: int|
            0 <= i < k && #[trigger] answers[i] == Ok::<ObjectId, GitError>(o) && entries[i].object
                == *after.stored()[o] by {
            if before.stored().contains_key(o) {
                if !states[0].stored().contains_key(o) {
                    let i = choose|i: int|
                        0 <= i < k - 1 && #[trigger] answers[i] == Ok::<ObjectId, GitError>(o) && entries[i].object
                            == *before.stored()[o];
                    assert(answers[i] == Ok::<ObjectId, GitError>(o));
                }
            } else {
                assert(after.stored().dom().contains(o));
                assert(o == given);
                assert(answers[k - 1] == Ok::<ObjectId, GitError>(o));
            }
        }
    }
}

/// What comes of taking a pack into a database in memory.
proof fn lemma_installed(
    before: ObjectDatabase,
    after: ObjectDatabase,
    entries: Seq<PackedEntry>,
    written: Result<PackUnpackResult, GitError>,
)
    requires
        writes_entries(&before, &after, entries, "pack"@, written),
    ensures
        after.spec_format() == before.spec_format(),
        written is Ok <==> are_named(before.spec_format(), entries),
        written is Ok ==> are_from(after.stored(), before.stored(), entries) && forall|i: int|
            0 <= i < entries.len() ==> after.stored().contains_key((#[trigger] entries[i]).oid),
        written matches Err(err) ==> is_first_misnamed(before.spec_format(), entries, err),
        forall|oid: ObjectId| #[trigger]
            before.stored().contains_key(oid) ==> after.stored().contains_key(oid) && after.stored()[oid]
                == before.stored()[oid],
{
    let format = before.spec_format();
    let answers = after.answers().skip(before.answers().len() as int);
    let states = choose|states: Seq<ObjectDatabase>| #[trigger]
        is_run(states, entries, answers) && states[0] == before && states.last() == after;
    let right = right_answers(entries);
    lemma_database_run(states, entries, answers, answers.len() as int);
    match written {
        Ok(_) => {
            assert(answers =~= right);
            assert forall|i: int| 0 <= i < entries.len() implies after.stored().contains_key(
                (#[trigger] entries[i]).oid,
            ) && entries[i].oid.spec_format() == format && entries[i].oid.raw() == digest(
                format,
                framed(entries[i].object.spec_type(), entries[i].object.body@),
            ) by {
                assert(answers[i] == right[i]);
            }
            assert forall|oid: ObjectId| #[trigger] after.stored().contains_key(oid) implies before.stored().contains_key(
                oid,
            ) || exists|i: int|
                0 <= i < entries.len() && (#[trigger] entries[i]).oid == oid && entries[i].object
                    == *after.stored()[oid] by {
                if !before.stored().contains_key(oid) {
                    let i = choose|i: int|
                        0 <= i < answers.len() && #[trigger] answers[i] == Ok::<ObjectId, GitError>(oid)
                            && entries[i].object == *after.stored()[oid];
                    assert(right[i] == answers[i]);
                    assert(entries[i].oid == oid);
                }
            }
        },
        Err(err) => {
            let n = choose|n: int| #[trigger] stops_at(&before, &after, entries, "pack"@, err, n);
            assert(answers.len() == n + 1);
            assert(answers[n] == after.answers().last());
            let actual = answers[n]->Ok_0;
            assert forall|i: int| 0 <= i < n implies (#[trigger] entries.take(n)[i]).oid.spec_format() == format
                && entries.take(n)[i].oid.raw() == digest(
                format,
                framed(entries.take(n)[i].object.spec_type(), entries.take(n)[i].object.body@),
            ) by {
                assert(after.answers().drop_last()[before.answers().len() + i] == right.take(n)[i]);
                assert(answers[i] == right[i]);
            }
            let expected = entries[n].oid;
            assert(is_id_mismatch(err, "pack"@, expected, actual));
            assert(is_first_misnamed(format, entries, err));
            assert(!are_named(format, entries)) by {
                if are_named(format, entries) {
                    assert(entries[n].oid.raw() == actual.raw());
                }
            }
        },
    }
}

} // verus!
