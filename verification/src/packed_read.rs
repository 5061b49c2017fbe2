//! From an id to a place in a pack, and from there to an object.

use crate::error::GitError;
use crate::hex_id::has_hex_prefix;
use crate::hex_id::hex_prefix_matches;
use crate::hex_id::is_hex_id;
use crate::hex_id::unhex;
use crate::loose_cache::is_loose_id;
use crate::loose_cache::lists_loose;
use crate::loose_cache::loose_id;
use crate::midx::MultiPackIndexData;
use crate::object::digest;
use crate::object::framed;
use crate::object::EncodedObject;
use crate::object_id::ObjectFormat;
use crate::object_id::ObjectId;
use crate::oid_map::OidSet;
use crate::pack_file::PackIndexEntry;
use crate::pack_scan::delta_base;
use crate::pack_scan::is_pack_error;
use crate::pack_scan::midx_oid;
use crate::pack_scan::midx_oid_for_pack_offset;
use crate::pack_scan::pack_entry_delta_base;
use crate::pack_scan::PackDeltaBase;
use crate::text::concat2;
use crate::text::concat3;
use crate::text::decimal;
use crate::text::decimal_text;
use crate::text::has_prefix;
use crate::text::has_suffix;
use crate::text::hex;
use crate::text::starts_with;
use crate::text::strip_suffix;
use crate::text_file::is_space;
use crate::text_file::is_space_char;
use std::sync::Arc;
use vstd::prelude::*;
use vstd::string::*;
use vstd::utf8::*;

verus! {

/// Whether the bytes of an object have the id `oid`.
pub open spec fn has_id(object: EncodedObject, format: ObjectFormat, oid: ObjectId) -> bool {
    oid.spec_format() == format && oid.raw() == digest(format, framed(object.spec_type(), object.body@))
}

/// Whether `err` says that an object is not the one that an index promised.
pub open spec fn is_id_mismatch(err: GitError, oid: ObjectId, object: EncodedObject, format: ObjectFormat) -> bool {
    err matches GitError::InvalidObject(text) && text@ == "pack object id mismatch: index says "@ + hex(oid.raw())
        + ", decoded "@ + hex(digest(format, framed(object.spec_type(), object.body@)))
}

/// The outcome of reading a packed object: a copy decoded before stands;
/// otherwise what decoding gave, which is held to the id only where reads are
/// verified, since the index is trusted.
pub fn read_packed_object_at_lookup(
    format: ObjectFormat,
    oid: &ObjectId,
    cached: Option<Arc<EncodedObject>>,
    decoded: Result<Arc<EncodedObject>, GitError>,
    verify: bool,
) -> (read: Result<Arc<EncodedObject>, GitError>)
    ensures
        match (cached, decoded) {
            (Some(object), _) => read == Ok::<Arc<EncodedObject>, GitError>(object),
            (None, Err(failure)) => read == Err::<Arc<EncodedObject>, GitError>(failure),
            (None, Ok(object)) => if verify && !has_id(*object, format, *oid) {
                read matches Err(err) && is_id_mismatch(err, *oid, *object, format)
            } else {
                read == Ok::<Arc<EncodedObject>, GitError>(object)
            },
        },
{
    match cached {
        Some(object) => {
            return Ok(object);
        },
        None => {},
    }
    match decoded {
        Err(err) => Err(err),
        Ok(object) => {
            if verify {
                let actual = object.object_id(format);
                if !actual.same(oid) {
                    let head = concat3("pack object id mismatch: index says ", oid.to_hex().as_str(), ", decoded ");
                    return Err(GitError::InvalidObject(concat2(head.as_str(), actual.to_hex().as_str())));
                }
            }
            Ok(object)
        },
    }
}

/// Where an index puts an object: the number of its pack, and its offset.
#[derive(Debug, Clone, Copy, PartialEq, Eq, Structural)]
pub struct MidxPlace {
    pub pack_int_id: u32,
    pub offset: u64,
}

/// The name of the pack file that goes with the name of an index; the name
/// itself where it is not that of an index.
pub open spec fn pack_name_of(index_name: Seq<char>) -> Seq<char> {
    if has_suffix(index_name, ".idx"@) {
        index_name.take(index_name.len() - ".idx"@.len()) + ".pack"@
    } else {
        index_name
    }
}

/// Whether `found` is the file and offset at which a multi-pack index puts an
/// object.
pub open spec fn is_midx_lookup(
    place: Option<MidxPlace>,
    pack_names: Seq<String>,
    found: Result<Option<(String, u64)>, GitError>,
) -> bool {
    match place {
        None => found matches Ok(None),
        Some(place) => if place.pack_int_id < pack_names.len() {
            found matches Ok(Some((name, offset))) && name@ == pack_name_of(pack_names[place.pack_int_id as int]@)
                && offset == place.offset
        } else {
            found matches Err(err) && (err matches GitError::InvalidFormat(text) && text@
                == "multi-pack-index object points past pack table"@)
        },
    }
}

/// The pack file that a multi-pack index puts an object in, and the offset
/// there.
pub fn midx_oid_lookup_pack_paths(place: Option<MidxPlace>, pack_names: &Vec<String>) -> (found: Result<
    Option<(String, u64)>,
    GitError,
>)
    ensures
        is_midx_lookup(place, pack_names@, found),
{
    match place {
        None => Ok(None),
        Some(place) => {
            let number: usize = place.pack_int_id as usize;
            if number >= pack_names.len() {
                return Err(
                    GitError::InvalidFormat(String::from_str("multi-pack-index object points past pack table")),
                );
            }
            let name = &pack_names[number];
            let file = match strip_suffix(name.as_str(), ".idx") {
                Some(stem) => {
                    assert(name@.take(name@.len() - ".idx"@.len()) =~= stem@);
                    concat2(stem.as_str(), ".pack")
                },
                None => name.clone(),
            };
            Ok(Some((file, place.offset)))
        },
    }
}

/// One layer of an incremental multi-pack index, and where it puts an object.
pub struct MidxLayer {
    /// Whether the file is there and can be parsed.
    pub is_usable: bool,
    pub pack_names: Vec<String>,
    pub place: Option<MidxPlace>,
}

/// Whether `found` is what the newest usable layer that has the object says.
pub open spec fn is_layered_lookup(layers: Seq<MidxLayer>, found: Result<Option<(String, u64)>, GitError>) -> bool
    decreases layers.len(),
{
    if layers.len() == 0 {
        found matches Ok(None)
    } else {
        let layer = layers.last();
        if layer.is_usable && layer.place is Some {
            is_midx_lookup(layer.place, layer.pack_names@, found)
        } else {
            is_layered_lookup(layers.drop_last(), found)
        }
    }
}

/// Looks an object up in the layers of an incremental multi-pack index, the
/// newest first. `layers` are in chain order, oldest first.
pub fn find_incremental_midx_pack_containing(layers: &Vec<MidxLayer>) -> (found: Result<
    Option<(String, u64)>,
    GitError,
>)
    ensures
        is_layered_lookup(layers@, found),
{
    let mut left: usize = layers.len();
    assert(layers@.take(left as int) =~= layers@);
    while left > 0
        invariant
            left <= layers@.len(),
            forall|found: Result<Option<(String, u64)>, GitError>| #[trigger]
                is_layered_lookup(layers@.take(left as int), found) ==> is_layered_lookup(layers@, found),
        decreases left,
    {
        assert(layers@.take(left as int).drop_last() =~= layers@.take(left - 1));
        left -= 1;
        let layer = &layers[left];
        if layer.is_usable && layer.place.is_some() {
            let found = midx_oid_lookup_pack_paths(layer.place, &layer.pack_names);
            assert(is_layered_lookup(layers@.take(left + 1), found));
            return found;
        }
        assert forall|found: Result<Option<(String, u64)>, GitError>| #[trigger]
            is_layered_lookup(layers@.take(left as int), found) implies is_layered_lookup(layers@, found) by {
            assert(is_layered_lookup(layers@.take(left + 1), found));
        }
    }
    let found: Result<Option<(String, u64)>, GitError> = Ok(None);
    assert(is_layered_lookup(layers@.take(0), found));
    found
}

/// Looks an object up in the multi-pack index and, where that does not have it,
/// in the layers of the incremental one.
pub fn find_midx_pack_containing(single: Option<MidxLayer>, layers: &Vec<MidxLayer>) -> (found: Result<
    Option<(String, u64)>,
    GitError,
>)
    ensures
        match single {
            Some(midx) => if midx.is_usable && midx.place is Some {
                is_midx_lookup(midx.place, midx.pack_names@, found)
            } else {
                is_layered_lookup(layers@, found)
            },
            None => is_layered_lookup(layers@, found),
        },
{
    match &single {
        Some(midx) => {
            if midx.is_usable && midx.place.is_some() {
                return midx_oid_lookup_pack_paths(midx.place, &midx.pack_names);
            }
        },
        None => {},
    }
    find_incremental_midx_pack_containing(layers)
}

/// The first word of a text; nothing where it has none.
pub open spec fn first_word(text: Seq<char>) -> Seq<char>
    decreases text.len(),
{
    if text.len() == 0 {
        Seq::empty()
    } else if is_space(text[0]) {
        first_word(text.drop_first())
    } else {
        word_at(text)
    }
}

/// What of a text stands before its first white space.
pub open spec fn word_at(text: Seq<char>) -> Seq<char>
    decreases text.len(),
{
    if text.len() == 0 || is_space(text[0]) {
        Seq::empty()
    } else {
        seq![text[0]] + word_at(text.drop_first())
    }
}

proof fn lemma_word_at(text: Seq<char>, n: int)
    requires
        0 <= n <= text.len(),
        forall|i: int| 0 <= i < n ==> !is_space(#[trigger] text[i]),
        n == text.len() || is_space(text[n]),
    ensures
        word_at(text) == text.take(n),
    decreases n,
{
    if n == 0 {
        assert(text.take(n) =~= Seq::empty());
    } else {
        let rest = text.drop_first();
        assert forall|i: int| 0 <= i < n - 1 implies !is_space(#[trigger] rest[i]) by {
            assert(!is_space(text[i + 1]));
        }
        assert(!is_space(text[0]));
        lemma_word_at(rest, n - 1);
        assert(text.take(n) =~= seq![text[0]] + rest.take(n - 1));
    }
}

proof fn lemma_first_word(text: Seq<char>, n: int)
    requires
        0 <= n <= text.len(),
        forall|i: int| 0 <= i < n ==> is_space(#[trigger] text[i]),
    ensures
        first_word(text) == first_word(text.skip(n)),
    decreases n,
{
    if n == 0 {
        assert(text.skip(0) =~= text);
    } else {
        let rest = text.drop_first();
        assert(is_space(text[0]));
        assert forall|i: int| 0 <= i < n - 1 implies is_space(#[trigger] rest[i]) by {
            assert(is_space(text[i + 1]));
        }
        lemma_first_word(rest, n - 1);
        assert(rest.skip(n - 1) =~= text.skip(n));
    }
}

fn list_first_word(text: &str) -> (word: String)
    ensures
        word@ == first_word(text@),
{
    let len: usize = text.unicode_len();
    let mut from: usize = 0;
    while from < len && is_space_char(text.get_char(from))
        invariant
            from <= len == text@.len(),
            forall|i: int| 0 <= i < from ==> is_space(#[trigger] text@[i]),
        decreases len - from,
    {
        from += 1;
    }
    let ghost rest = text@.skip(from as int);
    proof {
        lemma_first_word(text@, from as int);
    }
    let mut to: usize = from;
    while to < len && !is_space_char(text.get_char(to))
        invariant
            from <= to <= len == text@.len(),
            rest == text@.skip(from as int),
            forall|i: int| 0 <= i < to - from ==> !is_space(#[trigger] rest[i]),
        decreases len - to,
    {
        assert(rest[to - from] == text@[to as int]);
        to += 1;
    }
    let word = text.substring_char(from, to);
    proof {
        if to < len {
            assert(rest[to - from] == text@[to as int]);
        }
        lemma_word_at(rest, to - from);
        assert(word@ =~= rest.take(to - from));
        if from < len {
            assert(rest[0] == text@[from as int]);
        } else {
            assert(rest =~= Seq::empty());
        }
    }
    String::from_str(word)
}

/// How a message begins that says that a multi-pack index is of another hash.
pub open spec fn hash_id_lead() -> Seq<char> {
    "multi-pack-index hash id "@
}

/// Whether parsing failed only because the multi-pack index is of another hash.
pub open spec fn is_hash_mismatch(err: GitError) -> bool {
    err matches GitError::InvalidFormat(text) && has_prefix(text@, hash_id_lead())
}

/// The complaint about a multi-pack index of another hash.
pub open spec fn hash_complaint(message: Seq<char>, format: ObjectFormat) -> Seq<char> {
    let word = first_word(message.skip(hash_id_lead().len() as int));
    let actual = if word.len() == 0 {
        "0"@
    } else {
        word
    };
    let expected = match format {
        ObjectFormat::Sha1 => "1"@,
        ObjectFormat::Sha256 => "2"@,
    };
    "error: multi-pack-index hash version "@ + actual + " does not match version "@ + expected
}

/// What becomes of a multi-pack index that does not parse: one of another hash
/// is passed over with a complaint, and any other failure stands.
pub fn multi_pack_index_failure(err: GitError, format: ObjectFormat) -> (complaint: Result<String, GitError>)
    ensures
        is_hash_mismatch(err) ==> (complaint matches Ok(text) && text@ == hash_complaint(
            err->InvalidFormat_0@,
            format,
        )),
        !is_hash_mismatch(err) ==> complaint == Err::<String, GitError>(err),
{
    let text: String = match &err {
        GitError::InvalidFormat(message) => {
            if !starts_with(message.as_str(), "multi-pack-index hash id ") {
                return Err(err);
            }
            let lead: usize = "multi-pack-index hash id ".unicode_len();
            let len: usize = message.as_str().unicode_len();
            let rest = message.as_str().substring_char(lead, len);
            assert(rest@ =~= message@.skip(lead as int));
            let word = list_first_word(rest);
            let empty = word.as_str().unicode_len() == 0;
            let actual = if empty {
                "0"
            } else {
                word.as_str()
            };
            let expected = match format {
                ObjectFormat::Sha1 => "1",
                ObjectFormat::Sha256 => "2",
            };
            let head = concat3("error: multi-pack-index hash version ", actual, " does not match version ");
            concat2(head.as_str(), expected)
        },
        _ => {
            return Err(err);
        },
    };
    Ok(text)
}

/// What tells ids at offsets of a pack: its index or, where that cannot be read,
/// the multi-pack index.
pub enum OffsetSource {
    Index(Vec<PackIndexEntry>),
    Midx { midx: Option<MultiPackIndexData>, pack_name: String },
}

/// The first of the first `n` entries that begins at an offset.
pub open spec fn first_at_offset(entries: Seq<PackIndexEntry>, offset: u64, n: nat) -> Option<ObjectId>
    decreases n,
{
    if n == 0 {
        None
    } else {
        match first_at_offset(entries, offset, (n - 1) as nat) {
            Some(oid) => Some(oid),
            None => if entries[n - 1].offset == offset {
                Some(entries[n - 1].oid)
            } else {
                None
            },
        }
    }
}

proof fn lemma_first_at_offset(entries: Seq<PackIndexEntry>, offset: u64, n: nat, m: nat)
    requires
        n <= m,
        first_at_offset(entries, offset, n) is Some,
    ensures
        first_at_offset(entries, offset, m) == first_at_offset(entries, offset, n),
    decreases m - n,
{
    if n < m {
        lemma_first_at_offset(entries, offset, n, (m - 1) as nat);
    }
}

/// The id of the object at an offset of a pack.
pub open spec fn oid_at(source: OffsetSource, offset: u64) -> Option<ObjectId> {
    match source {
        OffsetSource::Index(entries) => first_at_offset(entries@, offset, entries@.len()),
        OffsetSource::Midx { midx: Some(midx), pack_name } => midx_oid(midx, pack_name@, offset),
        OffsetSource::Midx { midx: None, pack_name } => None,
    }
}

/// The id of the object at an offset of a pack.
pub fn pack_oid_at_offset(source: &OffsetSource, offset: u64) -> (oid: Option<ObjectId>)
    ensures
        oid == oid_at(*source, offset),
{
    match source {
        OffsetSource::Index(entries) => {
            let mut i: usize = 0;
            while i < entries.len()
                invariant
                    i <= entries@.len(),
                    first_at_offset(entries@, offset, i as nat) is None,
                    oid_at(*source, offset) == first_at_offset(entries@, offset, entries@.len()),
                decreases entries@.len() - i,
            {
                if entries[i].offset == offset {
                    proof {
                        lemma_first_at_offset(entries@, offset, (i + 1) as nat, entries@.len());
                    }
                    return Some(entries[i].oid);
                }
                i += 1;
            }
            None
        },
        OffsetSource::Midx { midx, pack_name } => match midx {
            Some(midx) => midx_oid_for_pack_offset(midx, pack_name.as_str(), offset),
            None => None,
        },
    }
}

/// The id of what the packed object at an offset builds on, if it is a delta: a
/// pack writer may take the delta over as it is. `source` tells ids of the same
/// pack.
pub fn reusable_delta_base(format: ObjectFormat, pack: &[u8], offset: u64, source: &OffsetSource) -> (base: Result<
    Option<ObjectId>,
    GitError,
>)
    ensures
        match delta_base(format, pack@, offset) {
            Err(failure) => base matches Err(err) && is_pack_error(failure, err),
            Ok(None) => base matches Ok(None),
            Ok(Some((kind, base_offset, raw))) => if kind == 6 {
                match oid_at(*source, base_offset) {
                    Some(oid) => base == Ok::<Option<ObjectId>, GitError>(Some(oid)),
                    None => base matches Err(err) && (err matches GitError::InvalidFormat(text) && text@
                        == "ofs-delta base offset "@ + decimal(base_offset as nat) + " not found"@),
                }
            } else {
                base matches Ok(Some(oid)) && oid.spec_format() == format && oid.raw() == raw
            },
        },
{
    match pack_entry_delta_base(format, pack, offset) {
        Err(err) => Err(err),
        Ok(None) => Ok(None),
        Ok(Some(PackDeltaBase::Ref(oid))) => Ok(Some(oid)),
        Ok(Some(PackDeltaBase::Offset(base_offset))) => match pack_oid_at_offset(source, base_offset) {
            Some(oid) => Ok(Some(oid)),
            None => Err(
                GitError::InvalidFormat(
                    concat3("ofs-delta base offset ", decimal_text(base_offset).as_str(), " not found"),
                ),
            ),
        },
    }
}

/// Whether a loose object with a prefix is listed in the fanout directory that
/// the prefix names.
pub open spec fn is_loose_match(format: ObjectFormat, prefix: Seq<u8>, names: Seq<String>, oid: ObjectId) -> bool {
    prefix.len() >= 2 && lists_loose(format, prefix.take(2), names, oid) && has_hex_prefix(oid.raw(), prefix)
}

/// Collects the loose objects whose ids begin with a hex prefix. `names` are the
/// files in the fanout directory that its first two digits name; a shorter
/// prefix matches nothing.
pub fn collect_loose_object_ids_with_prefix(format: ObjectFormat, prefix: &[u8], names: &Vec<String>) -> (oids: OidSet)
    ensures
        forall|oid: ObjectId| #[trigger] oids@.contains(oid) ==> is_loose_match(format, prefix@, names@, oid),
        forall|i: int|
            0 <= i < names@.len() && names_match(format, prefix@, (#[trigger] names@[i])@) ==> exists|oid: ObjectId|
                #[trigger] oids@.contains(oid) && is_loose_id(format, prefix@.take(2), encode_utf8(names@[i]@), oid),
{
    let mut oids = OidSet::new();
    if prefix.len() < 2 {
        return oids;
    }
    let mut fanout: Vec<u8> = Vec::new();
    fanout.push(prefix[0]);
    fanout.push(prefix[1]);
    assert(fanout@ =~= prefix@.take(2));
    let mut i: usize = 0;
    while i < names.len()
        invariant
            i <= names@.len(),
            fanout@ == prefix@.take(2),
            prefix@.len() >= 2,
            forall|oid: ObjectId| #[trigger] oids@.contains(oid) ==> is_loose_match(format, prefix@, names@, oid),
            forall|k: int|
                0 <= k < i && names_match(format, prefix@, (#[trigger] names@[k])@) ==> exists|oid: ObjectId|
                    #[trigger] oids@.contains(oid) && is_loose_id(
                        format,
                        prefix@.take(2),
                        encode_utf8(names@[k]@),
                        oid,
                    ),
        decreases names@.len() - i,
    {
        let ghost held = oids@;
        match loose_id(format, &fanout, names[i].as_str().as_bytes()) {
            Some(oid) => {
                assert(is_loose_id(format, prefix@.take(2), encode_utf8(names@[i as int]@), oid));
                assert(lists_loose(format, prefix@.take(2), names@, oid));
                if hex_prefix_matches(&oid, prefix) {
                    oids.insert(oid);
                    assert(oids@.contains(oid));
                }
            },
            None => {},
        }
        proof {
            assert forall|k: int|
                0 <= k < i + 1 && names_match(format, prefix@, (#[trigger] names@[k])@) implies exists|oid: ObjectId|
                #[trigger] oids@.contains(oid) && is_loose_id(format, prefix@.take(2), encode_utf8(names@[k]@), oid) by {
                if k < i {
                    let oid = choose|oid: ObjectId|
                        #[trigger] held.contains(oid) && is_loose_id(
                            format,
                            prefix@.take(2),
                            encode_utf8(names@[k]@),
                            oid,
                        );
                    assert(oids@.contains(oid));
                }
            }
        }
        i += 1;
    }
    oids
}

/// Whether the name of a file spells, with the first two digits of a prefix, an
/// id that begins with the prefix.
pub open spec fn names_match(format: ObjectFormat, prefix: Seq<u8>, name: Seq<char>) -> bool {
    let digits = prefix.take(2) + encode_utf8(name);
    prefix.len() >= 2 && is_hex_id(format, digits) && has_hex_prefix(unhex(digits), prefix)
}

/// A file of a pack directory, as far as another copy of an object is looked for.
pub struct IndexCandidate {
    /// The file's name without its extension.
    pub stem: String,
    /// Whether it is an index that can be read.
    pub is_index: bool,
    /// Where the index puts the object.
    pub offset: Option<u64>,
}

/// Whether a file leads to another copy of an object than that in the excluded
/// pack.
pub open spec fn offers_copy(file: IndexCandidate, excluded_stem: Seq<char>) -> bool {
    file.is_index && file.stem@ != excluded_stem && file.offset is Some
}

/// The places at which other packs hold an object, in directory order: the first
/// that decodes is taken.
pub fn read_packed_object_from_other_packs(files: &Vec<IndexCandidate>, excluded_stem: &str) -> (places: Vec<usize>)
    ensures
        places@ == crate::order::positions(files@.len()).filter(
            |i: usize| offers_copy(files@[i as int], excluded_stem@),
        ),
{
    let ghost keep = |i: usize| offers_copy(files@[i as int], excluded_stem@);
    let ghost all = crate::order::positions(files@.len());
    let mut places: Vec<usize> = Vec::new();
    let mut i: usize = 0;
    proof {
        reveal(Seq::filter);
        assert(all.take(0).filter(keep) =~= Seq::empty());
    }
    while i < files.len()
        invariant
            i <= files.len(),
            keep == (|i: usize| offers_copy(files@[i as int], excluded_stem@)),
            all == crate::order::positions(files@.len()),
            places@ == all.take(i as int).filter(keep),
        decreases files@.len() - i,
    {
        proof {
            reveal(Seq::filter);
            assert(all.take(i + 1).drop_last() =~= all.take(i as int));
            assert(all.take(i + 1).last() == i);
        }
        let file = &files[i];
        if file.is_index && !crate::text::text_eq(file.stem.as_str(), excluded_stem) && file.offset.is_some() {
            places.push(i);
        }
        i += 1;
    }
    assert(all.take(i as int) =~= all);
    places
}

} // verus!
