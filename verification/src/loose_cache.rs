//! Which loose objects are known to be there.

use crate::error::GitError;
use crate::hex_id::all_hex;
use crate::hex_id::from_hex;
use crate::hex_id::hex_digit;
use crate::hex_id::hex_value;
use crate::hex_id::is_format_mismatch;
use crate::hex_id::is_hex_id;
use crate::hex_id::unhex;
use crate::hex_id::validate_oid_format;
use crate::object_id::copy_bytes;
use crate::object_id::ObjectFormat;
use crate::object_id::ObjectId;
use crate::oid_map::OidSet;
use crate::text::hex;
use vstd::prelude::*;
use vstd::string::*;
use vstd::utf8::*;

verus! {

/// Where a loose object is: the name of its directory, and its own.
pub struct LoosePath {
    pub fanout: String,
    pub name: String,
}

/// Where a loose object of a store is: the first two digits of its id name the
/// directory, the others the file.
pub fn object_path(format: ObjectFormat, oid: &ObjectId) -> (path: Result<LoosePath, GitError>)
    ensures
        oid.spec_format() != format ==> (path matches Err(err) && is_format_mismatch(err, *oid, format)),
        oid.spec_format() == format ==> {
            &&& path is Ok
            &&& path->Ok_0.fanout@ == hex(oid.raw()).take(2)
            &&& path->Ok_0.name@ == hex(oid.raw()).skip(2)
        },
{
    match validate_oid_format(format, oid) {
        Err(err) => Err(err),
        Ok(()) => {
            let text = oid.to_hex();
            let len: usize = text.as_str().unicode_len();
            let fanout = String::from_str(text.as_str().substring_char(0, 2));
            let name = String::from_str(text.as_str().substring_char(2, len));
            proof {
                assert(fanout@ =~= hex(oid.raw()).take(2));
                assert(name@ =~= hex(oid.raw()).skip(2));
            }
            Ok(LoosePath { fanout, name })
        },
    }
}

/// The byte that the name of a fanout directory spells.
pub open spec fn fanout_byte(name: Seq<u8>) -> Option<u8> {
    if name.len() == 2 && all_hex(name) {
        Some(unhex(name)[0])
    } else {
        None
    }
}

/// The byte that the name of a fanout directory spells.
pub fn parse_fanout(name: &[u8]) -> (byte: Option<u8>)
    ensures
        byte == fanout_byte(name@),
{
    if name.len() != 2 {
        return None;
    }
    match (hex_digit(name[0]), hex_digit(name[1])) {
        (Some(high), Some(low)) => {
            assert(all_hex(name@));
            assert(unhex(name@)[0] == 16 * high + low);
            Some(16 * high + low)
        },
        _ => {
            assert(hex_value(name@[0]) is None || hex_value(name@[1]) is None);
            None
        },
    }
}

/// The id of the loose object with a name in a fanout directory.
pub open spec fn is_loose_id(format: ObjectFormat, fanout: Seq<u8>, name: Seq<u8>, oid: ObjectId) -> bool {
    fanout.len() == 2 && is_hex_id(format, fanout + name) && oid.spec_format() == format && oid.raw() == unhex(
        fanout + name,
    )
}

/// The id of the loose object with a name in a fanout directory, if the two
/// spell one.
pub fn loose_id(format: ObjectFormat, fanout: &[u8], name: &[u8]) -> (oid: Option<ObjectId>)
    ensures
        oid is Some <==> fanout@.len() == 2 && is_hex_id(format, fanout@ + name@),
        oid matches Some(oid) ==> is_loose_id(format, fanout@, name@, oid),
{
    if fanout.len() != 2 {
        return None;
    }
    let mut digits = copy_bytes(fanout);
    let mut rest = copy_bytes(name);
    digits.append(&mut rest);
    from_hex(format, &digits)
}

/// The names in a fanout directory.
pub struct FanoutListing {
    pub fanout: String,
    pub names: Vec<String>,
}

/// Whether one of the names in a fanout directory is that of an object.
pub open spec fn lists_loose(format: ObjectFormat, fanout: Seq<u8>, names: Seq<String>, oid: ObjectId) -> bool {
    exists|i: int|
        0 <= i < names.len() && is_loose_id(format, fanout, encode_utf8((#[trigger] names[i])@), oid)
}

/// Adds the objects that the names in a fanout directory spell.
fn add_fanout(format: ObjectFormat, fanout: &[u8], names: &Vec<String>, oids: &mut OidSet)
    ensures
        forall|oid: ObjectId| #[trigger] old(oids)@.contains(oid) ==> final(oids)@.contains(oid),
        forall|oid: ObjectId| #[trigger]
            final(oids)@.contains(oid) ==> old(oids)@.contains(oid) || lists_loose(format, fanout@, names@, oid),
        forall|i: int|
            0 <= i < names@.len() && fanout@.len() == 2 && is_hex_id(
                format,
                fanout@ + encode_utf8((#[trigger] names@[i])@),
            ) ==> exists|oid: ObjectId| #[trigger]
                final(oids)@.contains(oid) && is_loose_id(format, fanout@, encode_utf8(names@[i]@), oid),
{
    let mut i: usize = 0;
    while i < names.len()
        invariant
            i <= names@.len(),
            forall|oid: ObjectId| #[trigger] old(oids)@.contains(oid) ==> oids@.contains(oid),
            forall|oid: ObjectId| #[trigger]
                oids@.contains(oid) ==> old(oids)@.contains(oid) || lists_loose(format, fanout@, names@, oid),
            forall|k: int|
                0 <= k < i && fanout@.len() == 2 && is_hex_id(
                    format,
                    fanout@ + encode_utf8((#[trigger] names@[k])@),
                ) ==> exists|oid: ObjectId| #[trigger]
                    oids@.contains(oid) && is_loose_id(format, fanout@, encode_utf8(names@[k]@), oid),
        decreases names@.len() - i,
    {
        let ghost held = oids@;
        match loose_id(format, fanout, names[i].as_str().as_bytes()) {
            Some(oid) => {
                oids.insert(oid);
                assert(lists_loose(format, fanout@, names@, oid)) by {
                    assert(is_loose_id(format, fanout@, encode_utf8(names@[i as int]@), oid));
                }
                assert(oids@.contains(oid));
            },
            None => {},
        }
        proof {
            assert forall|k: int|
                0 <= k < i + 1 && fanout@.len() == 2 && is_hex_id(
                    format,
                    fanout@ + encode_utf8((#[trigger] names@[k])@),
                ) implies exists|oid: ObjectId| #[trigger]
                oids@.contains(oid) && is_loose_id(format, fanout@, encode_utf8(names@[k]@), oid) by {
                if k < i {
                    let oid = choose|oid: ObjectId| #[trigger]
                        held.contains(oid) && is_loose_id(format, fanout@, encode_utf8(names@[k]@), oid);
                    assert(oids@.contains(oid));
                }
            }
        }
        i += 1;
    }
}

/// Whether a directory of loose objects lists an object.
pub open spec fn is_listed(format: ObjectFormat, listings: Seq<FanoutListing>, oid: ObjectId) -> bool {
    exists|i: int|
        0 <= i < listings.len() && lists_loose(
            format,
            encode_utf8((#[trigger] listings[i]).fanout@),
            listings[i].names@,
            oid,
        )
}

/// Collects the loose objects of an object directory: the names in its fanout
/// directories that spell ids. Other directories and names are passed over.
pub fn collect_loose_object_ids(format: ObjectFormat, listings: &Vec<FanoutListing>) -> (oids: OidSet)
    ensures
        forall|oid: ObjectId| #[trigger] oids@.contains(oid) ==> is_listed(format, listings@, oid),
        forall|i: int, k: int|
            #![trigger listings@[i].names@[k]]
            0 <= i < listings@.len() && 0 <= k < listings@[i].names@.len() && encode_utf8(
                listings@[i].fanout@,
            ).len() == 2 && is_hex_id(
                format,
                encode_utf8(listings@[i].fanout@) + encode_utf8(listings@[i].names@[k]@),
            ) ==> exists|oid: ObjectId| #[trigger]
                oids@.contains(oid) && is_loose_id(
                    format,
                    encode_utf8(listings@[i].fanout@),
                    encode_utf8(listings@[i].names@[k]@),
                    oid,
                ),
{
    let mut oids = OidSet::new();
    let mut i: usize = 0;
    while i < listings.len()
        invariant
            i <= listings@.len(),
            forall|oid: ObjectId| #[trigger] oids@.contains(oid) ==> is_listed(format, listings@, oid),
            forall|j: int, k: int|
                #![trigger listings@[j].names@[k]]
                0 <= j < i && 0 <= k < listings@[j].names@.len() && encode_utf8(listings@[j].fanout@).len() == 2
                    && is_hex_id(
                    format,
                    encode_utf8(listings@[j].fanout@) + encode_utf8(listings@[j].names@[k]@),
                ) ==> exists|oid: ObjectId| #[trigger]
                    oids@.contains(oid) && is_loose_id(
                        format,
                        encode_utf8(listings@[j].fanout@),
                        encode_utf8(listings@[j].names@[k]@),
                        oid,
                    ),
        decreases listings@.len() - i,
    {
        let listing = &listings[i];
        let ghost held = oids@;
        add_fanout(format, listing.fanout.as_str().as_bytes(), &listing.names, &mut oids);
        proof {
            assert forall|oid: ObjectId| #[trigger] oids@.contains(oid) implies is_listed(format, listings@, oid) by {
                if !held.contains(oid) {
                    assert(lists_loose(
                        format,
                        encode_utf8(listings@[i as int].fanout@),
                        listings@[i as int].names@,
                        oid,
                    ));
                }
            }
            assert forall|j: int, k: int|
                #![trigger listings@[j].names@[k]]
                0 <= j < i + 1 && 0 <= k < listings@[j].names@.len() && encode_utf8(
                    listings@[j].fanout@,
                ).len() == 2 && is_hex_id(
                    format,
                    encode_utf8(listings@[j].fanout@) + encode_utf8(listings@[j].names@[k]@),
                ) implies exists|oid: ObjectId| #[trigger]
                oids@.contains(oid) && is_loose_id(
                    format,
                    encode_utf8(listings@[j].fanout@),
                    encode_utf8(listings@[j].names@[k]@),
                    oid,
                ) by {
                if j < i {
                    let oid = choose|oid: ObjectId| #[trigger]
                        held.contains(oid) && is_loose_id(
                            format,
                            encode_utf8(listings@[j].fanout@),
                            encode_utf8(listings@[j].names@[k]@),
                            oid,
                        );
                    assert(oids@.contains(oid));
                }
            }
        }
        i += 1;
    }
    oids
}

/// What is known of the loose objects of a store: the objects seen, the fanout
/// directories whose objects have all been seen, and which of these
/// directories there are, once that was asked.
pub struct LoosePresenceCache {
    objects: OidSet,
    loaded: Vec<bool>,
    present: Option<Vec<bool>>,
}

/// What a cache answers when asked for an object.
#[derive(Debug, PartialEq, Eq)]
pub enum PresenceAnswer {
    Known(bool),
    /// Ask again once the fanout directories are listed.
    ListFanouts,
    /// Ask again once the objects of one of them are listed.
    ListFanout(u8),
}

spec fn flags(bits: Seq<bool>) -> Set<u8> {
    Set::new(|b: u8| bits[b as int])
}

fn no_flags() -> (bits: Vec<bool>)
    ensures
        bits@.len() == 256,
        flags(bits@) == Set::<u8>::empty(),
{
    let mut bits: Vec<bool> = Vec::with_capacity(256);
    let mut i: usize = 0;
    while i < 256
        invariant
            i <= 256,
            bits@.len() == i,
            forall|k: int| 0 <= k < i ==> !bits@[k],
        decreases 256 - i,
    {
        bits.push(false);
        i += 1;
    }
    assert(flags(bits@) =~= Set::<u8>::empty());
    bits
}

fn set_flag(bits: &mut Vec<bool>, byte: u8)
    requires
        old(bits)@.len() == 256,
    ensures
        final(bits)@.len() == 256,
        flags(final(bits)@) == flags(old(bits)@).insert(byte),
{
    bits.set(byte as usize, true);
    assert(flags(bits@) =~= flags(old(bits)@).insert(byte));
}

impl LoosePresenceCache {
    pub closed spec fn wf(self) -> bool {
        &&& self.loaded@.len() == 256
        &&& self.present matches Some(present) ==> present@.len() == 256
    }

    /// The objects known to be there.
    pub closed spec fn objects(self) -> Set<ObjectId> {
        self.objects@
    }

    /// The fanout directories whose objects are all known.
    pub closed spec fn loaded(self) -> Set<u8> {
        flags(self.loaded@)
    }

    /// The fanout directories that there are, once known.
    pub closed spec fn present(self) -> Option<Set<u8>> {
        match self.present {
            Some(present) => Some(flags(present@)),
            None => None,
        }
    }

    pub fn new() -> (cache: LoosePresenceCache)
        ensures
            cache.wf(),
            cache.objects() == Set::<ObjectId>::empty(),
            cache.loaded() == Set::<u8>::empty(),
            cache.present() is None,
    {
        LoosePresenceCache { objects: OidSet::new(), loaded: no_flags(), present: None }
    }

    /// Whether an object is there. A directory that is not there counts as
    /// loaded from then on: no object can be in it.
    pub fn cached_loose_presence(&mut self, oid: &ObjectId) -> (answer: PresenceAnswer)
        requires
            old(self).wf(),
        ensures
            final(self).wf(),
            final(self).objects() == old(self).objects(),
            final(self).present() == old(self).present(),
            ({
                let fanout = oid.raw()[0];
                if old(self).loaded().contains(fanout) {
                    &&& answer == PresenceAnswer::Known(old(self).objects().contains(*oid))
                    &&& final(self).loaded() == old(self).loaded()
                } else {
                    match old(self).present() {
                        None => answer == PresenceAnswer::ListFanouts && final(self).loaded() == old(self).loaded(),
                        Some(present) => if present.contains(fanout) {
                            answer == PresenceAnswer::ListFanout(fanout) && final(self).loaded() == old(self).loaded()
                        } else {
                            answer == PresenceAnswer::Known(old(self).objects().contains(*oid)) && final(self).loaded() == old(self).loaded().insert(fanout)
                        },
                    }
                }
            }),
    {
        let fanout: u8 = oid.byte_at(0);
        if !self.loaded[fanout as usize] {
            let there = match &self.present {
                None => {
                    return PresenceAnswer::ListFanouts;
                },
                Some(present) => present[fanout as usize],
            };
            if there {
                return PresenceAnswer::ListFanout(fanout);
            }
            set_flag(&mut self.loaded, fanout);
        }
        PresenceAnswer::Known(self.objects.contains(oid))
    }

    /// Learns which fanout directories there are: those whose name is two
    /// digits.
    pub fn present_loose_fanouts(&mut self, directories: &Vec<String>)
        requires
            old(self).wf(),
        ensures
            final(self).wf(),
            final(self).objects() == old(self).objects(),
            final(self).loaded() == old(self).loaded(),
            final(self).present() matches Some(present) && forall|byte: u8| #[trigger]
                present.contains(byte) <==> exists|i: int|
                    0 <= i < directories@.len() && fanout_byte(encode_utf8((#[trigger] directories@[i])@)) == Some(
                        byte,
                    ),
    {
        let mut present = no_flags();
        let mut i: usize = 0;
        while i < directories.len()
            invariant
                i <= directories@.len(),
                present@.len() == 256,
                forall|byte: u8| #[trigger]
                    flags(present@).contains(byte) <==> exists|k: int|
                        0 <= k < i && fanout_byte(encode_utf8((#[trigger] directories@[k])@)) == Some(byte),
            decreases directories@.len() - i,
        {
            let ghost held = flags(present@);
            match parse_fanout(directories[i].as_str().as_bytes()) {
                Some(byte) => {
                    set_flag(&mut present, byte);
                },
                None => {},
            }
            proof {
                assert forall|byte: u8| #[trigger] flags(present@).contains(byte) <==> exists|k: int|
                    0 <= k < i + 1 && fanout_byte(encode_utf8((#[trigger] directories@[k])@)) == Some(byte) by {
                    if held.contains(byte) {
                        let k = choose|k: int|
                            0 <= k < i && fanout_byte(encode_utf8((#[trigger] directories@[k])@)) == Some(byte);
                        assert(fanout_byte(encode_utf8(directories@[k]@)) == Some(byte));
                    }
                    if fanout_byte(encode_utf8(directories@[i as int]@)) == Some(byte) {
                        assert(flags(present@).contains(byte));
                    }
                }
            }
            i += 1;
        }
        self.present = Some(present);
    }

    /// Learns the objects of a fanout directory.
    pub fn collect_loose_fanout_object_ids(&mut self, format: ObjectFormat, fanout: u8, names: &Vec<String>)
        requires
            old(self).wf(),
        ensures
            final(self).wf(),
            final(self).present() == old(self).present(),
            final(self).loaded() == old(self).loaded().insert(fanout),
            forall|oid: ObjectId| #[trigger]
                old(self).objects().contains(oid) ==> final(self).objects().contains(oid),
            forall|oid: ObjectId| #[trigger]
                final(self).objects().contains(oid) ==> old(self).objects().contains(oid) || lists_loose(
                    format,
                    crate::hex_id::hex_bytes(seq![fanout]),
                    names@,
                    oid,
                ),
            forall|i: int|
                0 <= i < names@.len() && is_hex_id(
                    format,
                    crate::hex_id::hex_bytes(seq![fanout]) + encode_utf8((#[trigger] names@[i])@),
                ) ==> exists|oid: ObjectId| #[trigger]
                    final(self).objects().contains(oid) && is_loose_id(
                        format,
                        crate::hex_id::hex_bytes(seq![fanout]),
                        encode_utf8(names@[i]@),
                        oid,
                    ),
    {
        let mut byte: Vec<u8> = Vec::new();
        byte.push(fanout);
        let text = crate::text::hex_text(&byte);
        proof {
            assert(byte@ =~= seq![fanout]);
            crate::hex_id::law_hex_round_trip(byte@);
        }
        let ghost digits = crate::hex_id::hex_bytes(seq![fanout]);
        add_fanout(format, text.as_str().as_bytes(), names, &mut self.objects);
        set_flag(&mut self.loaded, fanout);
        proof {
            assert(digits.len() == 2);
            assert forall|i: int| 0 <= i < names@.len() && is_hex_id(
                format,
                digits + encode_utf8((#[trigger] names@[i])@),
            ) implies exists|oid: ObjectId| #[trigger]
                self.objects().contains(oid) && is_loose_id(format, digits, encode_utf8(names@[i]@), oid) by {
                let oid = choose|oid: ObjectId| #[trigger]
                    self.objects@.contains(oid) && is_loose_id(format, digits, encode_utf8(names@[i]@), oid);
                assert(self.objects().contains(oid));
            }
        }
    }

    /// Notes that an object was written: it is there, and so is its directory.
    pub fn note_loose_write(&mut self, oid: ObjectId)
        requires
            old(self).wf(),
        ensures
            final(self).wf(),
            final(self).objects() == old(self).objects().insert(oid),
            final(self).loaded() == old(self).loaded(),
            final(self).present() == match old(self).present() {
                Some(present) => Some(present.insert(oid.raw()[0])),
                None => None,
            },
    {
        let fanout: u8 = oid.byte_at(0);
        let mut present: Option<Vec<bool>> = None;
        std::mem::swap(&mut self.present, &mut present);
        self.present = match present {
            Some(present) => {
                let mut present = present;
                set_flag(&mut present, fanout);
                Some(present)
            },
            None => None,
        };
        self.objects.insert(oid);
    }

    /// Learns all loose objects.
    pub fn loose_object_ids_cached(&mut self, oids: OidSet)
        requires
            old(self).wf(),
        ensures
            final(self).wf(),
            final(self).objects() == oids@,
            final(self).loaded() == Set::<u8>::full(),
            final(self).present() == old(self).present(),
    {
        let mut i: usize = 0;
        self.objects = oids;
        while i < 256
            invariant
                i <= 256,
                self.loaded@.len() == 256,
                self.objects == oids,
                self.present == old(self).present,
                forall|k: int| 0 <= k < i ==> self.loaded@[k],
            decreases 256 - i,
        {
            self.loaded.set(i, true);
            i += 1;
        }
        assert(flags(self.loaded@) =~= Set::<u8>::full());
    }

    /// Forgets everything, so that the next question asks the file system
    /// again.
    pub fn invalidate_cache(&mut self)
        ensures
            final(self).wf(),
            final(self).objects() == Set::<ObjectId>::empty(),
            final(self).loaded() == Set::<u8>::empty(),
            final(self).present() is None,
    {
        *self = LoosePresenceCache::new();
    }
}

} // verus!
