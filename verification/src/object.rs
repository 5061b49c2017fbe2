//! Objects, their canonical encoding, and the stores that read and write them.

use crate::error::GitError;
use crate::object_id::ObjectFormat;
use crate::object_id::ObjectId;
use crate::oid_map::OidSet;
use crate::pack_file::PackIndexEntry;
use crate::text::decimal_bytes;
use crate::text::decimal_digits;
use std::sync::Arc;
use vstd::prelude::*;

verus! {

#[derive(Debug, Clone, Copy, PartialEq, Eq, Structural, Hash)]
pub enum ObjectType {
    Commit,
    Tree,
    Blob,
    Tag,
}

impl ObjectType {
    /// The name of the type in an object header.
    pub open spec fn spec_name(self) -> Seq<u8> {
        match self {
            ObjectType::Commit => seq![99u8, 111, 109, 109, 105, 116],
            ObjectType::Tree => seq![116u8, 114, 101, 101],
            ObjectType::Blob => seq![98u8, 108, 111, 98],
            ObjectType::Tag => seq![116u8, 97, 103],
        }
    }

    /// The name of the type in an object header.
    pub fn name(self) -> (name: Vec<u8>)
        ensures
            name@ == self.spec_name(),
    {
        let name: Vec<u8> = match self {
            ObjectType::Commit => vec![99u8, 111, 109, 109, 105, 116],
            ObjectType::Tree => vec![116u8, 114, 101, 101],
            ObjectType::Blob => vec![98u8, 108, 111, 98],
            ObjectType::Tag => vec![116u8, 97, 103],
        };
        assert(name@ =~= self.spec_name());
        name
    }
}

/// What a tree entry's mode says that it names.
#[derive(Debug, Clone, Copy, PartialEq, Eq, Structural)]
pub enum TreeEntryKind {
    Tree,
    Blob,
    /// A commit of another repository: never followed.
    Gitlink,
}

#[derive(Debug, PartialEq, Eq)]
pub struct TreeEntry {
    pub kind: TreeEntryKind,
    pub name: Vec<u8>,
    pub oid: ObjectId,
}

/// The part of a commit that walks and bitmaps read.
#[derive(Debug, PartialEq, Eq)]
pub struct CommitLinks {
    pub tree: ObjectId,
    pub parents: Vec<ObjectId>,
    /// The committer identity line, without its keyword.
    pub committer: Vec<u8>,
}

/// What decoding an object's body yields. A body that does not decode carries
/// the decoder's error; a tree carries one result per entry, in order.
#[derive(Debug, PartialEq, Eq)]
pub enum ObjectContent {
    Commit(Result<CommitLinks, GitError>),
    Tree(Vec<Result<TreeEntry, GitError>>),
    Tag(Result<ObjectId, GitError>),
    Blob,
}

/// An object: its body, and what the body decodes to.
#[derive(Debug, PartialEq, Eq)]
pub struct EncodedObject {
    pub body: Vec<u8>,
    pub content: ObjectContent,
}

/// The bytes whose digest names an object: its type, its size in decimal, a
/// zero byte, and its body.
pub open spec fn framed(object_type: ObjectType, body: Seq<u8>) -> Seq<u8> {
    object_type.spec_name() + seq![32u8] + decimal_bytes(body.len()) + seq![0u8] + body
}

/// The SHA-1 digest of a byte string.
pub uninterp spec fn sha1_digest(bytes: Seq<u8>) -> Seq<u8>;

/// The SHA-256 digest of a byte string.
pub uninterp spec fn sha256_digest(bytes: Seq<u8>) -> Seq<u8>;

/// Calls `sha1::Sha1::digest`: the twenty bytes of the SHA-1 digest of `bytes`,
/// which depend on `bytes` alone. Which bytes they are is not stated.
#[verifier::external_body]
fn call_sha1(bytes: &[u8]) -> (digest: Vec<u8>)
    ensures
        digest@ == sha1_digest(bytes@),
        digest@.len() == 20,
{
    <sha1::Sha1 as sha1::Digest>::digest(bytes).to_vec()
}

/// Calls `sha2::Sha256::digest`: the thirty-two bytes of the SHA-256 digest of
/// `bytes`, which depend on `bytes` alone. Which bytes they are is not stated.
#[verifier::external_body]
fn call_sha256(bytes: &[u8]) -> (digest: Vec<u8>)
    ensures
        digest@ == sha256_digest(bytes@),
        digest@.len() == 32,
{
    <sha2::Sha256 as sha2::Digest>::digest(bytes).to_vec()
}

/// The digest of a byte string under a format.
pub open spec fn digest(format: ObjectFormat, bytes: Seq<u8>) -> Seq<u8> {
    match format {
        ObjectFormat::Sha1 => sha1_digest(bytes),
        ObjectFormat::Sha256 => sha256_digest(bytes),
    }
}

/// The id whose raw bytes are the digest of `bytes`.
pub fn digest_bytes(format: ObjectFormat, bytes: &[u8]) -> (oid: ObjectId)
    ensures
        oid.spec_format() == format,
        oid.raw() == digest(format, bytes@),
{
    let raw = match format {
        ObjectFormat::Sha1 => call_sha1(bytes),
        ObjectFormat::Sha256 => call_sha256(bytes),
    };
    match ObjectId::from_raw(format, &raw) {
        Some(oid) => oid,
        None => ObjectId::null(format),
    }
}

impl EncodedObject {
    pub open spec fn spec_type(self) -> ObjectType {
        match self.content {
            ObjectContent::Commit(_) => ObjectType::Commit,
            ObjectContent::Tree(_) => ObjectType::Tree,
            ObjectContent::Tag(_) => ObjectType::Tag,
            ObjectContent::Blob => ObjectType::Blob,
        }
    }

    pub fn object_type(&self) -> (object_type: ObjectType)
        ensures
            object_type == self.spec_type(),
    {
        match self.content {
            ObjectContent::Commit(_) => ObjectType::Commit,
            ObjectContent::Tree(_) => ObjectType::Tree,
            ObjectContent::Tag(_) => ObjectType::Tag,
            ObjectContent::Blob => ObjectType::Blob,
        }
    }

    pub fn blob(body: Vec<u8>) -> (object: EncodedObject)
        ensures
            object.body == body,
            object.content == ObjectContent::Blob,
    {
        EncodedObject { body, content: ObjectContent::Blob }
    }

    pub fn with_content(body: Vec<u8>, content: ObjectContent) -> (object: EncodedObject)
        ensures
            object.body == body,
            object.content == content,
    {
        EncodedObject { body, content }
    }

    /// The bytes whose digest names the object.
    pub fn framed_bytes(&self) -> (bytes: Vec<u8>)
        ensures
            bytes@ == framed(self.spec_type(), self.body@),
    {
        let mut bytes = self.object_type().name();
        bytes.push(32u8);
        let mut digits = decimal_digits(self.body.len() as u64);
        bytes.append(&mut digits);
        bytes.push(0u8);
        let mut body = crate::object_id::copy_bytes(&self.body);
        bytes.append(&mut body);
        assert(bytes@ =~= framed(self.spec_type(), self.body@));
        bytes
    }

    /// The name of the object under `format`.
    pub fn object_id(&self, format: ObjectFormat) -> (oid: ObjectId)
        ensures
            oid.spec_format() == format,
            oid.raw() == digest(format, framed(self.spec_type(), self.body@)),
    {
        let bytes = self.framed_bytes();
        digest_bytes(format, &bytes)
    }
}

/// Calls `Arc::clone`, which makes another handle to the same value.
#[verifier::external_body]
pub(crate) fn share<T>(value: &Arc<T>) -> (handle: Arc<T>)
    ensures
        handle == *value,
{
    Arc::clone(value)
}

/// A pack that is offered for the reuse of its entries.
pub struct ReusablePackCandidate {
    /// The bytes of the pack, where they are at hand.
    pub pack: Arc<Vec<u8>>,
    /// The file of the pack, where it is in one.
    pub pack_path: Option<String>,
    pub entries: Vec<PackIndexEntry>,
    pub pack_checksum: ObjectId,
}

/// A store that objects are read from.
///
/// What a reader returns for an id does not change while it is borrowed:
/// `object_at` names it.
pub trait ObjectReader {
    /// What reading `oid` returns.
    spec fn object_at(&self, oid: ObjectId) -> Result<Arc<EncodedObject>, GitError>;

    /// Whether history stops at the commit `oid`.
    spec fn grafted(&self, oid: ObjectId) -> bool;

    /// Whether `oid` may be missing because a promisor remote holds it.
    spec fn promised(&self, oid: ObjectId) -> bool;

    fn read_object(&self, oid: &ObjectId) -> (read: Result<Arc<EncodedObject>, GitError>)
        ensures
            read == self.object_at(*oid),
    ;

    /// Whether `oid` is a shallow commit, whose parents are treated as absent.
    fn is_shallow_graft(&self, oid: &ObjectId) -> (shallow: bool)
        ensures
            shallow == self.grafted(*oid),
    ;

    fn is_promised_object(&self, oid: &ObjectId) -> (promised: bool)
        ensures
            promised == self.promised(*oid),
    ;

    /// Whether there are shallow commits at all. A reader without a repository
    /// behind it has none.
    fn has_shallow_grafts(&self) -> (any: bool)
        default_ensures
            !any,
    {
        false
    }

    /// The object that an object is stored as a delta against, where the reader
    /// can tell without reading the object. A reader without packs cannot.
    fn reusable_delta_base(&self, oid: &ObjectId) -> (base: Result<Option<ObjectId>, GitError>)
        default_ensures
            base == Ok::<Option<ObjectId>, GitError>(None),
    {
        Ok(None)
    }

    /// Packs that may hold entries for some of the objects. A reader without
    /// packs has none.
    fn reusable_pack_candidates(&self, object_ids: &OidSet) -> (candidates: Result<
        Vec<ReusablePackCandidate>,
        GitError,
    >)
        default_ensures
            candidates matches Ok(candidates) && candidates@.len() == 0,
    {
        Ok(Vec::new())
    }
}

/// A store that objects are written to.
///
/// What a write returns is the store's to say; `received` names the objects
/// that were handed to it, and `answers` what it returned for each.
pub trait ObjectWriter {
    /// The objects handed to the store so far, in order.
    spec fn received(&self) -> Seq<EncodedObject>;

    /// What the store returned for each of them.
    spec fn answers(&self) -> Seq<Result<ObjectId, GitError>>;

    /// What a write does to the store beside that.
    spec fn takes(before: &Self, after: &Self, object: EncodedObject, written: Result<ObjectId, GitError>) -> bool;

    /// Writes `object`, returning its id.
    fn write_object(&mut self, object: EncodedObject) -> (written: Result<ObjectId, GitError>)
        ensures
            Self::takes(old(self), final(self), object, written),
            final(self).received() == old(self).received().push(object),
            final(self).answers() == old(self).answers().push(written),
    ;
}

} // verus!
