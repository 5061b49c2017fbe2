//! Failures of object-database operations.

use crate::object_id::ObjectId;
use vstd::prelude::*;

verus! {

/// What an operation was doing when it found an object missing.
#[derive(Debug, Clone, Copy, PartialEq, Eq, Structural)]
pub enum MissingObjectContext {
    Read,
    Traversal,
    PackInstall,
}

/// What could not be found.
#[derive(Debug, PartialEq, Eq)]
pub enum NotFoundKind {
    /// An object that no store holds.
    Object { oid: ObjectId, context: Option<MissingObjectContext> },
    /// Anything else that was looked up by name.
    Other(String),
}

impl NotFoundKind {
    pub fn object_id(&self) -> (oid: Option<ObjectId>)
        ensures
            oid == match *self {
                NotFoundKind::Object { oid, context } => Some(oid),
                NotFoundKind::Other(_) => None,
            },
    {
        match self {
            NotFoundKind::Object { oid, .. } => Some(*oid),
            NotFoundKind::Other(_) => None,
        }
    }

    pub fn missing_object_context(&self) -> (context: Option<MissingObjectContext>)
        ensures
            context == match *self {
                NotFoundKind::Object { oid, context } => context,
                NotFoundKind::Other(_) => None,
            },
    {
        match self {
            NotFoundKind::Object { context, .. } => *context,
            NotFoundKind::Other(_) => None,
        }
    }
}

#[derive(Debug, PartialEq, Eq)]
pub enum GitError {
    InvalidObjectId(String),
    InvalidObject(String),
    InvalidFormat(String),
    InvalidPath(String),
    Unsupported(String),
    Io(String),
    NotFound(NotFoundKind),
    Cancelled,
}

impl NotFoundKind {
    /// Another value equal to this one.
    pub fn copy(&self) -> (kind: NotFoundKind)
        ensures
            kind == *self,
    {
        match self {
            NotFoundKind::Object { oid, context } => NotFoundKind::Object {
                oid: *oid,
                context: *context,
            },
            NotFoundKind::Other(name) => NotFoundKind::Other(name.clone()),
        }
    }
}

impl GitError {
    /// Another value equal to this one.
    pub fn copy(&self) -> (err: GitError)
        ensures
            err == *self,
    {
        match self {
            GitError::InvalidObjectId(text) => GitError::InvalidObjectId(text.clone()),
            GitError::InvalidObject(text) => GitError::InvalidObject(text.clone()),
            GitError::InvalidFormat(text) => GitError::InvalidFormat(text.clone()),
            GitError::InvalidPath(text) => GitError::InvalidPath(text.clone()),
            GitError::Unsupported(text) => GitError::Unsupported(text.clone()),
            GitError::Io(text) => GitError::Io(text.clone()),
            GitError::NotFound(kind) => GitError::NotFound(kind.copy()),
            GitError::Cancelled => GitError::Cancelled,
        }
    }

    /// The error for an object that `context` needed and no store holds.
    pub fn object_not_found_in(oid: ObjectId, context: MissingObjectContext) -> (err: GitError)
        ensures
            err == GitError::NotFound(NotFoundKind::Object { oid, context: Some(context) }),
    {
        GitError::NotFound(NotFoundKind::Object { oid, context: Some(context) })
    }

    pub fn not_found_kind(&self) -> (kind: Option<&NotFoundKind>)
        ensures
            kind == match *self {
                GitError::NotFound(kind) => Some(&kind),
                _ => None,
            },
    {
        match self {
            GitError::NotFound(kind) => Some(kind),
            _ => None,
        }
    }

    /// Whether the operation stopped because its caller cancelled it.
    pub fn is_cancelled(&self) -> (cancelled: bool)
        ensures
            cancelled == (*self is Cancelled),
    {
        match self {
            GitError::Cancelled => true,
            _ => false,
        }
    }
}

} // verus!
