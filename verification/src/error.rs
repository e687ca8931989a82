//! Error taxonomy of the trash lifecycle manager.

use vstd::prelude::*;

verus! {

/// Failure of one extended-attribute operation.
#[derive(Debug, Clone)]
pub enum XAttrError {
    /// The platform offers no extended-attribute mechanism at all.
    UnsupportedPlatform,
    /// Writing an attribute failed (for the in-memory store: the path
    /// names no filesystem entry).
    SetAttr { attr: String, path: String },
    /// Reading an attribute failed.
    GetAttr { attr: String, path: String },
    /// Removing an attribute failed (for the in-memory store: the path
    /// names no entry, or the entry does not carry the attribute; an
    /// absent key is deliberately a hard error, as it is on several
    /// platform backends).
    RemoveAttr { attr: String, path: String },
    /// The stored attribute bytes are not valid UTF-8 text.
    InvalidUtf8 { attr: String, path: String },
}

/// Top-level error of the library.
#[derive(Debug, Clone)]
pub enum Error {
    /// The path of the running binary could not be turned into text.
    InvalidBinaryPath(String),
    /// A trashed item misses an attribute this system requires; the item
    /// was not created by this system and is never guessed at.
    MissingAttribute { attr: String, id: String },
    /// The parent directory of a restore destination no longer exists.
    InvalidOriginalPath(String),
    /// A restore destination already exists; restore never overwrites.
    PathAlreadyExists(String),
    /// No trashed item carries the given id.
    ItemNotFound(String),
    /// An extended-attribute operation failed.
    XAttr(XAttrError),
    /// A plain filesystem failure (for the model: a path names no entry).
    Io(String),
}

} // verus!
