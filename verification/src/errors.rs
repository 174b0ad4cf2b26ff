use vstd::prelude::*;

verus! {

/// The kinds of failure the catalog reports to its callers.
#[derive(Clone, Copy, Debug, PartialEq, Eq, Structural)]
pub enum ErrorKind {
    /// No such collection, project or path.
    NotFound,
    /// A name or path collision without `force`.
    AlreadyExists,
    /// A policy refusal, such as deleting a hidden project without `force`.
    Forbidden,
    /// A corrupted persisted record or a violated endpoint invariant.
    InternalError,
    /// A failure reported by the underlying store.
    IoError,
}

/// A typed failure: a kind from the taxonomy plus a human-readable message.
#[derive(Debug)]
pub struct GodataError {
    pub kind: ErrorKind,
    pub message: String,
}

impl GodataError {
    pub fn new(kind: ErrorKind, message: String) -> (r: GodataError)
        ensures
            r.kind == kind,
            r.message == message,
    {
        GodataError { kind, message }
    }

    pub fn kind(&self) -> (r: ErrorKind)
        ensures
            r == self.kind,
    {
        self.kind
    }
}

} // verus!
