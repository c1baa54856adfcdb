use vstd::prelude::*;

use crate::oid::{EntryKind, ObjectId, ObjectKind};

verus! {

/// Why a continuation cursor was refused.
#[derive(Debug, Clone, Copy, PartialEq, Eq, Structural)]
pub enum CursorError {
    /// The cursor was issued for another commit, tree, path, mode or page shape.
    ContextMismatch,
}

/// The kind of object whose content contradicted another verified object.
#[derive(Debug, Clone, Copy, PartialEq, Eq, Structural)]
pub enum CorruptionStage {
    Commit,
    Tag,
}

/// Why a file cannot be attributed line by line.
#[derive(Debug, Clone, Copy, PartialEq, Eq, Structural)]
pub enum BlameUnsupportedReason {
    EntryKind,
    CrabPointer,
    LfsPointer,
    Binary,
    UnsupportedEncoding,
}

/// Why repository metadata was refused.
#[derive(Debug, Clone, Copy, PartialEq, Eq, Structural)]
pub enum RepositoryStateError {
    InvalidReference,
    OrphanPeeledReference,
    HeadDoesNotResolve,
    InvalidContentIdentity,
    DuplicatePack,
    InconsistentGeneration,
    VisibilityProofMismatch,
}

/// Why a revision could not be resolved.
#[derive(Debug, Clone, Copy, PartialEq, Eq, Structural)]
pub enum RevisionError {
    InvalidReference,
    AmbiguousReference,
    AbbreviatedObjectId,
    NotFound,
    NotReachable,
    NotCommit,
    TagCycle,
    TagDepth,
}

/// Every failure a verified rule can report.
#[allow(inconsistent_fields)]
#[derive(Debug, Clone, Copy, PartialEq, Eq)]
pub enum Error {
    /// The caller or the runtime asked the work to stop.
    Cancelled,
    /// Memory for a bounded result could not be reserved.
    Allocation { requested: usize },
    /// A bound would be exceeded.
    LimitExceeded { limit: &'static str, actual: u64, maximum: u64 },
    /// A configured bound is unusable.
    InvalidLimit { name: &'static str },
    /// An identity component is empty, too long or not printable.
    InvalidRepositoryIdentity { component: &'static str },
    /// A continuation does not belong to the request it came with.
    InvalidCursor { reason: CursorError },
    /// Verified objects contradict each other.
    Corrupt { stage: CorruptionStage },
    /// Values that belong together do not.
    InternalInvariant { invariant: &'static str },
    PathNotFound,
    PathComponentNotTree { actual: EntryKind },
    EntryNotBlob { actual: EntryKind },
    EntryNotSymlink { actual: EntryKind },
    EntryNotSubmodule { actual: EntryKind },
    BlameUnsupported { reason: BlameUnsupportedReason },
    ObjectKind { oid: ObjectId, expected: ObjectKind, actual: ObjectKind },
    EmptyRepository,
    /// The object locator lags behind the manifest; the open may be retried.
    RepositoryIndexing { observed: Option<u64>, required: u64 },
    RepositoryState { reason: RepositoryStateError },
    Revision { reason: RevisionError },
    UnsupportedObjectFormat,
}

} // verus!
