use vstd::prelude::*;

use crate::archive::{ArchiveBuilder, ArchiveWalk};
use crate::charge::charge_entries;
use crate::commit_graph::{CommitGraphIndex, GraphNode};
use crate::compare::CompareWalk;
use crate::directory::{
    blobs_to_size, check_directory_cursor, directory_page, DirectoryCursor, DirectoryMetadata,
};
use crate::entry::{root_entry, EntryWalk};
use crate::error::{CursorError, Error};
use crate::history::{history_skip, HistoryCursor, HistoryWalk};
use crate::model::{
    BlobMetadata, BudgetDimension, Charge, ContentClassification, HistoryTraversal, Page,
    PageRequest, TreeEntry,
};
use crate::oid::{EntryKind, EntryMode, MerkleHash, ObjectId, ObjectKind};
use crate::path::GitPath;
use crate::path_history::{path_history_skip, PathHistoryCursor, PathHistoryWalk};
use crate::repository::{ensure_operation, OperationContext};

verus! {

/// Immutable commit snapshot used by all repository browsing operations.
///
/// A snapshot is pinned to one validated manifest generation, pack inventory,
/// commit, and root tree. Moving refs and later pushes cannot change it.
#[derive(Clone, Copy)]
pub struct RemoteGitSnapshot<'a> {
    key: u64,
    generation: u64,
    pack_index_hash: MerkleHash,
    commit_oid: ObjectId,
    root_tree_oid: ObjectId,
    commit_graph: Option<&'a CommitGraphIndex>,
}

/// The beginning of a path's resolution.
pub enum EntryStart<'a> {
    /// The root needs no reading.
    Root { entry: TreeEntry },
    /// Trees have to be read.
    Walk { walk: EntryWalk<'a> },
}

/// A symbolic link and its exact target bytes.
#[derive(Debug, PartialEq, Eq)]
pub struct Symlink {
    pub entry: TreeEntry,
    pub target: Vec<u8>,
}

/// A submodule and the commit it records.
#[derive(Debug, PartialEq, Eq)]
pub struct Submodule {
    pub entry: TreeEntry,
    pub commit: ObjectId,
}

/// What an object's header says.
#[derive(Debug, Clone, Copy, PartialEq, Eq, Structural)]
pub struct ObjectMetadata {
    pub oid: ObjectId,
    pub kind: ObjectKind,
    pub size: u64,
}

/// How the metadata of a blob is found.
#[derive(Debug, Clone, Copy, PartialEq, Eq, Structural)]
pub enum MetadataStep {
    /// The blob may be a pointer and has to be read.
    Read,
    /// The blob is too large for a pointer.
    Known { metadata: BlobMetadata },
}

impl<'a> RemoteGitSnapshot<'a> {
    /// The opened state that the snapshot belongs to.
    pub closed spec fn key(self) -> u64 {
        self.key
    }

    pub closed spec fn spec_generation(self) -> u64 {
        self.generation
    }

    pub closed spec fn spec_packs(self) -> MerkleHash {
        self.pack_index_hash
    }

    pub closed spec fn spec_commit(self) -> ObjectId {
        self.commit_oid
    }

    pub closed spec fn spec_tree(self) -> ObjectId {
        self.root_tree_oid
    }

    pub closed spec fn spec_graph(self) -> Option<Map<ObjectId, GraphNode>> {
        crate::commit_graph::graph_view(self.commit_graph)
    }

    pub closed spec fn wf(self) -> bool {
        crate::commit_graph::graph_wf(self.commit_graph)
    }

    pub(crate) fn new(
        key: u64,
        generation: u64,
        pack_index_hash: MerkleHash,
        commit_oid: ObjectId,
        root_tree_oid: ObjectId,
        commit_graph: Option<&'a CommitGraphIndex>,
    ) -> (result: RemoteGitSnapshot<'a>)
        requires
            crate::commit_graph::graph_wf(commit_graph),
        ensures
            result.wf(),
            result.key() == key,
            result.spec_generation() == generation,
            result.spec_packs() == pack_index_hash,
            result.spec_commit() == commit_oid,
            result.spec_tree() == root_tree_oid,
            result.spec_graph() == crate::commit_graph::graph_view(commit_graph),
    {
        RemoteGitSnapshot {
            key,
            generation,
            pack_index_hash,
            commit_oid,
            root_tree_oid,
            commit_graph,
        }
    }

    /// Return the pinned manifest generation.
    pub fn generation(&self) -> (result: u64)
        ensures
            result == self.spec_generation(),
    {
        self.generation
    }

    /// Return the immutable pack-inventory identity.
    pub fn pack_index_hash(&self) -> (result: MerkleHash)
        ensures
            result == self.spec_packs(),
    {
        self.pack_index_hash
    }

    /// Return the resolved immutable commit identity.
    pub fn commit_oid(&self) -> (result: ObjectId)
        ensures
            result == self.spec_commit(),
    {
        self.commit_oid
    }

    /// Return the root tree identity of the verified commit.
    pub fn root_tree_oid(&self) -> (result: ObjectId)
        ensures
            result == self.spec_tree(),
    {
        self.root_tree_oid
    }

    /// The same pinned generation seen from another commit and root tree.
    pub fn entry_at_tree(&self, tree: ObjectId, commit: ObjectId) -> (result: RemoteGitSnapshot<'a>)
        requires
            self.wf(),
        ensures
            result.wf(),
            result.key() == self.key(),
            result.spec_generation() == self.spec_generation(),
            result.spec_packs() == self.spec_packs(),
            result.spec_commit() == commit,
            result.spec_tree() == tree,
            result.spec_graph() == self.spec_graph(),
    {
        RemoteGitSnapshot {
            key: self.key,
            generation: self.generation,
            pack_index_hash: self.pack_index_hash,
            commit_oid: commit,
            root_tree_oid: tree,
            commit_graph: self.commit_graph,
        }
    }

    /// Accept an operation only on the snapshot's generation.
    pub fn ensure_operation(&self, operation: &OperationContext) -> (result: Result<(), Error>)
        ensures
            result == (if operation.repository == self.key() {
                Ok::<(), Error>(())
            } else {
                Err(crate::repository::foreign_operation())
            }),
    {
        ensure_operation(operation, self.key)
    }

    /// The commit to read for this snapshot.
    pub fn commit(&self, operation: &OperationContext) -> (result: Result<ObjectId, Error>)
        ensures
            result == (if operation.repository == self.key() {
                Ok::<ObjectId, Error>(self.spec_commit())
            } else {
                Err(crate::repository::foreign_operation())
            }),
    {
        self.ensure_operation(operation)?;
        Ok(self.commit_oid)
    }

    /// Begin one deterministic bounded page of the commits reachable from this
    /// snapshot. Continuations belong to one start commit and traversal policy.
    pub fn history(
        &self,
        traversal: HistoryTraversal,
        page: &PageRequest<HistoryCursor>,
        operation: &OperationContext,
    ) -> (result: Result<HistoryWalk<'a>, Error>)
        requires
            self.wf(),
        ensures
            match result {
                Ok(walk) => {
                    &&& operation.repository == self.key()
                    &&& walk.wf()
                    &&& walk.start() == self.spec_commit()
                    &&& walk.mode() == traversal
                    &&& walk.graph() == self.spec_graph()
                    &&& walk.limit() == page.limit
                    &&& walk.is_new()
                    &&& match page.after {
                        None => walk.skip() == 0,
                        Some(cursor) => cursor.start == self.spec_commit() && cursor.mode
                            == traversal && walk.skip() == cursor.skip,
                    }
                },
                Err(error) => if operation.repository != self.key() {
                    error == crate::repository::foreign_operation()
                } else {
                    &&& error == crate::snapshot::context_mismatch()
                    &&& page.after matches Some(cursor) && (cursor.start != self.spec_commit()
                        || cursor.mode != traversal)
                },
            },
    {
        self.ensure_operation(operation)?;
        let skip: u64 = history_skip(self.commit_oid, traversal, page.after)?;
        Ok(HistoryWalk::new(self.commit_oid, traversal, self.commit_graph, skip, page.limit))
    }

    /// Begin one page of the commits that changed one exact path under a parent
    /// policy. Renames are not inferred.
    pub fn path_history(
        &self,
        path: &'a GitPath,
        traversal: HistoryTraversal,
        page: &PageRequest<PathHistoryCursor>,
        operation: &OperationContext,
    ) -> (result: Result<PathHistoryWalk<'a>, Error>)
        requires
            self.wf(),
        ensures
            match result {
                Ok(walk) => {
                    &&& operation.repository == self.key()
                    &&& walk.wf()
                    &&& walk.path() == path@
                    &&& walk.start() == self.spec_commit()
                    &&& walk.mode() == traversal
                    &&& walk.graph() == self.spec_graph()
                    &&& walk.limit() == page.limit
                    &&& walk.is_new()
                    &&& match page.after {
                        None => walk.skip() == 0,
                        Some(cursor) => cursor.start == self.spec_commit() && cursor.mode
                            == traversal && cursor.path@ == path@ && walk.skip() == cursor.skip,
                    }
                },
                Err(error) => if operation.repository != self.key() {
                    error == crate::repository::foreign_operation()
                } else {
                    &&& error == crate::snapshot::context_mismatch()
                    &&& page.after matches Some(cursor) && (cursor.start != self.spec_commit()
                        || cursor.mode != traversal || cursor.path@ != path@)
                },
            },
    {
        self.ensure_operation(operation)?;
        let after = match &page.after {
            Some(cursor) => Some(cursor),
            None => None,
        };
        let skip: u64 = path_history_skip(self.commit_oid, traversal, path, after)?;
        Ok(
            PathHistoryWalk::new(
                path,
                self.commit_oid,
                traversal,
                self.commit_graph,
                skip,
                page.limit,
            ),
        )
    }

    /// Begin to compare this snapshot with an older one of the same generation.
    pub fn compare(&self, base: &RemoteGitSnapshot<'a>, operation: &OperationContext) -> (result:
        Result<CompareWalk, Error>)
        ensures
            match result {
                Ok(walk) => {
                    &&& operation.repository == self.key()
                    &&& operation.repository == base.key()
                    &&& walk.wf()
                    &&& walk.base() == base.spec_tree()
                    &&& walk.head() == self.spec_tree()
                    &&& walk.is_new()
                },
                Err(error) => error == crate::repository::foreign_operation() && (
                operation.repository != self.key() || operation.repository != base.key()),
            },
    {
        self.ensure_operation(operation)?;
        base.ensure_operation(operation)?;
        Ok(CompareWalk::new(base.root_tree_oid, self.root_tree_oid))
    }

    /// Accept two snapshots of one generation for a difference.
    pub fn diff(&self, base: &RemoteGitSnapshot<'a>, operation: &OperationContext) -> (result: Result<
        (),
        Error,
    >)
        ensures
            result == (if operation.repository == self.key() && operation.repository == base.key() {
                Ok::<(), Error>(())
            } else {
                Err(crate::repository::foreign_operation())
            }),
    {
        self.ensure_operation(operation)?;
        base.ensure_operation(operation)
    }

    /// Begin a complete archive of the snapshot.
    pub fn archive(&self, operation: &OperationContext) -> (result: Result<ArchiveBuilder, Error>)
        ensures
            match result {
                Ok(builder) => {
                    &&& operation.repository == self.key()
                    &&& builder.wf()
                    &&& builder.root() == self.spec_tree()
                    &&& builder.is_new()
                },
                Err(error) => operation.repository != self.key() && error
                    == crate::repository::foreign_operation(),
            },
    {
        self.ensure_operation(operation)?;
        Ok(ArchiveBuilder::new(self.root_tree_oid))
    }

    /// Begin an incremental archive of the snapshot.
    pub fn archive_stream(&self, operation: &OperationContext) -> (result: Result<
        ArchiveWalk,
        Error,
    >)
        ensures
            match result {
                Ok(walk) => {
                    &&& operation.repository == self.key()
                    &&& walk.wf()
                    &&& walk.root() == self.spec_tree()
                    &&& walk.is_new()
                },
                Err(error) => operation.repository != self.key() && error
                    == crate::repository::foreign_operation(),
            },
    {
        self.ensure_operation(operation)?;
        Ok(ArchiveWalk::new(self.root_tree_oid))
    }

    /// Begin to resolve one exact byte path without following symlinks. The root
    /// is a synthetic tree entry.
    pub fn entry(&self, path: &'a GitPath, operation: &OperationContext) -> (result: Result<
        EntryStart<'a>,
        Error,
    >)
        ensures
            match result {
                Ok(EntryStart::Root { entry }) => {
                    &&& operation.repository == self.key()
                    &&& path@.len() == 0
                    &&& entry.path@.len() == 0
                    &&& entry.oid == self.spec_tree()
                    &&& entry.mode == EntryMode::Tree
                    &&& entry.kind == EntryKind::Tree
                    &&& entry.size is None
                },
                Ok(EntryStart::Walk { walk }) => {
                    &&& operation.repository == self.key()
                    &&& path@.len() > 0
                    &&& walk.wf()
                    &&& walk.path() == path@
                    &&& walk.root() == self.spec_tree()
                    &&& walk.tree() == self.spec_tree()
                    &&& walk.parent().len() == 0
                    &&& walk.depth() == 1
                    &&& walk.offset() == 0
                    &&& walk.log().len() == 0
                },
                Err(error) => operation.repository != self.key() && error
                    == crate::repository::foreign_operation(),
            },
    {
        self.ensure_operation(operation)?;
        if path.is_root() {
            return Ok(EntryStart::Root { entry: root_entry(self.root_tree_oid) });
        }
        Ok(EntryStart::Walk { walk: EntryWalk::new(self.root_tree_oid, path) })
    }

    /// What a page of a directory costs before its entries are selected. A cursor of
    /// another directory is refused, and nothing is charged for it.
    pub fn directory_charge(
        &self,
        path: &GitPath,
        directory: ObjectId,
        page: &PageRequest<DirectoryCursor>,
    ) -> (result: Result<Charge, Error>)
        ensures
            result == (if page.after is Some && !(page.after->0).belongs_to(
                self.spec_commit(),
                directory,
                path@,
                page.limit,
            ) {
                Err::<Charge, Error>(Error::InvalidCursor { reason: CursorError::ContextMismatch })
            } else {
                Ok(
                    Charge {
                        dimension: BudgetDimension::Entries,
                        amount: page.limit as u64,
                    },
                )
            }),
    {
        if let Some(cursor) = &page.after {
            check_directory_cursor(cursor, self.commit_oid, directory, path, page.limit)?;
        }
        Ok(charge_entries(page.limit))
    }

    /// One page of a directory's immediate children, once its entries are read.
    pub fn list_directory(
        &self,
        path: &GitPath,
        directory: ObjectId,
        entries: Vec<TreeEntry>,
        page: &PageRequest<DirectoryCursor>,
    ) -> (result: Result<Page<TreeEntry, DirectoryCursor>, Error>)
        ensures
            crate::directory::is_directory_page(
                self.spec_commit(),
                directory,
                path@,
                entries@,
                page.limit,
                page.after,
                result,
            ),
    {
        let after = match &page.after {
            Some(cursor) => Some(cursor),
            None => None,
        };
        directory_page(self.commit_oid, directory, path, entries, page.limit, after)
    }

    /// Begin to attribute the lines of one file: the file's entry in the
    /// snapshot's commit is resolved first.
    pub fn blame(&self, path: &'a GitPath, operation: &OperationContext) -> (result: Result<
        EntryStart<'a>,
        Error,
    >)
        ensures
            match result {
                Ok(EntryStart::Root { entry }) => {
                    &&& operation.repository == self.key()
                    &&& path@.len() == 0
                    &&& entry.path@.len() == 0
                    &&& entry.oid == self.spec_tree()
                    &&& entry.mode == EntryMode::Tree
                    &&& entry.kind == EntryKind::Tree
                    &&& entry.size is None
                },
                Ok(EntryStart::Walk { walk }) => {
                    &&& operation.repository == self.key()
                    &&& path@.len() > 0
                    &&& walk.wf()
                    &&& walk.path() == path@
                    &&& walk.root() == self.spec_tree()
                    &&& walk.tree() == self.spec_tree()
                    &&& walk.parent().len() == 0
                    &&& walk.depth() == 1
                    &&& walk.offset() == 0
                    &&& walk.log().len() == 0
                },
                Err(error) => operation.repository != self.key() && error
                    == crate::repository::foreign_operation(),
            },
    {
        self.entry(path, operation)
    }

    /// One page of a directory's immediate children, and the blobs whose sizes it
    /// is to show: those of the page, in its order, and none unless asked for.
    pub fn list_directory_with_metadata(
        &self,
        path: &GitPath,
        directory: ObjectId,
        entries: Vec<TreeEntry>,
        page: &PageRequest<DirectoryCursor>,
        metadata: DirectoryMetadata,
    ) -> (result: Result<(Page<TreeEntry, DirectoryCursor>, Vec<ObjectId>), Error>)
        ensures
            crate::directory::is_directory_page(
                self.spec_commit(),
                directory,
                path@,
                entries@,
                page.limit,
                page.after,
                match result {
                    Ok((shown, _)) => Ok(shown),
                    Err(error) => Err(error),
                },
            ),
            result matches Ok((shown, wanted)) ==> match metadata {
                DirectoryMetadata::Omitted => wanted@.len() == 0,
                DirectoryMetadata::BlobSizes => {
                    &&& wanted@.len() == crate::directory::blobs_before(
                        shown.items@,
                        shown.items@.len() as int,
                    )
                    &&& forall|i: int|
                        0 <= i < shown.items@.len() && (
                        #[trigger] shown.items@[i]).kind.blob_backed()
                            ==> wanted@[crate::directory::blobs_before(
                            shown.items@,
                            i,
                        ) as int] == shown.items@[i].oid
                },
            },
    {
        let shown = self.list_directory(path, directory, entries, page)?;
        let wanted: Vec<ObjectId> = match metadata {
            DirectoryMetadata::Omitted => Vec::new(),
            DirectoryMetadata::BlobSizes => blobs_to_size(&shown.items),
        };
        Ok((shown, wanted))
    }

    /// The entry whose blob is to be read: a file or a symbolic link.
    pub fn read_blob(&self, found: Option<TreeEntry>, operation: &OperationContext) -> (result:
        Result<TreeEntry, Error>)
        ensures
            result == (if operation.repository != self.key() {
                Err::<TreeEntry, Error>(crate::repository::foreign_operation())
            } else {
                match found {
                    None => Err(Error::PathNotFound),
                    Some(entry) => if entry.kind.blob_backed() {
                        Ok(entry)
                    } else {
                        Err(Error::EntryNotBlob { actual: entry.kind })
                    },
                }
            }),
    {
        self.ensure_operation(operation)?;
        match found {
            None => Err(Error::PathNotFound),
            Some(entry) => if entry.kind.is_blob_backed() {
                Ok(entry)
            } else {
                Err(Error::EntryNotBlob { actual: entry.kind })
            },
        }
    }

    /// The entry of a symbolic link, whose target is never followed.
    pub fn symlink(&self, found: Option<TreeEntry>, operation: &OperationContext) -> (result:
        Result<TreeEntry, Error>)
        ensures
            result == (if operation.repository != self.key() {
                Err::<TreeEntry, Error>(crate::repository::foreign_operation())
            } else {
                match found {
                    None => Err(Error::PathNotFound),
                    Some(entry) => if entry.kind == EntryKind::Symlink {
                        Ok(entry)
                    } else {
                        Err(Error::EntryNotSymlink { actual: entry.kind })
                    },
                }
            }),
    {
        self.ensure_operation(operation)?;
        match found {
            None => Err(Error::PathNotFound),
            Some(entry) => if entry.kind != EntryKind::Symlink {
                Err(Error::EntryNotSymlink { actual: entry.kind })
            } else {
                Ok(entry)
            },
        }
    }

    /// A submodule's recorded commit.
    pub fn submodule(&self, found: Option<TreeEntry>, operation: &OperationContext) -> (result:
        Result<Submodule, Error>)
        ensures
            if operation.repository != self.key() {
                result == Err::<Submodule, Error>(crate::repository::foreign_operation())
            } else {
                match found {
                    None => result == Err::<Submodule, Error>(Error::PathNotFound),
                    Some(entry) => if entry.kind == EntryKind::Submodule {
                        &&& result is Ok
                        &&& result->Ok_0.entry == entry
                        &&& result->Ok_0.commit == entry.oid
                    } else {
                        result == Err::<Submodule, Error>(
                            Error::EntryNotSubmodule { actual: entry.kind },
                        )
                    },
                }
            },
    {
        self.ensure_operation(operation)?;
        match found {
            None => Err(Error::PathNotFound),
            Some(entry) => if entry.kind != EntryKind::Submodule {
                Err(Error::EntryNotSubmodule { actual: entry.kind })
            } else {
                Ok(Submodule { commit: entry.oid, entry })
            },
        }
    }

    /// The metadata of a blob as its header and its entry tell it. A blob that is
    /// small enough for a pointer has to be read; any other is ordinary content. That a
    /// larger blob, once read, has the same metadata rests with what parses blobs.
    pub fn blob_metadata(
        &self,
        entry: &TreeEntry,
        header: ObjectMetadata,
        largest_pointer: u64,
    ) -> (result: Result<MetadataStep, Error>)
        ensures
            result == (if header.kind != ObjectKind::Blob {
                Err::<MetadataStep, Error>(
                    Error::ObjectKind {
                        oid: header.oid,
                        expected: ObjectKind::Blob,
                        actual: header.kind,
                    },
                )
            } else if header.size <= largest_pointer {
                Ok(MetadataStep::Read)
            } else {
                Ok(
                    MetadataStep::Known {
                        metadata: BlobMetadata {
                            oid: header.oid,
                            git_size: header.size,
                            logical_size: Some(header.size),
                            mode: entry.mode,
                            kind: entry.kind,
                            classification: ContentClassification::OrdinaryGit,
                        },
                    },
                )
            }),
    {
        if header.kind != ObjectKind::Blob {
            return Err(
                Error::ObjectKind {
                    oid: header.oid,
                    expected: ObjectKind::Blob,
                    actual: header.kind,
                },
            );
        }
        if header.size <= largest_pointer {
            return Ok(MetadataStep::Read);
        }
        Ok(
            MetadataStep::Known {
                metadata: BlobMetadata {
                    oid: header.oid,
                    git_size: header.size,
                    logical_size: Some(header.size),
                    mode: entry.mode,
                    kind: entry.kind,
                    classification: ContentClassification::OrdinaryGit,
                },
            },
        )
    }
}

/// The error that reports a continuation of something else.
pub open spec fn context_mismatch() -> Error {
    Error::InvalidCursor { reason: crate::error::CursorError::ContextMismatch }
}

/// A cursor of something else is reported as one.
pub proof fn how_a_foreign_cursor_is_reported()
    ensures
        context_mismatch() == (Error::InvalidCursor {
            reason: crate::error::CursorError::ContextMismatch,
        }),
{
}

/// The entry of a directory that is to be listed.
pub fn directory_entry(found: Option<TreeEntry>) -> (result: Result<TreeEntry, Error>)
    ensures
        result == (match found {
            None => Err::<TreeEntry, Error>(Error::PathNotFound),
            Some(entry) => if entry.kind == EntryKind::Tree {
                Ok(entry)
            } else {
                Err(Error::PathComponentNotTree { actual: entry.kind })
            },
        }),
{
    match found {
        None => Err(Error::PathNotFound),
        Some(entry) => if entry.kind != EntryKind::Tree {
            Err(Error::PathComponentNotTree { actual: entry.kind })
        } else {
            Ok(entry)
        },
    }
}

/// The entry whose blob takes part in a difference; an absent one has none.
pub fn optional_blob_entry(found: Option<TreeEntry>) -> (result: Result<Option<TreeEntry>, Error>)
    ensures
        result == (match found {
            None => Ok::<Option<TreeEntry>, Error>(None),
            Some(entry) => if entry.kind.blob_backed() {
                Ok(Some(entry))
            } else {
                Err(Error::EntryNotBlob { actual: entry.kind })
            },
        }),
{
    match found {
        None => Ok(None),
        Some(entry) => if entry.kind.is_blob_backed() {
            Ok(Some(entry))
        } else {
            Err(Error::EntryNotBlob { actual: entry.kind })
        },
    }
}

} // verus!
