use crab_remote_git::archive::{
    archive_response_bytes, ArchiveBuilder, ArchiveEntry, ArchiveRequest, ArchiveWalk, StreamGate,
};
use crab_remote_git::charge::{
    charge_archive, charge_archive_entry, charge_archived, charge_depth, charge_entries,
};
use crab_remote_git::compare::{Comparison, CompareRequest, CompareWalk};
use crab_remote_git::directory::{
    check_directory_cursor, record_blob_sizes, DirectoryCursor, DirectoryMetadata,
};
use crab_remote_git::diff::{plan_diff, render_diff, DiffClassification};
use crab_remote_git::entry::EntryStep;
use crab_remote_git::error::{CursorError, Error};
use crab_remote_git::identity::RepositoryIdentity;
use crab_remote_git::inventory::parse_inventory;
use crab_remote_git::limits::RepositoryOptions;
use crab_remote_git::model::{
    Blob, BlobMetadata, BudgetDimension, ChangeKind, Charge, Commit, ContentClassification,
    HistoryTraversal, Page, PageRequest, Signature, TreeEntry,
};
use crab_remote_git::oid::{EntryKind, EntryMode, MerkleHash, ObjectId, ObjectKind};
use crab_remote_git::open::{ManifestFacts, OpenHandshake};
use crab_remote_git::path::{next_depth, GitPath, PathOrder};
use crab_remote_git::path_history::{PathHistoryRequest, PathHistoryWalk};
use crab_remote_git::refs::{ManifestRef, ManifestRefs};
use crab_remote_git::repository::{OperationContext, RemoteGitRepository};
use crab_remote_git::snapshot::{
    directory_entry, optional_blob_entry, EntryStart, MetadataStep, ObjectMetadata,
    RemoteGitSnapshot,
};
use crab_remote_git::model::GitLocatorCoverage;
use crab_remote_git::sort::sort_by_path;
use std::collections::BTreeMap;
use tokio_util::sync::CancellationToken;

fn oid(number: u32) -> ObjectId {
    ObjectId {
        first: number,
        second: number,
        third: number,
        fourth: number,
        fifth: number,
    }
}

fn path(text: &[u8]) -> GitPath {
    GitPath::from_bytes(text.to_vec())
}

fn commit(number: u32, tree: u32, parents: &[u32]) -> Commit {
    let signature = || Signature {
        name: b"Crab Test".to_vec(),
        email: b"test@crab.invalid".to_vec(),
        seconds: 1_700_000_000,
        offset: 0,
    };
    Commit {
        oid: oid(number),
        tree: oid(tree),
        parents: parents.iter().map(|parent| oid(*parent)).collect(),
        author: signature(),
        committer: signature(),
        encoding: None,
        message: b"message".to_vec(),
        signature_headers: Vec::new(),
    }
}

fn repository() -> RemoteGitRepository<()> {
    let hash = MerkleHash { high: 1, low: 2 };
    let manifest = ManifestFacts {
        generation: 1,
        pack_index_hash: Some(hash),
        refs: ManifestRefs {
            head: "refs/heads/main".to_owned(),
            head_well_formed: true,
            refs: vec![ManifestRef {
                name: "refs/heads/main".to_owned(),
                well_formed: true,
                target: "1".repeat(40),
            }],
            peeled_refs: Vec::new(),
        },
    };
    let mut handshake = OpenHandshake::new();
    let step = handshake.accept_manifest(&manifest, 0).expect("manifest");
    handshake.accept_locator(Some(GitLocatorCoverage {
        generation: 1,
        pack_index_hash: hash,
    }));
    RemoteGitRepository::open(
        1,
        RepositoryIdentity::new("memory", "org/repo", 1).expect("identity"),
        RepositoryOptions::default(),
        "digest".to_owned(),
        "etag".to_owned(),
        &handshake,
        step,
        parse_inventory(&[]).expect("inventory"),
        None,
    )
    .expect("open")
}

type Entries = Vec<(&'static [u8], u32, EntryMode, EntryKind)>;

/// Trees by number; every other object is a blob.
struct Trees {
    trees: BTreeMap<u32, Entries>,
    reads: std::cell::Cell<usize>,
}

const FILE: (EntryMode, EntryKind) = (EntryMode::Regular, EntryKind::Blob);
const TREE: (EntryMode, EntryKind) = (EntryMode::Tree, EntryKind::Tree);

fn item(
    name: &'static [u8],
    object: u32,
    shape: (EntryMode, EntryKind),
) -> (&'static [u8], u32, EntryMode, EntryKind) {
    (name, object, shape.0, shape.1)
}

impl Trees {
    fn read(&self, id: ObjectId, parent: &GitPath) -> Vec<TreeEntry> {
        self.reads.set(self.reads.get() + 1);
        self.trees[&id.fifth]
            .iter()
            .map(|(name, object, mode, kind)| {
                let mut full = parent.as_bytes().to_vec();
                if !full.is_empty() {
                    full.push(b'/');
                }
                full.extend_from_slice(name);
                TreeEntry {
                    path: GitPath::from_bytes(full),
                    oid: oid(*object),
                    mode: *mode,
                    kind: *kind,
                    size: None,
                }
            })
            .collect()
    }
}

/// A root tree (1) with files, links, a submodule and nested directories.
fn browsed() -> Trees {
    let mut trees = BTreeMap::new();
    trees.insert(
        1,
        vec![
            item(b"..", 50, FILE),
            item(b"dir", 2, TREE),
            item(b"link", 51, (EntryMode::Symlink, EntryKind::Symlink)),
            item(b"module", 52, (EntryMode::Submodule, EntryKind::Submodule)),
            item(b"ordered", 4, TREE),
            item(b"raw", 5, TREE),
            item(b"run.sh", 53, (EntryMode::Executable, EntryKind::Blob)),
            item(b"\xff.txt", 54, FILE),
        ],
    );
    trees.insert(2, vec![item(b"nested", 3, TREE)]);
    trees.insert(3, vec![item(b"deep.txt", 55, FILE)]);
    trees.insert(
        4,
        vec![
            item(b"item.ext", 55, FILE),
            item(b"item", 3, TREE),
            item(b"item0", 55, FILE),
            item(b"\xfe.ext", 54, FILE),
            item(b"\xfe", 3, TREE),
            item(b"\xfe0", 54, FILE),
        ],
    );
    trees.insert(
        5,
        vec![
            item(b"\xfe", 54, FILE),
            item(b"\xff", 54, FILE),
            item(b"\xffx", 54, FILE),
        ],
    );
    Trees {
        trees,
        reads: std::cell::Cell::new(0),
    }
}

fn entry<'a>(
    trees: &Trees,
    snapshot: &RemoteGitSnapshot<'a>,
    wanted: &'a GitPath,
    operation: &OperationContext,
    max_depth: u64,
) -> Result<Option<TreeEntry>, Error> {
    let mut walk = match snapshot.entry(wanted, operation)? {
        EntryStart::Root { entry } => return Ok(Some(entry)),
        EntryStart::Walk { walk } => walk,
    };
    loop {
        let (tree, parent, depth) = walk.request();
        let charge = charge_depth(depth);
        if charge.amount > max_depth {
            return Err(Error::LimitExceeded {
                limit: "traversal depth",
                actual: charge.amount,
                maximum: max_depth,
            });
        }
        let entries = trees.read(tree, parent);
        match walk.accept(entries)? {
            EntryStep::Descend => {}
            EntryStep::Resolved(found) => return Ok(found),
        }
    }
}

#[test]
fn browser_paths_preserve_modes_and_never_follow_links_or_gitlinks() {
    let trees = browsed();
    let repository = repository();
    let operation = repository.operation();
    let snapshot = repository.snapshot(&commit(1, 1, &[])).expect("snapshot");

    let root_path = GitPath::root();
    let root = entry(&trees, &snapshot, &root_path, &operation, 10)
        .expect("root")
        .expect("root entry");
    assert_eq!((root.mode, root.kind), (EntryMode::Tree, EntryKind::Tree));
    assert_eq!(root.oid, snapshot.root_tree_oid());
    assert_eq!(trees.reads.get(), 0);

    let executable_path = path(b"run.sh");
    let executable = entry(&trees, &snapshot, &executable_path, &operation, 10).expect("entry");
    assert_eq!(
        executable.as_ref().map(|found| found.mode),
        Some(EntryMode::Executable)
    );
    assert_eq!(
        snapshot.read_blob(executable, &operation).expect("blob").oid,
        oid(53)
    );

    let symlink_path = path(b"link");
    let found = entry(&trees, &snapshot, &symlink_path, &operation, 10).expect("entry");
    let symlink = snapshot.symlink(found, &operation).expect("symlink");
    assert_eq!(symlink.mode, EntryMode::Symlink);

    let submodule_path = path(b"module");
    let found = entry(&trees, &snapshot, &submodule_path, &operation, 10).expect("entry");
    let module = snapshot.submodule(found, &operation).expect("submodule");
    assert_eq!(module.entry.mode, EntryMode::Submodule);
    assert_eq!(module.commit, module.entry.oid);

    let deep_path = path(b"dir/nested/deep.txt");
    trees.reads.set(0);
    let deep = entry(&trees, &snapshot, &deep_path, &operation, 10)
        .expect("entry")
        .expect("deep entry");
    assert_eq!(deep.oid, oid(55));
    assert_eq!(deep.path.as_bytes(), b"dir/nested/deep.txt");
    assert_eq!(trees.reads.get(), 3);

    let non_utf8_path = path(b"\xff.txt");
    assert_eq!(
        entry(&trees, &snapshot, &non_utf8_path, &operation, 10)
            .expect("entry")
            .expect("non-UTF-8 entry")
            .path
            .as_bytes(),
        b"\xff.txt"
    );
    let dot_path = path(b"..");
    assert!(entry(&trees, &snapshot, &dot_path, &operation, 10)
        .expect("entry")
        .is_some());
    let missing = path(b"missing");
    assert!(entry(&trees, &snapshot, &missing, &operation, 10)
        .expect("entry")
        .is_none());
    let invalid_deep = path(b"run.sh/child");
    assert!(matches!(
        entry(&trees, &snapshot, &invalid_deep, &operation, 10),
        Err(Error::PathComponentNotTree {
            actual: EntryKind::Blob
        })
    ));
}

#[test]
fn nested_path_stops_at_the_traversal_depth_budget() {
    let trees = browsed();
    let repository = repository();
    let operation = repository.operation();
    let snapshot = repository.snapshot(&commit(1, 1, &[])).expect("snapshot");
    let deep_path = path(b"dir/nested/deep.txt");
    assert!(matches!(
        entry(&trees, &snapshot, &deep_path, &operation, 2),
        Err(Error::LimitExceeded {
            limit: "traversal depth",
            actual: 3,
            maximum: 2,
        })
    ));
}

#[test]
fn entries_are_refused_by_kind() {
    let repository = repository();
    let operation = repository.operation();
    let snapshot = repository.snapshot(&commit(1, 1, &[])).expect("snapshot");
    let of_kind = |mode, kind| {
        Some(TreeEntry {
            path: path(b"x"),
            oid: oid(7),
            mode,
            kind,
            size: None,
        })
    };
    let tree = || of_kind(EntryMode::Tree, EntryKind::Tree);
    let file = || of_kind(EntryMode::Regular, EntryKind::Blob);
    assert_eq!(
        snapshot.read_blob(tree(), &operation),
        Err(Error::EntryNotBlob {
            actual: EntryKind::Tree
        })
    );
    assert_eq!(
        snapshot.read_blob(None, &operation),
        Err(Error::PathNotFound)
    );
    assert_eq!(
        snapshot.symlink(file(), &operation),
        Err(Error::EntryNotSymlink {
            actual: EntryKind::Blob
        })
    );
    assert_eq!(snapshot.symlink(None, &operation), Err(Error::PathNotFound));
    assert_eq!(
        snapshot.submodule(file(), &operation),
        Err(Error::EntryNotSubmodule {
            actual: EntryKind::Blob
        })
    );
    assert_eq!(
        directory_entry(file()),
        Err(Error::PathComponentNotTree {
            actual: EntryKind::Blob
        })
    );
    assert_eq!(directory_entry(None), Err(Error::PathNotFound));
    assert!(directory_entry(tree()).is_ok());
    assert_eq!(optional_blob_entry(None), Ok(None));
    assert!(optional_blob_entry(file()).is_ok());
    assert_eq!(
        optional_blob_entry(tree()),
        Err(Error::EntryNotBlob {
            actual: EntryKind::Tree
        })
    );
}

#[test]
fn foreign_operations_are_refused_everywhere() {
    let repository = repository();
    let foreign = OperationContext { repository: 2 };
    let snapshot = repository.snapshot(&commit(1, 1, &[])).expect("snapshot");
    let wanted = path(b"f");
    let refused = Error::InternalInvariant {
        invariant: "operation belongs to another repository generation",
    };
    assert_eq!(snapshot.commit(&foreign), Err(refused));
    assert_eq!(snapshot.entry(&wanted, &foreign).err(), Some(refused));
    assert_eq!(snapshot.blame(&wanted, &foreign).err(), Some(refused));
    assert_eq!(snapshot.compare(&snapshot, &foreign).err(), Some(refused));
    assert_eq!(snapshot.diff(&snapshot, &foreign), Err(refused));
    assert_eq!(snapshot.archive(&foreign).err(), Some(refused));
    assert_eq!(snapshot.archive_stream(&foreign).err(), Some(refused));
    let request = PageRequest {
        limit: 1,
        after: None,
    };
    assert_eq!(
        snapshot
            .history(HistoryTraversal::AllParents, &request, &foreign)
            .err(),
        Some(refused)
    );
    let request = PageRequest {
        limit: 1,
        after: None,
    };
    assert_eq!(
        snapshot
            .path_history(&wanted, HistoryTraversal::AllParents, &request, &foreign)
            .err(),
        Some(refused)
    );
    assert_eq!(snapshot.read_blob(None, &foreign), Err(refused));
    assert_eq!(snapshot.commit(&repository.operation()), Ok(oid(1)));
    assert_eq!(snapshot.generation(), 1);
    assert_eq!(snapshot.pack_index_hash(), MerkleHash { high: 1, low: 2 });
    let moved = snapshot.entry_at_tree(oid(8), oid(9));
    assert_eq!((moved.root_tree_oid(), moved.commit_oid()), (oid(8), oid(9)));
}

fn list(
    trees: &Trees,
    directory: u32,
    wanted: &GitPath,
    limit: usize,
    after: Option<DirectoryCursor>,
    metadata: DirectoryMetadata,
) -> Result<Page<TreeEntry, DirectoryCursor>, Error> {
    let repository = repository();
    let snapshot = repository.snapshot(&commit(1, 1, &[])).expect("snapshot");
    let entries = trees.read(oid(directory), wanted);
    let (mut page, sized) = snapshot.list_directory_with_metadata(
        wanted,
        oid(directory),
        entries,
        &PageRequest { limit, after },
        metadata,
    )?;
    let sizes = sized.iter().map(|_| 9).collect();
    record_blob_sizes(&mut page.items, &sizes);
    Ok(page)
}

#[test]
fn directory_pages_preserve_git_order_for_shared_file_and_tree_prefixes() {
    let trees = browsed();
    let expected: Vec<Vec<u8>> = trees.trees[&4]
        .iter()
        .map(|(name, _, _, _)| name.to_vec())
        .collect();
    let directory = path(b"ordered");
    for metadata in [DirectoryMetadata::Omitted, DirectoryMetadata::BlobSizes] {
        for limit in [1, 2, 3] {
            let mut cursor = None;
            let mut names = Vec::new();
            for _ in 0..=expected.len() {
                let page = list(&trees, 4, &directory, limit, cursor.take(), metadata)
                    .expect("page");
                names.extend(
                    page.items
                        .iter()
                        .map(|entry| entry.path.last_component().expect("child name")),
                );
                cursor = page.next;
                if cursor.is_none() {
                    break;
                }
            }
            assert_eq!(
                (&names, cursor.is_none()),
                (&expected, true),
                "metadata={metadata:?}, page size={limit}"
            );
        }
    }
}

fn altered(cursor: &DirectoryCursor) -> DirectoryCursor {
    DirectoryCursor {
        commit: cursor.commit,
        tree: cursor.tree,
        path: cursor.path.clone(),
        limit: cursor.limit,
        last_name: cursor.last_name.clone(),
    }
}

#[test]
fn directory_cursor_binds_raw_path_tree_commit_and_page_shape() {
    let trees = browsed();
    let raw_path = path(b"raw");
    let page = |limit, after| {
        list(
            &trees,
            5,
            &raw_path,
            limit,
            after,
            DirectoryMetadata::Omitted,
        )
    };
    let first = page(1, None).expect("first page");
    assert_eq!(
        first.items[0].path.last_component().as_deref(),
        Some(b"\xfe".as_slice())
    );
    let cursor = first.next.expect("continuation cursor");
    let second = page(1, Some(altered(&cursor))).expect("second page");
    assert_eq!(
        second.items[0].path.last_component().as_deref(),
        Some(b"\xff".as_slice())
    );

    let mut absent_name = altered(&cursor);
    *absent_name.last_name.last_mut().expect("cursor name") = 0xfd;
    assert!(matches!(
        page(1, Some(absent_name)),
        Err(Error::InvalidCursor {
            reason: CursorError::ContextMismatch
        })
    ));
    assert!(matches!(
        page(2, Some(altered(&cursor))),
        Err(Error::InvalidCursor {
            reason: CursorError::ContextMismatch
        })
    ));
    assert!(matches!(
        list(
            &trees,
            1,
            &GitPath::root(),
            1,
            Some(altered(&cursor)),
            DirectoryMetadata::Omitted
        ),
        Err(Error::InvalidCursor {
            reason: CursorError::ContextMismatch
        })
    ));
    assert_eq!(
        check_directory_cursor(&cursor, oid(1), oid(5), &raw_path, 1),
        Ok(())
    );
    assert!(check_directory_cursor(&cursor, oid(2), oid(5), &raw_path, 1).is_err());
    assert!(check_directory_cursor(&cursor, oid(1), oid(4), &raw_path, 1).is_err());
}

#[test]
fn a_page_is_charged_only_with_its_own_cursor() {
    let trees = browsed();
    let directory = path(b"ordered");
    let cursor = list(&trees, 4, &directory, 1, None, DirectoryMetadata::Omitted)
        .expect("page")
        .next
        .expect("more");
    let repository = repository();
    let snapshot = repository.snapshot(&commit(1, 1, &[])).expect("snapshot");
    let charge = |wanted: &GitPath, tree: u32, limit: usize, after: Option<DirectoryCursor>| {
        snapshot.directory_charge(wanted, oid(tree), &PageRequest { limit, after })
    };
    let entries = |amount| {
        Ok(Charge {
            dimension: BudgetDimension::Entries,
            amount,
        })
    };
    assert_eq!(charge(&directory, 4, 3, None), entries(3));
    assert_eq!(charge(&directory, 4, 1, Some(altered(&cursor))), entries(1));
    let refused = Err(Error::InvalidCursor {
        reason: CursorError::ContextMismatch,
    });
    assert_eq!(charge(&directory, 4, 2, Some(altered(&cursor))), refused);
    assert_eq!(charge(&directory, 5, 1, Some(altered(&cursor))), refused);
    assert_eq!(charge(&path(b"other"), 4, 1, Some(altered(&cursor))), refused);
}

#[test]
fn directory_reads_are_immediate_and_metadata_is_page_bounded() {
    let trees = browsed();
    trees.reads.set(0);
    let root = list(
        &trees,
        1,
        &GitPath::root(),
        7,
        None,
        DirectoryMetadata::Omitted,
    )
    .expect("root page");
    assert_eq!(root.items.len(), 7);
    assert!(root.next.is_some());
    assert!(root.items.iter().all(|entry| entry.size.is_none()));
    assert_eq!(trees.reads.get(), 1);
    let raw_path = path(b"raw");
    let metadata = list(
        &trees,
        5,
        &raw_path,
        3,
        None,
        DirectoryMetadata::BlobSizes,
    )
    .expect("metadata page");
    assert!(metadata.items.iter().all(|entry| entry.size == Some(9)));
    assert!(metadata.next.is_none());
    let mixed = list(
        &trees,
        1,
        &GitPath::root(),
        4,
        None,
        DirectoryMetadata::BlobSizes,
    )
    .expect("mixed page");
    let sizes: Vec<Option<u64>> = mixed.items.iter().map(|entry| entry.size).collect();
    assert_eq!(sizes, vec![Some(9), None, Some(9), None]);
}

#[test]
fn a_page_that_cannot_be_stored_is_refused() {
    let trees = browsed();
    assert!(matches!(
        list(
            &trees,
            1,
            &GitPath::root(),
            usize::MAX,
            None,
            DirectoryMetadata::Omitted
        ),
        Err(Error::Allocation {
            requested: usize::MAX
        })
    ));
}

#[test]
fn content_metadata_distinguishes_git_and_logical_representations() {
    let repository = repository();
    let snapshot = repository.snapshot(&commit(1, 1, &[])).expect("snapshot");
    let found = TreeEntry {
        path: path(b"large.bin"),
        oid: oid(7),
        mode: EntryMode::Executable,
        kind: EntryKind::Blob,
        size: None,
    };
    let header = |kind, size| ObjectMetadata {
        oid: oid(7),
        kind,
        size,
    };
    assert_eq!(
        snapshot.blob_metadata(&found, header(ObjectKind::Blob, 1_024), 1_024),
        Ok(MetadataStep::Read)
    );
    assert_eq!(
        snapshot.blob_metadata(&found, header(ObjectKind::Blob, 1_025), 1_024),
        Ok(MetadataStep::Known {
            metadata: BlobMetadata {
                oid: oid(7),
                git_size: 1_025,
                logical_size: Some(1_025),
                mode: EntryMode::Executable,
                kind: EntryKind::Blob,
                classification: ContentClassification::OrdinaryGit,
            }
        })
    );
    assert_eq!(
        snapshot.blob_metadata(&found, header(ObjectKind::Tree, 1), 1_024),
        Err(Error::ObjectKind {
            oid: oid(7),
            expected: ObjectKind::Blob,
            actual: ObjectKind::Tree
        })
    );
}

/// What a blob of the archived trees holds.
fn stored(number: u32) -> Vec<u8> {
    match number {
        50 => Vec::new(),
        51 => b"dir/nested/deep.txt".to_vec(),
        53 => b"#!/bin/sh\necho crab\n".to_vec(),
        54 => b"raw name\n".to_vec(),
        55 => b"deep content\n".to_vec(),
        other => other.to_string().into_bytes(),
    }
}

fn archive(trees: &Trees, root: u32) -> (Vec<ArchiveEntry>, Vec<Charge>) {
    let mut builder = ArchiveBuilder::new(oid(root));
    let mut charged = Vec::new();
    loop {
        let request = builder.next();
        charged.extend(request.charges());
        match request {
            ArchiveRequest::Tree { oid, parent } => {
                builder
                    .accept_tree(trees.read(oid, &parent))
                    .expect("shallow");
            }
            ArchiveRequest::Entry { blob, .. } => {
                builder.reserve().expect("room");
                builder.accept_entry(blob.map(|(id, _)| stored(id.fifth)));
            }
            ArchiveRequest::Done => break,
        }
    }
    (builder.into_entries(), charged)
}

fn stream(trees: &Trees, root: u32) -> Vec<ArchiveEntry> {
    let mut walk = ArchiveWalk::new(oid(root));
    let mut shown = Vec::new();
    loop {
        match walk.next() {
            ArchiveRequest::Tree { oid, parent } => {
                let entries = trees.read(oid, &parent);
                walk.reserve(entries.len()).expect("room");
                walk.accept_tree(entries).expect("shallow");
            }
            ArchiveRequest::Entry { blob, .. } => {
                let content = blob.map(|(id, _)| stored(id.fifth));
                shown.extend(walk.accept_entry(content));
            }
            ArchiveRequest::Done => return shown,
        }
    }
}

#[test]
fn archive_traversal_preserves_modes_links_submodules_and_raw_order() {
    let trees = browsed();
    let (found, charged) = archive(&trees, 1);
    assert!(found
        .windows(2)
        .all(|pair| pair[0].path.as_bytes() < pair[1].path.as_bytes()));
    let named = |text: &[u8]| {
        found
            .iter()
            .find(|entry| entry.path.as_bytes() == text)
            .expect("archived entry")
    };
    let link = named(b"link");
    assert_eq!(link.mode, EntryMode::Symlink);
    assert_eq!(
        link.bytes.as_deref(),
        Some(b"dir/nested/deep.txt".as_slice())
    );
    let module = named(b"module");
    assert_eq!(module.mode, EntryMode::Submodule);
    assert!(module.bytes.is_none());
    assert!(named(b"dir").bytes.is_none());
    assert_eq!(
        named(b"dir/nested/deep.txt").bytes.as_deref(),
        Some(b"deep content\n".as_slice())
    );
    let counted = charged
        .iter()
        .filter(|charge| charge.dimension == BudgetDimension::ArchiveEntries)
        .count();
    assert_eq!(counted, found.len());
    let deepest = charged
        .iter()
        .filter(|charge| charge.dimension == BudgetDimension::Depth)
        .map(|charge| charge.amount)
        .max();
    assert_eq!(deepest, Some(3));
    let expected: usize = found
        .iter()
        .map(|entry| {
            entry.path.as_bytes().len() + entry.bytes.as_ref().map_or(0, |bytes| bytes.len())
        })
        .sum();
    assert_eq!(archive_response_bytes(&found), expected as u64);
}

#[test]
fn the_stream_and_the_archive_show_the_same_entries() {
    let trees = browsed();
    let streamed = stream(&trees, 1);
    assert_eq!(streamed[0].path.as_bytes(), b"..");
    assert_eq!(streamed[1].path.as_bytes(), b"dir");
    assert_eq!(streamed[2].path.as_bytes(), b"dir/nested");
    let total: u64 = streamed
        .iter()
        .map(|entry| entry.count_response_bytes())
        .sum();
    assert_eq!(
        charge_archive_entry(&streamed[0]),
        Charge {
            dimension: BudgetDimension::ResponseBytes,
            amount: 2
        }
    );
    let (built, _) = archive(&trees, 1);
    assert_eq!(total, archive_response_bytes(&built));
    assert_eq!(
        charge_archive(&built),
        Charge {
            dimension: BudgetDimension::ResponseBytes,
            amount: total
        }
    );
    assert_eq!(sort_by_path(streamed), built);
}

#[test]
fn an_empty_root_archives_nothing() {
    let mut trees = BTreeMap::new();
    trees.insert(1, vec![]);
    let trees = Trees {
        trees,
        reads: std::cell::Cell::new(0),
    };
    assert!(archive(&trees, 1).0.is_empty());
    assert!(stream(&trees, 1).is_empty());
}

fn compare(trees: &Trees, base: u32, head: u32) -> (Comparison, Vec<Charge>) {
    let mut walk = CompareWalk::new(oid(base), oid(head));
    let mut charged = Vec::new();
    loop {
        let request = walk.next();
        charged.extend(request.charges());
        match request {
            CompareRequest::Trees {
                base, head, parent, ..
            } => {
                let old = trees.read(base, &parent);
                let new = trees.read(head, &parent);
                walk.accept_trees(old, new).expect("shallow");
            }
            CompareRequest::Tree { oid, parent, .. } => {
                walk.accept_tree(trees.read(oid, &parent)).expect("shallow");
            }
            CompareRequest::Change { .. } => {
                walk.reserve().expect("room");
                walk.accept_change();
            }
            CompareRequest::Done => break,
        }
    }
    (walk.into_comparison(oid(500), oid(501)), charged)
}

fn semantic() -> Trees {
    let mut trees = BTreeMap::new();
    trees.insert(3, vec![item(b"deep.txt", 55, FILE)]);
    trees.insert(6, vec![item(b"child", 61, FILE)]);
    trees.insert(
        10,
        vec![
            item(b"binary.dat", 62, FILE),
            item(b"mode.txt", 60, FILE),
            item(b"old-name.txt", 60, FILE),
            item(b"pointer.crab", 64, FILE),
            item(b"same", 3, TREE),
            item(b"text.txt", 60, FILE),
            item(b"type", 60, FILE),
        ],
    );
    trees.insert(
        11,
        vec![
            item(b"binary.dat", 63, FILE),
            item(b"mode.txt", 60, (EntryMode::Executable, EntryKind::Blob)),
            item(b"new-name.txt", 60, FILE),
            item(b"pointer.crab", 65, FILE),
            item(b"same", 3, TREE),
            item(b"text.txt", 61, FILE),
            item(b"type", 6, TREE),
        ],
    );
    Trees {
        trees,
        reads: std::cell::Cell::new(0),
    }
}

/// The kinds of change that the history of a path shows, newest commit first.
fn path_kinds(trees: &Trees, wanted: &GitPath, commits: &[(u32, u32, &[u32])]) -> Vec<ChangeKind> {
    let read = |id: ObjectId| {
        let (number, tree, parents) = commits
            .iter()
            .find(|found| found.0 == id.fifth)
            .expect("known commit");
        commit(*number, *tree, parents)
    };
    let mut walk = PathHistoryWalk::new(
        wanted,
        oid(commits[0].0),
        HistoryTraversal::FirstParent,
        None,
        0,
        10,
    );
    loop {
        match walk.next() {
            PathHistoryRequest::Visit { oid } => walk.accept_visit(read(oid)).expect("room"),
            PathHistoryRequest::Parent { oid } => walk.accept_parent(&read(oid)),
            PathHistoryRequest::Tree { oid, parent, .. } => walk
                .accept_tree(trees.read(oid, &parent))
                .expect("shallow"),
            PathHistoryRequest::Show { .. } => {
                walk.reserve().expect("room");
                walk.show();
            }
            PathHistoryRequest::Done => break,
        }
    }
    walk.into_page()
        .items
        .iter()
        .map(|item| item.kind)
        .collect()
}

fn diff(
    text: &[u8],
    classification: ContentClassification,
    before: &[u8],
    after: &[u8],
) -> crab_remote_git::diff::Diff {
    let blob = |number: u32, bytes: &[u8]| Blob {
        metadata: BlobMetadata {
            oid: oid(number),
            git_size: bytes.len() as u64,
            logical_size: Some(bytes.len() as u64),
            mode: EntryMode::Regular,
            kind: EntryKind::Blob,
            classification,
        },
        bytes: bytes.to_vec(),
    };
    let old_blob = blob(1, before);
    let new_blob = blob(2, after);
    let token = CancellationToken::new();
    let plan = plan_diff(Some(&old_blob), Some(&new_blob), &token).expect("plan");
    render_diff(&path(text), Some(&old_blob), Some(&new_blob), plan, &token).expect("diff")
}

fn changes(comparison: &Comparison) -> Vec<(Vec<u8>, ChangeKind)> {
    comparison
        .changes
        .iter()
        .map(|change| (change.path.as_bytes().to_vec(), change.kind))
        .collect()
}

#[test]
fn semantic_changes_cover_modes_types_rename_like_paths_binary_and_pointers() {
    let trees = semantic();
    let (comparison, _) = compare(&trees, 10, 11);
    for (path, expected) in [
        (b"binary.dat".as_slice(), ChangeKind::Modified),
        (b"mode.txt".as_slice(), ChangeKind::ModeChanged),
        (b"new-name.txt".as_slice(), ChangeKind::Added),
        (b"old-name.txt".as_slice(), ChangeKind::Deleted),
        (b"pointer.crab".as_slice(), ChangeKind::Modified),
        (b"text.txt".as_slice(), ChangeKind::Modified),
        (b"type".as_slice(), ChangeKind::TypeChanged),
    ] {
        assert_eq!(
            comparison
                .changes
                .iter()
                .find(|change| change.path.as_bytes() == path)
                .map(|change| change.kind),
            Some(expected),
            "unexpected comparison result for {}",
            String::from_utf8_lossy(path)
        );
    }
    assert!(comparison
        .changes
        .iter()
        .all(|change| !change.path.as_bytes().starts_with(b"same/")));
    assert_eq!(comparison.changes.len(), 7);

    for (text, expected) in [
        (b"mode.txt".as_slice(), ChangeKind::ModeChanged),
        (b"type".as_slice(), ChangeKind::TypeChanged),
        (b"old-name.txt".as_slice(), ChangeKind::Deleted),
        (b"new-name.txt".as_slice(), ChangeKind::Added),
    ] {
        let kinds = path_kinds(&trees, &path(text), &[(501, 11, &[500]), (500, 10, &[])]);
        assert_eq!(kinds.first(), Some(&expected));
    }
    assert_eq!(
        path_kinds(
            &trees,
            &path(b"type/child"),
            &[(501, 11, &[500]), (500, 10, &[])]
        ),
        vec![ChangeKind::Added]
    );

    let binary = diff(
        b"binary.dat",
        ContentClassification::OrdinaryGit,
        b"before\0binary\n",
        b"after\0binary\n",
    );
    assert_eq!(binary.classification, DiffClassification::Binary);
    assert!(binary.hunks.is_empty());
    let pointer = diff(
        b"pointer.crab",
        ContentClassification::CrabPointer,
        b"version https://crab.dev/spec/v1\nfile-hash 000102030405060708090a0b0c0d0e0f101112131415161718191a1b1c1d1e1f\nsize 4294967296\n",
        b"version https://crab.dev/spec/v1\nfile-hash 101112131415161718191a1b1c1d1e1f202122232425262728292a2b2c2d2e2f\nsize 4294967297\n",
    );
    assert_eq!(pointer.classification, DiffClassification::CrabPointer);
    assert!(pointer.hunks.is_empty());
    let text = diff(
        b"text.txt",
        ContentClassification::OrdinaryGit,
        b"before\n",
        b"after\n",
    );
    assert_eq!(text.classification, DiffClassification::Text);
    assert_eq!(text.hunks.len(), 1);
}

#[test]
fn a_failed_stream_yields_its_error_once() {
    let trees = browsed();
    let entry = || stream(&trees, 2).remove(0);
    let mut gate = StreamGate::new();
    assert_eq!(gate.settle::<Error>(Ok(Some(entry()))), Some(Ok(entry())));
    assert!(!gate.has_ended());
    assert_eq!(
        gate.settle(Err(Error::Cancelled)),
        Some(Err(Error::Cancelled))
    );
    assert!(gate.has_ended());
    assert_eq!(gate.settle::<Error>(Ok(Some(entry()))), None);
    assert_eq!(gate.settle(Err(Error::Cancelled)), None);
    let mut gate = StreamGate::new();
    assert_eq!(gate.settle::<Error>(Ok(None)), None);
    assert!(gate.has_ended());
}

#[test]
fn comparison_the_other_way_round_mirrors_the_changes() {
    let trees = semantic();
    let (forward, _) = compare(&trees, 10, 11);
    let (backward, _) = compare(&trees, 11, 10);
    assert_eq!(forward.changes.len(), backward.changes.len());
    for (ahead, back) in forward.changes.iter().zip(&backward.changes) {
        assert_eq!(ahead.path, back.path);
        assert_eq!(ahead.old, back.new);
        assert_eq!(ahead.new, back.old);
        let expected = match ahead.kind {
            ChangeKind::Added => ChangeKind::Deleted,
            ChangeKind::Deleted => ChangeKind::Added,
            kind => kind,
        };
        assert_eq!(back.kind, expected);
        assert_ne!(ahead.old, ahead.new);
    }
}

#[test]
fn no_path_is_shown_twice() {
    let trees = semantic();
    let (comparison, _) = compare(&trees, 10, 11);
    let found = changes(&comparison);
    assert!(found.len() > 2);
    assert!(found.windows(2).all(|pair| pair[0].0 < pair[1].0));
    let trees = browsed();
    let (archived, _) = archive(&trees, 1);
    assert!(archived
        .windows(2)
        .all(|pair| pair[0].path.as_bytes() < pair[1].path.as_bytes()));
    let streamed = stream(&trees, 1);
    let paths: std::collections::BTreeSet<&[u8]> =
        streamed.iter().map(|entry| entry.path.as_bytes()).collect();
    assert_eq!(paths.len(), streamed.len());
    assert!(archived
        .iter()
        .all(|entry| entry.bytes.is_some() == entry.kind.is_blob_backed()));
}

#[test]
fn comparison_prunes_an_identical_root_tree() {
    let trees = semantic();
    let (comparison, charged) = compare(&trees, 10, 10);
    assert_eq!(comparison.base, oid(500));
    assert_eq!(comparison.head, oid(501));
    assert!(comparison.changes.is_empty());
    assert_eq!(trees.reads.get(), 0);
    assert!(charged.is_empty());
}

#[test]
fn comparison_prunes_equal_subtrees_between_shared_prefixes() {
    let mut trees = browsed();
    trees.trees.insert(
        20,
        vec![
            item(b"item", 3, TREE),
            item(b"item0", 99, FILE),
            item(b"\xfe.ext", 54, FILE),
        ],
    );
    let (comparison, _) = compare(&trees, 4, 20);
    assert_eq!(trees.reads.get(), 3);
    assert_eq!(
        changes(&comparison),
        vec![
            (b"item.ext".to_vec(), ChangeKind::Deleted),
            (b"item0".to_vec(), ChangeKind::Modified),
            (b"\xfe/deep.txt".to_vec(), ChangeKind::Deleted),
            (b"\xfe0".to_vec(), ChangeKind::Deleted),
        ]
    );
}

#[test]
fn whole_subtrees_are_collected_with_their_depth() {
    let trees = browsed();
    let mut with_empty = trees.trees.clone();
    with_empty.insert(30, vec![]);
    let trees = Trees {
        trees: with_empty,
        reads: std::cell::Cell::new(0),
    };
    let (comparison, charged) = compare(&trees, 30, 2);
    assert_eq!(
        changes(&comparison),
        vec![(b"nested/deep.txt".to_vec(), ChangeKind::Added)]
    );
    let size = b"nested/deep.txt".len()
        + std::mem::size_of::<crab_remote_git::compare::TreeChange>();
    let depth = |amount| Charge {
        dimension: BudgetDimension::Depth,
        amount,
    };
    assert_eq!(
        charged,
        vec![
            depth(0),
            depth(1),
            depth(2),
            Charge {
                dimension: BudgetDimension::Entries,
                amount: 1
            },
            Charge {
                dimension: BudgetDimension::ResponseBytes,
                amount: size as u64
            },
        ]
    );
}

#[test]
fn paths_split_at_slashes() {
    let deep = path(b"a/bc/d");
    assert_eq!(deep.depth(), Ok(3));
    assert_eq!(deep.last_component().as_deref(), Some(b"d".as_slice()));
    assert!(deep.has_name(b"d"));
    assert!(!deep.has_name(b"c/d"));
    assert!(!deep.is_root());
    assert_eq!(GitPath::root().depth(), Ok(0));
    assert_eq!(GitPath::root().last_component(), None);
    assert!(GitPath::root().is_root());
    assert_eq!(deep.duplicate(), deep);
    assert_eq!(next_depth(4), Ok(5));
    assert_eq!(
        next_depth(u64::MAX),
        Err(Error::LimitExceeded {
            limit: "traversal depth",
            actual: u64::MAX,
            maximum: u64::MAX
        })
    );
}

#[test]
fn paths_are_ordered_by_bytes() {
    let order = |a: &[u8], b: &[u8]| path(a).order(&path(b));
    assert_eq!(order(b"a", b"a"), PathOrder::Equal);
    assert_eq!(order(b"a", b"a/b"), PathOrder::Less);
    assert_eq!(order(b"b", b"a/b"), PathOrder::Greater);
    assert_eq!(order(b"a.ext", b"a/b"), PathOrder::Less);
    assert_eq!(order(b"a0", b"a/b"), PathOrder::Greater);
    assert_eq!(order(b"\xff", b"\x7f"), PathOrder::Greater);
    let entries = ["b", "a/b", "a", "a.ext"].map(|text| TreeEntry {
        path: path(text.as_bytes()),
        oid: oid(1),
        mode: EntryMode::Regular,
        kind: EntryKind::Blob,
        size: None,
    });
    let sorted: Vec<Vec<u8>> = sort_by_path(Vec::from(entries))
        .iter()
        .map(|entry| entry.path.as_bytes().to_vec())
        .collect();
    assert_eq!(
        sorted,
        vec![b"a".to_vec(), b"a.ext".to_vec(), b"a/b".to_vec(), b"b".to_vec()]
    );
}

#[test]
fn entries_of_one_path_keep_their_order() {
    let entries = [("b", 1), ("a", 2), ("b", 3), ("a", 4), ("b", 5)].map(|(text, number)| {
        TreeEntry {
            path: path(text.as_bytes()),
            oid: oid(number),
            mode: EntryMode::Regular,
            kind: EntryKind::Blob,
            size: None,
        }
    });
    let sorted: Vec<u32> = sort_by_path(Vec::from(entries))
        .iter()
        .map(|entry| entry.oid.fifth)
        .collect();
    assert_eq!(sorted, vec![2, 4, 1, 3, 5]);
}

#[test]
fn requests_carry_their_charges() {
    assert_eq!(
        charge_entries(4),
        Charge {
            dimension: BudgetDimension::Entries,
            amount: 4
        }
    );
    assert_eq!(
        charge_archived(b"abc"),
        Charge {
            dimension: BudgetDimension::ArchiveBytes,
            amount: 3
        }
    );
    assert!(PathHistoryRequest::Parent { oid: oid(1) }.charges().is_empty());
    assert_eq!(
        PathHistoryRequest::Tree {
            oid: oid(1),
            parent: GitPath::root(),
            depth: 2
        }
        .charges(),
        vec![charge_depth(2)]
    );
    assert!(ArchiveRequest::Tree {
        oid: oid(1),
        parent: GitPath::root()
    }
    .charges()
    .is_empty());
    assert!(ArchiveRequest::Done.charges().is_empty());
    assert!(CompareRequest::Done.charges().is_empty());
}
