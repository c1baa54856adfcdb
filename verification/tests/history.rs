use crab_remote_git::commit_graph::{queue_all_parents, CommitGraphIndex, GraphNode};
use crab_remote_git::entry::EntryWalk;
use crab_remote_git::error::{CursorError, Error};
use crab_remote_git::history::{history_skip, HistoryCursor, HistoryWalk};
use crab_remote_git::model::{
    commit_response_bytes, BudgetDimension, ChangeKind, Charge, Commit, HistoryTraversal, Page,
    Signature, SignatureHeader, TreeEntry,
};
use crab_remote_git::oid::{EntryKind, EntryMode, ObjectId};
use crab_remote_git::path::GitPath;
use crab_remote_git::path_history::{
    path_history_skip, PathHistoryCursor, PathHistoryEntry, PathHistoryRequest, PathHistoryWalk,
};
use crab_remote_git::path_probe::{path_change, EntryFacts, PathProbe, ProbeRequest};
use std::collections::HashMap;
use tokio_util::sync::CancellationToken;

fn oid(number: u32) -> ObjectId {
    ObjectId {
        first: number,
        second: number,
        third: number,
        fourth: number,
        fifth: number,
    }
}

fn path(text: &[u8]) -> GitPath {
    GitPath::from_bytes(text.to_vec())
}

fn signature() -> Signature {
    Signature {
        name: b"Crab Test".to_vec(),
        email: b"test@crab.invalid".to_vec(),
        seconds: 1_700_000_000,
        offset: 0,
    }
}

fn commit(number: u32, tree: u32, parents: &[u32]) -> Commit {
    Commit {
        oid: oid(number),
        tree: oid(tree),
        parents: parents.iter().map(|parent| oid(*parent)).collect(),
        author: signature(),
        committer: signature(),
        encoding: None,
        message: b"message".to_vec(),
        signature_headers: Vec::new(),
    }
}

/// Commits by number, and flat root trees as (name, blob, mode, kind).
#[derive(Default)]
struct Store {
    commits: HashMap<u32, (u32, Vec<u32>)>,
    trees: HashMap<u32, Vec<(&'static str, u32, EntryMode, EntryKind)>>,
}

impl Store {
    fn commit(&self, id: ObjectId) -> Commit {
        let (tree, parents) = &self.commits[&id.fifth];
        commit(id.fifth, *tree, parents)
    }

    fn tree(&self, id: ObjectId, parent: &GitPath) -> Vec<TreeEntry> {
        self.trees[&id.fifth]
            .iter()
            .map(|(name, object, mode, kind)| {
                let mut full = parent.as_bytes().to_vec();
                if !full.is_empty() {
                    full.push(b'/');
                }
                full.extend_from_slice(name.as_bytes());
                TreeEntry {
                    path: GitPath::from_bytes(full),
                    oid: oid(*object),
                    mode: *mode,
                    kind: *kind,
                    size: None,
                }
            })
            .collect()
    }
}

/// A merge (3) of a root (1) and a side commit (2) whose parent is the root.
fn merge() -> Store {
    let mut store = Store::default();
    store.commits.insert(1, (10, vec![]));
    store.commits.insert(2, (10, vec![1]));
    store.commits.insert(3, (10, vec![1, 2]));
    store.trees.insert(
        10,
        vec![("file.txt", 100, EntryMode::Regular, EntryKind::Blob)],
    );
    store
}

fn finish(store: &Store, mut walk: HistoryWalk) -> Page<Commit, HistoryCursor> {
    while let Some(id) = walk.next() {
        walk.accept(store.commit(id)).expect("accepted");
        walk.keep().expect("room");
    }
    walk.into_page()
}

fn numbers(items: &[Commit]) -> Vec<u32> {
    items.iter().map(|item| item.oid.fifth).collect()
}

fn page(
    store: &Store,
    start: u32,
    mode: HistoryTraversal,
    skip: u64,
    limit: usize,
) -> Page<Commit, HistoryCursor> {
    finish(store, HistoryWalk::new(oid(start), mode, None, skip, limit))
}

#[test]
fn history_pages_are_deterministic_and_bound_to_start_and_mode() {
    let store = merge();
    let first = page(&store, 3, HistoryTraversal::AllParents, 0, 1);
    assert_eq!(first.items.len(), 1);
    assert_eq!(first.items[0].oid, oid(3));
    let cursor = first.next.expect("history continuation");
    let skip = history_skip(oid(3), HistoryTraversal::AllParents, Some(cursor)).expect("skip");
    let second = page(&store, 3, HistoryTraversal::AllParents, skip, 1);
    assert_eq!(second.items.len(), 1);
    assert_eq!(second.items[0].oid, oid(1));
    assert!(second.next.is_some());
    assert!(matches!(
        history_skip(oid(3), HistoryTraversal::FirstParent, Some(cursor)),
        Err(Error::InvalidCursor {
            reason: CursorError::ContextMismatch
        })
    ));
    assert!(matches!(
        history_skip(oid(2), HistoryTraversal::AllParents, Some(cursor)),
        Err(Error::InvalidCursor {
            reason: CursorError::ContextMismatch
        })
    ));
    let first_parent = page(&store, 3, HistoryTraversal::FirstParent, 0, 10);
    assert_eq!(first_parent.items.len(), 2);
    assert!(first_parent.next.is_none());
    assert_eq!(history_skip(oid(3), HistoryTraversal::AllParents, None), Ok(0));
}

/// Two lines of history that merge twice.
fn lattice() -> Store {
    let mut store = Store::default();
    for (id, parents) in [
        (1, vec![]),
        (2, vec![1]),
        (3, vec![1]),
        (4, vec![2, 3]),
        (5, vec![3]),
        (6, vec![4, 5]),
    ] {
        store.commits.insert(id, (10, parents));
    }
    store
}

#[test]
fn pages_of_every_size_show_the_whole_history_once() {
    let store = lattice();
    let whole = page(&store, 6, HistoryTraversal::AllParents, 0, 100);
    assert_eq!(numbers(&whole.items), vec![6, 4, 2, 1, 3, 5]);
    assert!(whole.next.is_none());
    for limit in 1..=6 {
        let mut seen = Vec::new();
        let mut skip = 0;
        loop {
            let part = page(&store, 6, HistoryTraversal::AllParents, skip, limit);
            seen.extend(numbers(&part.items));
            match part.next {
                Some(cursor) => skip = cursor.skip,
                None => break,
            }
        }
        assert_eq!(seen, numbers(&whole.items));
    }
    assert_eq!(
        numbers(&page(&store, 6, HistoryTraversal::FirstParent, 0, 100).items),
        vec![6, 4, 2, 1]
    );
}

#[test]
fn a_page_of_no_items_only_says_whether_there_are_more() {
    let store = merge();
    let empty = page(&store, 3, HistoryTraversal::AllParents, 1, 0);
    assert!(empty.items.is_empty());
    assert_eq!(empty.next.map(|cursor| cursor.skip), Some(1));
    let beyond = page(&store, 3, HistoryTraversal::AllParents, 3, 5);
    assert!(beyond.items.is_empty());
    assert!(beyond.next.is_none());
}

fn graph(nodes: &[(u32, u64, &[u32])]) -> CommitGraphIndex {
    let mut index = CommitGraphIndex::new();
    for (id, generation, parents) in nodes {
        assert!(index.record(
            oid(*id),
            GraphNode {
                generation: *generation,
                parents: parents.iter().map(|parent| oid(*parent)).collect(),
            },
        ));
    }
    index
}

#[test]
fn incomplete_commit_graph_cannot_hide_raw_history() {
    let store = merge();
    let incomplete = graph(&[(3, 3, &[1])]);
    assert!(!incomplete.parents_match(oid(3), &[oid(1), oid(2)]));
    let shown = finish(
        &store,
        HistoryWalk::new(
            oid(3),
            HistoryTraversal::AllParents,
            Some(&incomplete),
            0,
            10,
        ),
    );
    assert_eq!(numbers(&shown.items), vec![3, 1, 2]);
    assert!(shown.next.is_none());
}

#[test]
fn a_matching_graph_orders_parents_by_generation() {
    let store = merge();
    let complete = graph(&[(1, 1, &[]), (2, 2, &[1]), (3, 3, &[1, 2])]);
    let shown = finish(
        &store,
        HistoryWalk::new(oid(3), HistoryTraversal::AllParents, Some(&complete), 0, 10),
    );
    assert_eq!(numbers(&shown.items), vec![3, 2, 1]);
    assert_eq!(complete.generation(&oid(2)), Some(2));
    assert_eq!(complete.generation(&oid(9)), None);
}

#[test]
fn parents_of_one_generation_are_queued_by_identity() {
    let ranked = graph(&[
        (4, 9, &[3, 2, 1]),
        (1, 5, &[]),
        (2, 5, &[]),
        (3, 7, &[]),
    ]);
    let child = commit(4, 10, &[3, 2, 1]);
    let mut pending = vec![oid(8)];
    queue_all_parents(&mut pending, &child, Some(&ranked)).expect("room");
    assert_eq!(pending, vec![oid(8), oid(2), oid(1), oid(3)]);
    let mut pending = Vec::new();
    queue_all_parents(&mut pending, &child, None).expect("room");
    assert_eq!(pending, vec![oid(1), oid(2), oid(3)]);
    assert_eq!(
        queue_all_parents(&mut pending, &commit(4, 10, &[]), Some(&ranked)),
        Ok(())
    );
    assert_eq!(pending, vec![oid(1), oid(2), oid(3)]);
}

#[test]
fn recorded_reachability_answers_each_candidate() {
    let index = graph(&[(1, 1, &[]), (2, 2, &[1]), (3, 2, &[1]), (4, 3, &[3])]);
    let token = CancellationToken::new();
    assert_eq!(
        index.reachable_from_roots(&[oid(1), oid(2), oid(3), oid(4)], &[oid(4)], &token),
        Ok(vec![true, false, true, true])
    );
    assert_eq!(
        index.reachable_from_roots(&[oid(1)], &[], &token),
        Ok(vec![false])
    );
    token.cancel();
    assert_eq!(
        index.reachable_from_roots(&[oid(1)], &[oid(4)], &token),
        Err(Error::Cancelled)
    );
}

#[test]
fn a_shown_commit_is_charged_by_its_size() {
    let mut big = commit(1, 10, &[2, 3]);
    big.encoding = Some(b"UTF-8".to_vec());
    big.signature_headers.push(SignatureHeader {
        name: b"gpgsig".to_vec(),
        value: b"signature".to_vec(),
    });
    let expected = std::mem::size_of::<Commit>()
        + 2 * std::mem::size_of::<ObjectId>()
        + 2 * (b"Crab Test".len() + b"test@crab.invalid".len())
        + b"UTF-8".len()
        + b"message".len()
        + b"gpgsig".len()
        + b"signature".len();
    assert_eq!(commit_response_bytes(&big), expected as u64);
    assert_eq!(commit_response_bytes(&big.duplicate()), expected as u64);
    assert_eq!(big.duplicate(), big);

    let mut walk = HistoryWalk::new(oid(1), HistoryTraversal::FirstParent, None, 1, 1);
    assert_eq!(walk.next(), Some(oid(1)));
    assert_eq!(walk.accept(commit(1, 10, &[2])), Ok(None));
    assert_eq!(walk.keep(), Ok(()));
    assert_eq!(walk.next(), Some(oid(2)));
    let shown = commit(2, 10, &[]);
    let amount = commit_response_bytes(&shown);
    assert_eq!(
        walk.accept(shown),
        Ok(Some(Charge {
            dimension: BudgetDimension::ResponseBytes,
            amount
        }))
    );
    assert_eq!(walk.keep(), Ok(()));
    assert_eq!(walk.next(), None);
    assert_eq!(numbers(&walk.into_page().items), vec![2]);
}

fn path_page(
    store: &Store,
    wanted: &GitPath,
    start: u32,
    mode: HistoryTraversal,
    skip: u64,
    limit: usize,
) -> Result<(Page<PathHistoryEntry, PathHistoryCursor>, Vec<Charge>), Error> {
    let mut walk = PathHistoryWalk::new(wanted, oid(start), mode, None, skip, limit);
    let mut charged = Vec::new();
    loop {
        let request = walk.next();
        charged.extend(request.charges());
        match request {
            PathHistoryRequest::Visit { oid } => walk.accept_visit(store.commit(oid))?,
            PathHistoryRequest::Parent { oid } => walk.accept_parent(&store.commit(oid)),
            PathHistoryRequest::Tree { oid, parent, .. } => {
                walk.accept_tree(store.tree(oid, &parent))?
            }
            PathHistoryRequest::Show { .. } => {
                walk.reserve()?;
                walk.show();
            }
            PathHistoryRequest::Done => break,
        }
    }
    Ok((walk.into_page(), charged))
}

#[test]
fn path_history_uses_raw_commits_and_omits_unchanged_merges() {
    let store = merge();
    let wanted = path(b"file.txt");
    let (history, charged) =
        path_page(&store, &wanted, 3, HistoryTraversal::AllParents, 0, 10).expect("history");
    assert_eq!(history.items.len(), 1);
    assert_eq!(history.items[0].commit.oid, oid(1));
    assert_eq!(history.items[0].kind, ChangeKind::Added);
    assert!(history.next.is_none());
    let visits = charged
        .iter()
        .filter(|charge| charge.dimension == BudgetDimension::HistoryCommits)
        .count();
    assert_eq!(visits, 3);
}

/// A file that is added, changed, made executable, replaced by a tree, deleted.
fn changing() -> Store {
    let mut store = Store::default();
    store.trees.insert(10, vec![]);
    store.trees.insert(
        11,
        vec![("f", 100, EntryMode::Regular, EntryKind::Blob)],
    );
    store.trees.insert(
        12,
        vec![("f", 101, EntryMode::Regular, EntryKind::Blob)],
    );
    store.trees.insert(
        13,
        vec![("f", 101, EntryMode::Executable, EntryKind::Blob)],
    );
    store
        .trees
        .insert(14, vec![("f", 15, EntryMode::Tree, EntryKind::Tree)]);
    store.trees.insert(15, vec![]);
    for (id, tree) in [(1, 10), (2, 11), (3, 12), (4, 12), (5, 13), (6, 14), (7, 10)] {
        let parents = if id == 1 { vec![] } else { vec![id - 1] };
        store.commits.insert(id, (tree, parents));
    }
    store
}

#[test]
fn every_kind_of_change_is_reported() {
    let store = changing();
    let wanted = path(b"f");
    let (history, _) =
        path_page(&store, &wanted, 7, HistoryTraversal::FirstParent, 0, 10).expect("history");
    let found: Vec<(u32, ChangeKind)> = history
        .items
        .iter()
        .map(|item| (item.commit.oid.fifth, item.kind))
        .collect();
    assert_eq!(
        found,
        vec![
            (7, ChangeKind::Deleted),
            (6, ChangeKind::TypeChanged),
            (5, ChangeKind::ModeChanged),
            (3, ChangeKind::Modified),
            (2, ChangeKind::Added),
        ]
    );
    assert!(history.next.is_none());
}

#[test]
fn path_history_pages_continue_without_loss() {
    let store = changing();
    let wanted = path(b"f");
    let (whole, _) =
        path_page(&store, &wanted, 7, HistoryTraversal::FirstParent, 0, 10).expect("history");
    for limit in 1..=5 {
        let mut seen = Vec::new();
        let mut after: Option<PathHistoryCursor> = None;
        loop {
            let skip =
                path_history_skip(oid(7), HistoryTraversal::FirstParent, &wanted, after.as_ref())
                    .expect("own cursor");
            let (part, _) = path_page(
                &store,
                &wanted,
                7,
                HistoryTraversal::FirstParent,
                skip,
                limit,
            )
            .expect("page");
            seen.extend(part.items.iter().map(|item| item.commit.oid.fifth));
            after = part.next;
            if after.is_none() {
                break;
            }
        }
        let expected: Vec<u32> = whole.items.iter().map(|item| item.commit.oid.fifth).collect();
        assert_eq!(seen, expected);
    }
}

#[test]
fn path_history_cursors_bind_start_mode_and_path() {
    let cursor = PathHistoryCursor {
        start: oid(7),
        mode: HistoryTraversal::FirstParent,
        path: b"f".to_vec(),
        skip: 4,
    };
    let skip = |start: u32, mode, text: &[u8]| {
        path_history_skip(oid(start), mode, &path(text), Some(&cursor))
    };
    let mismatch = Err(Error::InvalidCursor {
        reason: CursorError::ContextMismatch,
    });
    assert_eq!(skip(7, HistoryTraversal::FirstParent, b"f"), Ok(4));
    assert_eq!(skip(6, HistoryTraversal::FirstParent, b"f"), mismatch);
    assert_eq!(skip(7, HistoryTraversal::AllParents, b"f"), mismatch);
    assert_eq!(skip(7, HistoryTraversal::FirstParent, b"g"), mismatch);
}

#[test]
fn a_path_below_a_file_is_absent() {
    let store = merge();
    let wanted = path(b"file.txt/child");
    let (history, _) =
        path_page(&store, &wanted, 3, HistoryTraversal::AllParents, 0, 10).expect("history");
    assert!(history.items.is_empty());
    assert!(history.next.is_none());
}

#[test]
fn a_directory_that_replaces_a_file_adds_its_children() {
    let mut store = Store::default();
    store
        .trees
        .insert(10, vec![("type", 60, EntryMode::Regular, EntryKind::Blob)]);
    store
        .trees
        .insert(11, vec![("type", 6, EntryMode::Tree, EntryKind::Tree)]);
    store
        .trees
        .insert(6, vec![("child", 61, EntryMode::Regular, EntryKind::Blob)]);
    store.commits.insert(1, (10, vec![]));
    store.commits.insert(2, (11, vec![1]));
    store.commits.insert(3, (10, vec![2]));
    let wanted = path(b"type/child");
    let found = |start| {
        let (history, _) = path_page(&store, &wanted, start, HistoryTraversal::FirstParent, 0, 10)
            .expect("history");
        assert!(history.next.is_none());
        history
            .items
            .iter()
            .map(|item| (item.commit.oid.fifth, item.kind))
            .collect::<Vec<_>>()
    };
    assert_eq!(found(2), vec![(2, ChangeKind::Added)]);
    assert_eq!(
        found(3),
        vec![(3, ChangeKind::Deleted), (2, ChangeKind::Added)]
    );
}

#[test]
fn a_probe_settles_one_lookup_after_another() {
    let mut store = Store::default();
    store
        .trees
        .insert(10, vec![("dir", 11, EntryMode::Tree, EntryKind::Tree)]);
    store
        .trees
        .insert(11, vec![("f", 12, EntryMode::Regular, EntryKind::Blob)]);
    let wanted = path(b"dir/f");
    let child = commit(2, 10, &[1]);
    let mut probe = PathProbe::new(&wanted, HistoryTraversal::FirstParent, &child);
    let tree = |number, parent: &[u8], depth| ProbeRequest::Tree {
        oid: oid(number),
        parent: path(parent),
        depth,
    };
    assert_eq!(probe.next(), tree(10, b"", 1));
    probe.accept_tree(store.tree(oid(10), &path(b""))).expect("descend");
    assert_eq!(probe.next(), tree(11, b"dir", 2));
    probe.accept_tree(store.tree(oid(11), &path(b"dir"))).expect("settled");
    assert_eq!(probe.next(), ProbeRequest::Commit { oid: oid(1) });
    probe.accept_commit(&commit(1, 11, &[]));
    assert_eq!(probe.next(), tree(11, b"", 1));
    probe.accept_tree(store.tree(oid(11), &path(b""))).expect("absent");
    assert_eq!(probe.next(), ProbeRequest::Done);
    assert_eq!(probe.verdict(), Some(ChangeKind::Added));
}

#[test]
fn changes_are_judged_against_all_parents() {
    let fact = |object: u32, mode, kind| {
        Some(EntryFacts {
            kind,
            oid: oid(object),
            mode,
        })
    };
    let file = fact(1, EntryMode::Regular, EntryKind::Blob);
    let other = fact(2, EntryMode::Regular, EntryKind::Blob);
    let script = fact(1, EntryMode::Executable, EntryKind::Blob);
    let link = fact(1, EntryMode::Symlink, EntryKind::Symlink);
    assert_eq!(path_change(None, &[]), None);
    assert_eq!(path_change(file, &[]), Some(ChangeKind::Added));
    assert_eq!(path_change(file, &[None, None]), Some(ChangeKind::Added));
    assert_eq!(path_change(None, &[None, file]), Some(ChangeKind::Deleted));
    assert_eq!(path_change(None, &[None]), None);
    assert_eq!(path_change(file, &[None, file]), None);
    assert_eq!(
        path_change(file, &[other, link]),
        Some(ChangeKind::TypeChanged)
    );
    assert_eq!(
        path_change(file, &[script, other]),
        Some(ChangeKind::Modified)
    );
    assert_eq!(
        path_change(file, &[file, script]),
        Some(ChangeKind::ModeChanged)
    );
}

#[test]
fn a_path_is_looked_up_one_tree_at_a_time() {
    let mut store = Store::default();
    store
        .trees
        .insert(1, vec![("dir", 2, EntryMode::Tree, EntryKind::Tree)]);
    store
        .trees
        .insert(2, vec![("f", 3, EntryMode::Regular, EntryKind::Blob)]);
    let wanted = path(b"dir/f");
    let mut walk = EntryWalk::new(oid(1), &wanted);
    let (tree, parent, depth) = walk.request();
    assert_eq!((tree, parent.as_bytes().len(), depth), (oid(1), 0, 1));
    let entries = store.tree(tree, parent);
    walk.accept(entries).expect("descend");
    let (tree, parent, depth) = walk.request();
    assert_eq!((tree, parent.as_bytes(), depth), (oid(2), &b"dir"[..], 2));
}
