use vstd::prelude::*;

use crate::entry::{EntryStep, EntryWalk, TreeLog, TreeStore};
use crate::error::Error;
use crate::model::{copy_oids, ChangeKind, Commit, HistoryTraversal, TreeEntry};
use crate::oid::{EntryKind, EntryMode, ObjectId};
use crate::path::GitPath;

verus! {

/// What the comparison of an entry between commits reads of it.
#[derive(Debug, Clone, Copy, PartialEq, Eq, Structural)]
pub struct EntryFacts {
    pub kind: EntryKind,
    pub oid: ObjectId,
    pub mode: EntryMode,
}

pub open spec fn facts(entry: TreeEntry) -> EntryFacts {
    EntryFacts { kind: entry.kind, oid: entry.oid, mode: entry.mode }
}

/// The entry at a path of a root tree; the root is a tree itself.
pub open spec fn facts_at(trees: TreeStore, root: ObjectId, path: Seq<u8>) -> Option<EntryFacts> {
    if path.len() == 0 {
        Some(EntryFacts { kind: EntryKind::Tree, oid: root, mode: EntryMode::Tree })
    } else {
        match crate::entry::lookup(trees, root, path) {
            crate::entry::Lookup::Found(entry) => Some(facts(entry)),
            _ => None,
        }
    }
}

/// Whether some parent entry differs from the current one in a respect.
pub open spec fn any_kind_differs(parents: Seq<Option<EntryFacts>>, current: EntryFacts) -> bool {
    exists|i: int|
        0 <= i < parents.len() && (#[trigger] parents[i]) is Some && parents[i]->0.kind
            != current.kind
}

pub open spec fn any_oid_differs(parents: Seq<Option<EntryFacts>>, current: EntryFacts) -> bool {
    exists|i: int|
        0 <= i < parents.len() && (#[trigger] parents[i]) is Some && parents[i]->0.oid
            != current.oid
}

pub open spec fn any_mode_differs(parents: Seq<Option<EntryFacts>>, current: EntryFacts) -> bool {
    exists|i: int|
        0 <= i < parents.len() && (#[trigger] parents[i]) is Some && parents[i]->0.mode
            != current.mode
}

pub open spec fn any_present(parents: Seq<Option<EntryFacts>>) -> bool {
    exists|i: int| 0 <= i < parents.len() && (#[trigger] parents[i]) is Some
}

/// How a commit changed a path against its parents, if it did.
pub open spec fn change_kind(
    current: Option<EntryFacts>,
    parents: Seq<Option<EntryFacts>>,
) -> Option<ChangeKind> {
    match current {
        None => if any_present(parents) {
            Some(ChangeKind::Deleted)
        } else {
            None
        },
        Some(entry) => if !any_present(parents) {
            Some(ChangeKind::Added)
        } else if any_kind_differs(parents, entry) {
            Some(ChangeKind::TypeChanged)
        } else if any_oid_differs(parents, entry) {
            Some(ChangeKind::Modified)
        } else if any_mode_differs(parents, entry) {
            Some(ChangeKind::ModeChanged)
        } else {
            None
        },
    }
}

/// Decide how a commit changed a path, from the path's entries in the commit and
/// in the parents that are compared.
pub fn path_change(current: Option<EntryFacts>, parents: &[Option<EntryFacts>]) -> (result: Option<
    ChangeKind,
>)
    ensures
        result == change_kind(current, parents@),
{
    let mut present = false;
    let mut kind = false;
    let mut oid = false;
    let mut mode = false;
    let mut at: usize = 0;
    while at < parents.len()
        invariant
            at <= parents@.len(),
            present == any_present(parents@.subrange(0, at as int)),
            current matches Some(entry) ==> {
                &&& kind == any_kind_differs(parents@.subrange(0, at as int), entry)
                &&& oid == any_oid_differs(parents@.subrange(0, at as int), entry)
                &&& mode == any_mode_differs(parents@.subrange(0, at as int), entry)
            },
        decreases parents@.len() - at,
    {
        let ghost before = parents@.subrange(0, at as int);
        let ghost after = parents@.subrange(0, at + 1);
        proof {
            assert(after =~= before.push(parents@[at as int]));
            lemma_any_grows(before, parents@[at as int], current);
        }
        if let Some(parent) = parents[at] {
            present = true;
            if let Some(entry) = current {
                kind = kind || parent.kind != entry.kind;
                oid = oid || parent.oid != entry.oid;
                mode = mode || parent.mode != entry.mode;
            }
        }
        at += 1;
    }
    assert(parents@.subrange(0, at as int) =~= parents@);
    match current {
        None => if present {
            Some(ChangeKind::Deleted)
        } else {
            None
        },
        Some(_) => if !present {
            Some(ChangeKind::Added)
        } else if kind {
            Some(ChangeKind::TypeChanged)
        } else if oid {
            Some(ChangeKind::Modified)
        } else if mode {
            Some(ChangeKind::ModeChanged)
        } else {
            None
        },
    }
}

proof fn lemma_any_grows(
    before: Seq<Option<EntryFacts>>,
    added: Option<EntryFacts>,
    current: Option<EntryFacts>,
)
    ensures
        any_present(before.push(added)) == (any_present(before) || added is Some),
        current matches Some(entry) ==> {
            &&& any_kind_differs(before.push(added), entry) == (any_kind_differs(before, entry) || (
            added is Some && added->0.kind != entry.kind))
            &&& any_oid_differs(before.push(added), entry) == (any_oid_differs(before, entry) || (
            added is Some && added->0.oid != entry.oid))
            &&& any_mode_differs(before.push(added), entry) == (any_mode_differs(before, entry) || (
            added is Some && added->0.mode != entry.mode))
        },
{
    let after = before.push(added);
    assert(after[before.len() as int] == added);
    assert forall|i: int| 0 <= i < before.len() implies #[trigger] before[i] == after[i] by {}
    if any_present(before) {
        let i = choose|i: int| 0 <= i < before.len() && (#[trigger] before[i]) is Some;
        assert(after[i] is Some);
    }
    if let Some(entry) = current {
        if any_kind_differs(before, entry) {
            let i = choose|i: int|
                0 <= i < before.len() && (#[trigger] before[i]) is Some && before[i]->0.kind
                    != entry.kind;
            assert(after[i] is Some);
        }
        if any_oid_differs(before, entry) {
            let i = choose|i: int|
                0 <= i < before.len() && (#[trigger] before[i]) is Some && before[i]->0.oid
                    != entry.oid;
            assert(after[i] is Some);
        }
        if any_mode_differs(before, entry) {
            let i = choose|i: int|
                0 <= i < before.len() && (#[trigger] before[i]) is Some && before[i]->0.mode
                    != entry.mode;
            assert(after[i] is Some);
        }
    }
}

/// A commit leaves a path as it was exactly if neither it nor any parent holds the path,
/// or if it holds what every parent that holds the path holds, and one does. Otherwise
/// the change is told by what differs: the path is there only now or no longer, or it
/// has another kind, another object or another mode than in some parent, and the first of
/// these that holds names the change, whatever the kind of the entry.
pub proof fn how_a_path_has_changed(
    current: Option<EntryFacts>,
    parents: Seq<Option<EntryFacts>>,
)
    ensures
        ({
            let held = exists|i: int| 0 <= i < parents.len() && (#[trigger] parents[i]) is Some;
            let same_kinds = forall|i: int|
                0 <= i < parents.len() && (#[trigger] parents[i]) is Some ==> parents[i]->0.kind
                    == current->0.kind;
            let same_oids = forall|i: int|
                0 <= i < parents.len() && (#[trigger] parents[i]) is Some ==> parents[i]->0.oid
                    == current->0.oid;
            let same_modes = forall|i: int|
                0 <= i < parents.len() && (#[trigger] parents[i]) is Some ==> parents[i]->0.mode
                    == current->0.mode;
            let change = change_kind(current, parents);
            &&& change is None <==> (if current is None {
                !held
            } else {
                held && same_kinds && same_oids && same_modes
            })
            &&& change == Some(ChangeKind::Added) <==> current is Some && !held
            &&& change == Some(ChangeKind::Deleted) <==> current is None && held
            &&& change == Some(ChangeKind::TypeChanged) <==> current is Some && held && !same_kinds
            &&& change == Some(ChangeKind::Modified) <==> current is Some && held && same_kinds
                && !same_oids
            &&& change == Some(ChangeKind::ModeChanged) <==> current is Some && held && same_kinds
                && same_oids && !same_modes
        }),
{
}

/// Seen from the other side, a change is the change back: what was added is deleted, and
/// any other change keeps its name.
pub proof fn a_change_back_mirrors_the_change(
    current: Option<EntryFacts>,
    parent: Option<EntryFacts>,
)
    ensures
        change_kind(parent, seq![current]) == (match change_kind(current, seq![parent]) {
            Some(ChangeKind::Added) => Some(ChangeKind::Deleted),
            Some(ChangeKind::Deleted) => Some(ChangeKind::Added),
            other => other,
        }),
        change_kind(current, seq![parent]) is None <==> current == parent,
{
    how_a_path_has_changed(current, seq![parent]);
    how_a_path_has_changed(parent, seq![current]);
    assert(seq![parent][0] == parent);
    assert(seq![current][0] == current);
}

/// The parents that a commit's path is compared with.
pub open spec fn compared_parents(mode: HistoryTraversal, commit: Commit) -> Seq<ObjectId> {
    match mode {
        HistoryTraversal::FirstParent => if commit.parents@.len() > 0 {
            seq![commit.parents@[0]]
        } else {
            Seq::empty()
        },
        HistoryTraversal::AllParents => commit.parents@,
    }
}

/// The path's entries in the parents that it is compared with.
pub open spec fn parent_facts(
    commits: Map<ObjectId, Commit>,
    trees: TreeStore,
    parents: Seq<ObjectId>,
    path: Seq<u8>,
) -> Seq<Option<EntryFacts>> {
    Seq::new(parents.len(), |i: int| facts_at(trees, commits[parents[i]].tree, path))
}

/// How a commit changed a path under a parent policy, if it did.
pub open spec fn path_change_at(
    commits: Map<ObjectId, Commit>,
    trees: TreeStore,
    mode: HistoryTraversal,
    commit: Commit,
    path: Seq<u8>,
) -> Option<ChangeKind> {
    change_kind(
        facts_at(trees, commit.tree, path),
        parent_facts(commits, trees, compared_parents(mode, commit), path),
    )
}

proof fn lemma_facts_are_found(trees: TreeStore, root: ObjectId, path: Seq<u8>)
    requires
        path.len() > 0,
    ensures
        match facts_at(trees, root, path) {
            Some(found) => {
                &&& crate::entry::lookup(trees, root, path) matches crate::entry::Lookup::Found(
                    entry,
                ) && found.kind == entry.kind && found.oid == entry.oid && found.mode
                    == entry.mode
            },
            None => !(crate::entry::lookup(trees, root, path) is Found),
        },
{
}

/// What is found at a path in a parent of a commit.
pub open spec fn found_in_parent(
    commits: Map<ObjectId, Commit>,
    trees: TreeStore,
    commit: Commit,
    parent: int,
    path: Seq<u8>,
) -> crate::entry::Lookup {
    crate::entry::lookup(trees, commits[commit.parents@[parent]].tree, path)
}

/// A commit changes a path exactly if what is found there differs from what is found
/// there in the parents that count: in the first parent alone, or in all of them. Where
/// none of those holds the path, it is added if the commit holds it; where the commit
/// does not hold it and one of them does, it is deleted; and where both do, the change is
/// of the kind, the object or the mode that differs.
pub proof fn a_commit_changes_what_its_parents_hold_otherwise(
    commits: Map<ObjectId, Commit>,
    trees: TreeStore,
    mode: HistoryTraversal,
    commit: Commit,
    path: Seq<u8>,
)
    requires
        path.len() > 0,
    ensures
        ({
            let here = crate::entry::lookup(trees, commit.tree, path);
            let count = if mode == HistoryTraversal::AllParents || commit.parents@.len() == 0 {
                commit.parents@.len() as int
            } else {
                1
            };
            let held = exists|i: int|
                0 <= i < count && #[trigger] found_in_parent(commits, trees, commit, i, path)
                    is Found;
            let same_kinds = forall|i: int|
                0 <= i < count ==> (#[trigger] found_in_parent(
                    commits,
                    trees,
                    commit,
                    i,
                    path,
                ) matches crate::entry::Lookup::Found(entry) ==> entry.kind
                    == here->Found_0.kind);
            let same_oids = forall|i: int|
                0 <= i < count ==> (#[trigger] found_in_parent(
                    commits,
                    trees,
                    commit,
                    i,
                    path,
                ) matches crate::entry::Lookup::Found(entry) ==> entry.oid == here->Found_0.oid);
            let same_modes = forall|i: int|
                0 <= i < count ==> (#[trigger] found_in_parent(
                    commits,
                    trees,
                    commit,
                    i,
                    path,
                ) matches crate::entry::Lookup::Found(entry) ==> entry.mode
                    == here->Found_0.mode);
            let change = path_change_at(commits, trees, mode, commit, path);
            &&& change is None <==> (if here is Found {
                held && same_kinds && same_oids && same_modes
            } else {
                !held
            })
            &&& change == Some(ChangeKind::Added) <==> here is Found && !held
            &&& change == Some(ChangeKind::Deleted) <==> !(here is Found) && held
            &&& change == Some(ChangeKind::TypeChanged) <==> here is Found && held && !same_kinds
            &&& change == Some(ChangeKind::Modified) <==> here is Found && held && same_kinds
                && !same_oids
            &&& change == Some(ChangeKind::ModeChanged) <==> here is Found && held && same_kinds
                && same_oids && !same_modes
        }),
{
    let parents = compared_parents(mode, commit);
    let found = parent_facts(commits, trees, parents, path);
    let current = facts_at(trees, commit.tree, path);
    let here = crate::entry::lookup(trees, commit.tree, path);
    how_a_path_has_changed(current, found);
    lemma_facts_are_found(trees, commit.tree, path);
    assert forall|i: int| 0 <= i < found.len() implies #[trigger] found[i] == (
    match found_in_parent(commits, trees, commit, i, path) {
        crate::entry::Lookup::Found(entry) => Some(facts(entry)),
        _ => None,
    }) by {
        lemma_facts_are_found(trees, commits[commit.parents@[i]].tree, path);
    }
    assert forall|i: int| 0 <= i < found.len() implies (match #[trigger] found_in_parent(
        commits,
        trees,
        commit,
        i,
        path,
    ) {
        crate::entry::Lookup::Found(entry) => found[i] == Some(facts(entry)),
        _ => found[i] is None,
    }) by {
        assert(found[i] == found[i]);
    }
}

/// The root is always there, so its history shows every commit whose root tree is not
/// that of all the parents that count; a commit without parents adds it.
pub proof fn a_commit_changes_the_root_with_its_tree(
    commits: Map<ObjectId, Commit>,
    trees: TreeStore,
    mode: HistoryTraversal,
    commit: Commit,
)
    ensures
        path_change_at(commits, trees, mode, commit, Seq::empty()) == (if commit.parents@.len()
            == 0 {
            Some(ChangeKind::Added)
        } else if forall|i: int|
            0 <= i < commit.parents@.len() && (i == 0 || mode == HistoryTraversal::AllParents)
                ==> commits[#[trigger] commit.parents@[i]].tree == commit.tree {
            None
        } else {
            Some(ChangeKind::Modified)
        }),
{
    let none = Seq::<u8>::empty();
    let found = parent_facts(commits, trees, compared_parents(mode, commit), none);
    how_a_path_has_changed(facts_at(trees, commit.tree, none), found);
    assert forall|i: int| 0 <= i < found.len() implies (#[trigger] found[i]) is Some
        && found[i]->0.oid == commits[commit.parents@[i]].tree by {}
    if found.len() > 0 {
        assert(found[0] is Some);
    }
    if exists|i: int|
        0 <= i < commit.parents@.len() && (i == 0 || mode == HistoryTraversal::AllParents)
            && commits[#[trigger] commit.parents@[i]].tree != commit.tree {
        let i = choose|i: int|
            0 <= i < commit.parents@.len() && (i == 0 || mode == HistoryTraversal::AllParents)
                && commits[#[trigger] commit.parents@[i]].tree != commit.tree;
        assert(found[i]->0.oid != commit.tree);
    }
}

/// What the comparison of a path needs next.
#[derive(Debug, PartialEq, Eq)]
pub enum ProbeRequest {
    /// Read a tree, list it under a path, and account for its depth.
    Tree { oid: ObjectId, parent: GitPath, depth: u64 },
    /// Read a parent commit.
    Commit { oid: ObjectId },
    /// Everything has been compared.
    Done,
}

/// The commits that were read, in order.
pub type CommitLog = Seq<(ObjectId, Commit)>;

/// The comparison of one path between a commit and its parents.
pub struct PathProbe<'a> {
    path: &'a GitPath,
    parents: Vec<ObjectId>,
    walk: Option<EntryWalk<'a>>,
    results: Vec<Option<EntryFacts>>,
    roots: Ghost<Seq<ObjectId>>,
    settled: Ghost<TreeLog>,
    commits: Ghost<CommitLog>,
}

proof fn lemma_answers_split(left: TreeLog, right: TreeLog, trees: TreeStore)
    requires
        crate::replies::answers(left + right, trees),
    ensures
        crate::replies::answers(left, trees),
        crate::replies::answers(right, trees),
{
    assert forall|i: int| 0 <= i < left.len() implies trees[(#[trigger] left[i]).0] == left[i].1 by {
        assert((left + right)[i] == left[i]);
    }
    assert forall|i: int| 0 <= i < right.len() implies trees[(#[trigger] right[i]).0]
        == right[i].1 by {
        assert((left + right)[left.len() + i] == right[i]);
    }
}

impl<'a> PathProbe<'a> {
    pub closed spec fn path(self) -> Seq<u8> {
        self.path@
    }

    /// The root tree of the commit that is compared.
    pub closed spec fn tree(self) -> ObjectId {
        self.roots@[0]
    }

    /// The parents that it is compared with.
    pub closed spec fn parents(self) -> Seq<ObjectId> {
        self.parents@
    }

    /// The trees read so far.
    pub closed spec fn tree_log(self) -> TreeLog {
        match self.walk {
            Some(walk) => self.settled@ + walk.log(),
            None => self.settled@,
        }
    }

    /// The parent commits read so far.
    pub closed spec fn commit_log(self) -> CommitLog {
        self.commits@
    }

    /// What the settled lookups found: in the commit first, then in its parents.
    pub closed spec fn found(self) -> Seq<Option<EntryFacts>> {
        self.results@
    }

    /// Whether every entry has been found or missed.
    pub open spec fn done(self) -> bool {
        self.found().len() == self.parents().len() + 1
    }

    /// The tree that is wanted.
    pub closed spec fn wants_tree(self) -> Option<(ObjectId, Seq<u8>, u64)> {
        match self.walk {
            Some(walk) => Some((walk.tree(), walk.parent(), walk.depth())),
            None => None,
        }
    }

    /// Where the component that is looked for in the wanted tree begins.
    pub closed spec fn offset(self) -> int {
        (self.walk->0).offset()
    }

    /// The component of the path that is looked for in the wanted tree.
    pub open spec fn component(self) -> Seq<u8> {
        self.path().subrange(
            self.offset(),
            crate::path::component_end(self.path(), self.offset()),
        )
    }

    /// Whether that component is the last of the path.
    pub open spec fn at_last(self) -> bool {
        crate::path::component_end(self.path(), self.offset()) >= self.path().len()
    }

    /// The parent commit that is wanted.
    pub open spec fn wants_commit(self) -> Option<ObjectId> {
        if self.wants_tree() is None && !self.done() {
            Some(self.parents()[self.found().len() - 1])
        } else {
            None
        }
    }

    /// Whether a lookup has begun in a root tree; the root path is found at once.
    pub open spec fn looks_into(self, root: ObjectId, earlier: Seq<Option<EntryFacts>>) -> bool {
        if self.path().len() == 0 {
            &&& self.found() == earlier.push(
                Some(EntryFacts { kind: EntryKind::Tree, oid: root, mode: EntryMode::Tree }),
            )
            &&& self.wants_tree() is None
        } else {
            &&& self.found() == earlier
            &&& self.wants_tree() == Some((root, Seq::<u8>::empty(), 1u64))
            &&& self.offset() == 0
        }
    }

    /// Whether this is the comparison of a commit before anything was read.
    pub open spec fn begins(self, path: Seq<u8>, mode: HistoryTraversal, commit: Commit) -> bool {
        &&& self.path() == path
        &&& self.tree() == commit.tree
        &&& self.parents() == compared_parents(mode, commit)
        &&& self.tree_log() == TreeLog::empty()
        &&& self.commit_log() == CommitLog::empty()
        &&& self.looks_into(commit.tree, Seq::empty())
    }

    /// Whether the comparison of one path between the same commits goes on elsewhere.
    pub open spec fn same_question(self, other: PathProbe<'a>) -> bool {
        &&& self.path() == other.path()
        &&& self.tree() == other.tree()
        &&& self.parents() == other.parents()
    }

    /// What handing back the wanted tree comes to. The tree that the wanted component
    /// names is wanted next; without one the lookup is settled, and the path is
    /// absent unless its last component is there.
    pub open spec fn takes_tree(
        self,
        entries: Seq<TreeEntry>,
        after: PathProbe<'a>,
        result: Result<(), Error>,
    ) -> bool {
        let wanted = self.wants_tree()->0;
        let next = crate::entry::named(entries, self.component());
        let descends = !self.at_last() && next is Some && (next->0).kind == EntryKind::Tree;
        if descends && wanted.2 == u64::MAX {
            result == Err::<(), Error>(crate::path::too_deep())
        } else {
            &&& result == Ok::<(), Error>(())
            &&& after.same_question(self)
            &&& after.commit_log() == self.commit_log()
            &&& after.tree_log() == self.tree_log().push(((wanted.0, wanted.1), entries))
            &&& if descends {
                &&& after.found() == self.found()
                &&& after.wants_tree() == Some(
                    ((next->0).oid, (next->0).path@, (wanted.2 + 1) as u64),
                )
                &&& after.offset() == crate::path::component_end(self.path(), self.offset()) + 1
            } else {
                &&& after.found() == self.found().push(
                    if self.at_last() && next is Some {
                        Some(facts(next->0))
                    } else {
                        None
                    },
                )
                &&& after.wants_tree() is None
            }
        }
    }

    /// What handing back the wanted parent commit comes to: the path is looked up in it.
    pub open spec fn takes_commit(self, commit: Commit, after: PathProbe<'a>) -> bool {
        &&& after.same_question(self)
        &&& after.tree_log() == self.tree_log()
        &&& after.commit_log() == self.commit_log().push((self.wants_commit()->0, commit))
        &&& after.looks_into(commit.tree, self.found())
    }

    pub closed spec fn wf(self) -> bool {
        &&& 1 <= self.roots@.len() <= self.parents@.len() + 1
        &&& self.results@.len() + (if self.walk is Some {
            1int
        } else {
            0
        }) == self.roots@.len()
        &&& self.commits@.len() == self.roots@.len() - 1
        &&& forall|i: int|
            0 <= i < self.commits@.len() ==> (#[trigger] self.commits@[i]).0 == self.parents@[i]
                && self.commits@[i].1.tree == self.roots@[i + 1]
        &&& match self.walk {
            Some(walk) => {
                &&& walk.wf()
                &&& walk.root() == self.roots@.last()
                &&& walk.path() == self.path@
                &&& self.path@.len() > 0
            },
            None => true,
        }
        &&& forall|trees: TreeStore, i: int|
            #![trigger crate::replies::answers(self.settled@, trees), self.results@[i]]
            crate::replies::answers(self.settled@, trees) && 0 <= i < self.results@.len()
                ==> self.results@[i] == facts_at(trees, self.roots@[i], self.path@)
    }

    /// Begin with a commit.
    pub fn new(path: &'a GitPath, mode: HistoryTraversal, commit: &Commit) -> (result: PathProbe<
        'a,
    >)
        ensures
            result.wf(),
            result.begins(path@, mode, *commit),
    {
        let parents: Vec<ObjectId> = match mode {
            HistoryTraversal::FirstParent => {
                let mut first: Vec<ObjectId> = Vec::new();
                if commit.parents.len() > 0 {
                    first.push(commit.parents[0]);
                }
                assert(first@ =~= compared_parents(mode, *commit));
                first
            },
            HistoryTraversal::AllParents => copy_oids(commit.parents.as_slice()),
        };
        let mut results: Vec<Option<EntryFacts>> = Vec::new();
        let walk = begin_lookup(path, commit.tree, &mut results);
        let ghost roots = seq![commit.tree];
        let probe = PathProbe {
            path,
            parents,
            walk,
            results,
            roots: Ghost(roots),
            settled: Ghost(Seq::empty()),
            commits: Ghost(Seq::empty()),
        };
        assert(probe.tree_log() =~= TreeLog::empty());
        probe
    }

    /// What the comparison needs next.
    pub fn next(&self) -> (result: ProbeRequest)
        requires
            self.wf(),
        ensures
            match result {
                ProbeRequest::Tree { oid, parent, depth } => self.wants_tree() == Some(
                    (oid, parent@, depth),
                ),
                ProbeRequest::Commit { oid } => self.wants_tree() is None && self.wants_commit()
                    == Some(oid),
                ProbeRequest::Done => self.done() && self.wants_tree() is None
                    && self.wants_commit() is None,
            },
    {
        match &self.walk {
            Some(walk) => {
                let (oid, parent, depth) = walk.request();
                ProbeRequest::Tree { oid, parent: parent.duplicate(), depth }
            },
            None => if self.results.len() - 1 < self.parents.len() {
                ProbeRequest::Commit { oid: self.parents[self.results.len() - 1] }
            } else {
                ProbeRequest::Done
            },
        }
    }

    /// Hand back the entries of the tree that was asked for. Below anything but a
    /// tree the path is absent.
    pub fn accept_tree(&mut self, entries: Vec<TreeEntry>) -> (result: Result<(), Error>)
        requires
            old(self).wf(),
            old(self).wants_tree() is Some,
        ensures
            old(self).takes_tree(entries@, *final(self), result),
            result is Ok ==> final(self).wf(),
    {
        let ghost before = *self;
        if let Some(mut walk) = self.walk.take() {
            let ghost list = entries@;
            let ghost key = (walk.tree(), walk.parent());
            let found: Option<EntryFacts> = match walk.accept(entries) {
                Ok(EntryStep::Descend) => {
                    self.walk = Some(walk);
                    proof {
                        assert(self.tree_log() =~= before.tree_log().push((key, list)));
                    }
                    return Ok(());
                },
                Ok(EntryStep::Resolved(found)) => match &found {
                    Some(entry) => Some(
                        EntryFacts { kind: entry.kind, oid: entry.oid, mode: entry.mode },
                    ),
                    None => None,
                },
                Err(Error::PathComponentNotTree { .. }) => None,
                Err(error) => {
                    return Err(error);
                },
            };
            self.results.push(found);
            self.settled = Ghost(before.settled@ + walk.log());
            proof {
                assert(self.tree_log() =~= before.tree_log().push((key, list)));
                assert forall|trees: TreeStore, i: int|
                    #![trigger crate::replies::answers(self.settled@, trees), self.results@[i]]
                    crate::replies::answers(self.settled@, trees) && 0 <= i
                        < self.results@.len() implies self.results@[i] == facts_at(
                    trees,
                    self.roots@[i],
                    self.path@,
                ) by {
                    lemma_answers_split(before.settled@, walk.log(), trees);
                    if i < before.results@.len() {
                        assert(self.results@[i] == before.results@[i]);
                    }
                }
            }
        }
        Ok(())
    }

    /// Hand back the parent commit that was asked for.
    pub fn accept_commit(&mut self, commit: &Commit)
        requires
            old(self).wf(),
            old(self).wants_commit() is Some,
        ensures
            final(self).wf(),
            old(self).takes_commit(*commit, *final(self)),
    {
        let ghost before = *self;
        let ghost oid = self.wants_commit()->0;
        self.roots = Ghost(before.roots@.push(commit.tree));
        self.commits = Ghost(before.commits@.push((oid, *commit)));
        self.walk = begin_lookup(self.path, commit.tree, &mut self.results);
        proof {
            assert(self.tree_log() =~= before.tree_log());
            assert forall|i: int| 0 <= i < self.commits@.len() implies (
            #[trigger] self.commits@[i]).0 == self.parents@[i] && self.commits@[i].1.tree
                == self.roots@[i + 1] by {
                if i < before.commits@.len() {
                    assert(self.commits@[i] == before.commits@[i]);
                }
            }
            assert forall|trees: TreeStore, i: int|
                #![trigger crate::replies::answers(self.settled@, trees), self.results@[i]]
                crate::replies::answers(self.settled@, trees) && 0 <= i
                    < self.results@.len() implies self.results@[i] == facts_at(
                trees,
                self.roots@[i],
                self.path@,
            ) by {
                if i < before.results@.len() {
                    assert(self.results@[i] == before.results@[i]);
                }
            }
        }
    }

    /// Each settled lookup found what stands at the path, whatever else the stores hold.
    pub proof fn settled_lookups_stand(self, commits: Map<ObjectId, Commit>, trees: TreeStore)
        requires
            self.wf(),
            crate::replies::answers(self.commit_log(), commits),
            crate::replies::answers(self.tree_log(), trees),
        ensures
            self.found().len() <= self.parents().len() + 1,
            forall|i: int|
                0 <= i < self.found().len() ==> #[trigger] self.found()[i] == facts_at(
                    trees,
                    if i == 0 {
                        self.tree()
                    } else {
                        commits[self.parents()[i - 1]].tree
                    },
                    self.path(),
                ),
    {
        if let Some(walk) = self.walk {
            lemma_answers_split(self.settled@, walk.log(), trees);
        }
        assert forall|i: int| 0 <= i < self.found().len() implies #[trigger] self.found()[i]
            == facts_at(
            trees,
            if i == 0 {
                self.tree()
            } else {
                commits[self.parents()[i - 1]].tree
            },
            self.path(),
        ) by {
            if i > 0 {
                let entry = self.commits@[i - 1];
                assert(commits[entry.0] == entry.1);
            }
        }
    }

    /// Whatever else the stores hold, the commit changed the path this way.
    pub open spec fn concludes(self, verdict: Option<ChangeKind>) -> bool {
        forall|commits: Map<ObjectId, Commit>, trees: TreeStore|
            #![trigger crate::replies::answers(self.commit_log(), commits), crate::replies::answers(self.tree_log(), trees)]
            crate::replies::answers(self.commit_log(), commits) && crate::replies::answers(
                self.tree_log(),
                trees,
            ) ==> verdict == change_kind(
                facts_at(trees, self.tree(), self.path()),
                parent_facts(commits, trees, self.parents(), self.path()),
            )
    }

    /// How the commit changed the path, once everything has been compared.
    pub fn verdict(&self) -> (result: Option<ChangeKind>)
        requires
            self.wf(),
            self.done(),
        ensures
            self.concludes(result),
    {
        let ghost found = self.results@.subrange(1, self.results@.len() as int);
        let result = path_change(
            self.results[0],
            &self.results.as_slice()[1..self.results.len()],
        );
        proof {
            assert(self.tree_log() == self.settled@);
            assert forall|commits: Map<ObjectId, Commit>, trees: TreeStore|
                #![trigger crate::replies::answers(self.commit_log(), commits), crate::replies::answers(self.tree_log(), trees)]
                crate::replies::answers(self.commit_log(), commits) && crate::replies::answers(
                    self.tree_log(),
                    trees,
                ) implies result == change_kind(
                facts_at(trees, self.tree(), self.path()),
                parent_facts(commits, trees, self.parents(), self.path()),
            ) by {
                let parents = parent_facts(commits, trees, self.parents(), self.path());
                assert forall|i: int| 0 <= i < parents.len() implies #[trigger] parents[i]
                    == found[i] by {
                    let entry = self.commits@[i];
                    assert(commits[entry.0] == entry.1);
                    assert(self.results@[i + 1] == found[i]);
                }
                assert(found =~= parents);
                let first = self.results@[0];
            }
        }
        result
    }
}

/// Begin to look a path up in a root tree; the root itself needs no reading.
fn begin_lookup<'a>(
    path: &'a GitPath,
    root: ObjectId,
    results: &mut Vec<Option<EntryFacts>>,
) -> (walk: Option<EntryWalk<'a>>)
    ensures
        match walk {
            Some(walk) => {
                &&& path@.len() > 0
                &&& final(results)@ == old(results)@
                &&& walk.wf()
                &&& walk.root() == root
                &&& walk.path() == path@
                &&& walk.log() == TreeLog::empty()
                &&& walk.tree() == root
                &&& walk.parent() == Seq::<u8>::empty()
                &&& walk.depth() == 1
                &&& walk.offset() == 0
            },
            None => {
                &&& path@.len() == 0
                &&& final(results)@ == old(results)@.push(
                    Some(EntryFacts { kind: EntryKind::Tree, oid: root, mode: EntryMode::Tree }),
                )
            },
        },
{
    if path.is_root() {
        results.push(
            Some(EntryFacts { kind: EntryKind::Tree, oid: root, mode: EntryMode::Tree }),
        );
        None
    } else {
        Some(EntryWalk::new(root, path))
    }
}

/// A comparison begins with a commit's tree and the parents that its history follows: the
/// first of them, or all.
pub proof fn what_a_commit_is_compared_with<'a>(
    probe: PathProbe<'a>,
    path: Seq<u8>,
    mode: HistoryTraversal,
    commit: Commit,
)
    requires
        probe.begins(path, mode, commit),
    ensures
        probe.path() == path,
        probe.tree() == commit.tree,
        mode == HistoryTraversal::AllParents ==> probe.parents() == commit.parents@,
        mode == HistoryTraversal::FirstParent && commit.parents@.len() > 0 ==> probe.parents()
            == seq![commit.parents@[0]],
        commit.parents@.len() == 0 ==> probe.parents().len() == 0,
        path.len() == 0 ==> probe.found() == seq![
            Some(EntryFacts { kind: EntryKind::Tree, oid: commit.tree, mode: EntryMode::Tree }),
        ],
        path.len() > 0 ==> probe.found().len() == 0 && probe.wants_tree() == Some(
            (commit.tree, Seq::<u8>::empty(), 1u64),
        ),
{
    assert(probe.parents() =~= compared_parents(mode, commit));
    if mode == HistoryTraversal::FirstParent && commit.parents@.len() > 0 {
        assert(probe.parents() =~= seq![commit.parents@[0]]);
    }
}

/// The verdict on a commit is how the path changed between its parents and it, in all
/// stores that give the answers which the comparison was given.
pub proof fn a_verdict_compares_the_commit_with_its_parents<'a>(
    probe: PathProbe<'a>,
    verdict: Option<ChangeKind>,
    commits: Map<ObjectId, Commit>,
    trees: TreeStore,
)
    requires
        probe.concludes(verdict),
        crate::replies::answers(probe.commit_log(), commits),
        crate::replies::answers(probe.tree_log(), trees),
    ensures
        verdict == change_kind(
            facts_at(trees, probe.tree(), probe.path()),
            Seq::new(
                probe.parents().len(),
                |i: int| facts_at(trees, commits[probe.parents()[i]].tree, probe.path()),
            ),
        ),
{
    assert(parent_facts(commits, trees, probe.parents(), probe.path()) =~= Seq::new(
        probe.parents().len(),
        |i: int| facts_at(trees, commits[probe.parents()[i]].tree, probe.path()),
    ));
}

} // verus!
