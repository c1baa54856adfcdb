use vstd::prelude::*;

use crate::error::Error;
use crate::model::TreeEntry;
use crate::oid::{EntryKind, EntryMode, ObjectId};
use crate::path::{next_depth, GitPath};

verus! {

/// Trees by their identity and the path under which their entries are listed.
pub type TreeStore = Map<(ObjectId, Seq<u8>), Seq<TreeEntry>>;

/// The answers that a traversal got for the trees it asked for.
pub type TreeLog = Seq<((ObjectId, Seq<u8>), Seq<TreeEntry>)>;

/// What stands at a path.
pub enum Lookup {
    Found(TreeEntry),
    Missing,
    NotTree(EntryKind),
}

/// The first entry of a list with a name, from an index on.
pub open spec fn named_from(entries: Seq<TreeEntry>, name: Seq<u8>, from: int) -> Option<TreeEntry>
    decreases entries.len() - from,
{
    if from < 0 || from >= entries.len() {
        None
    } else if crate::path::file_name(entries[from].path@) == Some(name) {
        Some(entries[from])
    } else {
        named_from(entries, name, from + 1)
    }
}

/// The entry of a list with a name.
pub open spec fn named(entries: Seq<TreeEntry>, name: Seq<u8>) -> Option<TreeEntry> {
    named_from(entries, name, 0)
}

proof fn lemma_first_of_name(entries: Seq<TreeEntry>, name: Seq<u8>, from: int)
    requires
        0 <= from,
    ensures
        named_from(entries, name, from) is None ==> forall|k: int|
            from <= k < entries.len() ==> crate::path::file_name((#[trigger] entries[k]).path@)
                != Some(name),
        named_from(entries, name, from) matches Some(entry) ==> exists|at: int|
            from <= at < entries.len() && (#[trigger] entries[at]) == entry
                && crate::path::file_name(entry.path@) == Some(name) && forall|k: int|
                from <= k < at ==> crate::path::file_name((#[trigger] entries[k]).path@) != Some(
                    name,
                ),
    decreases entries.len() - from,
{
    if from < entries.len() {
        if crate::path::file_name(entries[from].path@) == Some(name) {
            assert(entries[from] == named_from(entries, name, from)->0);
        } else {
            lemma_first_of_name(entries, name, from + 1);
            if let Some(entry) = named_from(entries, name, from) {
                let at = choose|at: int|
                    from + 1 <= at < entries.len() && (#[trigger] entries[at]) == entry
                        && crate::path::file_name(entry.path@) == Some(name) && forall|k: int|
                        from + 1 <= k < at ==> crate::path::file_name((#[trigger] entries[k]).path@)
                            != Some(name);
                assert(entries[at] == entry);
            }
        }
    }
}

/// Of the entries of a tree the first with the name that is looked for is taken, whatever
/// it is; none is taken exactly if none has the name.
pub proof fn the_first_entry_of_a_name_is_taken(entries: Seq<TreeEntry>, name: Seq<u8>)
    ensures
        named(entries, name) is None ==> forall|k: int|
            0 <= k < entries.len() ==> crate::path::file_name((#[trigger] entries[k]).path@)
                != Some(name),
        named(entries, name) matches Some(entry) ==> exists|at: int|
            0 <= at < entries.len() && (#[trigger] entries[at]) == entry && crate::path::file_name(
                entry.path@,
            ) == Some(name) && forall|k: int|
                0 <= k < at ==> crate::path::file_name((#[trigger] entries[k]).path@) != Some(
                    name,
                ),
{
    lemma_first_of_name(entries, name, 0);
}

/// Follow a path, from one of its components on, through the trees of a store.
pub open spec fn lookup_from(
    trees: TreeStore,
    tree: ObjectId,
    parent: Seq<u8>,
    path: Seq<u8>,
    start: int,
) -> Lookup
    decreases path.len() - start via lookup_from_decreases
{
    let end = crate::path::component_end(path, start);
    match named(trees[(tree, parent)], path.subrange(start, end)) {
        None => Lookup::Missing,
        Some(entry) => if end >= path.len() || end < start || start < 0 {
            Lookup::Found(entry)
        } else if entry.kind != EntryKind::Tree {
            Lookup::NotTree(entry.kind)
        } else {
            lookup_from(trees, entry.oid, entry.path@, path, end + 1)
        },
    }
}

#[via_fn]
proof fn lookup_from_decreases(
    trees: TreeStore,
    tree: ObjectId,
    parent: Seq<u8>,
    path: Seq<u8>,
    start: int,
) {
}

/// What stands at a path that is not the root.
pub open spec fn lookup(trees: TreeStore, root: ObjectId, path: Seq<u8>) -> Lookup {
    lookup_from(trees, root, Seq::empty(), path, 0)
}

/// The entry that stands for the root tree itself.
pub fn root_entry(root: ObjectId) -> (result: TreeEntry)
    ensures
        result.path@ == Seq::<u8>::empty(),
        result.oid == root,
        result.mode == EntryMode::Tree,
        result.kind == EntryKind::Tree,
        result.size is None,
{
    TreeEntry {
        path: GitPath::root(),
        oid: root,
        mode: EntryMode::Tree,
        kind: EntryKind::Tree,
        size: None,
    }
}

/// Take the entry with a name out of a list.
pub fn take_named(entries: Vec<TreeEntry>, name: &[u8]) -> (result: Option<TreeEntry>)
    ensures
        result == named(entries@, name@),
{
    let mut at: usize = 0;
    while at < entries.len()
        invariant
            at <= entries@.len(),
            named(entries@, name@) == named_from(entries@, name@, at as int),
        decreases entries@.len() - at,
    {
        if entries[at].path.has_name(name) {
            let mut rest = entries;
            return Some(rest.swap_remove(at));
        }
        at += 1;
    }
    None
}

/// Whether the traversal of a path goes on.
pub enum EntryStep {
    /// Another tree has to be read.
    Descend,
    /// The final entry, if there is one.
    Resolved(Option<TreeEntry>),
}

/// The traversal of one path, a tree at a time.
pub struct EntryWalk<'a> {
    path: &'a GitPath,
    offset: usize,
    tree: ObjectId,
    parent: GitPath,
    depth: u64,
    root: Ghost<ObjectId>,
    log: Ghost<TreeLog>,
}

impl<'a> EntryWalk<'a> {
    pub closed spec fn path(self) -> Seq<u8> {
        self.path@
    }

    pub closed spec fn root(self) -> ObjectId {
        self.root@
    }

    /// The tree to read next.
    pub closed spec fn tree(self) -> ObjectId {
        self.tree
    }

    /// The path of the tree to read next.
    pub closed spec fn parent(self) -> Seq<u8> {
        self.parent@
    }

    /// The depth that reading the next tree reaches.
    pub closed spec fn depth(self) -> u64 {
        self.depth
    }

    /// Where the component to find next begins.
    pub closed spec fn offset(self) -> int {
        self.offset as int
    }

    /// The trees read so far.
    pub closed spec fn log(self) -> TreeLog {
        self.log@
    }

    /// What remains to be followed leads where the whole path leads.
    pub closed spec fn wf(self) -> bool {
        &&& self.offset <= self.path@.len()
        &&& self.path@.len() > 0
        &&& self.log@.len() + crate::path::components_from(self.path@, self.offset as int).len()
            == crate::path::components(self.path@).len()
        &&& forall|trees: TreeStore| #[trigger]
            crate::replies::answers(self.log@, trees) ==> lookup(trees, self.root@, self.path@)
                == lookup_from(trees, self.tree, self.parent@, self.path@, self.offset as int)
    }

    /// Whatever else the store holds, the path leads to this.
    pub open spec fn leads_to(self, outcome: Lookup) -> bool {
        forall|trees: TreeStore| #[trigger]
            crate::replies::answers(self.log(), trees) ==> lookup(trees, self.root(), self.path())
                == outcome
    }

    /// The component to find next.
    pub open spec fn component(self) -> Seq<u8> {
        self.path().subrange(
            self.offset(),
            crate::path::component_end(self.path(), self.offset()),
        )
    }

    /// Whether the component to find next is the last.
    pub open spec fn at_last(self) -> bool {
        crate::path::component_end(self.path(), self.offset()) >= self.path().len()
    }

    /// Begin at the root tree.
    pub fn new(root: ObjectId, path: &'a GitPath) -> (result: EntryWalk<'a>)
        requires
            path@.len() > 0,
        ensures
            result.wf(),
            result.path() == path@,
            result.root() == root,
            result.tree() == root,
            result.parent() == Seq::<u8>::empty(),
            result.depth() == 1,
            result.offset() == 0,
            result.log() == TreeLog::empty(),
    {
        EntryWalk {
            path,
            offset: 0,
            tree: root,
            parent: GitPath::root(),
            depth: 1,
            root: Ghost(root),
            log: Ghost(Seq::empty()),
        }
    }

    /// The tree to read next, the path to list it under, and the depth reached.
    pub fn request(&self) -> (result: (ObjectId, &GitPath, u64))
        ensures
            result.0 == self.tree(),
            result.1@ == self.parent(),
            result.2 == self.depth(),
    {
        (self.tree, &self.parent, self.depth)
    }

    /// Hand back the entries of the tree that was asked for. No path needs more
    /// trees than it has components.
    pub fn accept(&mut self, entries: Vec<TreeEntry>) -> (result: Result<EntryStep, Error>)
        requires
            old(self).wf(),
        ensures
            final(self).path() == old(self).path(),
            final(self).root() == old(self).root(),
            final(self).log().len() <= crate::path::components(final(self).path()).len(),
            final(self).log() == old(self).log().push(
                ((old(self).tree(), old(self).parent()), entries@),
            ),
            match named(entries@, old(self).component()) {
                None => result == Ok::<EntryStep, Error>(EntryStep::Resolved(None))
                    && final(self).leads_to(Lookup::Missing),
                Some(entry) => if old(self).at_last() {
                    result == Ok::<EntryStep, Error>(EntryStep::Resolved(Some(entry)))
                        && final(self).leads_to(Lookup::Found(entry))
                } else if entry.kind != EntryKind::Tree {
                    result == Err::<EntryStep, Error>(
                        Error::PathComponentNotTree { actual: entry.kind },
                    ) && final(self).leads_to(Lookup::NotTree(entry.kind))
                } else if old(self).depth() == u64::MAX {
                    result == Err::<EntryStep, Error>(crate::path::too_deep())
                } else {
                    &&& result == Ok::<EntryStep, Error>(EntryStep::Descend)
                    &&& final(self).wf()
                    &&& final(self).tree() == entry.oid
                    &&& final(self).parent() == entry.path@
                    &&& final(self).depth() == old(self).depth() + 1
                    &&& final(self).offset() == crate::path::component_end(
                        old(self).path(),
                        old(self).offset(),
                    ) + 1
                },
            },
    {
        let ghost before = *self;
        let ghost key = (before.tree, before.parent@);
        self.log = Ghost(before.log@.push((key, entries@)));
        proof {
            assert forall|trees: TreeStore| #[trigger]
                crate::replies::answers(self.log@, trees) implies trees[key] == entries@ && lookup(
                trees,
                self.root@,
                self.path@,
            ) == lookup_from(
                trees,
                before.tree,
                before.parent@,
                self.path@,
                before.offset as int,
            ) by {
                crate::replies::answers_earlier_questions(before.log@, key, entries@, trees);
            }
        }
        let end: usize = self.path.end_of_component(self.offset);
        let name: &[u8] = &self.path.as_bytes()[self.offset..end];
        match take_named(entries, name) {
            None => Ok(EntryStep::Resolved(None)),
            Some(entry) => {
                if end == self.path.as_bytes().len() {
                    return Ok(EntryStep::Resolved(Some(entry)));
                }
                if entry.kind != EntryKind::Tree {
                    return Err(Error::PathComponentNotTree { actual: entry.kind });
                }
                self.depth = next_depth(self.depth)?;
                self.tree = entry.oid;
                self.parent = entry.path;
                self.offset = end + 1;
                Ok(EntryStep::Descend)
            },
        }
    }
}

/// What a walk says a path leads to is what looking the path up finds in every store
/// that gives the answers which the walk was given.
pub proof fn a_walk_ends_where_the_path_leads<'a>(
    walk: EntryWalk<'a>,
    outcome: Lookup,
    trees: TreeStore,
)
    requires
        walk.leads_to(outcome),
        forall|i: int|
            0 <= i < walk.log().len() ==> trees[(#[trigger] walk.log()[i]).0] == walk.log()[i].1,
    ensures
        lookup(trees, walk.root(), walk.path()) == outcome,
{
    assert(crate::replies::answers(walk.log(), trees));
}

} // verus!
