use vstd::prelude::*;

use crate::entry::{TreeLog, TreeStore};
use crate::error::Error;
use crate::model::TreeEntry;
use crate::oid::{EntryKind, EntryMode, ObjectId};
use crate::path::{next_depth, GitPath};
use crate::sort::{sort_by_path, Pathed};

verus! {

/// One entry of an archive; blobs and symbolic links carry their bytes.
#[derive(Debug, PartialEq, Eq)]
pub struct ArchiveEntry {
    pub path: GitPath,
    pub oid: ObjectId,
    pub mode: EntryMode,
    pub kind: EntryKind,
    pub bytes: Option<Vec<u8>>,
}

impl Pathed for ArchiveEntry {
    open spec fn at(&self) -> Seq<u8> {
        self.path@
    }

    fn path_ref(&self) -> (result: &GitPath) {
        &self.path
    }
}

impl ArchiveEntry {
    /// Whether this is a tree entry with the given content.
    pub open spec fn holds(self, entry: TreeEntry, content: Option<Vec<u8>>) -> bool {
        &&& self.path == entry.path
        &&& self.oid == entry.oid
        &&& self.mode == entry.mode
        &&& self.kind == entry.kind
        &&& self.bytes == content
    }

    /// The size charged for returning an entry.
    pub open spec fn response_bytes(self) -> int {
        self.path@.len() + (match self.bytes {
            Some(bytes) => bytes@.len() as int,
            None => 0,
        })
    }

    /// The response size of one entry, as far as it can be counted.
    pub fn count_response_bytes(&self) -> (result: u64)
        ensures
            result == crate::memory::clamp_u64(self.response_bytes()),
    {
        let content: u64 = match &self.bytes {
            Some(bytes) => bytes.len() as u64,
            None => 0,
        };
        (self.path.as_bytes().len() as u64).saturating_add(content)
    }
}

/// An entry at a depth, followed by everything below it.
pub open spec fn entry_output(trees: TreeStore, entry: TreeEntry, depth: nat) -> Seq<TreeEntry>
    decreases u64::MAX - depth, 0nat, 1nat,
{
    if entry.kind == EntryKind::Tree && depth < u64::MAX {
        seq![entry] + entries_output(trees, trees[(entry.oid, entry.path@)], depth + 1)
    } else {
        seq![entry]
    }
}

/// Entries at a depth, each followed by everything below it.
pub open spec fn entries_output(
    trees: TreeStore,
    entries: Seq<TreeEntry>,
    depth: nat,
) -> Seq<TreeEntry>
    decreases u64::MAX - depth, entries.len() + 1, 0nat,
{
    if entries.len() == 0 {
        Seq::empty()
    } else {
        entry_output(trees, entries[0], depth) + entries_output(
            trees,
            entries.drop_first(),
            depth,
        )
    }
}

/// The entries of a tree that stands at a depth, each followed by everything
/// below it.
pub open spec fn tree_output(
    trees: TreeStore,
    oid: ObjectId,
    parent: Seq<u8>,
    depth: nat,
) -> Seq<TreeEntry> {
    if depth < u64::MAX {
        entries_output(trees, trees[(oid, parent)], depth + 1)
    } else {
        Seq::empty()
    }
}

/// Every entry below a root tree, each before what it contains.
pub open spec fn archive_order(trees: TreeStore, root: ObjectId) -> Seq<TreeEntry> {
    tree_output(trees, root, Seq::empty(), 0)
}

/// What a traversal has still to do.
pub enum ArchiveWork {
    Tree { oid: ObjectId, parent: GitPath, depth: u64 },
    Entry { entry: TreeEntry, depth: u64 },
}

/// What one piece of work shows.
pub open spec fn work_output(trees: TreeStore, work: ArchiveWork) -> Seq<TreeEntry> {
    match work {
        ArchiveWork::Tree { oid, parent, depth } => tree_output(trees, oid, parent@, depth as nat),
        ArchiveWork::Entry { entry, depth } => entry_output(trees, entry, depth as nat),
    }
}

/// What a stack of work shows, its last piece first.
pub open spec fn stack_output(trees: TreeStore, stack: Seq<ArchiveWork>) -> Seq<TreeEntry>
    decreases stack.len(),
{
    if stack.len() == 0 {
        Seq::empty()
    } else {
        work_output(trees, stack.last()) + stack_output(trees, stack.drop_last())
    }
}

/// Whether work is that of reading a tree under a path at a depth.
pub open spec fn is_tree_work(
    work: ArchiveWork,
    tree: ObjectId,
    under: Seq<u8>,
    at_depth: u64,
) -> bool {
    work matches ArchiveWork::Tree { oid, parent, depth } && oid == tree && parent@ == under
        && depth == at_depth
}

/// What pending work becomes when an entry has been shown: a tree is still to be read.
pub open spec fn put_off(
    before: Seq<ArchiveWork>,
    entry: TreeEntry,
    depth: u64,
    after: Seq<ArchiveWork>,
) -> bool {
    if entry.kind == EntryKind::Tree {
        &&& after.len() == before.len() + 1
        &&& after.drop_last() == before
        &&& is_tree_work(after.last(), entry.oid, entry.path@, depth)
    } else {
        after == before
    }
}

/// The work that the entries of a tree stand for, the first of them on top.
pub open spec fn entry_works(entries: Seq<TreeEntry>, depth: u64) -> Seq<ArchiveWork> {
    Seq::new(
        entries.len(),
        |i: int| ArchiveWork::Entry { entry: entries[entries.len() - 1 - i], depth },
    )
}

proof fn lemma_entries_stacked(
    trees: TreeStore,
    stack: Seq<ArchiveWork>,
    entries: Seq<TreeEntry>,
    depth: u64,
)
    ensures
        stack_output(trees, stack + entry_works(entries, depth)) == entries_output(
            trees,
            entries,
            depth as nat,
        ) + stack_output(trees, stack),
    decreases entries.len(),
{
    let works = entry_works(entries, depth);
    if entries.len() == 0 {
        assert(stack + works =~= stack);
        assert(entries_output(trees, entries, depth as nat) + stack_output(trees, stack)
            =~= stack_output(trees, stack));
    } else {
        let rest = entries.drop_first();
        lemma_entries_stacked(trees, stack, rest, depth);
        assert((stack + works).drop_last() =~= stack + entry_works(rest, depth));
        assert((stack + works).last() == (ArchiveWork::Entry { entry: entries[0], depth }));
        assert(entry_output(trees, entries[0], depth as nat) + (entries_output(
            trees,
            rest,
            depth as nat,
        ) + stack_output(trees, stack)) =~= entries_output(trees, entries, depth as nat)
            + stack_output(trees, stack));
    }
}

/// What a traversal needs next.
#[derive(Debug, PartialEq, Eq)]
pub enum ArchiveRequest {
    /// Read a tree and list it under a path.
    Tree { oid: ObjectId, parent: GitPath },
    /// Account for an entry at a depth, and read its blob if it has one.
    Entry { depth: u64, blob: Option<(ObjectId, EntryMode)> },
    /// Everything has been shown.
    Done,
}

/// An incremental traversal of everything below a root tree.
pub struct ArchiveWalk {
    pending: Vec<ArchiveWork>,
    current: Option<ArchiveWork>,
    root: Ghost<ObjectId>,
    shown: Ghost<Seq<TreeEntry>>,
    log: Ghost<TreeLog>,
}

impl ArchiveWalk {
    pub closed spec fn root(self) -> ObjectId {
        self.root@
    }

    /// The entries shown so far.
    pub closed spec fn shown(self) -> Seq<TreeEntry> {
        self.shown@
    }

    /// The trees read so far.
    pub closed spec fn log(self) -> TreeLog {
        self.log@
    }

    /// The work that the last request belongs to.
    pub closed spec fn current(self) -> Option<ArchiveWork> {
        self.current
    }

    /// The work that is put off until the current work is done.
    pub closed spec fn waiting(self) -> Seq<ArchiveWork> {
        self.pending@
    }

    spec fn stack(self) -> Seq<ArchiveWork> {
        match self.current {
            Some(work) => self.pending@.push(work),
            None => self.pending@,
        }
    }

    /// Whatever else the store holds, what was shown and what is pending are the
    /// whole archive in order.
    pub closed spec fn wf(self) -> bool {
        forall|trees: TreeStore| #[trigger]
            crate::replies::answers(self.log@, trees) ==> archive_order(trees, self.root@)
                == self.shown@ + stack_output(trees, self.stack())
    }

    /// Everything below the root has been shown.
    pub open spec fn complete(self) -> bool {
        forall|trees: TreeStore| #[trigger]
            crate::replies::answers(self.log(), trees) ==> archive_order(trees, self.root())
                == self.shown()
    }

    /// The entry that the archive shows after those shown.
    pub open spec fn due(self, entry: TreeEntry) -> bool {
        forall|trees: TreeStore| #[trigger]
            crate::replies::answers(self.log(), trees) ==> archive_order(trees, self.root()).len()
                > self.shown().len() && archive_order(trees, self.root()).subrange(
                0,
                1 + self.shown().len() as int,
            ) == self.shown().push(entry)
    }

    /// Nothing has been asked for yet; the root is waiting.
    pub open spec fn is_new(self) -> bool {
        &&& self.shown() == Seq::<TreeEntry>::empty()
        &&& self.log() == TreeLog::empty()
        &&& self.current() is None
        &&& self.waiting().len() == 1
        &&& is_tree_work(self.waiting()[0], self.root(), Seq::empty(), 0)
    }

    /// Begin at a root tree.
    pub fn new(root: ObjectId) -> (result: ArchiveWalk)
        ensures
            result.wf(),
            result.root() == root,
            result.is_new(),
            result.waiting().len() == 1,
            result.waiting()[0] matches ArchiveWork::Tree {
                oid,
                parent,
                depth,
            } && oid == root && parent@.len() == 0 && depth == 0,
    {
        let mut pending: Vec<ArchiveWork> = Vec::new();
        pending.push(ArchiveWork::Tree { oid: root, parent: GitPath::root(), depth: 0 });
        let walk = ArchiveWalk {
            pending,
            current: None,
            root: Ghost(root),
            shown: Ghost(Seq::empty()),
            log: Ghost(Seq::empty()),
        };
        proof {
            assert forall|trees: TreeStore| #[trigger]
                crate::replies::answers(walk.log@, trees) implies archive_order(trees, root)
                == walk.shown@ + stack_output(trees, walk.stack()) by {
                let stack = walk.stack();
                reveal_with_fuel(stack_output, 2);
                assert(stack.drop_last().len() == 0);
                assert(walk.shown@ + stack_output(trees, stack) =~= archive_order(trees, root));
            }
        }
        walk
    }

    /// What the traversal needs next. Asking again before it is handed back names
    /// the same need.
    pub fn next(&mut self) -> (result: ArchiveRequest)
        requires
            old(self).wf(),
        ensures
            final(self).wf(),
            final(self).root() == old(self).root(),
            final(self).shown() == old(self).shown(),
            final(self).log() == old(self).log(),
            match old(self).current() {
                Some(work) => final(self).current() == Some(work) && final(self).waiting() == old(
                    self,
                ).waiting(),
                None => if old(self).waiting().len() > 0 {
                    final(self).current() == Some(old(self).waiting().last())
                        && final(self).waiting() == old(self).waiting().drop_last()
                } else {
                    final(self).current() is None && final(self).waiting() == old(self).waiting()
                },
            },
            match final(self).current() {
                Some(ArchiveWork::Tree { oid, parent, depth }) => match result {
                    ArchiveRequest::Tree { oid: wanted, parent: under } => wanted == oid && under@
                        == parent@,
                    _ => false,
                },
                Some(ArchiveWork::Entry { entry, depth }) => result == (ArchiveRequest::Entry {
                    depth,
                    blob: if entry.kind.blob_backed() {
                        Some((entry.oid, entry.mode))
                    } else {
                        None
                    },
                }) && final(self).due(entry),
                None => result == ArchiveRequest::Done && final(self).complete(),
            },
    {
        let ghost before = *self;
        if self.current.is_none() {
            self.current = self.pending.pop();
        }
        proof {
            if before.current is None && self.current is Some {
                assert(before.pending@ =~= self.pending@.push(self.current->0));
            }
            assert(self.stack() == before.stack());
        }
        match &self.current {
            Some(ArchiveWork::Tree { oid, parent, .. }) => ArchiveRequest::Tree {
                oid: *oid,
                parent: parent.duplicate(),
            },
            Some(ArchiveWork::Entry { entry, depth }) => {
                proof {
                    self.lemma_due(*entry, *depth);
                }
                let blob = if entry.kind.is_blob_backed() {
                    Some((entry.oid, entry.mode))
                } else {
                    None
                };
                ArchiveRequest::Entry { depth: *depth, blob }
            },
            None => {
                proof {
                    assert forall|trees: TreeStore| #[trigger]
                        crate::replies::answers(self.log(), trees) implies archive_order(
                        trees,
                        self.root(),
                    ) == self.shown() by {
                        assert(self.shown@ + Seq::<TreeEntry>::empty() =~= self.shown@);
                    }
                }
                ArchiveRequest::Done
            },
        }
    }

    proof fn lemma_due(self, entry: TreeEntry, depth: u64)
        requires
            self.wf(),
            self.current == Some(ArchiveWork::Entry { entry, depth }),
        ensures
            self.due(entry),
    {
        assert forall|trees: TreeStore| #[trigger]
            crate::replies::answers(self.log(), trees) implies archive_order(
            trees,
            self.root(),
        ).len() > self.shown().len() && archive_order(trees, self.root()).subrange(
            0,
            1 + self.shown().len() as int,
        ) == self.shown().push(entry) by {
            let all = archive_order(trees, self.root());
            let rest = stack_output(trees, self.stack());
            assert(all == self.shown@ + rest);
            let first = entry_output(trees, entry, depth as nat);
            assert(first.len() > 0 && first[0] == entry);
            assert(rest[0] == entry);
            assert(all.subrange(0, 1 + self.shown().len() as int) =~= self.shown().push(entry));
        }
    }

    /// Make room for the entries of a tree.
    pub fn reserve(&mut self, entries: usize) -> (result: Result<(), Error>)
        requires
            old(self).wf(),
        ensures
            final(self).wf(),
            final(self).root() == old(self).root(),
            final(self).shown() == old(self).shown(),
            final(self).log() == old(self).log(),
            final(self).current() == old(self).current(),
            final(self).waiting() == old(self).waiting(),
            crate::memory::is_reservation(old(self).waiting(), entries, result),
    {
        let result = crate::memory::reserve(&mut self.pending, entries);
        assert(self.stack() == old(self).stack());
        result
    }

    /// Hand back the entries of the tree that was asked for.
    pub fn accept_tree(&mut self, entries: Vec<TreeEntry>) -> (result: Result<(), Error>)
        requires
            old(self).wf(),
            old(self).current() matches Some(work) && work is Tree,
        ensures
            match old(self).current() {
                Some(ArchiveWork::Tree { oid, parent, depth }) => if depth == u64::MAX {
                    result == Err::<(), Error>(crate::path::too_deep())
                } else {
                    &&& result == Ok::<(), Error>(())
                    &&& final(self).wf()
                    &&& final(self).root() == old(self).root()
                    &&& final(self).shown() == old(self).shown()
                    &&& final(self).log() == old(self).log().push(((oid, parent@), entries@))
                    &&& final(self).current() is None
                    &&& final(self).waiting() == old(self).waiting() + entry_works(
                        entries@,
                        (depth + 1) as u64,
                    )
                    &&& final(self).waiting() == old(self).waiting() + entries@.reverse().map_values(
                        |entry: TreeEntry| ArchiveWork::Entry { entry, depth: (depth + 1) as u64 },
                    )
                },
                _ => false,
            },
    {
        let ghost before = *self;
        if let Some(ArchiveWork::Tree { oid, parent, depth }) = self.current.take() {
            let entry_depth: u64 = next_depth(depth)?;
            let ghost listed = entries@;
            let ghost key = (oid, parent@);
            let mut rest = entries;
            while rest.len() > 0
                invariant
                    rest@.len() <= listed.len(),
                    rest@ == listed.subrange(0, rest@.len() as int),
                    self.pending@ == before.pending@ + entry_works(
                        listed,
                        entry_depth,
                    ).subrange(0, listed.len() - rest@.len()),
                    self.current is None,
                    self.root == before.root,
                    self.shown == before.shown,
                    self.log == before.log,
                decreases rest@.len(),
            {
                if let Some(entry) = rest.pop() {
                    proof {
                        assert(entry == listed[rest@.len() as int]);
                    }
                    self.pending.push(ArchiveWork::Entry { entry, depth: entry_depth });
                    assert(rest@ =~= listed.subrange(0, rest@.len() as int));
                    assert(self.pending@ =~= before.pending@ + entry_works(
                        listed,
                        entry_depth,
                    ).subrange(0, listed.len() - rest@.len()));
                }
            }
            self.log = Ghost(before.log@.push((key, listed)));
            proof {
                assert(entry_works(listed, entry_depth).subrange(0, listed.len() as int)
                    =~= entry_works(listed, entry_depth));
                assert forall|trees: TreeStore| #[trigger]
                    crate::replies::answers(self.log@, trees) implies archive_order(
                    trees,
                    self.root@,
                ) == self.shown@ + stack_output(trees, self.stack()) by {
                    crate::replies::answers_earlier_questions(before.log@, key, listed, trees);
                    lemma_entries_stacked(trees, before.pending@, listed, entry_depth);
                    assert(before.stack().drop_last() =~= before.pending@);
                }
            }
        }
        Ok(())
    }

    /// Hand back the content of the entry that was asked for, and take the entry.
    pub fn accept_entry(&mut self, content: Option<Vec<u8>>) -> (result: Option<ArchiveEntry>)
        requires
            old(self).wf(),
            old(self).current() matches Some(work) && work matches ArchiveWork::Entry {
                entry,
                ..
            } && (content is Some <==> entry.kind.blob_backed()),
        ensures
            match old(self).current() {
                Some(ArchiveWork::Entry { entry, depth }) => {
                    &&& result is Some
                    &&& result->0.holds(entry, content)
                    &&& result->0.path == entry.path
                    &&& result->0.oid == entry.oid
                    &&& result->0.mode == entry.mode
                    &&& result->0.kind == entry.kind
                    &&& result->0.bytes == content
                    &&& result->0.bytes is Some <==> entry.kind.blob_backed()
                    &&& final(self).wf()
                    &&& final(self).root() == old(self).root()
                    &&& final(self).shown() == old(self).shown().push(entry)
                    &&& final(self).log() == old(self).log()
                    &&& final(self).current() is None
                    &&& put_off(old(self).waiting(), entry, depth, final(self).waiting())
                    &&& entry.kind != EntryKind::Tree ==> final(self).waiting() == old(
                        self,
                    ).waiting()
                    &&& entry.kind == EntryKind::Tree ==> {
                        &&& final(self).waiting().len() == old(self).waiting().len() + 1
                        &&& final(self).waiting().drop_last() == old(self).waiting()
                        &&& final(self).waiting().last() matches ArchiveWork::Tree {
                            oid,
                            parent,
                            depth: below,
                        } && oid == entry.oid && parent@ == entry.path@ && below == depth
                    }
                },
                _ => false,
            },
    {
        let ghost before = *self;
        match self.current.take() {
            Some(ArchiveWork::Entry { entry, depth }) => {
                if entry.kind == EntryKind::Tree {
                    self.pending.push(
                        ArchiveWork::Tree {
                            oid: entry.oid,
                            parent: entry.path.duplicate(),
                            depth,
                        },
                    );
                    assert(self.pending@.drop_last() =~= before.pending@);
                }
                self.shown = Ghost(before.shown@.push(entry));
                proof {
                    assert forall|trees: TreeStore| #[trigger]
                        crate::replies::answers(self.log@, trees) implies archive_order(
                        trees,
                        self.root@,
                    ) == self.shown@ + stack_output(trees, self.stack()) by {
                        assert(before.stack().drop_last() =~= before.pending@);
                        if entry.kind == EntryKind::Tree {
                            assert(self.stack().drop_last() =~= before.pending@);
                        } else {
                            assert(self.stack() =~= before.pending@);
                        }
                        assert(before.shown@ + stack_output(trees, before.stack()) =~= self.shown@
                            + stack_output(trees, self.stack()));
                    }
                }
                Some(
                    ArchiveEntry {
                        path: entry.path,
                        oid: entry.oid,
                        mode: entry.mode,
                        kind: entry.kind,
                        bytes: content,
                    },
                )
            },
            _ => None,
        }
    }
}

proof fn lemma_entries_split(trees: TreeStore, entries: Seq<TreeEntry>, depth: nat)
    requires
        entries.len() > 0,
    ensures
        entries_output(trees, entries, depth) == entries_output(trees, entries.drop_last(), depth)
            + entry_output(trees, entries.last(), depth),
    decreases entries.len(),
{
    if entries.len() == 1 {
        reveal_with_fuel(entries_output, 2);
        assert(entries.drop_first().len() == 0);
        assert(entries.drop_last().len() == 0);
        assert(entries_output(trees, entries, depth) =~= entries_output(
            trees,
            entries.drop_last(),
            depth,
        ) + entry_output(trees, entries.last(), depth));
    } else {
        let rest = entries.drop_first();
        lemma_entries_split(trees, rest, depth);
        assert(rest.drop_last() =~= entries.drop_last().drop_first());
        assert(entries_output(trees, entries, depth) =~= entries_output(
            trees,
            entries.drop_last(),
            depth,
        ) + entry_output(trees, entries.last(), depth));
    }
}

/// Everything that a list of works shows, in any order.
pub open spec fn works_content(trees: TreeStore, works: Seq<ArchiveWork>) -> vstd::multiset::Multiset<
    TreeEntry,
>
    decreases works.len(),
{
    if works.len() == 0 {
        vstd::multiset::Multiset::empty()
    } else {
        works_content(trees, works.drop_last()).add(
            work_output(trees, works.last()).to_multiset(),
        )
    }
}

/// A complete traversal of everything below a root tree.
pub struct ArchiveBuilder {
    pending: Vec<ArchiveWork>,
    siblings: Vec<TreeEntry>,
    sibling_depth: u64,
    current: Option<ArchiveWork>,
    entries: Vec<ArchiveEntry>,
    root: Ghost<ObjectId>,
    shown: Ghost<Seq<TreeEntry>>,
    log: Ghost<TreeLog>,
}

/// Whether archive entries stand for tree entries, one for one, with content exactly
/// where a blob holds it.
pub open spec fn stands_for(built: Seq<ArchiveEntry>, entries: Seq<TreeEntry>) -> bool {
    &&& built.len() == entries.len()
    &&& forall|i: int|
        0 <= i < built.len() ==> (#[trigger] built[i]).holds(entries[i], built[i].bytes) && (
        built[i].bytes is Some <==> entries[i].kind.blob_backed())
}

impl ArchiveBuilder {
    pub closed spec fn root(self) -> ObjectId {
        self.root@
    }

    /// The tree entries accounted for so far.
    pub closed spec fn shown(self) -> Seq<TreeEntry> {
        self.shown@
    }

    /// The archive entries built so far, one for each tree entry.
    pub closed spec fn built(self) -> Seq<ArchiveEntry> {
        self.entries@
    }

    /// The trees read so far.
    pub closed spec fn log(self) -> TreeLog {
        self.log@
    }

    /// The work that the last request belongs to.
    pub closed spec fn current(self) -> Option<ArchiveWork> {
        self.current
    }

    /// The trees that are still to be read once the siblings are done, the next one last.
    pub closed spec fn waiting(self) -> Seq<ArchiveWork> {
        self.pending@
    }

    /// The entries of the last tree that are still to be shown, the next one last.
    pub closed spec fn siblings(self) -> Seq<TreeEntry> {
        self.siblings@
    }

    /// The depth of those entries.
    pub closed spec fn sibling_depth(self) -> u64 {
        self.sibling_depth
    }

    spec fn left(self, trees: TreeStore) -> vstd::multiset::Multiset<TreeEntry> {
        works_content(trees, self.pending@).add(
            entries_output(trees, self.siblings@, self.sibling_depth as nat).to_multiset(),
        ).add(
            match self.current {
                Some(work) => work_output(trees, work).to_multiset(),
                None => vstd::multiset::Multiset::empty(),
            },
        )
    }

    /// Whatever else the store holds, what was accounted for and what is left are
    /// together the whole archive.
    pub closed spec fn wf(self) -> bool {
        &&& stands_for(self.entries@, self.shown@)
        &&& self.current matches Some(work) ==> work is Tree ==> self.siblings@.len() == 0
        &&& forall|trees: TreeStore| #[trigger]
            crate::replies::answers(self.log@, trees) ==> archive_order(
                trees,
                self.root@,
            ).to_multiset() == self.shown@.to_multiset().add(self.left(trees))
    }

    /// Everything below the root has been accounted for, exactly once.
    pub open spec fn complete(self) -> bool {
        forall|trees: TreeStore| #[trigger]
            crate::replies::answers(self.log(), trees) ==> archive_order(
                trees,
                self.root(),
            ).to_multiset() == self.shown().to_multiset()
    }

    /// Nothing has been asked for yet; the root is waiting.
    pub open spec fn is_new(self) -> bool {
        &&& self.shown() == Seq::<TreeEntry>::empty()
        &&& self.built() == Seq::<ArchiveEntry>::empty()
        &&& self.log() == TreeLog::empty()
        &&& self.current() is None
        &&& self.siblings() == Seq::<TreeEntry>::empty()
        &&& self.waiting().len() == 1
        &&& is_tree_work(self.waiting()[0], self.root(), Seq::empty(), 0)
    }

    /// Begin at a root tree.
    pub fn new(root: ObjectId) -> (result: ArchiveBuilder)
        ensures
            result.wf(),
            result.root() == root,
            result.is_new(),
            result.waiting().len() == 1,
            result.waiting()[0] matches ArchiveWork::Tree {
                oid,
                parent,
                depth,
            } && oid == root && parent@.len() == 0 && depth == 0,
    {
        let mut pending: Vec<ArchiveWork> = Vec::new();
        pending.push(ArchiveWork::Tree { oid: root, parent: GitPath::root(), depth: 0 });
        let builder = ArchiveBuilder {
            pending,
            siblings: Vec::new(),
            sibling_depth: 0,
            current: None,
            entries: Vec::new(),
            root: Ghost(root),
            shown: Ghost(Seq::empty()),
            log: Ghost(Seq::empty()),
        };
        proof {
            broadcast use vstd::seq_lib::group_to_multiset_ensures;

            assert forall|trees: TreeStore| #[trigger]
                crate::replies::answers(builder.log@, trees) implies archive_order(
                trees,
                root,
            ).to_multiset() == builder.shown@.to_multiset().add(builder.left(trees)) by {
                reveal_with_fuel(works_content, 2);
                assert(builder.pending@.drop_last().len() == 0);
                assert(builder.shown@.to_multiset().add(builder.left(trees)) =~= archive_order(
                    trees,
                    root,
                ).to_multiset());
            }
        }
        builder
    }

    /// What the traversal needs next. Asking again before it is handed back names
    /// the same need.
    pub fn next(&mut self) -> (result: ArchiveRequest)
        requires
            old(self).wf(),
        ensures
            final(self).wf(),
            final(self).root() == old(self).root(),
            final(self).shown() == old(self).shown(),
            final(self).built() == old(self).built(),
            final(self).log() == old(self).log(),
            final(self).sibling_depth() == old(self).sibling_depth(),
            match old(self).current() {
                Some(work) => {
                    &&& final(self).current() == Some(work)
                    &&& final(self).siblings() == old(self).siblings()
                    &&& final(self).waiting() == old(self).waiting()
                },
                None => if old(self).siblings().len() > 0 {
                    &&& final(self).current() == Some(
                        ArchiveWork::Entry {
                            entry: old(self).siblings().last(),
                            depth: old(self).sibling_depth(),
                        },
                    )
                    &&& final(self).siblings() == old(self).siblings().drop_last()
                    &&& final(self).waiting() == old(self).waiting()
                } else if old(self).waiting().len() > 0 {
                    &&& final(self).current() == Some(old(self).waiting().last())
                    &&& final(self).siblings() == old(self).siblings()
                    &&& final(self).waiting() == old(self).waiting().drop_last()
                } else {
                    &&& final(self).current() is None
                    &&& final(self).siblings() == old(self).siblings()
                    &&& final(self).waiting() == old(self).waiting()
                },
            },
            match final(self).current() {
                Some(ArchiveWork::Tree { oid, parent, depth }) => match result {
                    ArchiveRequest::Tree { oid: wanted, parent: under } => wanted == oid && under@
                        == parent@,
                    _ => false,
                },
                Some(ArchiveWork::Entry { entry, depth }) => result == (ArchiveRequest::Entry {
                    depth,
                    blob: if entry.kind.blob_backed() {
                        Some((entry.oid, entry.mode))
                    } else {
                        None
                    },
                }),
                None => result == ArchiveRequest::Done && final(self).complete(),
            },
    {
        let ghost before = *self;
        if self.current.is_none() {
            match self.siblings.pop() {
                Some(entry) => {
                    self.current = Some(ArchiveWork::Entry { entry, depth: self.sibling_depth });
                    proof {
                        assert forall|trees: TreeStore| #[trigger]
                            crate::replies::answers(self.log@, trees) implies archive_order(
                            trees,
                            self.root@,
                        ).to_multiset() == self.shown@.to_multiset().add(self.left(trees)) by {
                            let depth = self.sibling_depth as nat;
                            lemma_entries_split(trees, before.siblings@, depth);
                            assert(self.siblings@ =~= before.siblings@.drop_last());
                            vstd::seq_lib::lemma_multiset_commutative(
                                entries_output(trees, self.siblings@, depth),
                                entry_output(trees, entry, depth),
                            );
                            assert(self.left(trees) =~= before.left(trees));
                        }
                    }
                },
                None => {
                    self.current = self.pending.pop();
                    proof {
                        broadcast use vstd::seq_lib::group_to_multiset_ensures;

                        assert forall|trees: TreeStore| #[trigger]
                            crate::replies::answers(self.log@, trees) implies archive_order(
                            trees,
                            self.root@,
                        ).to_multiset() == self.shown@.to_multiset().add(self.left(trees)) by {
                            if self.current is Some {
                                assert(self.pending@ =~= before.pending@.drop_last());
                                assert(before.pending@.last() == self.current->0);
                            }
                            assert(self.left(trees) =~= before.left(trees));
                        }
                        if self.current is None {
                            assert forall|trees: TreeStore| #[trigger]
                                crate::replies::answers(self.log(), trees) implies archive_order(
                                trees,
                                self.root(),
                            ).to_multiset() == self.shown().to_multiset() by {
                                assert(self.shown@.to_multiset().add(self.left(trees))
                                    =~= self.shown@.to_multiset());
                            }
                        }
                    }
                },
            }
        }
        match &self.current {
            Some(ArchiveWork::Tree { oid, parent, .. }) => ArchiveRequest::Tree {
                oid: *oid,
                parent: parent.duplicate(),
            },
            Some(ArchiveWork::Entry { entry, depth }) => {
                let blob = if entry.kind.is_blob_backed() {
                    Some((entry.oid, entry.mode))
                } else {
                    None
                };
                ArchiveRequest::Entry { depth: *depth, blob }
            },
            None => ArchiveRequest::Done,
        }
    }

    /// Make room for one more entry.
    pub fn reserve(&mut self) -> (result: Result<(), Error>)
        requires
            old(self).wf(),
        ensures
            final(self).wf(),
            final(self).root() == old(self).root(),
            final(self).shown() == old(self).shown(),
            final(self).built() == old(self).built(),
            final(self).log() == old(self).log(),
            final(self).current() == old(self).current(),
            final(self).waiting() == old(self).waiting(),
            final(self).siblings() == old(self).siblings(),
            final(self).sibling_depth() == old(self).sibling_depth(),
            crate::memory::is_reservation(old(self).built(), 1, result),
    {
        let result = crate::memory::reserve(&mut self.entries, 1);
        assert forall|trees: TreeStore| #[trigger] self.left(trees) == old(self).left(trees) by {}
        result
    }

    /// Hand back the entries of the tree that was asked for.
    pub fn accept_tree(&mut self, entries: Vec<TreeEntry>) -> (result: Result<(), Error>)
        requires
            old(self).wf(),
            old(self).current() matches Some(work) && work is Tree,
        ensures
            match old(self).current() {
                Some(ArchiveWork::Tree { oid, parent, depth }) => if depth == u64::MAX
                    && entries@.len() > 0 {
                    result == Err::<(), Error>(crate::path::too_deep())
                } else {
                    &&& result == Ok::<(), Error>(())
                    &&& final(self).wf()
                    &&& final(self).root() == old(self).root()
                    &&& final(self).shown() == old(self).shown()
                    &&& final(self).built() == old(self).built()
                    &&& final(self).log() == old(self).log().push(((oid, parent@), entries@))
                    &&& final(self).current() is None
                    &&& final(self).waiting() == old(self).waiting()
                    &&& final(self).siblings() == entries@
                    &&& entries@.len() > 0 ==> final(self).sibling_depth() == depth + 1
                },
                _ => false,
            },
    {
        let ghost before = *self;
        if let Some(ArchiveWork::Tree { oid, parent, depth }) = self.current.take() {
            let ghost key = (oid, parent@);
            if entries.len() > 0 {
                self.sibling_depth = next_depth(depth)?;
            }
            self.log = Ghost(before.log@.push((key, entries@)));
            self.siblings = entries;
            proof {
                broadcast use vstd::seq_lib::group_to_multiset_ensures;

                assert forall|trees: TreeStore| #[trigger]
                    crate::replies::answers(self.log@, trees) implies archive_order(
                    trees,
                    self.root@,
                ).to_multiset() == self.shown@.to_multiset().add(self.left(trees)) by {
                    crate::replies::answers_earlier_questions(
                        before.log@,
                        key,
                        self.siblings@,
                        trees,
                    );
                    assert(entries_output(trees, before.siblings@, before.sibling_depth as nat)
                        =~= Seq::empty());
                    if self.siblings@.len() == 0 {
                        assert(entries_output(trees, self.siblings@, self.sibling_depth as nat)
                            =~= Seq::empty());
                        assert(work_output(trees, before.current->0) =~= Seq::empty());
                    }
                    assert(self.left(trees) =~= before.left(trees));
                }
            }
        }
        Ok(())
    }

    /// Hand back the content of the entry that was asked for.
    pub fn accept_entry(&mut self, content: Option<Vec<u8>>)
        requires
            old(self).wf(),
            old(self).current() matches Some(work) && work matches ArchiveWork::Entry {
                entry,
                ..
            } && (content is Some <==> entry.kind.blob_backed()),
        ensures
            match old(self).current() {
                Some(ArchiveWork::Entry { entry, depth }) => {
                    &&& final(self).wf()
                    &&& final(self).root() == old(self).root()
                    &&& final(self).shown() == old(self).shown().push(entry)
                    &&& final(self).built().len() == old(self).built().len() + 1
                    &&& final(self).built().drop_last() == old(self).built()
                    &&& final(self).built().last().holds(entry, content)
                    &&& final(self).built().last().path == entry.path
                    &&& final(self).built().last().oid == entry.oid
                    &&& final(self).built().last().mode == entry.mode
                    &&& final(self).built().last().kind == entry.kind
                    &&& final(self).built().last().bytes == content
                    &&& final(self).built().last().bytes is Some <==> entry.kind.blob_backed()
                    &&& final(self).log() == old(self).log()
                    &&& final(self).current() is None
                    &&& put_off(old(self).waiting(), entry, depth, final(self).waiting())
                    &&& entry.kind != EntryKind::Tree ==> final(self).waiting() == old(
                        self,
                    ).waiting()
                    &&& entry.kind == EntryKind::Tree ==> {
                        &&& final(self).waiting().len() == old(self).waiting().len() + 1
                        &&& final(self).waiting().drop_last() == old(self).waiting()
                        &&& final(self).waiting().last() matches ArchiveWork::Tree {
                            oid,
                            parent,
                            depth: below,
                        } && oid == entry.oid && parent@ == entry.path@ && below == depth
                    }
                    &&& final(self).siblings() == old(self).siblings()
                    &&& final(self).sibling_depth() == old(self).sibling_depth()
                },
                _ => false,
            },
    {
        let ghost before = *self;
        if let Some(ArchiveWork::Entry { entry, depth }) = self.current.take() {
            if entry.kind == EntryKind::Tree {
                self.pending.push(
                    ArchiveWork::Tree { oid: entry.oid, parent: entry.path.duplicate(), depth },
                );
                assert(self.pending@.drop_last() =~= before.pending@);
            }
            self.shown = Ghost(before.shown@.push(entry));
            self.entries.push(
                ArchiveEntry {
                    path: entry.path,
                    oid: entry.oid,
                    mode: entry.mode,
                    kind: entry.kind,
                    bytes: content,
                },
            );
            proof {
                broadcast use vstd::seq_lib::group_to_multiset_ensures;

                assert(self.entries@.drop_last() =~= before.entries@);
                assert forall|i: int| 0 <= i < self.entries@.len() implies (
                #[trigger] self.entries@[i]).holds(self.shown@[i], self.entries@[i].bytes) && (
                self.entries@[i].bytes is Some <==> self.shown@[i].kind.blob_backed()) by {
                    if i < before.entries@.len() {
                        assert(self.entries@[i] == before.entries@[i]);
                    }
                }
                assert forall|trees: TreeStore| #[trigger]
                    crate::replies::answers(self.log@, trees) implies archive_order(
                    trees,
                    self.root@,
                ).to_multiset() == self.shown@.to_multiset().add(self.left(trees)) by {
                    let one = seq![entry];
                    assert(one =~= Seq::<TreeEntry>::empty().push(entry));
                    assert(one.to_multiset() =~= vstd::multiset::Multiset::empty().insert(entry));
                    if entry.kind == EntryKind::Tree {
                        assert(self.pending@.drop_last() =~= before.pending@);
                        let below = tree_output(trees, entry.oid, entry.path@, depth as nat);
                        vstd::seq_lib::lemma_multiset_commutative(one, below);
                        assert(entry_output(trees, entry, depth as nat) =~= one + below);
                    } else {
                        assert(entry_output(trees, entry, depth as nat) =~= one);
                    }
                    assert(self.shown@.to_multiset().add(self.left(trees))
                        =~= before.shown@.to_multiset().add(before.left(trees)));
                }
            }
        }
    }

    /// Take the entries in the order of their paths.
    pub fn into_entries(self) -> (entries: Vec<ArchiveEntry>)
        requires
            self.wf(),
        ensures
            crate::sort::in_path_order(entries@),
            crate::sort::same_at_every_path(entries@, self.built()),
            entries@.to_multiset() == self.built().to_multiset(),
            stands_for(self.built(), self.shown()),
    {
        sort_by_path(self.entries)
    }
}

/// The size charged for returning an archive.
pub open spec fn archive_bytes(entries: Seq<ArchiveEntry>) -> int
    decreases entries.len(),
{
    if entries.len() == 0 {
        0
    } else {
        archive_bytes(entries.drop_last()) + entries.last().response_bytes()
    }
}

/// An archive is charged the length of every path and of every content in it.
pub proof fn what_an_archive_is_charged(entries: Seq<ArchiveEntry>, entry: ArchiveEntry)
    ensures
        archive_bytes(Seq::empty()) == 0,
        archive_bytes(entries.push(entry)) == archive_bytes(entries) + entry.path@.len()
            + if entry.bytes is Some {
            entry.bytes->0@.len() as int
        } else {
            0
        },
{
    assert(entries.push(entry).drop_last() =~= entries);
}

/// The response size of an archive, as far as it can be counted.
pub fn archive_response_bytes(entries: &Vec<ArchiveEntry>) -> (result: u64)
    ensures
        result == crate::memory::clamp_u64(archive_bytes(entries@)),
{
    let mut total: u64 = 0;
    let mut at: usize = 0;
    assert(entries@.subrange(0, 0) =~= Seq::empty());
    while at < entries.len()
        invariant
            at <= entries@.len(),
            archive_bytes(entries@.subrange(0, at as int)) >= 0,
            total == crate::memory::clamp_u64(archive_bytes(entries@.subrange(0, at as int))),
        decreases entries@.len() - at,
    {
        proof {
            assert(entries@.subrange(0, at + 1).drop_last() =~= entries@.subrange(0, at as int));
        }
        total = total.saturating_add(entries[at].count_response_bytes());
        at += 1;
    }
    assert(entries@.subrange(0, at as int) =~= entries@);
    total
}

/// A finished archive and a finished stream of the same root show the same
/// entries: the archive in the order of their paths, the stream each directory
/// before what it contains.
pub proof fn archive_and_stream_agree(
    builder: ArchiveBuilder,
    walk: ArchiveWalk,
    trees: TreeStore,
)
    requires
        builder.root() == walk.root(),
        builder.complete(),
        walk.complete(),
        crate::replies::answers(builder.log(), trees),
        crate::replies::answers(walk.log(), trees),
    ensures
        builder.shown().to_multiset() == walk.shown().to_multiset(),
        walk.shown() == archive_order(trees, walk.root()),
{
}

/// What a stream yields for the outcome of a step, and whether it has ended then: an
/// entry keeps it open, a failure is yielded and ends it.
pub open spec fn stream_step<E>(
    ended: bool,
    outcome: Result<Option<ArchiveEntry>, E>,
) -> (Option<Result<ArchiveEntry, E>>, bool) {
    if ended {
        (None, true)
    } else {
        match outcome {
            Ok(Some(entry)) => (Some(Ok(entry)), false),
            Ok(None) => (None, true),
            Err(error) => (Some(Err(error)), true),
        }
    }
}

/// What a stream yields for the outcomes of its steps, and whether it has ended.
pub open spec fn stream_items<E>(outcomes: Seq<Result<Option<ArchiveEntry>, E>>) -> (
    Seq<Result<ArchiveEntry, E>>,
    bool,
)
    decreases outcomes.len(),
{
    if outcomes.len() == 0 {
        (Seq::empty(), false)
    } else {
        let (items, ended) = stream_items(outcomes.drop_last());
        match stream_step(ended, outcomes.last()) {
            (Some(item), now) => (items.push(item), now),
            (None, now) => (items, now),
        }
    }
}

/// A stream yields at most one failure, and nothing after it; as long as no step has
/// failed or found the end, it yields the entry of every step.
pub proof fn a_failure_ends_the_stream<E>(outcomes: Seq<Result<Option<ArchiveEntry>, E>>)
    ensures
        ({
            let (items, ended) = stream_items(outcomes);
            &&& items.len() <= outcomes.len()
            &&& forall|i: int|
                0 <= i < items.len() && (#[trigger] items[i]) is Err ==> i == items.len() - 1
                    && ended
            &&& !ended ==> items.len() == outcomes.len() && forall|i: int|
                0 <= i < items.len() ==> outcomes[i] is Ok && outcomes[i]->Ok_0 is Some
                    && #[trigger] items[i] == Ok::<ArchiveEntry, E>((outcomes[i]->Ok_0)->0)
        }),
    decreases outcomes.len(),
{
    if outcomes.len() > 0 {
        let before = outcomes.drop_last();
        a_failure_ends_the_stream(before);
        let (earlier, _) = stream_items(before);
        let (items, ended) = stream_items(outcomes);
        assert forall|i: int| 0 <= i < earlier.len() implies #[trigger] items[i]
            == earlier[i] by {}
        if !ended {
            assert forall|i: int| 0 <= i < items.len() implies outcomes[i] is Ok
                && outcomes[i]->Ok_0 is Some && #[trigger] items[i] == Ok::<ArchiveEntry, E>(
                (outcomes[i]->Ok_0)->0,
            ) by {
                if i < before.len() {
                    assert(before[i] == outcomes[i]);
                    assert(earlier[i] == items[i]);
                }
            }
        }
    }
}

/// A stream yields the entry of every step before the first that fails or finds the end,
/// then the failure if there is one, and nothing else.
pub proof fn a_stream_yields_what_comes_before_its_end<E>(
    outcomes: Seq<Result<Option<ArchiveEntry>, E>>,
    end: int,
)
    requires
        0 <= end <= outcomes.len(),
        forall|i: int|
            0 <= i < end ==> (#[trigger] outcomes[i]) is Ok && outcomes[i]->Ok_0 is Some,
        end < outcomes.len() ==> outcomes[end] is Err || outcomes[end]->Ok_0 is None,
    ensures
        stream_items(outcomes).1 == (end < outcomes.len()),
        stream_items(outcomes).0 == Seq::new(
            end as nat,
            |i: int| Ok::<ArchiveEntry, E>((outcomes[i]->Ok_0)->0),
        ) + if end < outcomes.len() && outcomes[end] is Err {
            seq![Err::<ArchiveEntry, E>(outcomes[end]->Err_0)]
        } else {
            Seq::empty()
        },
    decreases outcomes.len(),
{
    let items = stream_items(outcomes).0;
    let shown = Seq::new(end as nat, |i: int| Ok::<ArchiveEntry, E>((outcomes[i]->Ok_0)->0));
    if outcomes.len() == 0 {
        assert(items =~= shown);
    } else {
        let before = outcomes.drop_last();
        assert forall|i: int| 0 <= i < before.len() implies #[trigger] before[i]
            == outcomes[i] by {}
        let last = outcomes.len() - 1;
        if end == outcomes.len() {
            a_stream_yields_what_comes_before_its_end(before, last);
            assert(outcomes[last] is Ok && outcomes[last]->Ok_0 is Some);
            assert(items =~= shown + Seq::empty());
        } else {
            a_stream_yields_what_comes_before_its_end(before, end);
            let earlier = Seq::new(
                end as nat,
                |i: int| Ok::<ArchiveEntry, E>((before[i]->Ok_0)->0),
            );
            assert(earlier =~= shown);
            if end < last {
                assert(before[end] == outcomes[end]);
            } else if outcomes[end] is Err {
                assert(items =~= shown + seq![Err::<ArchiveEntry, E>(outcomes[end]->Err_0)]);
            }
        }
    }
}

/// Whether a stream is still open.
pub struct StreamGate {
    ended: bool,
}

impl StreamGate {
    pub closed spec fn ended(self) -> bool {
        self.ended
    }

    /// Begin an open stream.
    pub fn new() -> (result: StreamGate)
        ensures
            !result.ended(),
    {
        StreamGate { ended: false }
    }

    /// Whether the stream has ended, so that no further step is to be taken.
    pub fn has_ended(&self) -> (result: bool)
        ensures
            result == self.ended(),
    {
        self.ended
    }

    /// Take the outcome of a step and say what the stream yields for it.
    pub fn settle<E>(&mut self, outcome: Result<Option<ArchiveEntry>, E>) -> (result: Option<
        Result<ArchiveEntry, E>,
    >)
        ensures
            (result, final(self).ended()) == stream_step(old(self).ended(), outcome),
    {
        if self.ended {
            return None;
        }
        match outcome {
            Ok(Some(entry)) => Some(Ok(entry)),
            Ok(None) => {
                self.ended = true;
                None
            },
            Err(error) => {
                self.ended = true;
                Some(Err(error))
            },
        }
    }
}

} // verus!
